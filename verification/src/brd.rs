//! Test_Link / Landrex `.brd`, the classic MacBook boardview format.
//! Sections: `str_length:`, `var_data:` (counts), `Format:` (outline
//! polyline), `Parts:`, `Pins:`, `Nails:`. Files may be obfuscated with a
//! fixed byte transform announced by a 4-byte signature.

use vstd::prelude::*;
use vstd::string::StringSliceAdditionalSpecFns;
use crate::cursor::{Cursor, int_read, token_at, after_token};
use crate::text::{
    add_nails_as_pins, ltrim, split_lines, stringfile_lines, trimmed, line_is, contains_run,
    find_in_buf, mil_units, to_mil_units, nail_pin, RawNail,
};
use crate::builder::{BoardBuilder, polyline_segments, finished_side, names_net, lemma_names_net_stable, stored_pin};
use crate::model::{BoardModel, BoardFormat, Part, Pin, Point, Side, NO_NET, DEFAULT_RADIUS, same_part_attrs, same_parts_attrs};
use crate::parsers::{ParseError, parsed_ok, board_fits, check_fits, malformed, fails_malformed, fails_unrecognized};

verus! {

/// The byte transform of obfuscated files; line breaks and NUL are kept.
pub open spec fn brd_decode_byte(x: u8) -> u8 {
    if x == 13u8 || x == 10u8 || x == 0u8 {
        x
    } else {
        !(((x >> 6u8) & 3u8) | (x << 2u8))
    }
}

/// The transform that obfuscates a byte (complement, then rotate right by 2).
pub open spec fn brd_encode_byte(x: u8) -> u8 {
    if x == 13u8 || x == 10u8 || x == 0u8 {
        x
    } else {
        let inv = !x;
        (inv >> 2u8) | (inv << 6u8)
    }
}

/// Decoding undoes encoding for every byte whose encoding is not itself a
/// line break or NUL.
pub proof fn lemma_brd_decode_inverts_encode(x: u8)
    requires
        !(brd_encode_byte(x) == 13u8 || brd_encode_byte(x) == 10u8 || brd_encode_byte(x) == 0u8),
    ensures
        brd_decode_byte(brd_encode_byte(x)) == x,
{
    if !(x == 13u8 || x == 10u8 || x == 0u8) {
        let inv: u8 = !x;
        let e: u8 = (inv >> 2u8) | (inv << 6u8);
        assert(!(((e >> 6u8) & 3u8) | (e << 2u8)) == x) by (bit_vector)
            requires
                inv == !x,
                e == (inv >> 2u8) | (inv << 6u8),
        ;
    }
}

pub open spec fn has_encoded_header(b: Seq<u8>) -> bool {
    &&& b.len() >= 4
    &&& b[0] == 0x23u8
    &&& b[1] == 0xe2u8
    &&& b[2] == 0x63u8
    &&& b[3] == 0x28u8
}

fn encoded_header(buf: &[u8]) -> (r: bool)
    ensures
        r == has_encoded_header(buf@),
{
    buf.len() >= 4 && buf[0] == 0x23u8 && buf[1] == 0xe2u8 && buf[2] == 0x63u8 && buf[3] == 0x28u8
}

/// The content signature: the obfuscation header, or both the
/// `str_length:` and `var_data:` markers.
pub open spec fn brd_signature(b: Seq<u8>) -> bool {
    ||| has_encoded_header(b)
    ||| (contains_run(b, "str_length:".spec_bytes()) && contains_run(b, "var_data:".spec_bytes()))
}

pub fn verify(buf: &[u8]) -> (r: bool)
    ensures
        r == brd_signature(buf@),
{
    encoded_header(buf) || (find_in_buf("str_length:", buf) && find_in_buf("var_data:", buf))
}

/// The text of a file: decoded when it carries the obfuscation header.
pub open spec fn brd_text(b: Seq<u8>) -> Seq<u8> {
    if has_encoded_header(b) {
        b.map_values(|x: u8| brd_decode_byte(x))
    } else {
        b
    }
}

pub fn decode(buf: &mut Vec<u8>)
    ensures
        final(buf)@ == old(buf)@.map_values(|x: u8| brd_decode_byte(x)),
{
    let mut i: usize = 0;
    while i < buf.len()
        invariant
            i <= buf@.len(),
            buf@.len() == old(buf)@.len(),
            forall|j: int| 0 <= j < i ==> buf@[j] == brd_decode_byte(#[trigger] old(buf)@[j]),
            forall|j: int| i <= j < buf@.len() ==> buf@[j] == #[trigger] old(buf)@[j],
        decreases buf@.len() - i,
    {
        let x = buf[i];
        if !(x == 13u8 || x == 10u8 || x == 0u8) {
            buf.set(i, !(((x >> 6u8) & 3u8) | (x << 2u8)));
        }
        i = i + 1;
    }
    assert(buf@ =~= old(buf)@.map_values(|x: u8| brd_decode_byte(x)));
}

/// The section a (trimmed) header line opens, or 0 for other lines.
pub open spec fn brd_section(l: Seq<u8>) -> u8 {
    if l == "str_length:".spec_bytes() {
        1
    } else if l == "var_data:".spec_bytes() {
        2
    } else if l == "Format:".spec_bytes() || l == "format:".spec_bytes() {
        3
    } else if l == "Parts:".spec_bytes() || l == "Pins1:".spec_bytes() {
        4
    } else if l == "Pins:".spec_bytes() || l == "Pins2:".spec_bytes() {
        5
    } else if l == "Nails:".spec_bytes() {
        6
    } else {
        0
    }
}

fn section_of(l: &[u8]) -> (r: u8)
    ensures
        r == brd_section(l@),
{
    if line_is(l, "str_length:") {
        1
    } else if line_is(l, "var_data:") {
        2
    } else if line_is(l, "Format:") || line_is(l, "format:") {
        3
    } else if line_is(l, "Parts:") || line_is(l, "Pins1:") {
        4
    } else if line_is(l, "Pins:") || line_is(l, "Pins2:") {
        5
    } else if line_is(l, "Nails:") {
        6
    } else {
        0
    }
}

/// What a first pass over the lines collects: the section in effect, the
/// declared part and pin counts, the record lines of each section (trimmed)
/// and, when a section held more records than declared, that section.
#[verifier::ext_equal]
pub struct BrdScan {
    pub block: u8,
    pub num_parts: i64,
    pub num_pins: i64,
    pub outline: Seq<Seq<u8>>,
    pub parts: Seq<Seq<u8>>,
    pub pins: Seq<Seq<u8>>,
    pub nails: Seq<Seq<u8>>,
    pub overflow: u8,
}

pub open spec fn brd_scan_start() -> BrdScan {
    BrdScan {
        block: 0,
        num_parts: 0,
        num_pins: 0,
        outline: Seq::empty(),
        parts: Seq::empty(),
        pins: Seq::empty(),
        nails: Seq::empty(),
        overflow: 0,
    }
}

/// One line of the first pass. Scanning stops at the first overflow.
pub open spec fn brd_step(s: BrdScan, line: Seq<u8>) -> BrdScan {
    let l = trimmed(line);
    if s.overflow != 0 || l.len() == 0 {
        s
    } else if brd_section(l) != 0 {
        BrdScan { block: brd_section(l), ..s }
    } else if s.block == 2 {
        let p1 = int_read(l, 0).0;
        let (p2, np) = int_read(l, p1);
        BrdScan { num_parts: np, num_pins: int_read(l, p2).1, ..s }
    } else if s.block == 3 {
        BrdScan { outline: s.outline.push(l), ..s }
    } else if s.block == 4 {
        if s.parts.len() >= s.num_parts && s.num_parts > 0 {
            BrdScan { overflow: 4, ..s }
        } else {
            BrdScan { parts: s.parts.push(l), ..s }
        }
    } else if s.block == 5 {
        if s.pins.len() >= s.num_pins && s.num_pins > 0 {
            BrdScan { overflow: 5, ..s }
        } else {
            BrdScan { pins: s.pins.push(l), ..s }
        }
    } else if s.block == 6 {
        BrdScan { nails: s.nails.push(l), ..s }
    } else {
        s
    }
}

pub open spec fn brd_scan(lines: Seq<Seq<u8>>) -> BrdScan
    decreases lines.len(),
{
    if lines.len() == 0 {
        brd_scan_start()
    } else {
        brd_step(brd_scan(lines.drop_last()), lines.last())
    }
}

/// Once the scan overflows, later lines change nothing.
proof fn lemma_brd_overflow_sticks(lines: Seq<Seq<u8>>, i: int)
    requires
        0 <= i <= lines.len(),
        brd_scan(lines.take(i)).overflow != 0,
    ensures
        brd_scan(lines) == brd_scan(lines.take(i)),
    decreases lines.len() - i,
{
    if i < lines.len() {
        assert(lines.take(i + 1).drop_last() =~= lines.take(i));
        lemma_brd_overflow_sticks(lines, i + 1);
    } else {
        assert(lines.take(i) =~= lines);
    }
}

/// An outline point: two integers, in mils.
pub open spec fn brd_point(l: Seq<u8>) -> Point {
    let (p1, x) = int_read(l, 0);
    Point { x: mil_units(x), y: mil_units(int_read(l, p1).1) }
}

pub open spec fn brd_part_name(l: Seq<u8>) -> Seq<char> {
    token_at(l, 0)
}

/// The part kind number that follows the name.
pub open spec fn brd_part_kind(l: Seq<u8>) -> i64 {
    int_read(l, after_token(l, 0)).1
}

pub open spec fn brd_kind_side(k: i64) -> Side {
    if k == 1 || (4 <= k < 8) {
        Side::Top
    } else if k == 2 || k >= 8 {
        Side::Bottom
    } else {
        Side::Both
    }
}

/// The side a BRD part kind gives: kinds 1 and 4 to 7 are on the top,
/// kinds 2 and from 8 up on the bottom, every other kind on both.
pub proof fn lemma_brd_kind_sides(k: i64)
    ensures
        brd_kind_side(k) == Side::Top <==> (k == 1 || k == 4 || k == 5 || k == 6 || k == 7),
        brd_kind_side(k) == Side::Bottom <==> (k == 2 || k >= 8),
        brd_kind_side(k) == Side::Both <==> (k <= 0 || k == 3),
{
}

/// Through-hole parts have neither kind bit 2 nor bit 3 set.
pub open spec fn brd_kind_th(k: i64) -> bool {
    k & 12i64 == 0i64
}

/// A pin line: x, y, probe number, 1-based part number, net name.
pub open spec fn brd_pin_fields(l: Seq<u8>) -> (Point, i64, i64, Seq<char>) {
    let (p1, x) = int_read(l, 0);
    let (p2, y) = int_read(l, p1);
    let (p3, probe) = int_read(l, p2);
    let (p4, part) = int_read(l, p3);
    (Point { x: mil_units(x), y: mil_units(y) }, probe, part, token_at(l, p4))
}

/// A nail line: probe number, x, y, side (1 = top), net name.
pub open spec fn brd_nail_fields(l: Seq<u8>) -> (i64, Point, Side, Seq<char>) {
    let (p1, probe) = int_read(l, 0);
    let (p2, x) = int_read(l, p1);
    let (p3, y) = int_read(l, p2);
    let (p4, side) = int_read(l, p3);
    (probe, Point { x: mil_units(x), y: mil_units(y) }, if side == 1 { Side::Top } else { Side::Bottom }, token_at(l, p4))
}

/// A nail line's fields in order are the probe number, x, y and side,
/// read as integers: side 1 puts the test pad on the top, any other value
/// on the bottom (never on both); x and y are in mils.
pub proof fn lemma_brd_nail_line(l: Seq<u8>)
    ensures
        ({
            let (q1, first) = int_read(l, 0);
            let (q2, second) = int_read(l, q1);
            let (q3, third) = int_read(l, q2);
            let fourth = int_read(l, q3).1;
            let n = brd_nail_fields(l);
            &&& n.0 == first
            &&& n.1 == Point { x: mil_units(second), y: mil_units(third) }
            &&& (n.2 == Side::Top <==> fourth == 1)
            &&& (n.2 == Side::Bottom <==> fourth != 1)
        }),
{
}

/// The net of the last nail probed by `probe`, or the empty name.
pub open spec fn brd_nail_net(nails: Seq<Seq<u8>>, probe: i64) -> Seq<char>
    decreases nails.len(),
{
    if nails.len() == 0 {
        Seq::empty()
    } else if brd_nail_fields(nails.last()).0 == probe {
        brd_nail_fields(nails.last()).3
    } else {
        brd_nail_net(nails.drop_last(), probe)
    }
}

/// The net a pin line is wired to: its own, or when empty (a Lenovo
/// variant) the net of the nail with the same probe number.
pub open spec fn brd_pin_net(l: Seq<u8>, nails: Seq<Seq<u8>>) -> Seq<char> {
    let f = brd_pin_fields(l);
    if f.3.len() == 0 {
        brd_nail_net(nails, f.1)
    } else {
        f.3
    }
}

/// Every pin names one of the declared parts.
pub open spec fn brd_pins_resolve(s: BrdScan) -> bool {
    forall|j: int| 0 <= j < s.pins.len() ==> 1 <= #[trigger] brd_pin_fields(s.pins[j]).2 <= s.parts.len()
}

/// The pin that pin line `l` becomes.
pub open spec fn brd_pin_of(pin: Pin, l: Seq<u8>, s: BrdScan, m: BoardModel) -> bool {
    let f = brd_pin_fields(l);
    let k = brd_part_kind(s.parts[f.2 - 1]);
    &&& pin.part == f.2 - 1
    &&& pin.pos == f.0
    &&& pin.radius == DEFAULT_RADIUS
    &&& pin.side == (if brd_kind_th(k) { Side::Both } else { brd_kind_side(k) })
    &&& pin.number@.len() == 0
    &&& pin.name@.len() == 0
    &&& !pin.is_test_pad
    &&& names_net(m.nets@, pin.net, brd_pin_net(l, s.nails))
}

/// The board a complete scan describes.
pub open spec fn brd_model(m: BoardModel, s: BrdScan) -> bool {
    let np = s.parts.len();
    let nj = s.pins.len();
    &&& parsed_ok(m, BoardFormat::Brd)
    &&& m.outline@ == polyline_segments(s.outline.map_values(|l: Seq<u8>| brd_point(l)))
    &&& m.warnings@.len() == 0
    &&& m.parts@.len() == np + (if s.nails.len() > 0 { 2int } else { 0int })
    &&& forall|p: int|
        0 <= p < np ==> {
            &&& (#[trigger] m.parts@[p]).refdes@ == brd_part_name(s.parts[p])
            &&& m.parts@[p].side == finished_side(
                Part { side: brd_kind_side(brd_part_kind(s.parts[p])), ..m.parts@[p] },
                m.pins@,
            )
            &&& m.parts@[p].mfg_code is None
            &&& m.parts@[p].value is None
            &&& m.parts@[p].package is None
            &&& !m.parts@[p].is_dummy
        }
    &&& s.nails.len() > 0 ==> m.parts@[np as int].refdes@ == "..."@ && m.parts@[np as int].is_dummy
        && m.parts@[np + 1int].refdes@ == "..."@ && m.parts@[np + 1int].is_dummy
    &&& m.pins@.len() == nj + s.nails.len()
    &&& forall|j: int| 0 <= j < nj ==> brd_pin_of(#[trigger] m.pins@[j], s.pins[j], s, m)
    &&& forall|k: int|
        0 <= k < s.nails.len() ==> {
            let f = brd_nail_fields(s.nails[k]);
            nail_pin(#[trigger] m.pins@[nj + k], f.1, f.2, f.0, f.3, np as u32, (np + 1) as u32, m.nets@)
        }
}

struct BrdPart {
    name: String,
    kind: i64,
}

struct BrdPin {
    pos: Point,
    probe: i64,
    part: i64,
    net: String,
}

fn read_point(l: &[u8]) -> (p: Point)
    ensures
        p == brd_point(l@),
{
    let mut c = Cursor::new(l);
    let x = c.read_int();
    let y = c.read_int();
    Point { x: to_mil_units(x), y: to_mil_units(y) }
}

fn read_part(l: &[u8]) -> (p: BrdPart)
    ensures
        p.name@ == brd_part_name(l@),
        p.kind == brd_part_kind(l@),
{
    let mut c = Cursor::new(l);
    let name = c.read_token();
    let kind = c.read_int();
    BrdPart { name, kind }
}

fn read_pin(l: &[u8]) -> (p: BrdPin)
    ensures
        (p.pos, p.probe, p.part, p.net@) == brd_pin_fields(l@),
{
    let mut c = Cursor::new(l);
    let x = c.read_int();
    let y = c.read_int();
    let probe = c.read_int();
    let part = c.read_int();
    let net = c.read_token();
    BrdPin { pos: Point { x: to_mil_units(x), y: to_mil_units(y) }, probe, part, net }
}

fn read_nail(l: &[u8]) -> (n: RawNail)
    ensures
        (n.probe, n.pos, n.side, n.net@) == brd_nail_fields(l@),
{
    let mut c = Cursor::new(l);
    let probe = c.read_int();
    let x = c.read_int();
    let y = c.read_int();
    let side = if c.read_int() == 1 {
        Side::Top
    } else {
        Side::Bottom
    };
    let net = c.read_token();
    RawNail { pos: Point { x: to_mil_units(x), y: to_mil_units(y) }, side, net, probe }
}

fn kind_side(k: i64) -> (s: Side)
    ensures
        s == brd_kind_side(k),
{
    if k == 1 || (4 <= k && k < 8) {
        Side::Top
    } else if k == 2 || k >= 8 {
        Side::Bottom
    } else {
        Side::Both
    }
}

/// The net of the last nail probed by `probe`, or the empty name.
fn nail_net<'a>(nails: &'a Vec<RawNail>, probe: i64, lines: Ghost<Seq<Seq<u8>>>) -> (r: &'a str)
    requires
        nails@.len() == lines@.len(),
        forall|k: int|
            0 <= k < nails@.len() ==> (nails@[k].probe, nails@[k].pos, nails@[k].side, nails@[k].net@)
                == #[trigger] brd_nail_fields(lines@[k]),
    ensures
        r@ == brd_nail_net(lines@, probe),
{
    let mut k = nails.len();
    assert(lines@.take(k as int) =~= lines@);
    while k > 0
        invariant
            k <= nails@.len(),
            nails@.len() == lines@.len(),
            forall|q: int|
                0 <= q < nails@.len() ==> (nails@[q].probe, nails@[q].pos, nails@[q].side, nails@[q].net@)
                    == #[trigger] brd_nail_fields(lines@[q]),
            brd_nail_net(lines@, probe) == brd_nail_net(lines@.take(k as int), probe),
        decreases k,
    {
        let ghost t = lines@.take(k as int);
        assert(t.drop_last() =~= lines@.take(k - 1));
        assert(t.last() == lines@[k - 1]);
        assert(brd_nail_fields(lines@[k - 1]).0 == nails@[k - 1].probe);
        if nails[k - 1].probe == probe {
            return nails[k - 1].net.as_str();
        }
        k = k - 1;
    }
    proof {
        reveal_strlit("");
    }
    ""
}

/// Builds the board from the records of a complete scan.
fn assemble(
    outline: Vec<Point>,
    parts: Vec<BrdPart>,
    pins: Vec<BrdPin>,
    nails: Vec<RawNail>,
    s: Ghost<BrdScan>,
) -> (r: Result<BoardModel, ParseError>)
    requires
        outline@ == s@.outline.map_values(|l: Seq<u8>| brd_point(l)),
        parts@.len() == s@.parts.len(),
        forall|p: int|
            0 <= p < parts@.len() ==> (#[trigger] parts@[p]).name@ == brd_part_name(s@.parts[p])
                && parts@[p].kind == brd_part_kind(s@.parts[p]),
        pins@.len() == s@.pins.len(),
        forall|j: int|
            0 <= j < pins@.len() ==> ((#[trigger] pins@[j]).pos, pins@[j].probe, pins@[j].part, pins@[j].net@)
                == brd_pin_fields(s@.pins[j]),
        nails@.len() == s@.nails.len(),
        forall|k: int|
            0 <= k < nails@.len() ==> ((#[trigger] nails@[k]).probe, nails@[k].pos, nails@[k].side, nails@[k].net@)
                == brd_nail_fields(s@.nails[k]),
    ensures
        r is Ok <==> brd_pins_resolve(s@) && board_fits(s@.parts.len() as int, s@.pins.len() as int, s@.nails.len() as int),
        r is Err ==> fails_malformed(r),
        r matches Ok(m) ==> brd_model(m, s@),
{
    if !check_fits(parts.len(), pins.len(), nails.len()) {
        return Err(malformed("board too large"));
    }
    let mut j: usize = 0;
    while j < pins.len()
        invariant
            j <= pins@.len(),
            pins@.len() == s@.pins.len(),
            parts@.len() == s@.parts.len(),
            forall|q: int|
                0 <= q < pins@.len() ==> ((#[trigger] pins@[q]).pos, pins@[q].probe, pins@[q].part, pins@[q].net@)
                    == brd_pin_fields(s@.pins[q]),
            forall|q: int| 0 <= q < j ==> 1 <= #[trigger] brd_pin_fields(s@.pins[q]).2 <= s@.parts.len(),
        decreases pins@.len() - j,
    {
        let pt = pins[j].part;
        assert(pins@[j as int].part == brd_pin_fields(s@.pins[j as int]).2);
        if pt < 1 || pt > parts.len() as i64 {
            assert(brd_pin_fields(s@.pins[j as int]).2 == pt);
            return Err(malformed("pin references nonexistent part"));
        }
        j = j + 1;
    }
    let mut b = BoardBuilder::new();
    b.add_outline_polyline(outline.as_slice());
    let mut p: usize = 0;
    while p < parts.len()
        invariant
            b.wf(),
            p <= parts@.len(),
            parts@.len() + 3 < NO_NET,
            b.model().parts@.len() == p,
            b.model().pins@.len() == 0,
            b.model().nets@.len() == 0,
            b.model().warnings@.len() == 0,
            b.model().outline@ == polyline_segments(outline@),
            forall|q: int|
                0 <= q < p ==> {
                    &&& (#[trigger] b.model().parts@[q]).refdes@ == parts@[q].name@
                    &&& b.model().parts@[q].side == brd_kind_side(parts@[q].kind)
                    &&& b.model().parts@[q].mfg_code is None
                    &&& b.model().parts@[q].value is None
                    &&& b.model().parts@[q].package is None
                    &&& !b.model().parts@[q].is_dummy
                },
        decreases parts@.len() - p,
    {
        let side = kind_side(parts[p].kind);
        b.add_part(Part {
            refdes: parts[p].name.clone(),
            mfg_code: None,
            value: None,
            package: None,
            side,
            pins: Vec::new(),
            is_dummy: false,
        });
        p = p + 1;
    }
    let ghost m1 = b.model();
    let ghost nl = s@.nails;
    let mut j: usize = 0;
    while j < pins.len()
        invariant
            b.wf(),
            j <= pins@.len(),
            pins@.len() == s@.pins.len(),
            parts@.len() == s@.parts.len(),
            nails@.len() == nl.len(),
            nl == s@.nails,
            parts@.len() + 3 < NO_NET,
            pins@.len() + nails@.len() + 3 < NO_NET,
            forall|q: int|
                0 <= q < pins@.len() ==> ((#[trigger] pins@[q]).pos, pins@[q].probe, pins@[q].part, pins@[q].net@)
                    == brd_pin_fields(s@.pins[q]),
            forall|q: int|
                0 <= q < parts@.len() ==> (#[trigger] parts@[q]).name@ == brd_part_name(s@.parts[q])
                    && parts@[q].kind == brd_part_kind(s@.parts[q]),
            forall|k: int|
                0 <= k < nails@.len() ==> ((#[trigger] nails@[k]).probe, nails@[k].pos, nails@[k].side, nails@[k].net@)
                    == brd_nail_fields(nl[k]),
            forall|q: int| 0 <= q < pins@.len() ==> 1 <= #[trigger] brd_pin_fields(s@.pins[q]).2 <= s@.parts.len(),
            b.model().parts@.len() == parts@.len(),
            same_parts_attrs(b.model().parts@, m1.parts@),
            b.model().pins@.len() == j,
            b.model().nets@.len() <= j,
            b.model().warnings@.len() == 0,
            b.model().outline@ == m1.outline@,
            b.model().format_label@ == m1.format_label@,
            forall|q: int|
                0 <= q < j ==> {
                    let f = brd_pin_fields(s@.pins[q]);
                    let k = brd_part_kind(s@.parts[f.2 - 1]);
                    &&& (#[trigger] b.model().pins@[q]).part == f.2 - 1
                    &&& b.model().pins@[q].pos == f.0
                    &&& b.model().pins@[q].radius == DEFAULT_RADIUS
                    &&& b.model().pins@[q].side == (if brd_kind_th(k) { Side::Both } else { brd_kind_side(k) })
                    &&& b.model().pins@[q].number@.len() == 0
                    &&& b.model().pins@[q].name@.len() == 0
                    &&& !b.model().pins@[q].is_test_pad
                    &&& names_net(b.model().nets@, b.model().pins@[q].net, brd_pin_net(s@.pins[q], nl))
                },
        decreases pins@.len() - j,
    {
        let pin = &pins[j];
        assert(pins@[j as int].part == brd_pin_fields(s@.pins[j as int]).2);
        assert(1 <= brd_pin_fields(s@.pins[j as int]).2 <= s@.parts.len());
        let part_idx = (pin.part - 1) as usize;
        let kind = parts[part_idx].kind;
        let ghost nets_before = b.model().nets@;
        let ghost pins_before = b.model().pins@;
        let net = if pin.net.as_str().is_empty() {
            let name = nail_net(&nails, pin.probe, Ghost(nl));
            b.net_id(name)
        } else {
            b.net_id(pin.net.as_str())
        };
        let side = if kind & 12i64 == 0i64 {
            Side::Both
        } else {
            kind_side(kind)
        };
        let new_pin = Pin {
            part: part_idx as u32,
            number: String::new(),
            name: String::new(),
            pos: pin.pos,
            radius: DEFAULT_RADIUS,
            side,
            net,
            is_test_pad: false,
        };
        let ghost pin_v = new_pin;
        b.add_pin(new_pin);
        proof {
            let nets_now = b.model().nets@;
            assert(b.model().pins@[j as int] == stored_pin(pin_v));
            assert forall|q: int| 0 <= q < j + 1 implies names_net(
                nets_now,
                (#[trigger] b.model().pins@[q]).net,
                brd_pin_net(s@.pins[q], nl),
            ) by {
                if q < j {
                    assert(b.model().pins@[q] == pins_before[q]);
                    lemma_names_net_stable(nets_before, nets_now, pins_before[q].net, brd_pin_net(s@.pins[q], nl));
                }
            }
            assert forall|q: int| 0 <= q < j implies #[trigger] b.model().pins@[q] == pins_before[q] by {}
        }
        j = j + 1;
    }
    let ghost m2 = b.model();
    add_nails_as_pins(&mut b, nails.as_slice());
    proof {
        let m3 = b.model();
        assert forall|q: int| 0 <= q < pins@.len() implies names_net(
            m3.nets@,
            (#[trigger] m3.pins@[q]).net,
            brd_pin_net(s@.pins[q], nl),
        ) by {
            assert(m3.pins@[q] == m2.pins@[q]);
            lemma_names_net_stable(m2.nets@, m3.nets@, m2.pins@[q].net, brd_pin_net(s@.pins[q], nl));
        }
    }
    let ghost m3 = b.model();
    proof {
        b.lemma_wf();
    }
    let m = b.finish(BoardFormat::Brd);
    proof {
        assert forall|q: int| 0 <= q < parts@.len() implies (#[trigger] m.parts@[q]).refdes@ == brd_part_name(s@.parts[q]) by {
            assert(same_part_attrs(m3.parts@[q], m1.parts@[q]));
        }
        assert forall|q: int| 0 <= q < parts@.len() implies (#[trigger] m.parts@[q]).side == finished_side(
                Part { side: brd_kind_side(brd_part_kind(s@.parts[q])), ..m.parts@[q] },
                m.pins@,
            ) by {
            assert(same_part_attrs(m3.parts@[q], m1.parts@[q]));
            assert(m.parts@[q] == Part { side: finished_side(m3.parts@[q], m3.pins@), ..m3.parts@[q] });
        }
        assert(m.outline@ == polyline_segments(s@.outline.map_values(|l: Seq<u8>| brd_point(l))));
    }
    Ok(m)
}

/// Parses a `.brd` file.
pub fn parse(bytes: &[u8]) -> (r: Result<BoardModel, ParseError>)
    ensures
        ({
            let s = brd_scan(stringfile_lines(brd_text(bytes@)));
            &&& s.overflow != 0 ==> fails_malformed(r)
            &&& s.overflow == 0 && s.block == 0 ==> fails_unrecognized(r)
            &&& s.overflow == 0 && s.block != 0 ==> (r is Ok <==> brd_pins_resolve(s) && board_fits(
                s.parts.len() as int,
                s.pins.len() as int,
                s.nails.len() as int,
            ))
            &&& s.overflow == 0 && s.block != 0 && r is Err ==> fails_malformed(r)
            &&& r is Ok ==> brd_model(r->Ok_0, s)
        }),
{
    let mut data = vstd::slice::slice_to_vec(bytes);
    if encoded_header(bytes) {
        decode(&mut data);
    }
    let ghost text = data@;
    assert(text == brd_text(bytes@));
    let lines = split_lines(data.as_slice());
    let ghost all = lines@.map_values(|l: &[u8]| l@);
    let mut block: u8 = 0;
    let mut num_parts: i64 = 0;
    let mut num_pins: i64 = 0;
    let mut outline: Vec<Point> = Vec::new();
    let mut parts: Vec<BrdPart> = Vec::new();
    let mut pins: Vec<BrdPin> = Vec::new();
    let mut nails: Vec<RawNail> = Vec::new();
    let ghost mut s = brd_scan_start();
    let mut i: usize = 0;
    assert(all.take(0) =~= Seq::<Seq<u8>>::empty());
    while i < lines.len()
        invariant
            all == lines@.map_values(|l: &[u8]| l@),
            all == stringfile_lines(text),
            text == brd_text(bytes@),
            i <= lines@.len(),
            s == brd_scan(all.take(i as int)),
            s.overflow == 0,
            block == s.block,
            num_parts == s.num_parts,
            num_pins == s.num_pins,
            outline@ == s.outline.map_values(|l: Seq<u8>| brd_point(l)),
            parts@.len() == s.parts.len(),
            forall|p: int|
                0 <= p < parts@.len() ==> (#[trigger] parts@[p]).name@ == brd_part_name(s.parts[p])
                    && parts@[p].kind == brd_part_kind(s.parts[p]),
            pins@.len() == s.pins.len(),
            forall|q: int|
                0 <= q < pins@.len() ==> ((#[trigger] pins@[q]).pos, pins@[q].probe, pins@[q].part, pins@[q].net@)
                    == brd_pin_fields(s.pins[q]),
            nails@.len() == s.nails.len(),
            forall|k: int|
                0 <= k < nails@.len() ==> ((#[trigger] nails@[k]).probe, nails@[k].pos, nails@[k].side, nails@[k].net@)
                    == brd_nail_fields(s.nails[k]),
        decreases lines@.len() - i,
    {
        let line = ltrim(lines[i]);
        let ghost prev = s;
        proof {
            assert(all.take(i + 1).drop_last() =~= all.take(i as int));
            assert(all.take(i + 1).last() == lines@[i as int]@);
            s = brd_step(prev, lines@[i as int]@);
        }
        if line.len() == 0 {
        } else {
            let sec = section_of(line);
            if sec != 0 {
                block = sec;
            } else if block == 2 {
                let mut c = Cursor::new(line);
                let _num_format = c.read_int();
                num_parts = c.read_int();
                num_pins = c.read_int();
            } else if block == 3 {
                let pt = read_point(line);
                outline.push(pt);
                proof {
                    assert(outline@ =~= s.outline.map_values(|l: Seq<u8>| brd_point(l)));
                }
            } else if block == 4 {
                if num_parts > 0 && parts.len() as u64 >= num_parts as u64 {
                    proof {
                        lemma_brd_overflow_sticks(all, i + 1);
                    }
                    return Err(malformed("more parts than declared"));
                }
                let part = read_part(line);
                parts.push(part);
            } else if block == 5 {
                if num_pins > 0 && pins.len() as u64 >= num_pins as u64 {
                    proof {
                        lemma_brd_overflow_sticks(all, i + 1);
                    }
                    return Err(malformed("more pins than declared"));
                }
                let pin = read_pin(line);
                pins.push(pin);
            } else if block == 6 {
                let nail = read_nail(line);
                nails.push(nail);
            }
        }
        i = i + 1;
    }
    assert(all.take(i as int) =~= all);
    if block == 0 {
        return Err(ParseError::Unrecognized);
    }
    assemble(outline, parts, pins, nails, Ghost(s))
}

} // verus!
