//! Toptest `.bdv`: sections `<<format.asc>>`, `<<pins.asc>>`,
//! `<<nails.asc>>` with fixed header-line skips. Files in the wild are
//! obfuscated with a rolling-key byte transform; the transform is applied
//! only when the encoded signature is present (the encoded form of
//! `<<format.asc>` is the magic string `dd:1.3?,r?-=bb`).

use vstd::prelude::*;
use vstd::string::StringSliceAdditionalSpecFns;
use crate::cursor::{Cursor, int_read, scaled_read, token_at, after_token};
use crate::text::{
    ltrim, split_lines, stringfile_lines, trimmed, line_is, line_starts, contains_run, find_in_buf, RawNail,
};
use crate::strs::same_text;
use crate::builder::polyline_segments;
use crate::model::{BoardModel, BoardFormat, Point, Side, DEFAULT_RADIUS};
use crate::parsers::{ParseError, fails_malformed, fails_unrecognized, board_fits};
use crate::records::{
    assemble, records_model, part_spec, pin_spec, nail_spec, polyline_of, PartRec, PinRec, PartSpec, PinSpec,
    NailSpec,
};

verus! {

pub open spec fn bdv_signature(b: Seq<u8>) -> bool {
    ||| contains_run(b, "dd:1.3?,r?-=bb".spec_bytes())
    ||| (contains_run(b, "<<format.asc>>".spec_bytes()) && contains_run(b, "<<pins.asc>>".spec_bytes()))
}

pub fn verify(buf: &[u8]) -> (r: bool)
    ensures
        r == bdv_signature(buf@),
{
    find_in_buf("dd:1.3?,r?-=bb", buf) || (find_in_buf("<<format.asc>>", buf) && find_in_buf(
        "<<pins.asc>>",
        buf,
    ))
}

/// Is there a `\r\n` pair starting at `i`?
pub open spec fn crlf_at(b: Seq<u8>, i: int) -> bool {
    0 <= i && i + 1 < b.len() && b[i] == 13u8 && b[i + 1] == 10u8
}

pub open spec fn bdv_special(x: u8) -> bool {
    x == 13u8 || x == 10u8 || x == 0u8
}

/// The key applied to byte `i`: it starts at 0xa0, steps up by one at each
/// `\r\n`, and falls back to 159 once it passes 285.
pub open spec fn bdv_key(b: Seq<u8>, i: nat) -> int
    decreases i,
{
    let prev = if i == 0 {
        0xa0int
    } else {
        let k = bdv_key(b, (i - 1) as nat);
        if k > 285 {
            159int
        } else {
            k
        }
    };
    prev + if crlf_at(b, i as int) {
        1int
    } else {
        0int
    }
}

/// A decoded byte: line breaks and NUL stay, others become the key minus
/// the byte read as a signed value.
pub open spec fn bdv_decode_byte(x: u8, key: int) -> u8 {
    if bdv_special(x) {
        x
    } else {
        (key - (x as i8)) as u8
    }
}

pub open spec fn bdv_decoded(b: Seq<u8>) -> Seq<u8> {
    Seq::new(b.len(), |i: int| bdv_decode_byte(b[i], bdv_key(b, i as nat)))
}

proof fn lemma_bdv_key_range(b: Seq<u8>, i: nat)
    ensures
        159 <= bdv_key(b, i) <= 286,
    decreases i,
{
    if i > 0 {
        lemma_bdv_key_range(b, (i - 1) as nat);
    }
}

/// Keys only depend on where the `\r\n` pairs are.
proof fn lemma_bdv_keys_agree(a: Seq<u8>, b: Seq<u8>, i: nat)
    requires
        a.len() == b.len(),
        forall|j: int| 0 <= j < a.len() ==> #[trigger] crlf_at(a, j) == crlf_at(b, j),
    ensures
        bdv_key(a, i) == bdv_key(b, i),
    decreases i,
{
    if i > 0 {
        lemma_bdv_keys_agree(a, b, (i - 1) as nat);
    }
    assert(crlf_at(a, i as int) == crlf_at(b, i as int)) by {
        if i < a.len() {
        } else {
        }
    }
}

/// Decoding twice gives the bytes back, as long as decoding turns no byte
/// into a line break or NUL.
pub proof fn lemma_bdv_decode_self_inverse(b: Seq<u8>)
    requires
        forall|i: int| 0 <= i < b.len() && !bdv_special(b[i]) ==> !bdv_special(#[trigger] bdv_decoded(b)[i]),
    ensures
        bdv_decoded(bdv_decoded(b)) == b,
{
    let d = bdv_decoded(b);
    assert forall|j: int| 0 <= j < b.len() implies #[trigger] crlf_at(b, j) == crlf_at(d, j) by {
        if j + 1 < b.len() {
            assert(bdv_special(b[j]) ==> d[j] == b[j]);
            assert(bdv_special(b[j + 1]) ==> d[j + 1] == b[j + 1]);
        }
    }
    assert forall|i: int| 0 <= i < b.len() implies #[trigger] bdv_decoded(d)[i] == b[i] by {
        lemma_bdv_keys_agree(b, d, i as nat);
        let k = bdv_key(b, i as nat);
        lemma_bdv_key_range(b, i as nat);
        if !bdv_special(b[i]) {
            let x = b[i];
            let kk: i32 = k as i32;
            let y: u8 = (k - (x as i8)) as u8;
            assert(d[i] == y);
            assert(((kk - (x as i8) as i32) as u8) == y);
            assert(((kk - (y as i8) as i32) as u8) == x) by (bit_vector)
                requires
                    y == ((kk - (x as i8) as i32) as u8),
                    159 <= kk <= 286,
            ;
            assert(((k - (y as i8)) as u8) == x);
        }
    }
    assert(bdv_decoded(d) =~= b);
}

/// The text of a file: decoded when it carries the encoded signature.
pub open spec fn bdv_text(b: Seq<u8>) -> Seq<u8> {
    if contains_run(b, "dd:1.3?,r?-=bb".spec_bytes()) {
        bdv_decoded(b)
    } else {
        b
    }
}

pub fn decode(buf: &mut Vec<u8>)
    ensures
        final(buf)@ == bdv_decoded(old(buf)@),
{
    let ghost orig = buf@;
    let mut count: i32 = 0xa0;
    let mut i: usize = 0;
    while i < buf.len()
        invariant
            i <= buf@.len(),
            buf@.len() == orig.len(),
            159 <= count <= 286,
            i == 0 ==> count == 0xa0,
            i > 0 ==> count == (if bdv_key(orig, (i - 1) as nat) > 285 { 159int } else { bdv_key(orig, (i - 1) as nat) }),
            forall|j: int| 0 <= j < i ==> buf@[j] == #[trigger] bdv_decoded(orig)[j],
            forall|j: int| i <= j < buf@.len() ==> buf@[j] == #[trigger] orig[j],
        decreases buf@.len() - i,
    {
        if buf[i] == 13u8 && i + 1 < buf.len() && buf[i + 1] == 10u8 {
            count = count + 1;
        }
        assert(count == bdv_key(orig, i as nat));
        let x = buf[i];
        if !(x == 13u8 || x == 10u8 || x == 0u8) {
            buf.set(i, (count - (x as i8) as i32) as u8);
        }
        if count > 285 {
            count = 159;
        }
        i = i + 1;
    }
    assert(buf@ =~= bdv_decoded(orig));
}

/// The section a (trimmed) header line opens, or 0.
pub open spec fn bdv_section(l: Seq<u8>) -> u8 {
    if l == "<<format.asc>>".spec_bytes() {
        1
    } else if l == "<<pins.asc>>".spec_bytes() {
        2
    } else if l == "<<nails.asc>>".spec_bytes() {
        3
    } else {
        0
    }
}

fn section_of(l: &[u8]) -> (r: u8)
    ensures
        r == bdv_section(l@),
{
    if line_is(l, "<<format.asc>>") {
        1
    } else if line_is(l, "<<pins.asc>>") {
        2
    } else if line_is(l, "<<nails.asc>>") {
        3
    } else {
        0
    }
}

/// "(T)" is the top side; anything else the bottom.
pub open spec fn loc_side(t: Seq<char>) -> Side {
    if t == "(T)"@ {
        Side::Top
    } else {
        Side::Bottom
    }
}

/// A BDV location token: "(T)" is the top side, anything else (such as
/// "(B)") the bottom; never both.
pub proof fn lemma_bdv_location(t: Seq<char>)
    ensures
        loc_side(t) == Side::Top <==> t == "(T)"@,
        loc_side(t) == Side::Bottom <==> t != "(T)"@,
        loc_side("(B)"@) == Side::Bottom,
{
    reveal_strlit("(T)");
    reveal_strlit("(B)");
    assert("(B)"@[1] != "(T)"@[1]);
}

fn side_of_loc(t: &str) -> (s: Side)
    ensures
        s == loc_side(t@),
{
    if same_text(t, "(T)") {
        Side::Top
    } else {
        Side::Bottom
    }
}

/// What reading the lines collects: the section in effect, how many lines
/// are still to be skipped after a section header, whether a part was
/// seen and the side of the latest, and the records in order.
pub struct BdvScan {
    pub block: u8,
    pub skip: nat,
    pub has_part: bool,
    pub side: Side,
    pub outline: Seq<Point>,
    pub parts: Seq<PartSpec>,
    pub pins: Seq<PinSpec>,
    pub nails: Seq<NailSpec>,
}

pub open spec fn bdv_start() -> BdvScan {
    BdvScan {
        block: 0,
        skip: 0,
        has_part: false,
        side: Side::Top,
        outline: Seq::empty(),
        parts: Seq::empty(),
        pins: Seq::empty(),
        nails: Seq::empty(),
    }
}

/// An outline line: x and y in inches.
pub open spec fn bdv_point(l: Seq<u8>) -> Point {
    let (p1, x) = scaled_read(l, 0, 6);
    Point { x, y: scaled_read(l, p1, 6).1 }
}

/// A "Part" line: the name and "(T)"/"(B)" after the keyword.
pub open spec fn bdv_part(l: Seq<u8>) -> PartSpec {
    let at = if 4 <= l.len() { 4 } else { l.len() as int };
    PartSpec { name: token_at(l, at), side: loc_side(token_at(l, after_token(l, at))), mfg_code: None, value: None, package: None }
}

/// A pin line: id, pin number, x and y in inches, layer, net (then a probe
/// number that is not used).
pub open spec fn bdv_pin_line(l: Seq<u8>) -> (Seq<char>, Point, Seq<char>) {
    let p1 = int_read(l, 0).0;
    let p2 = after_token(l, p1);
    let (p3, x) = scaled_read(l, p2, 6);
    let (p4, y) = scaled_read(l, p3, 6);
    let p5 = int_read(l, p4).0;
    (token_at(l, p1), Point { x, y }, token_at(l, p5))
}

/// A nail line, after its first character: probe number, x and y in
/// inches, type, grid, "(T)"/"(B)", net id, net name.
pub open spec fn bdv_nail(line: Seq<u8>) -> NailSpec {
    let l = line.subrange(1, line.len() as int);
    let (p1, probe) = int_read(l, 0);
    let (p2, x) = scaled_read(l, p1, 6);
    let (p3, y) = scaled_read(l, p2, 6);
    let p4 = int_read(l, p3).0;
    let p5 = after_token(l, p4);
    let p6 = after_token(l, p5);
    let p7 = after_token(l, p6);
    NailSpec { pos: Point { x, y }, side: loc_side(token_at(l, p5)), probe, net: token_at(l, p7) }
}

/// One trimmed line. A section header skips the next eight lines (seven
/// for the nails); pin lines before any part are ignored.
pub open spec fn bdv_apply(s: BdvScan, l: Seq<u8>) -> BdvScan {
    if s.skip > 0 {
        BdvScan { skip: (s.skip - 1) as nat, ..s }
    } else if l.len() == 0 {
        s
    } else if bdv_section(l) != 0 {
        BdvScan { block: bdv_section(l), skip: if bdv_section(l) == 3 { 7 } else { 8 }, ..s }
    } else if s.block == 1 {
        BdvScan { outline: s.outline.push(bdv_point(l)), ..s }
    } else if s.block == 2 {
        if starts(l, "Part".spec_bytes()) {
            let p = bdv_part(l);
            BdvScan { parts: s.parts.push(p), has_part: true, side: p.side, ..s }
        } else if s.has_part {
            let f = bdv_pin_line(l);
            BdvScan {
                pins: s.pins.push(
                    PinSpec {
                        part: s.parts.len() - 1,
                        number: f.0,
                        name: Seq::empty(),
                        pos: f.1,
                        radius: DEFAULT_RADIUS,
                        side: s.side,
                        net: f.2,
                    },
                ),
                ..s
            }
        } else {
            s
        }
    } else if s.block == 3 {
        BdvScan { nails: s.nails.push(bdv_nail(l)), ..s }
    } else {
        s
    }
}

pub open spec fn starts(l: Seq<u8>, t: Seq<u8>) -> bool {
    t.len() <= l.len() && l.take(t.len() as int) == t
}

pub open spec fn bdv_scan(lines: Seq<Seq<u8>>) -> BdvScan
    decreases lines.len(),
{
    if lines.len() == 0 {
        bdv_start()
    } else {
        bdv_apply(bdv_scan(lines.drop_last()), trimmed(lines.last()))
    }
}

struct BdvState {
    block: u8,
    skip: usize,
    has_part: bool,
    side: Side,
    outline: Vec<Point>,
    parts: Vec<PartRec>,
    pins: Vec<PinRec>,
    nails: Vec<RawNail>,
}

spec fn bdv_rel(st: BdvState, s: BdvScan) -> bool {
    &&& st.block == s.block
    &&& st.skip == s.skip
    &&& st.has_part == s.has_part
    &&& st.side == s.side
    &&& st.has_part ==> st.parts@.len() > 0
    &&& st.outline@ == s.outline
    &&& st.parts@.map_values(|p: PartRec| part_spec(p)) == s.parts
    &&& st.pins@.map_values(|p: PinRec| pin_spec(p)) == s.pins
    &&& st.nails@.map_values(|n: RawNail| nail_spec(n)) == s.nails
    &&& forall|j: int| 0 <= j < st.pins@.len() ==> (#[trigger] st.pins@[j]).part < st.parts@.len()
}

pub(crate) fn read_point(l: &[u8]) -> (p: Point)
    ensures
        p == bdv_point(l@),
{
    let mut c = Cursor::new(l);
    let x = c.read_scaled(6);
    let y = c.read_scaled(6);
    Point { x, y }
}

pub(crate) fn read_part(l: &[u8]) -> (p: PartRec)
    ensures
        part_spec(p) == bdv_part(l@),
{
    let mut c = Cursor::new(l);
    c.advance(4);
    let name = c.read_token();
    let loc = c.read_token();
    PartRec { name, side: side_of_loc(loc.as_str()), mfg_code: None, value: None, package: None }
}

pub(crate) fn read_pin_line(l: &[u8]) -> (r: (String, Point, String))
    ensures
        (r.0@, r.1, r.2@) == bdv_pin_line(l@),
{
    let mut c = Cursor::new(l);
    let _id = c.read_int();
    let number = c.read_token();
    let x = c.read_scaled(6);
    let y = c.read_scaled(6);
    let _layer = c.read_int();
    let net = c.read_token();
    (number, Point { x, y }, net)
}

pub(crate) fn read_nail(line: &[u8]) -> (n: RawNail)
    requires
        line@.len() > 0,
    ensures
        nail_spec(n) == bdv_nail(line@),
{
    let mut c = Cursor::new(&line[1..line.len()]);
    let probe = c.read_int();
    let x = c.read_scaled(6);
    let y = c.read_scaled(6);
    let _kind = c.read_int();
    let _grid = c.read_token();
    let loc = c.read_token();
    let side = side_of_loc(loc.as_str());
    let _net_id = c.read_token();
    let net = c.read_token();
    RawNail { pos: Point { x, y }, side, net, probe }
}

fn bdv_line(st: &mut BdvState, line: &[u8], Ghost(s): Ghost<BdvScan>)
    requires
        bdv_rel(*old(st), s),
    ensures
        bdv_rel(*final(st), bdv_apply(s, line@)),
{
    if st.skip > 0 {
        st.skip = st.skip - 1;
        return;
    }
    if line.len() == 0 {
        return;
    }
    let sec = section_of(line);
    if sec != 0 {
        st.block = sec;
        st.skip = if sec == 3 {
            7
        } else {
            8
        };
    } else if st.block == 1 {
        let p = read_point(line);
        st.outline.push(p);
    } else if st.block == 2 {
        if line_starts(line, "Part") {
            let p = read_part(line);
            st.side = p.side;
            st.parts.push(p);
            st.has_part = true;
            proof {
                assert(st.parts@.map_values(|p: PartRec| part_spec(p)) =~= s.parts.push(bdv_part(line@)));
            }
        } else if st.has_part {
            let (number, pos, net) = read_pin_line(line);
            let ghost before = st.pins@;
            let part = st.parts.len() - 1;
            st.pins.push(PinRec { part, number, name: String::new(), pos, radius: DEFAULT_RADIUS, side: st.side, net });
            proof {
                reveal_strlit("");
                assert(st.pins@.map_values(|p: PinRec| pin_spec(p)) =~= bdv_apply(s, line@).pins);
                assert forall|j: int| 0 <= j < st.pins@.len() implies (#[trigger] st.pins@[j]).part < st.parts@.len() by {
                    if j < before.len() {
                        assert(st.pins@[j] == before[j]);
                    }
                }
            }
        }
    } else if st.block == 3 {
        let n = read_nail(line);
        st.nails.push(n);
        proof {
            assert(st.nails@.map_values(|n: RawNail| nail_spec(n)) =~= s.nails.push(bdv_nail(line@)));
        }
    }
}

/// Parses a `.bdv` file.
#[verifier::rlimit(30)]
pub fn parse(bytes: &[u8]) -> (r: Result<BoardModel, ParseError>)
    ensures
        ({
            let s = bdv_scan(stringfile_lines(bdv_text(bytes@)));
            &&& s.block == 0 ==> fails_unrecognized(r)
            &&& s.block != 0 ==> (r is Ok <==> board_fits(
                s.parts.len() as int,
                s.pins.len() as int,
                s.nails.len() as int,
            ))
            &&& s.block != 0 && r is Err ==> fails_malformed(r)
            &&& r is Ok ==> records_model(
                r->Ok_0,
                BoardFormat::Bdv,
                polyline_segments(s.outline),
                s.parts,
                s.pins,
                s.nails,
                false,
            )
        }),
{
    let mut data = vstd::slice::slice_to_vec(bytes);
    if find_in_buf("dd:1.3?,r?-=bb", bytes) {
        decode(&mut data);
    }
    let lines = split_lines(data.as_slice());
    let ghost all = lines@.map_values(|l: &[u8]| l@);
    assert(all == stringfile_lines(bdv_text(bytes@)));
    let mut st = BdvState {
        block: 0,
        skip: 0,
        has_part: false,
        side: Side::Top,
        outline: Vec::new(),
        parts: Vec::new(),
        pins: Vec::new(),
        nails: Vec::new(),
    };
    let ghost mut s = bdv_start();
    proof {
        assert(st.parts@.map_values(|p: PartRec| part_spec(p)) =~= Seq::<PartSpec>::empty());
        assert(st.pins@.map_values(|p: PinRec| pin_spec(p)) =~= Seq::<PinSpec>::empty());
        assert(st.nails@.map_values(|n: RawNail| nail_spec(n)) =~= Seq::<NailSpec>::empty());
    }
    let mut i: usize = 0;
    assert(all.take(0) =~= Seq::<Seq<u8>>::empty());
    while i < lines.len()
        invariant
            all == lines@.map_values(|l: &[u8]| l@),
            i <= lines@.len(),
            s == bdv_scan(all.take(i as int)),
            bdv_rel(st, s),
        decreases lines@.len() - i,
    {
        let line = ltrim(lines[i]);
        let ghost prev = s;
        proof {
            assert(all.take(i + 1).drop_last() =~= all.take(i as int));
            assert(all.take(i + 1).last() == lines@[i as int]@);
            s = bdv_apply(prev, trimmed(lines@[i as int]@));
        }
        bdv_line(&mut st, line, Ghost(prev));
        i = i + 1;
    }
    assert(all.take(i as int) =~= all);
    if st.block == 0 {
        return Err(ParseError::Unrecognized);
    }
    let segs = polyline_of(&st.outline);
    assemble(BoardFormat::Bdv, &segs, &st.parts, &st.pins, &st.nails, false)
}

} // verus!
