//! BRD2, a text variant with `BRDOUT:`/`NETS:`/`PARTS:`/`PINS:`/`NAILS:`
//! sections. Pins are stored in one flat list; each part records the index
//! where its pin run *starts*. Bottom-side Y coordinates are stored flipped
//! and must be unflipped against the board height.

use vstd::prelude::*;
use vstd::string::StringSliceAdditionalSpecFns;
use crate::cursor::{Cursor, int_read, token_at, after_token};
use crate::text::{
    ltrim, split_lines, stringfile_lines, trimmed, line_starts, contains_run, find_in_buf, to_mil_units,
    mil_units, RawNail,
};
use crate::builder::polyline_segments;
use crate::model::{BoardModel, BoardFormat, Point, Side, DEFAULT_RADIUS, sat_sub, clamp64};
use crate::parsers::{ParseError, malformed, fails_malformed, fails_unrecognized, board_fits};
use crate::records::{
    assemble, records_model, part_spec, pin_spec, nail_spec, polyline_of, PartRec, PinRec, PartSpec, PinSpec,
    NailSpec,
};

verus! {

pub open spec fn brd2_signature(b: Seq<u8>) -> bool {
    contains_run(b, "BRDOUT:".spec_bytes()) && contains_run(b, "NETS:".spec_bytes())
}

pub fn verify(buf: &[u8]) -> (r: bool)
    ensures
        r == brd2_signature(buf@),
{
    find_in_buf("BRDOUT:", buf) && find_in_buf("NETS:", buf)
}

pub open spec fn starts_text(l: Seq<u8>, t: Seq<u8>) -> bool {
    t.len() <= l.len() && l.take(t.len() as int) == t
}

/// The section a (trimmed) line opens, or 0.
pub open spec fn brd2_section(l: Seq<u8>) -> u8 {
    if starts_text(l, "BRDOUT:".spec_bytes()) {
        1
    } else if starts_text(l, "NETS:".spec_bytes()) {
        2
    } else if starts_text(l, "PARTS:".spec_bytes()) {
        3
    } else if starts_text(l, "PINS:".spec_bytes()) {
        4
    } else if starts_text(l, "NAILS:".spec_bytes()) {
        5
    } else {
        0
    }
}

fn section_of(l: &[u8]) -> (r: u8)
    ensures
        r == brd2_section(l@),
{
    if line_starts(l, "BRDOUT:") {
        1
    } else if line_starts(l, "NETS:") {
        2
    } else if line_starts(l, "PARTS:") {
        3
    } else if line_starts(l, "PINS:") {
        4
    } else if line_starts(l, "NAILS:") {
        5
    } else {
        0
    }
}

pub open spec fn side_code(v: i64) -> Side {
    if v == 1 {
        Side::Top
    } else if v == 2 {
        Side::Bottom
    } else {
        Side::Both
    }
}

/// BRD2 side codes: 1 is the top, 2 the bottom, anything else both.
pub proof fn lemma_brd2_side_codes(v: i64)
    ensures
        side_code(v) == Side::Top <==> v == 1,
        side_code(v) == Side::Bottom <==> v == 2,
        side_code(v) == Side::Both <==> (v != 1 && v != 2),
{
}

fn side_of_code(v: i64) -> (s: Side)
    ensures
        s == side_code(v),
{
    if v == 1 {
        Side::Top
    } else if v == 2 {
        Side::Bottom
    } else {
        Side::Both
    }
}

/// The name of the last net declared with `id`, or the empty name.
pub open spec fn net_lookup(nets: Seq<(i64, Seq<char>)>, id: i64) -> Seq<char>
    decreases nets.len(),
{
    if nets.len() == 0 {
        Seq::empty()
    } else if nets.last().0 == id {
        nets.last().1
    } else {
        net_lookup(nets.drop_last(), id)
    }
}

/// A part record: name, start of its pin run, side.
pub struct Brd2Part {
    pub name: Seq<char>,
    pub start: i64,
    pub side: Side,
}

/// A pin record: x, y (flipped for pins not on top), net id, side.
pub struct Brd2Pin {
    pub x: i64,
    pub y: i64,
    pub net: i64,
    pub side: Side,
}

/// What reading the lines collects: the section in effect, whether an
/// outline point fell outside the declared size (reading stops there), the
/// declared size, and the records in order. Nails take their net name and
/// board height as declared before them.
pub struct Brd2Scan {
    pub block: u8,
    pub err: bool,
    pub max_x: i64,
    pub max_y: i64,
    pub nets: Seq<(i64, Seq<char>)>,
    pub outline: Seq<Point>,
    pub parts: Seq<Brd2Part>,
    pub pins: Seq<Brd2Pin>,
    pub nails: Seq<NailSpec>,
}

pub open spec fn brd2_start() -> Brd2Scan {
    Brd2Scan {
        block: 0,
        err: false,
        max_x: 0,
        max_y: 0,
        nets: Seq::empty(),
        outline: Seq::empty(),
        parts: Seq::empty(),
        pins: Seq::empty(),
        nails: Seq::empty(),
    }
}

/// `y` measured from the other edge of a board of height `h`.
pub open spec fn flip_y(h: i64, y: i64) -> i64 {
    clamp64(mil_units(h) - mil_units(y))
}

/// A part line: name, two corners, start of its pin run, side code.
pub open spec fn brd2_part_line(l: Seq<u8>) -> Brd2Part {
    let a = after_token(l, 0);
    let p1 = int_read(l, a).0;
    let p2 = int_read(l, p1).0;
    let p3 = int_read(l, p2).0;
    let p4 = int_read(l, p3).0;
    let (p5, start) = int_read(l, p4);
    Brd2Part { name: token_at(l, 0), start, side: side_code(int_read(l, p5).1) }
}

/// A pin line: x, y, net id, side code.
pub open spec fn brd2_pin_line(l: Seq<u8>) -> Brd2Pin {
    let (p1, x) = int_read(l, 0);
    let (p2, y) = int_read(l, p1);
    let (p3, net) = int_read(l, p2);
    Brd2Pin { x, y, net, side: side_code(int_read(l, p3).1) }
}

/// A nail line: probe, x, y, net id, side (1 is the top; other sides have
/// y flipped against the board height).
pub open spec fn brd2_nail_line(l: Seq<u8>, nets: Seq<(i64, Seq<char>)>, h: i64) -> NailSpec {
    let (p1, probe) = int_read(l, 0);
    let (p2, x) = int_read(l, p1);
    let (p3, y) = int_read(l, p2);
    let (p4, net) = int_read(l, p3);
    let top = int_read(l, p4).1 == 1;
    NailSpec {
        pos: Point { x: mil_units(x), y: if top { mil_units(y) } else { flip_y(h, y) } },
        side: if top { Side::Top } else { Side::Bottom },
        probe,
        net: net_lookup(nets, net),
    }
}

/// One trimmed line.
#[verifier::opaque]
pub open spec fn brd2_apply(s: Brd2Scan, l: Seq<u8>) -> Brd2Scan {
    let sec = brd2_section(l);
    if s.err || l.len() == 0 {
        s
    } else if sec != 0 {
        if sec == 1 {
            let a = if 7 <= l.len() { 7 } else { l.len() as int };
            let p1 = int_read(l, a).0;
            let (p2, mx) = int_read(l, p1);
            Brd2Scan { block: 1, max_x: mx, max_y: int_read(l, p2).1, ..s }
        } else {
            Brd2Scan { block: sec, ..s }
        }
    } else if s.block == 1 {
        let (p1, x) = int_read(l, 0);
        let y = int_read(l, p1).1;
        if x > s.max_x || y > s.max_y {
            Brd2Scan { err: true, ..s }
        } else {
            Brd2Scan { outline: s.outline.push(Point { x: mil_units(x), y: mil_units(y) }), ..s }
        }
    } else if s.block == 2 {
        let (p1, id) = int_read(l, 0);
        Brd2Scan { nets: s.nets.push((id, token_at(l, p1))), ..s }
    } else if s.block == 3 {
        Brd2Scan { parts: s.parts.push(brd2_part_line(l)), ..s }
    } else if s.block == 4 {
        Brd2Scan { pins: s.pins.push(brd2_pin_line(l)), ..s }
    } else if s.block == 5 {
        Brd2Scan { nails: s.nails.push(brd2_nail_line(l, s.nets, s.max_y)), ..s }
    } else {
        s
    }
}

pub open spec fn brd2_scan(lines: Seq<Seq<u8>>) -> Brd2Scan
    decreases lines.len(),
{
    if lines.len() == 0 {
        brd2_start()
    } else {
        brd2_apply(brd2_scan(lines.drop_last()), trimmed(lines.last()))
    }
}

/// Where the pin run of part `i` ends: the next part's start, kept within
/// the pin list; the last part's run ends with the list.
pub open spec fn run_end(s: Brd2Scan, i: int) -> int {
    if i + 1 < s.parts.len() {
        let st = s.parts[i + 1].start;
        if st <= 0 {
            0
        } else if st >= s.pins.len() {
            s.pins.len() as int
        } else {
            st as int
        }
    } else {
        s.pins.len() as int
    }
}

/// Where the pins of part `i` begin: runs never go backwards.
pub open spec fn run_start(s: Brd2Scan, i: int) -> int
    decreases i,
{
    if i <= 0 {
        0
    } else {
        let c = run_start(s, i - 1);
        let e = run_end(s, i - 1);
        if e > c { e } else { c }
    }
}

/// A part is through-hole when none of its pins sits on its own side.
pub open spec fn is_dip(s: Brd2Scan, i: int) -> bool {
    forall|k: int|
        run_start(s, i) <= k < run_start(s, i + 1) ==> !((#[trigger] s.pins[k]).side == Side::Top
            && s.parts[i].side == Side::Top || s.pins[k].side == Side::Bottom && s.parts[i].side == Side::Bottom)
}

pub open spec fn brd2_part_spec(s: Brd2Scan, i: int) -> PartSpec {
    PartSpec {
        name: s.parts[i].name,
        side: if is_dip(s, i) { Side::Both } else { s.parts[i].side },
        mfg_code: None,
        value: None,
        package: None,
    }
}

/// Pin `k` of the list as a pin of part `i`.
pub open spec fn brd2_pin_spec(s: Brd2Scan, i: int, k: int) -> PinSpec {
    let x = s.pins[k];
    PinSpec {
        part: i,
        number: Seq::empty(),
        name: Seq::empty(),
        pos: Point { x: mil_units(x.x), y: if x.side != Side::Top { flip_y(s.max_y, x.y) } else { mil_units(x.y) } },
        radius: DEFAULT_RADIUS,
        side: if is_dip(s, i) { Side::Both } else { x.side },
        net: net_lookup(s.nets, x.net),
    }
}

/// The pins of the first `n` parts, run after run.
pub open spec fn brd2_pins(s: Brd2Scan, n: int) -> Seq<PinSpec>
    decreases n,
{
    if n <= 0 {
        Seq::empty()
    } else {
        brd2_pins(s, n - 1) + Seq::new(
            (run_start(s, n) - run_start(s, n - 1)) as nat,
            |j: int| brd2_pin_spec(s, n - 1, run_start(s, n - 1) + j),
        )
    }
}

proof fn lemma_runs(s: Brd2Scan, i: int)
    requires
        0 <= i,
    ensures
        0 <= run_start(s, i) <= run_start(s, i + 1) <= s.pins.len(),
        brd2_pins(s, i).len() == run_start(s, i),
    decreases i,
{
    if i > 0 {
        lemma_runs(s, i - 1);
    }
}

/// The name of the last net declared with `id`, or the empty name.
fn net_name(nets: &Vec<(i64, String)>, id: i64) -> (r: String)
    ensures
        r@ == net_lookup(nets@.map_values(|e: (i64, String)| (e.0, e.1@)), id),
{
    let ghost ns = nets@.map_values(|e: (i64, String)| (e.0, e.1@));
    let mut k = nets.len();
    assert(ns.take(k as int) =~= ns);
    while k > 0
        invariant
            k <= nets@.len(),
            ns == nets@.map_values(|e: (i64, String)| (e.0, e.1@)),
            net_lookup(ns, id) == net_lookup(ns.take(k as int), id),
        decreases k,
    {
        assert(ns.take(k as int).drop_last() =~= ns.take(k - 1));
        if nets[k - 1].0 == id {
            return nets[k - 1].1.clone();
        }
        k = k - 1;
    }
    proof {
        reveal_strlit("");
    }
    String::new()
}

struct Brd2State {
    block: u8,
    max_x: i64,
    max_y: i64,
    nets: Vec<(i64, String)>,
    outline: Vec<Point>,
    parts: Vec<(String, i64, Side)>,
    pins: Vec<(i64, i64, i64, Side)>,
    nails: Vec<RawNail>,
}

spec fn brd2_rel(st: Brd2State, s: Brd2Scan) -> bool {
    &&& !s.err
    &&& st.block == s.block
    &&& st.max_x == s.max_x
    &&& st.max_y == s.max_y
    &&& st.nets@.map_values(|e: (i64, String)| (e.0, e.1@)) == s.nets
    &&& st.outline@ == s.outline
    &&& st.parts@.map_values(|e: (String, i64, Side)| Brd2Part { name: e.0@, start: e.1, side: e.2 }) == s.parts
    &&& st.pins@.map_values(|e: (i64, i64, i64, Side)| Brd2Pin { x: e.0, y: e.1, net: e.2, side: e.3 }) == s.pins
    &&& st.nails@.map_values(|n: RawNail| nail_spec(n)) == s.nails
}

fn read_part(l: &[u8]) -> (r: (String, i64, Side))
    ensures
        (Brd2Part { name: r.0@, start: r.1, side: r.2 }) == brd2_part_line(l@),
{
    let mut c = Cursor::new(l);
    let name = c.read_token();
    let _p1x = c.read_int();
    let _p1y = c.read_int();
    let _p2x = c.read_int();
    let _p2y = c.read_int();
    let start = c.read_int();
    let side = side_of_code(c.read_int());
    (name, start, side)
}

fn read_pin(l: &[u8]) -> (r: (i64, i64, i64, Side))
    ensures
        (Brd2Pin { x: r.0, y: r.1, net: r.2, side: r.3 }) == brd2_pin_line(l@),
{
    let mut c = Cursor::new(l);
    let x = c.read_int();
    let y = c.read_int();
    let net = c.read_int();
    let side = side_of_code(c.read_int());
    (x, y, net, side)
}

fn read_nail(l: &[u8], nets: &Vec<(i64, String)>, h: i64) -> (n: RawNail)
    ensures
        nail_spec(n) == brd2_nail_line(l@, nets@.map_values(|e: (i64, String)| (e.0, e.1@)), h),
{
    let mut c = Cursor::new(l);
    let probe = c.read_int();
    let x = c.read_int();
    let y = c.read_int();
    let net_id = c.read_int();
    let net = net_name(nets, net_id);
    let top = c.read_int() == 1;
    let yy = if top {
        to_mil_units(y)
    } else {
        sat_sub(to_mil_units(h), to_mil_units(y))
    };
    RawNail {
        pos: Point { x: to_mil_units(x), y: yy },
        side: if top {
            Side::Top
        } else {
            Side::Bottom
        },
        net,
        probe,
    }
}

/// Handles one trimmed line; false when an outline point lies outside the
/// declared size.
fn brd2_line(st: &mut Brd2State, l: &[u8], Ghost(s): Ghost<Brd2Scan>) -> (ok: bool)
    requires
        brd2_rel(*old(st), s),
    ensures
        ok <==> !brd2_apply(s, l@).err,
        ok ==> brd2_rel(*final(st), brd2_apply(s, l@)),
{
    reveal(brd2_apply);
    if l.len() == 0 {
        return true;
    }
    let sec = section_of(l);
    let mut c = Cursor::new(l);
    if sec != 0 {
        st.block = sec;
        if sec == 1 {
            c.advance(7);
            let _count = c.read_int();
            st.max_x = c.read_int();
            st.max_y = c.read_int();
        }
    } else if st.block == 1 {
        let x = c.read_int();
        let y = c.read_int();
        if x > st.max_x || y > st.max_y {
            return false;
        }
        st.outline.push(Point { x: to_mil_units(x), y: to_mil_units(y) });
    } else if st.block == 2 {
        let id = c.read_int();
        let name = c.read_token();
        st.nets.push((id, name));
        proof {
            assert(st.nets@.map_values(|e: (i64, String)| (e.0, e.1@)) =~= brd2_apply(s, l@).nets);
        }
    } else if st.block == 3 {
        let p = read_part(l);
        st.parts.push(p);
        proof {
            assert(st.parts@.map_values(|e: (String, i64, Side)| Brd2Part { name: e.0@, start: e.1, side: e.2 })
                =~= brd2_apply(s, l@).parts);
        }
    } else if st.block == 4 {
        let p = read_pin(l);
        st.pins.push(p);
        proof {
            assert(st.pins@.map_values(|e: (i64, i64, i64, Side)| Brd2Pin { x: e.0, y: e.1, net: e.2, side: e.3 })
                =~= brd2_apply(s, l@).pins);
        }
    } else if st.block == 5 {
        let n = read_nail(l, &st.nets, st.max_y);
        st.nails.push(n);
        proof {
            assert(st.nails@.map_values(|n: RawNail| nail_spec(n)) =~= brd2_apply(s, l@).nails);
        }
    }
    true
}

/// A scan that has failed ignores further lines.
proof fn lemma_brd2_apply_after_err(s: Brd2Scan, l: Seq<u8>)
    requires
        s.err,
    ensures
        brd2_apply(s, l) == s,
{
    reveal(brd2_apply);
}

/// Once an outline point is out of bounds, later lines change nothing.
proof fn lemma_brd2_err_sticks(lines: Seq<Seq<u8>>, i: int)
    requires
        0 <= i <= lines.len(),
        brd2_scan(lines.take(i)).err,
    ensures
        brd2_scan(lines).err,
    decreases lines.len() - i,
{
    if i < lines.len() {
        assert(lines.take(i + 1).drop_last() =~= lines.take(i));
        lemma_brd2_apply_after_err(brd2_scan(lines.take(i)), trimmed(lines.take(i + 1).last()));
        lemma_brd2_err_sticks(lines, i + 1);
    } else {
        assert(lines.take(i) =~= lines);
    }
}

/// The part and pin records of a scan: pins assigned to parts by runs.
fn records_of(st: &Brd2State, Ghost(s): Ghost<Brd2Scan>) -> (r: (Vec<PartRec>, Vec<PinRec>))
    requires
        brd2_rel(*st, s),
    ensures
        r.0@.map_values(|p: PartRec| part_spec(p)) == Seq::new(s.parts.len(), |i: int| brd2_part_spec(s, i)),
        r.1@.map_values(|p: PinRec| pin_spec(p)) == brd2_pins(s, s.parts.len() as int),
        forall|j: int| 0 <= j < r.1@.len() ==> (#[trigger] r.1@[j]).part < r.0@.len(),
{
    let np = st.parts.len();
    let npins = st.pins.len();
    let mut parts: Vec<PartRec> = Vec::new();
    let mut pins: Vec<PinRec> = Vec::new();
    let mut cpi: usize = 0;
    let mut p: usize = 0;
    let max_y_units = to_mil_units(st.max_y);
    assert(pins@.map_values(|q: PinRec| pin_spec(q)) =~= brd2_pins(s, 0));
    while p < np
        invariant
            brd2_rel(*st, s),
            np == s.parts.len(),
            npins == s.pins.len(),
            p <= np,
            cpi == run_start(s, p as int),
            cpi <= npins,
            max_y_units == mil_units(s.max_y),
            parts@.len() == p,
            forall|i: int| 0 <= i < p ==> part_spec(#[trigger] parts@[i]) == brd2_part_spec(s, i),
            pins@.map_values(|q: PinRec| pin_spec(q)) == brd2_pins(s, p as int),
            forall|j: int| 0 <= j < pins@.len() ==> (#[trigger] pins@[j]).part < p,
        decreases np - p,
    {
        proof {
            lemma_runs(s, p as int);
        }
        let end = if p + 1 < np {
            let start = st.parts[p + 1].1;
            if start <= 0 {
                0
            } else if start as u64 >= npins as u64 {
                npins
            } else {
                start as usize
            }
        } else {
            npins
        };
        proof {
            assert(st.parts@.map_values(|e: (String, i64, Side)| Brd2Part { name: e.0@, start: e.1, side: e.2 })[p as int]
                == s.parts[p as int]);
            if p + 1 < np {
                assert(st.parts@.map_values(|e: (String, i64, Side)| Brd2Part { name: e.0@, start: e.1, side: e.2 })[p + 1]
                    == s.parts[p + 1]);
            }
            assert(end == run_end(s, p as int));
        }
        let part_side = st.parts[p].2;
        let stop = if end > cpi { end } else { cpi };
        assert(stop == run_start(s, p + 1));
        let mut dip = true;
        let mut k = cpi;
        while k < stop
            invariant
                brd2_rel(*st, s),
                cpi <= k <= stop,
                stop <= npins,
                npins == s.pins.len(),
                p < s.parts.len(),
                part_side == s.parts[p as int].side,
                dip == forall|q: int| cpi <= q < k ==> !((#[trigger] s.pins[q]).side == Side::Top && part_side
                    == Side::Top || s.pins[q].side == Side::Bottom && part_side == Side::Bottom),
            decreases stop - k,
        {
            let side = st.pins[k].3;
            proof {
                assert(st.pins@.map_values(|e: (i64, i64, i64, Side)| Brd2Pin { x: e.0, y: e.1, net: e.2, side: e.3 })[k as int]
                    == s.pins[k as int]);
            }
            if (side == Side::Top && part_side == Side::Top) || (side == Side::Bottom && part_side == Side::Bottom) {
                dip = false;
            }
            k = k + 1;
        }
        assert(dip == is_dip(s, p as int));
        let ghost before = pins@;
        let ghost base = pins@.len();
        while cpi < stop
            invariant
                brd2_rel(*st, s),
                run_start(s, p as int) <= cpi <= stop,
                stop == run_start(s, p + 1),
                stop <= npins,
                npins == s.pins.len(),
                p < np,
                np == s.parts.len(),
                dip == is_dip(s, p as int),
                max_y_units == mil_units(s.max_y),
                base == run_start(s, p as int),
                pins@.len() == base + (cpi - run_start(s, p as int)),
                forall|j: int| 0 <= j < before.len() ==> #[trigger] pins@[j] == before[j],
                forall|j: int|
                    0 <= j < cpi - run_start(s, p as int) ==> pin_spec(#[trigger] pins@[base + j])
                        == brd2_pin_spec(s, p as int, run_start(s, p as int) + j),
                forall|j: int| 0 <= j < pins@.len() ==> (#[trigger] pins@[j]).part <= p,
                before.len() == base,
            decreases stop - cpi,
        {
            let x = st.pins[cpi];
            proof {
                assert(st.pins@.map_values(|e: (i64, i64, i64, Side)| Brd2Pin { x: e.0, y: e.1, net: e.2, side: e.3 })[cpi as int]
                    == s.pins[cpi as int]);
            }
            let y = if x.3 != Side::Top {
                sat_sub(max_y_units, to_mil_units(x.1))
            } else {
                to_mil_units(x.1)
            };
            let net = net_name(&st.nets, x.2);
            let ghost pb = pins@;
            pins.push(
                PinRec {
                    part: p,
                    number: String::new(),
                    name: String::new(),
                    pos: Point { x: to_mil_units(x.0), y },
                    radius: DEFAULT_RADIUS,
                    side: if dip {
                        Side::Both
                    } else {
                        x.3
                    },
                    net,
                },
            );
            proof {
                reveal_strlit("");
                assert forall|j: int| 0 <= j < pins@.len() implies (#[trigger] pins@[j]).part <= p by {
                    if j < pb.len() {
                        assert(pins@[j] == pb[j]);
                    }
                }
                assert forall|j: int| 0 <= j < before.len() implies #[trigger] pins@[j] == before[j] by {
                    assert(pins@[j] == pb[j]);
                }
                assert forall|j: int|
                    0 <= j < cpi + 1 - run_start(s, p as int) implies pin_spec(#[trigger] pins@[base + j])
                        == brd2_pin_spec(s, p as int, run_start(s, p as int) + j) by {
                    if j < cpi - run_start(s, p as int) {
                        assert(pins@[base + j] == pb[base + j]);
                    }
                }
            }
            cpi = cpi + 1;
        }
        let name = st.parts[p].0.clone();
        parts.push(PartRec { name, side: if dip { Side::Both } else { part_side }, mfg_code: None, value: None, package: None });
        proof {
            lemma_runs(s, p + 1);
            let mv = pins@.map_values(|q: PinRec| pin_spec(q));
            let target = brd2_pins(s, p + 1);
            let bv = before.map_values(|q: PinRec| pin_spec(q));
            assert(bv == brd2_pins(s, p as int));
            assert forall|j: int| 0 <= j < mv.len() implies #[trigger] mv[j] == target[j] by {
                if j < base {
                    assert(pins@[j] == before[j]);
                    assert(bv[j] == brd2_pins(s, p as int)[j]);
                } else {
                    assert(pin_spec(pins@[base + (j - base)]) == brd2_pin_spec(s, p as int, run_start(s, p as int) + (j - base)));
                }
            }
            assert(mv =~= target);
            assert forall|j: int| 0 <= j < pins@.len() implies (#[trigger] pins@[j]).part < p + 1 by {}
        }
        p = p + 1;
    }
    proof {
        assert(parts@.map_values(|q: PartRec| part_spec(q)) =~= Seq::new(s.parts.len(), |i: int| brd2_part_spec(s, i)));
    }
    (parts, pins)
}

/// Parses a BRD2 file.
pub fn parse(bytes: &[u8]) -> (r: Result<BoardModel, ParseError>)
    ensures
        ({
            let s = brd2_scan(stringfile_lines(bytes@));
            let parts = Seq::new(s.parts.len(), |i: int| brd2_part_spec(s, i));
            let pins = brd2_pins(s, s.parts.len() as int);
            &&& s.err ==> fails_malformed(r)
            &&& !s.err && s.block == 0 ==> fails_unrecognized(r)
            &&& !s.err && s.block != 0 ==> (r is Ok <==> board_fits(
                parts.len() as int,
                pins.len() as int,
                s.nails.len() as int,
            ))
            &&& !s.err && s.block != 0 && r is Err ==> fails_malformed(r)
            &&& r is Ok ==> records_model(
                r->Ok_0,
                BoardFormat::Brd2,
                polyline_segments(s.outline),
                parts,
                pins,
                s.nails,
                false,
            )
        }),
{
    let lines = split_lines(bytes);
    let ghost all = lines@.map_values(|l: &[u8]| l@);
    let mut st = Brd2State {
        block: 0,
        max_x: 0,
        max_y: 0,
        nets: Vec::new(),
        outline: Vec::new(),
        parts: Vec::new(),
        pins: Vec::new(),
        nails: Vec::new(),
    };
    let ghost mut s = brd2_start();
    proof {
        assert(st.nets@.map_values(|e: (i64, String)| (e.0, e.1@)) =~= Seq::<(i64, Seq<char>)>::empty());
        assert(st.parts@.map_values(|e: (String, i64, Side)| Brd2Part { name: e.0@, start: e.1, side: e.2 })
            =~= Seq::<Brd2Part>::empty());
        assert(st.pins@.map_values(|e: (i64, i64, i64, Side)| Brd2Pin { x: e.0, y: e.1, net: e.2, side: e.3 })
            =~= Seq::<Brd2Pin>::empty());
        assert(st.nails@.map_values(|n: RawNail| nail_spec(n)) =~= Seq::<NailSpec>::empty());
    }
    let mut i: usize = 0;
    assert(all.take(0) =~= Seq::<Seq<u8>>::empty());
    while i < lines.len()
        invariant
            all == lines@.map_values(|l: &[u8]| l@),
            all == stringfile_lines(bytes@),
            i <= lines@.len(),
            s == brd2_scan(all.take(i as int)),
            brd2_rel(st, s),
        decreases lines@.len() - i,
    {
        let line = ltrim(lines[i]);
        let ghost prev = s;
        proof {
            assert(all.take(i + 1).drop_last() =~= all.take(i as int));
            assert(all.take(i + 1).last() == lines@[i as int]@);
            s = brd2_apply(prev, trimmed(lines@[i as int]@));
        }
        if !brd2_line(&mut st, line, Ghost(prev)) {
            proof {
                lemma_brd2_err_sticks(all, i + 1);
            }
            return Err(malformed("outline point out of bounds"));
        }
        i = i + 1;
    }
    assert(all.take(i as int) =~= all);
    if st.block == 0 {
        return Err(ParseError::Unrecognized);
    }
    let (parts, pins) = records_of(&st, Ghost(s));
    let segs = polyline_of(&st.outline);
    assemble(BoardFormat::Brd2, &segs, &parts, &pins, &st.nails, false)
}

} // verus!
