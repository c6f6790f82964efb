//! Boardview Raw (`.bvr`), an open interchange format.
//! v1: `<<Layout>>` / `<<Pin>>` / `<<Nail>>` sections, coordinates in inches.
//! v3 (`BVRAW_FORMAT_3`): key/value records per part and pin, plus outline
//! point/segment lists, already in mils.

use vstd::prelude::*;
use vstd::string::StringSliceAdditionalSpecFns;
use crate::cursor::{Cursor, int_read, scaled_read, scan_until, field_stop, token_at, after_token};
use crate::text::{
    add_nails_as_pins, ltrim, split_lines, stringfile_lines, trimmed, line_is, line_starts, contains_run,
    find_in_buf, to_mil_units, mil_units, RawNail, nail_pin, is_nail_group,
};
use crate::strs::same_text;
use crate::builder::{
    BoardBuilder, finished_side, names_net, polyline_segments, stored_pin, lemma_names_net_stable,
};
use crate::model::{
    BoardModel, BoardFormat, Part, Pin, Point, Side, NO_NET, DEFAULT_RADIUS, sat_add, same_parts_attrs,
    same_part_attrs, clamp64,
};
use crate::records::polyline_of;
use crate::parsers::{
    ParseError, parsed_ok, malformed, fails_malformed, fails_unrecognized, board_fits, check_fits,
};

verus! {

pub fn verify_v1(buf: &[u8]) -> (r: bool)
    ensures
        r == contains_run(buf@, "BVRAW_FORMAT_1".spec_bytes()),
{
    find_in_buf("BVRAW_FORMAT_1", buf)
}

pub fn verify_v3(buf: &[u8]) -> (r: bool)
    ensures
        r == contains_run(buf@, "BVRAW_FORMAT_3".spec_bytes()),
{
    find_in_buf("BVRAW_FORMAT_3", buf)
}

/// The v1 section a (trimmed) header line opens, or 0.
pub open spec fn v1_section(l: Seq<u8>) -> u8 {
    if l == "<<Layout>>".spec_bytes() {
        1
    } else if l == "<<Pin>>".spec_bytes() {
        2
    } else if l == "<<Nail>>".spec_bytes() {
        3
    } else {
        0
    }
}

fn v1_section_of(l: &[u8]) -> (r: u8)
    ensures
        r == v1_section(l@),
{
    if line_is(l, "<<Layout>>") {
        1
    } else if line_is(l, "<<Pin>>") {
        2
    } else if line_is(l, "<<Nail>>") {
        3
    } else {
        0
    }
}

/// A coordinate given in inches, in whole mils, as model units: where the
/// read stops and the value.
pub open spec fn inch_mils(l: Seq<u8>, pos: int) -> (int, i64) {
    (scaled_read(l, pos, 3).0, mil_units(scaled_read(l, pos, 3).1))
}

fn inch_to_whole_mils(c: &mut Cursor) -> (v: i64)
    ensures
        final(c).data() == old(c).data(),
        (final(c).offset(), v) == inch_mils(old(c).data(), old(c).offset()),
        old(c).offset() <= final(c).offset() <= old(c).data().len(),
{
    to_mil_units(c.read_scaled(3))
}

/// "(T)" is the top side; anything else the bottom.
pub open spec fn v1_side(t: Seq<char>) -> Side {
    if t == "(T)"@ {
        Side::Top
    } else {
        Side::Bottom
    }
}

fn side_of_loc(t: &str) -> (s: Side)
    ensures
        s == v1_side(t@),
{
    if same_text(t, "(T)") {
        Side::Top
    } else {
        Side::Bottom
    }
}

/// The location token of a v1 pin or nail line: "(T)" is the top side,
/// anything else (such as "(B)") the bottom; never both.
pub proof fn lemma_v1_location(l: Seq<u8>)
    ensures
        forall|t: Seq<char>| (#[trigger] v1_side(t) == Side::Top) <==> t == "(T)"@,
        v1_side("(B)"@) == Side::Bottom,
        forall|t: Seq<char>| #[trigger] v1_side(t) != Side::Both,
        (v1_pin_line(l).1 == Side::Top) <==> token_at(l, after_token(l, 0)) == "(T)"@,
        (v1_pin_line(l).1 == Side::Bottom) <==> token_at(l, after_token(l, 0)) != "(T)"@,
{
    reveal_strlit("(T)");
    reveal_strlit("(B)");
    assert("(B)"@[1] != "(T)"@[1]);
}

/// A layout line: x and y in inches, optionally separated by a comma.
pub open spec fn v1_point(l: Seq<u8>) -> Point {
    let (p1, x) = inch_mils(l, 0);
    let q = if p1 < l.len() && l[p1] == 44u8 { p1 + 1 } else { p1 };
    Point { x, y: inch_mils(l, q).1 }
}

/// A pin line: part name, "(T)"/"(B)", pin id, pin name, x and y in
/// inches, layer, net name.
pub open spec fn v1_pin_line(l: Seq<u8>) -> (Seq<char>, Side, Seq<char>, Point, Seq<char>) {
    let a1 = after_token(l, 0);
    let a2 = after_token(l, a1);
    let p3 = int_read(l, a2).0;
    let p4 = after_token(l, p3);
    let (p5, x) = inch_mils(l, p4);
    let (p6, y) = inch_mils(l, p5);
    let p7 = int_read(l, p6).0;
    (token_at(l, 0), v1_side(token_at(l, a1)), token_at(l, p3), Point { x, y }, token_at(l, p7))
}

/// A nail line: a leading field up to the first tab, then x and y in
/// inches, type, grid, "(T)"/"(B)", net id, net name.
pub open spec fn v1_nail(l: Seq<u8>) -> (Point, Side, Seq<char>) {
    let t = scan_until(l, 0, field_stop());
    let p0 = if t < l.len() && l[t] == 9u8 { t + 1 } else { t };
    let (p1, x) = scaled_read(l, p0, 6);
    let (p2, y) = scaled_read(l, p1, 6);
    let p3 = int_read(l, p2).0;
    let p4 = after_token(l, p3);
    let p5 = after_token(l, p4);
    let p6 = after_token(l, p5);
    (Point { x, y }, v1_side(token_at(l, p4)), token_at(l, p6))
}

/// A pin of a v1 file: the index of its part, pin name, position, side and
/// net name.
pub struct V1Pin {
    pub part: int,
    pub number: Seq<char>,
    pub pos: Point,
    pub side: Side,
    pub net: Seq<char>,
}

/// What reading the lines collects: the section in effect, whether the
/// line after a section header is still to be skipped, the name, presence
/// and side of the current part, and the records in order.
pub struct V1Scan {
    pub block: u8,
    pub skip: bool,
    pub prev: Seq<char>,
    pub has_part: bool,
    pub side: Side,
    pub outline: Seq<Point>,
    pub parts: Seq<(Seq<char>, Side)>,
    pub pins: Seq<V1Pin>,
    pub nails: Seq<(Point, Side, Seq<char>)>,
}

pub open spec fn v1_start() -> V1Scan {
    V1Scan {
        block: 0,
        skip: false,
        prev: Seq::empty(),
        has_part: false,
        side: Side::Top,
        outline: Seq::empty(),
        parts: Seq::empty(),
        pins: Seq::empty(),
        nails: Seq::empty(),
    }
}

/// One line. The line after a section header is skipped; a pin line whose
/// part name differs from the previous one starts a new part.
pub open spec fn v1_step(s: V1Scan, line: Seq<u8>) -> V1Scan {
    let l = trimmed(line);
    if s.skip {
        V1Scan { skip: false, ..s }
    } else if l.len() == 0 {
        s
    } else if v1_section(l) != 0 {
        V1Scan { block: v1_section(l), skip: true, ..s }
    } else if s.block == 1 {
        V1Scan { outline: s.outline.push(v1_point(l)), ..s }
    } else if s.block == 2 {
        let f = v1_pin_line(l);
        let s2 = if f.0 != s.prev {
            V1Scan { parts: s.parts.push((f.0, f.1)), has_part: true, side: f.1, prev: f.0, ..s }
        } else {
            s
        };
        if s2.has_part {
            V1Scan {
                pins: s2.pins.push(
                    V1Pin { part: s2.parts.len() - 1, number: f.2, pos: f.3, side: s2.side, net: f.4 },
                ),
                ..s2
            }
        } else {
            s2
        }
    } else if s.block == 3 {
        V1Scan { nails: s.nails.push(v1_nail(l)), ..s }
    } else {
        s
    }
}

pub open spec fn v1_scan(lines: Seq<Seq<u8>>) -> V1Scan
    decreases lines.len(),
{
    if lines.len() == 0 {
        v1_start()
    } else {
        v1_step(v1_scan(lines.drop_last()), lines.last())
    }
}

/// The pin that record `r` becomes.
pub open spec fn v1_pin_of(pin: Pin, r: V1Pin, m: BoardModel) -> bool {
    &&& pin.part == r.part
    &&& pin.number@ == r.number
    &&& pin.name@.len() == 0
    &&& pin.pos == r.pos
    &&& pin.radius == DEFAULT_RADIUS
    &&& pin.side == r.side
    &&& !pin.is_test_pad
    &&& names_net(m.nets@, pin.net, r.net)
}

/// The board a scan describes: the layout points as a polyline, the parts
/// and pins in file order, and the nails as test pads.
pub open spec fn v1_model(m: BoardModel, s: V1Scan) -> bool {
    let np = s.parts.len();
    let nj = s.pins.len();
    &&& parsed_ok(m, BoardFormat::Bvr)
    &&& m.outline@ == polyline_segments(s.outline)
    &&& m.warnings@.len() == 0
    &&& m.parts@.len() == np + (if s.nails.len() > 0 { 2int } else { 0int })
    &&& forall|p: int|
        0 <= p < np ==> {
            &&& (#[trigger] m.parts@[p]).refdes@ == s.parts[p].0
            &&& m.parts@[p].side == finished_side(Part { side: s.parts[p].1, ..m.parts@[p] }, m.pins@)
            &&& m.parts@[p].mfg_code is None
            &&& m.parts@[p].value is None
            &&& m.parts@[p].package is None
            &&& !m.parts@[p].is_dummy
        }
    &&& s.nails.len() > 0 ==> is_nail_group(m.parts@[np as int], Side::Bottom) && is_nail_group(
        m.parts@[np + 1int],
        Side::Top,
    )
    &&& m.pins@.len() == nj + s.nails.len()
    &&& forall|j: int| 0 <= j < nj ==> v1_pin_of(#[trigger] m.pins@[j], s.pins[j], m)
    &&& forall|k: int|
        0 <= k < s.nails.len() ==> nail_pin(
            #[trigger] m.pins@[nj + k],
            s.nails[k].0,
            s.nails[k].1,
            0,
            s.nails[k].2,
            np as u32,
            (np + 1) as u32,
            m.nets@,
        )
}

struct V1PinLine {
    name: String,
    side: Side,
    number: String,
    pos: Point,
    net: String,
}

fn read_v1_point(l: &[u8]) -> (p: Point)
    ensures
        p == v1_point(l@),
{
    let mut c = Cursor::new(l);
    let x = inch_to_whole_mils(&mut c);
    if c.peek() == Some(44u8) {
        c.advance(1);
    }
    let y = inch_to_whole_mils(&mut c);
    Point { x, y }
}

fn read_v1_pin_line(l: &[u8]) -> (r: V1PinLine)
    ensures
        (r.name@, r.side, r.number@, r.pos, r.net@) == v1_pin_line(l@),
{
    let mut c = Cursor::new(l);
    let name = c.read_token();
    let loc = c.read_token();
    let side = side_of_loc(loc.as_str());
    let _id = c.read_int();
    let number = c.read_token();
    let x = inch_to_whole_mils(&mut c);
    let y = inch_to_whole_mils(&mut c);
    let _layer = c.read_int();
    let net = c.read_token();
    V1PinLine { name, side, number, pos: Point { x, y }, net }
}

fn read_v1_nail(l: &[u8]) -> (n: RawNail)
    ensures
        (n.pos, n.side, n.net@) == v1_nail(l@),
        n.probe == 0,
{
    let mut c = Cursor::new(l);
    c.next_tab_field();
    let x = c.read_scaled(6);
    let y = c.read_scaled(6);
    let _kind = c.read_int();
    let _grid = c.read_token();
    let loc = c.read_token();
    let side = side_of_loc(loc.as_str());
    let _net_id = c.read_token();
    let net = c.read_token();
    RawNail { pos: Point { x, y }, side, net, probe: 0 }
}

struct V1PartRec {
    name: String,
    side: Side,
}

struct V1PinRec {
    part: usize,
    number: String,
    pos: Point,
    side: Side,
    net: String,
}

spec fn v1_pin_view(p: V1PinRec) -> V1Pin {
    V1Pin { part: p.part as int, number: p.number@, pos: p.pos, side: p.side, net: p.net@ }
}

/// Builds the board from the records of a scan.
fn assemble_v1(
    outline: Vec<Point>,
    parts: Vec<V1PartRec>,
    pins: Vec<V1PinRec>,
    nails: Vec<RawNail>,
    s: Ghost<V1Scan>,
) -> (r: Result<BoardModel, ParseError>)
    requires
        outline@ == s@.outline,
        parts@.len() == s@.parts.len(),
        forall|p: int| 0 <= p < parts@.len() ==> ((#[trigger] parts@[p]).name@, parts@[p].side) == s@.parts[p],
        pins@.len() == s@.pins.len(),
        forall|j: int| 0 <= j < pins@.len() ==> v1_pin_view(#[trigger] pins@[j]) == s@.pins[j],
        forall|j: int| 0 <= j < pins@.len() ==> (#[trigger] pins@[j]).part < parts@.len(),
        nails@.len() == s@.nails.len(),
        forall|k: int|
            0 <= k < nails@.len() ==> ((#[trigger] nails@[k]).pos, nails@[k].side, nails@[k].net@) == s@.nails[k]
                && nails@[k].probe == 0,
    ensures
        r is Ok <==> board_fits(s@.parts.len() as int, s@.pins.len() as int, s@.nails.len() as int),
        r is Err ==> fails_malformed(r),
        r matches Ok(m) ==> v1_model(m, s@),
{
    if !check_fits(parts.len(), pins.len(), nails.len()) {
        return Err(malformed("board too large"));
    }
    let mut b = BoardBuilder::new();
    b.add_outline_polyline(outline.as_slice());
    let mut p: usize = 0;
    while p < parts.len()
        invariant
            b.wf(),
            p <= parts@.len(),
            parts@.len() + 3 < NO_NET,
            b.model().parts@.len() == p,
            b.model().pins@.len() == 0,
            b.model().nets@.len() == 0,
            b.model().warnings@.len() == 0,
            b.model().outline@ == polyline_segments(outline@),
            forall|q: int|
                0 <= q < p ==> {
                    &&& (#[trigger] b.model().parts@[q]).refdes@ == parts@[q].name@
                    &&& b.model().parts@[q].side == parts@[q].side
                    &&& b.model().parts@[q].mfg_code is None
                    &&& b.model().parts@[q].value is None
                    &&& b.model().parts@[q].package is None
                    &&& !b.model().parts@[q].is_dummy
                },
        decreases parts@.len() - p,
    {
        b.add_part(Part {
            refdes: parts[p].name.clone(),
            mfg_code: None,
            value: None,
            package: None,
            side: parts[p].side,
            pins: Vec::new(),
            is_dummy: false,
        });
        p = p + 1;
    }
    let ghost m1 = b.model();
    let mut j: usize = 0;
    while j < pins.len()
        invariant
            b.wf(),
            j <= pins@.len(),
            pins@.len() == s@.pins.len(),
            parts@.len() + 3 < NO_NET,
            pins@.len() + nails@.len() + 3 < NO_NET,
            forall|q: int| 0 <= q < pins@.len() ==> v1_pin_view(#[trigger] pins@[q]) == s@.pins[q],
            forall|q: int| 0 <= q < pins@.len() ==> (#[trigger] pins@[q]).part < parts@.len(),
            b.model().parts@.len() == parts@.len(),
            same_parts_attrs(b.model().parts@, m1.parts@),
            b.model().pins@.len() == j,
            b.model().nets@.len() <= j,
            b.model().warnings@.len() == 0,
            b.model().outline@ == m1.outline@,
            b.model().format_label@ == m1.format_label@,
            forall|q: int|
                0 <= q < j ==> {
                    &&& (#[trigger] b.model().pins@[q]).part == s@.pins[q].part
                    &&& b.model().pins@[q].number@ == s@.pins[q].number
                    &&& b.model().pins@[q].name@.len() == 0
                    &&& b.model().pins@[q].pos == s@.pins[q].pos
                    &&& b.model().pins@[q].radius == DEFAULT_RADIUS
                    &&& b.model().pins@[q].side == s@.pins[q].side
                    &&& !b.model().pins@[q].is_test_pad
                    &&& names_net(b.model().nets@, b.model().pins@[q].net, s@.pins[q].net)
                },
        decreases pins@.len() - j,
    {
        let pin = &pins[j];
        let ghost nets_before = b.model().nets@;
        let ghost pins_before = b.model().pins@;
        let net = b.net_id(pin.net.as_str());
        let new_pin = Pin {
            part: pin.part as u32,
            number: pin.number.clone(),
            name: String::new(),
            pos: pin.pos,
            radius: DEFAULT_RADIUS,
            side: pin.side,
            net,
            is_test_pad: false,
        };
        let ghost pin_v = new_pin;
        b.add_pin(new_pin);
        proof {
            let nets_now = b.model().nets@;
            assert(b.model().pins@[j as int] == stored_pin(pin_v));
            assert(v1_pin_view(pins@[j as int]) == s@.pins[j as int]);
            assert forall|q: int| 0 <= q < j + 1 implies names_net(
                nets_now,
                (#[trigger] b.model().pins@[q]).net,
                s@.pins[q].net,
            ) by {
                if q < j {
                    assert(b.model().pins@[q] == pins_before[q]);
                    lemma_names_net_stable(nets_before, nets_now, pins_before[q].net, s@.pins[q].net);
                }
            }
            assert forall|q: int| 0 <= q < j implies #[trigger] b.model().pins@[q] == pins_before[q] by {}
        }
        j = j + 1;
    }
    let ghost m2 = b.model();
    add_nails_as_pins(&mut b, nails.as_slice());
    proof {
        let m3 = b.model();
        assert forall|q: int| 0 <= q < pins@.len() implies names_net(
            m3.nets@,
            (#[trigger] m3.pins@[q]).net,
            s@.pins[q].net,
        ) by {
            assert(m3.pins@[q] == m2.pins@[q]);
            lemma_names_net_stable(m2.nets@, m3.nets@, m2.pins@[q].net, s@.pins[q].net);
        }
    }
    let ghost m3 = b.model();
    proof {
        b.lemma_wf();
    }
    let m = b.finish(BoardFormat::Bvr);
    proof {
        let np = parts@.len() as int;
        assert forall|q: int| 0 <= q < np implies (#[trigger] m.parts@[q]).refdes@ == s@.parts[q].0 && m.parts@[q].side
            == finished_side(Part { side: s@.parts[q].1, ..m.parts@[q] }, m.pins@) by {
            assert(same_part_attrs(m3.parts@[q], m1.parts@[q]));
            assert(m.parts@[q] == Part { side: finished_side(m3.parts@[q], m3.pins@), ..m3.parts@[q] });
            assert(((parts@[q]).name@, parts@[q].side) == s@.parts[q]);
        }
        if nails@.len() > 0 {
            assert(m.parts@[np] == Part { side: finished_side(m3.parts@[np], m3.pins@), ..m3.parts@[np] });
            assert(m.parts@[np + 1] == Part { side: finished_side(m3.parts@[np + 1], m3.pins@), ..m3.parts@[np + 1] });
        }
        assert forall|k: int| 0 <= k < s@.nails.len() implies nail_pin(
            #[trigger] m.pins@[pins@.len() + k],
            s@.nails[k].0,
            s@.nails[k].1,
            0,
            s@.nails[k].2,
            np as u32,
            (np + 1) as u32,
            m.nets@,
        ) by {
            assert(((nails@[k]).pos, nails@[k].side, nails@[k].net@) == s@.nails[k]);
        }
        assert(m.outline@ == polyline_segments(s@.outline));
    }
    Ok(m)
}

/// Parses a v1 `.bvr` file.
pub fn parse_v1(bytes: &[u8]) -> (r: Result<BoardModel, ParseError>)
    ensures
        ({
            let s = v1_scan(stringfile_lines(bytes@));
            &&& s.block == 0 ==> fails_unrecognized(r)
            &&& s.block != 0 ==> (r is Ok <==> board_fits(
                s.parts.len() as int,
                s.pins.len() as int,
                s.nails.len() as int,
            ))
            &&& s.block != 0 && r is Err ==> fails_malformed(r)
            &&& r is Ok ==> v1_model(r->Ok_0, s)
        }),
{
    let lines = split_lines(bytes);
    let ghost all = lines@.map_values(|l: &[u8]| l@);
    let mut block: u8 = 0;
    let mut skip = false;
    let mut prev_name = String::new();
    let mut has_part = false;
    let mut last_side = Side::Top;
    let mut outline: Vec<Point> = Vec::new();
    let mut parts: Vec<V1PartRec> = Vec::new();
    let mut pins: Vec<V1PinRec> = Vec::new();
    let mut nails: Vec<RawNail> = Vec::new();
    let ghost mut s = v1_start();
    proof {
        reveal_strlit("");
    }
    let mut i: usize = 0;
    assert(all.take(0) =~= Seq::<Seq<u8>>::empty());
    while i < lines.len()
        invariant
            all == lines@.map_values(|l: &[u8]| l@),
            all == stringfile_lines(bytes@),
            i <= lines@.len(),
            s == v1_scan(all.take(i as int)),
            block == s.block,
            skip == s.skip,
            prev_name@ == s.prev,
            has_part == s.has_part,
            last_side == s.side,
            has_part ==> s.parts.len() > 0,
            outline@ == s.outline,
            parts@.len() == s.parts.len(),
            forall|p: int| 0 <= p < parts@.len() ==> ((#[trigger] parts@[p]).name@, parts@[p].side) == s.parts[p],
            pins@.len() == s.pins.len(),
            forall|j: int| 0 <= j < pins@.len() ==> v1_pin_view(#[trigger] pins@[j]) == s.pins[j],
            forall|j: int| 0 <= j < pins@.len() ==> (#[trigger] pins@[j]).part < parts@.len(),
            nails@.len() == s.nails.len(),
            forall|k: int|
                0 <= k < nails@.len() ==> ((#[trigger] nails@[k]).pos, nails@[k].side, nails@[k].net@) == s.nails[k]
                    && nails@[k].probe == 0,
        decreases lines@.len() - i,
    {
        let line = ltrim(lines[i]);
        let ghost prev = s;
        proof {
            assert(all.take(i + 1).drop_last() =~= all.take(i as int));
            assert(all.take(i + 1).last() == lines@[i as int]@);
            s = v1_step(prev, lines@[i as int]@);
        }
        if skip {
            skip = false;
        } else if line.len() != 0 {
            let sec = v1_section_of(line);
            if sec != 0 {
                block = sec;
                skip = true;
            } else if block == 1 {
                let pt = read_v1_point(line);
                outline.push(pt);
            } else if block == 2 {
                let rec = read_v1_pin_line(line);
                if !same_text(rec.name.as_str(), prev_name.as_str()) {
                    parts.push(V1PartRec { name: rec.name.clone(), side: rec.side });
                    has_part = true;
                    last_side = rec.side;
                    prev_name = rec.name.clone();
                }
                if has_part {
                    let ghost before = pins@;
                    pins.push(
                        V1PinRec {
                            part: parts.len() - 1,
                            number: rec.number,
                            pos: rec.pos,
                            side: last_side,
                            net: rec.net,
                        },
                    );
                    proof {
                        assert forall|j: int| 0 <= j < pins@.len() implies (#[trigger] pins@[j]).part < parts@.len() by {
                            if j < before.len() {
                                assert(pins@[j] == before[j]);
                            }
                        }
                    }
                }
            } else if block == 3 {
                let nail = read_v1_nail(line);
                nails.push(nail);
            }
        }
        proof {
            assert(outline@ =~= s.outline);
        }
        i = i + 1;
    }
    assert(all.take(i as int) =~= all);
    if block == 0 {
        return Err(ParseError::Unrecognized);
    }
    assemble_v1(outline, parts, pins, nails, Ghost(s))
}

/// Which v3 record a (trimmed) line is: the first of the keys, in the
/// order they are tried, that the line begins with (or, for the two end
/// markers, equals); 0 for none.
pub open spec fn v3_record(l: Seq<u8>) -> u8 {
    if starts(l, "PART_NAME ".spec_bytes()) {
        1
    } else if starts(l, "PART_SIDE ".spec_bytes()) {
        2
    } else if starts(l, "PART_ORIGIN ".spec_bytes()) {
        3
    } else if starts(l, "PART_MOUNT ".spec_bytes()) {
        4
    } else if starts(l, "PIN_NUMBER ".spec_bytes()) {
        5
    } else if starts(l, "PIN_NAME ".spec_bytes()) {
        6
    } else if starts(l, "PIN_SIDE ".spec_bytes()) {
        7
    } else if starts(l, "PIN_ORIGIN ".spec_bytes()) {
        8
    } else if starts(l, "PIN_RADIUS ".spec_bytes()) {
        9
    } else if starts(l, "PIN_NET ".spec_bytes()) {
        10
    } else if l == "PIN_END".spec_bytes() {
        11
    } else if l == "PART_END".spec_bytes() {
        12
    } else if starts(l, "OUTLINE_POINTS ".spec_bytes()) {
        13
    } else if starts(l, "OUTLINE_SEGMENTED ".spec_bytes()) {
        14
    } else {
        0
    }
}

pub open spec fn starts(l: Seq<u8>, t: Seq<u8>) -> bool {
    t.len() <= l.len() && l.take(t.len() as int) == t
}

fn v3_record_of(l: &[u8]) -> (r: u8)
    ensures
        r == v3_record(l@),
{
    if line_starts(l, "PART_NAME ") {
        1
    } else if line_starts(l, "PART_SIDE ") {
        2
    } else if line_starts(l, "PART_ORIGIN ") {
        3
    } else if line_starts(l, "PART_MOUNT ") {
        4
    } else if line_starts(l, "PIN_NUMBER ") {
        5
    } else if line_starts(l, "PIN_NAME ") {
        6
    } else if line_starts(l, "PIN_SIDE ") {
        7
    } else if line_starts(l, "PIN_ORIGIN ") {
        8
    } else if line_starts(l, "PIN_RADIUS ") {
        9
    } else if line_starts(l, "PIN_NET ") {
        10
    } else if line_is(l, "PIN_END") {
        11
    } else if line_is(l, "PART_END") {
        12
    } else if line_starts(l, "OUTLINE_POINTS ") {
        13
    } else if line_starts(l, "OUTLINE_SEGMENTED ") {
        14
    } else {
        0
    }
}

/// "T" is the top side, "B" the bottom, anything else both.
pub open spec fn v3_letter_side(t: Seq<char>) -> Side {
    if t == "T"@ {
        Side::Top
    } else if t == "B"@ {
        Side::Bottom
    } else {
        Side::Both
    }
}

/// A BVR v3 side letter: "T" is the top, "B" the bottom, anything else
/// both.
pub proof fn lemma_v3_side_letters(t: Seq<char>)
    ensures
        v3_letter_side(t) == Side::Top <==> t == "T"@,
        v3_letter_side(t) == Side::Bottom <==> t == "B"@,
        v3_letter_side(t) == Side::Both <==> (t != "T"@ && t != "B"@),
{
    reveal_strlit("T");
    reveal_strlit("B");
    assert("T"@[0] != "B"@[0]);
}

fn side_letter(t: &str) -> (s: Side)
    ensures
        s == v3_letter_side(t@),
{
    if same_text(t, "T") {
        Side::Top
    } else if same_text(t, "B") {
        Side::Bottom
    } else {
        Side::Both
    }
}

/// The length of the key that opens a record of each kind.
pub open spec fn v3_key_len(k: u8) -> int {
    if k == 1 || k == 2 {
        10
    } else if k == 3 {
        12
    } else if k == 4 || k == 5 || k == 8 || k == 9 {
        11
    } else if k == 6 || k == 7 {
        9
    } else if k == 10 {
        8
    } else if k == 13 {
        15
    } else if k == 14 {
        18
    } else {
        0
    }
}

/// Where the value of a record starts: just past its key.
pub open spec fn v3_at(l: Seq<u8>, k: u8) -> int {
    if v3_key_len(k) <= l.len() {
        v3_key_len(k)
    } else {
        l.len() as int
    }
}

fn key_len(k: u8) -> (n: usize)
    ensures
        n == v3_key_len(k),
{
    if k == 1 || k == 2 {
        10
    } else if k == 3 {
        12
    } else if k == 4 || k == 5 || k == 8 || k == 9 {
        11
    } else if k == 6 || k == 7 {
        9
    } else if k == 10 {
        8
    } else if k == 13 {
        15
    } else if k == 14 {
        18
    } else {
        0
    }
}

/// A whole number of mils, as model units: where the read stops and the
/// value.
pub open spec fn mils_read(l: Seq<u8>, pos: int) -> (int, i64) {
    (scaled_read(l, pos, 0).0, mil_units(scaled_read(l, pos, 0).1))
}

/// Whole mils read as a number, in coordinate units.
fn whole_mils(c: &mut Cursor) -> (v: i64)
    ensures
        final(c).data() == old(c).data(),
        (final(c).offset(), v) == mils_read(old(c).data(), old(c).offset()),
        old(c).offset() <= final(c).offset() <= old(c).data().len(),
{
    to_mil_units(c.read_scaled(0))
}

/// Two numbers at `pos` as a point.
pub open spec fn v3_point_at(l: Seq<u8>, pos: int) -> (int, Point) {
    let (p1, x) = mils_read(l, pos);
    let (p2, y) = mils_read(l, p1);
    (p2, Point { x, y })
}

/// The points of an `OUTLINE_POINTS` list from `pos`: pairs of numbers
/// until a pair reads nothing.
pub open spec fn v3_points(l: Seq<u8>, pos: int) -> Seq<Point>
    decreases l.len() - pos,
{
    let (p, pt) = v3_point_at(l, pos);
    if p <= pos || p > l.len() {
        Seq::empty()
    } else {
        seq![pt] + v3_points(l, p)
    }
}

/// The segments of an `OUTLINE_SEGMENTED` list from `pos`: quadruples of
/// numbers until one reads nothing.
pub open spec fn v3_segments(l: Seq<u8>, pos: int) -> Seq<(Point, Point)>
    decreases l.len() - pos,
{
    let (p1, a) = v3_point_at(l, pos);
    let (p2, b) = v3_point_at(l, p1);
    if p2 <= pos || p2 > l.len() {
        Seq::empty()
    } else {
        seq![(a, b)] + v3_segments(l, p2)
    }
}

/// The pin being read: number, name, side if given, position, radius and
/// net name.
pub struct V3PinState {
    pub number: Seq<char>,
    pub name: Seq<char>,
    pub side: Option<Side>,
    pub pos: Point,
    pub radius: i64,
    pub net: Seq<char>,
}

pub open spec fn v3_no_pin() -> V3PinState {
    V3PinState {
        number: Seq::empty(),
        name: Seq::empty(),
        side: None,
        pos: Point { x: 0, y: 0 },
        radius: 0,
        net: Seq::empty(),
    }
}

/// A pin of a finished part.
pub struct V3Pin {
    pub part: int,
    pub number: Seq<char>,
    pub name: Seq<char>,
    pub pos: Point,
    pub radius: i64,
    pub side: Side,
    pub net: Seq<char>,
}

/// A finished pin of part `part`, whose side is `side` unless the pin
/// names its own.
pub open spec fn v3_commit(p: V3PinState, part: int, side: Side) -> V3Pin {
    V3Pin {
        part,
        number: p.number,
        name: p.name,
        pos: p.pos,
        radius: p.radius,
        side: match p.side {
            Some(s) => s,
            None => side,
        },
        net: p.net,
    }
}

/// What reading the records collects: the part being read (name, side,
/// origin, mount), the pin being read, the pins ended but not yet given to
/// a part, whether any part name or outline was seen, and the outline,
/// parts and pins so far.
pub struct V3Scan {
    pub name: Seq<char>,
    pub side: Side,
    pub origin: Point,
    pub is_th: bool,
    pub pin: V3PinState,
    pub pending: Seq<V3PinState>,
    pub any: bool,
    pub outline: Seq<(Point, Point)>,
    pub parts: Seq<(Seq<char>, Side)>,
    pub pins: Seq<V3Pin>,
}

pub open spec fn v3_start() -> V3Scan {
    V3Scan {
        name: Seq::empty(),
        side: Side::Top,
        origin: Point { x: 0, y: 0 },
        is_th: false,
        pin: v3_no_pin(),
        pending: Seq::empty(),
        any: false,
        outline: Seq::empty(),
        parts: Seq::empty(),
        pins: Seq::empty(),
    }
}

/// Ending a part: it takes the pins ended since the previous part, and the
/// part fields start over.
pub open spec fn v3_end_part(s: V3Scan) -> V3Scan {
    let side = if s.is_th { Side::Both } else { s.side };
    let idx = s.parts.len() as int;
    V3Scan {
        parts: s.parts.push((s.name, side)),
        pins: s.pins + s.pending.map_values(|p: V3PinState| v3_commit(p, idx, side)),
        pending: Seq::empty(),
        name: Seq::empty(),
        side: Side::Top,
        origin: Point { x: 0, y: 0 },
        is_th: false,
        ..s
    }
}

/// One line.
pub open spec fn v3_step(s: V3Scan, line: Seq<u8>) -> V3Scan {
    v3_apply(s, trimmed(line))
}

/// A part record (kinds 1 to 4) read into the part being read.
pub open spec fn v3_part_field(s: V3Scan, l: Seq<u8>, k: u8) -> V3Scan {
    let at = v3_at(l, k);
    if k == 1 {
        V3Scan { name: token_at(l, at), any: true, ..s }
    } else if k == 2 {
        V3Scan { side: v3_letter_side(token_at(l, at)), ..s }
    } else if k == 3 {
        V3Scan { origin: v3_point_at(l, at).1, ..s }
    } else {
        V3Scan { is_th: token_at(l, at) != "SMD"@, ..s }
    }
}

/// A pin record (kinds 5 to 10) read into the pin being read; positions
/// are relative to the part origin `origin`.
pub open spec fn v3_pin_field(p: V3PinState, origin: Point, l: Seq<u8>, k: u8) -> V3PinState {
    let at = v3_at(l, k);
    if k == 5 {
        V3PinState { number: token_at(l, at), ..p }
    } else if k == 6 {
        V3PinState { name: token_at(l, at), ..p }
    } else if k == 7 {
        V3PinState { side: Some(v3_letter_side(token_at(l, at))), ..p }
    } else if k == 8 {
        let o = v3_point_at(l, at).1;
        V3PinState { pos: Point { x: clamp64(o.x + origin.x), y: clamp64(o.y + origin.y) }, ..p }
    } else if k == 9 {
        V3PinState { radius: scaled_read(l, at, 3).1, ..p }
    } else {
        V3PinState { net: token_at(l, at), ..p }
    }
}

/// One trimmed line.
pub open spec fn v3_apply(s: V3Scan, l: Seq<u8>) -> V3Scan {
    let k = v3_record(l);
    let at = v3_at(l, k);
    if l.len() == 0 {
        s
    } else if 1 <= k <= 4 {
        v3_part_field(s, l, k)
    } else if 5 <= k <= 10 {
        V3Scan { pin: v3_pin_field(s.pin, s.origin, l, k), ..s }
    } else if k == 11 {
        V3Scan { pending: s.pending.push(s.pin), pin: v3_no_pin(), ..s }
    } else if k == 12 {
        v3_end_part(s)
    } else if k == 13 {
        V3Scan { outline: s.outline + polyline_segments(v3_points(l, at)), any: true, ..s }
    } else if k == 14 {
        V3Scan { outline: s.outline + v3_segments(l, at), any: true, ..s }
    } else {
        s
    }
}

pub open spec fn v3_scan(lines: Seq<Seq<u8>>) -> V3Scan
    decreases lines.len(),
{
    if lines.len() == 0 {
        v3_start()
    } else {
        v3_step(v3_scan(lines.drop_last()), lines.last())
    }
}

/// The pin that record `r` becomes.
pub open spec fn v3_pin_of(pin: Pin, r: V3Pin, m: BoardModel) -> bool {
    &&& pin.part == r.part
    &&& pin.number@ == r.number
    &&& pin.name@ == r.name
    &&& pin.pos == r.pos
    &&& pin.radius == (if r.radius <= 0 { DEFAULT_RADIUS } else { r.radius })
    &&& pin.side == r.side
    &&& !pin.is_test_pad
    &&& names_net(m.nets@, pin.net, r.net)
}

/// The board a scan describes.
pub open spec fn v3_model(m: BoardModel, s: V3Scan) -> bool {
    &&& parsed_ok(m, BoardFormat::Bvr3)
    &&& m.outline@ == s.outline
    &&& m.warnings@.len() == 0
    &&& m.parts@.len() == s.parts.len()
    &&& forall|p: int|
        0 <= p < s.parts.len() ==> {
            &&& (#[trigger] m.parts@[p]).refdes@ == s.parts[p].0
            &&& m.parts@[p].side == finished_side(Part { side: s.parts[p].1, ..m.parts@[p] }, m.pins@)
            &&& m.parts@[p].mfg_code is None
            &&& m.parts@[p].value is None
            &&& m.parts@[p].package is None
            &&& !m.parts@[p].is_dummy
        }
    &&& m.pins@.len() == s.pins.len()
    &&& forall|j: int| 0 <= j < s.pins.len() ==> v3_pin_of(#[trigger] m.pins@[j], s.pins[j], m)
}

struct V3PinRec {
    number: String,
    name: String,
    side: Option<Side>,
    pos: Point,
    radius: i64,
    net: String,
}

spec fn pin_state(p: V3PinRec) -> V3PinState {
    V3PinState { number: p.number@, name: p.name@, side: p.side, pos: p.pos, radius: p.radius, net: p.net@ }
}

fn empty_pin() -> (p: V3PinRec)
    ensures
        pin_state(p) == v3_no_pin(),
{
    V3PinRec {
        number: String::new(),
        name: String::new(),
        side: None,
        pos: Point { x: 0, y: 0 },
        radius: 0,
        net: String::new(),
    }
}

struct V3PartRec {
    name: String,
    side: Side,
}

struct V3DonePin {
    part: usize,
    number: String,
    name: String,
    pos: Point,
    radius: i64,
    side: Side,
    net: String,
}

spec fn done_view(p: V3DonePin) -> V3Pin {
    V3Pin {
        part: p.part as int,
        number: p.number@,
        name: p.name@,
        pos: p.pos,
        radius: p.radius,
        side: p.side,
        net: p.net@,
    }
}

/// Builds the board from the records of a scan.
fn assemble_v3(
    outline: Vec<(Point, Point)>,
    parts: Vec<V3PartRec>,
    pins: Vec<V3DonePin>,
    s: Ghost<V3Scan>,
) -> (r: Result<BoardModel, ParseError>)
    requires
        outline@ == s@.outline,
        parts@.len() == s@.parts.len(),
        forall|p: int| 0 <= p < parts@.len() ==> ((#[trigger] parts@[p]).name@, parts@[p].side) == s@.parts[p],
        pins@.len() == s@.pins.len(),
        forall|j: int| 0 <= j < pins@.len() ==> done_view(#[trigger] pins@[j]) == s@.pins[j],
        forall|j: int| 0 <= j < pins@.len() ==> (#[trigger] pins@[j]).part < parts@.len(),
    ensures
        r is Ok <==> board_fits(s@.parts.len() as int, s@.pins.len() as int, 0),
        r is Err ==> fails_malformed(r),
        r matches Ok(m) ==> v3_model(m, s@),
{
    if !check_fits(parts.len(), pins.len(), 0) {
        return Err(malformed("board too large"));
    }
    let mut b = BoardBuilder::new();
    let mut o: usize = 0;
    while o < outline.len()
        invariant
            b.wf(),
            o <= outline@.len(),
            b.model().outline@ == outline@.take(o as int),
            b.model().parts@.len() == 0,
            b.model().pins@.len() == 0,
            b.model().nets@.len() == 0,
            b.model().warnings@.len() == 0,
        decreases outline@.len() - o,
    {
        let (a, z) = outline[o];
        b.add_outline_segment(a, z);
        o = o + 1;
        assert(b.model().outline@ =~= outline@.take(o as int));
    }
    assert(outline@.take(o as int) =~= outline@);
    let mut p: usize = 0;
    while p < parts.len()
        invariant
            b.wf(),
            p <= parts@.len(),
            parts@.len() + 3 < NO_NET,
            b.model().parts@.len() == p,
            b.model().pins@.len() == 0,
            b.model().nets@.len() == 0,
            b.model().warnings@.len() == 0,
            b.model().outline@ == outline@,
            forall|q: int|
                0 <= q < p ==> {
                    &&& (#[trigger] b.model().parts@[q]).refdes@ == parts@[q].name@
                    &&& b.model().parts@[q].side == parts@[q].side
                    &&& b.model().parts@[q].mfg_code is None
                    &&& b.model().parts@[q].value is None
                    &&& b.model().parts@[q].package is None
                    &&& !b.model().parts@[q].is_dummy
                },
        decreases parts@.len() - p,
    {
        b.add_part(Part {
            refdes: parts[p].name.clone(),
            mfg_code: None,
            value: None,
            package: None,
            side: parts[p].side,
            pins: Vec::new(),
            is_dummy: false,
        });
        p = p + 1;
    }
    let ghost m1 = b.model();
    let mut j: usize = 0;
    while j < pins.len()
        invariant
            b.wf(),
            j <= pins@.len(),
            pins@.len() == s@.pins.len(),
            parts@.len() + 3 < NO_NET,
            pins@.len() + 3 < NO_NET,
            forall|q: int| 0 <= q < pins@.len() ==> done_view(#[trigger] pins@[q]) == s@.pins[q],
            forall|q: int| 0 <= q < pins@.len() ==> (#[trigger] pins@[q]).part < parts@.len(),
            b.model().parts@.len() == parts@.len(),
            same_parts_attrs(b.model().parts@, m1.parts@),
            b.model().pins@.len() == j,
            b.model().nets@.len() <= j,
            b.model().warnings@.len() == 0,
            b.model().outline@ == m1.outline@,
            b.model().format_label@ == m1.format_label@,
            forall|q: int| 0 <= q < j ==> v3_pin_of(#[trigger] b.model().pins@[q], s@.pins[q], b.model()),
        decreases pins@.len() - j,
    {
        let pin = &pins[j];
        let ghost nets_before = b.model().nets@;
        let ghost pins_before = b.model().pins@;
        let net = b.net_id(pin.net.as_str());
        let new_pin = Pin {
            part: pin.part as u32,
            number: pin.number.clone(),
            name: pin.name.clone(),
            pos: pin.pos,
            radius: pin.radius,
            side: pin.side,
            net,
            is_test_pad: false,
        };
        let ghost pin_v = new_pin;
        b.add_pin(new_pin);
        proof {
            let nets_now = b.model().nets@;
            assert(b.model().pins@[j as int] == stored_pin(pin_v));
            assert(done_view(pins@[j as int]) == s@.pins[j as int]);
            assert forall|q: int| 0 <= q < j + 1 implies v3_pin_of(
                #[trigger] b.model().pins@[q],
                s@.pins[q],
                b.model(),
            ) by {
                if q < j {
                    assert(b.model().pins@[q] == pins_before[q]);
                    lemma_names_net_stable(nets_before, nets_now, pins_before[q].net, s@.pins[q].net);
                }
            }
        }
        j = j + 1;
    }
    let ghost m3 = b.model();
    proof {
        b.lemma_wf();
    }
    let m = b.finish(BoardFormat::Bvr3);
    proof {
        assert forall|q: int| 0 <= q < parts@.len() implies (#[trigger] m.parts@[q]).refdes@ == s@.parts[q].0 && m.parts@[q].side
            == finished_side(Part { side: s@.parts[q].1, ..m.parts@[q] }, m.pins@) by {
            assert(same_part_attrs(m3.parts@[q], m1.parts@[q]));
            assert(m.parts@[q] == Part { side: finished_side(m3.parts@[q], m3.pins@), ..m3.parts@[q] });
            assert(((parts@[q]).name@, parts@[q].side) == s@.parts[q]);
        }
        assert forall|q: int| 0 <= q < pins@.len() implies v3_pin_of(#[trigger] m.pins@[q], s@.pins[q], m) by {
            assert(v3_pin_of(m3.pins@[q], s@.pins[q], m3));
        }
    }
    Ok(m)
}

/// The state of a v3 read.
struct V3State {
    part_name: String,
    part_side: Side,
    origin: Point,
    is_th: bool,
    pin: V3PinRec,
    pending: Vec<V3PinRec>,
    any: bool,
    outline: Vec<(Point, Point)>,
    parts: Vec<V3PartRec>,
    pins: Vec<V3DonePin>,
}

/// The state holds what the scan `s` describes.
spec fn v3_rel(st: V3State, s: V3Scan) -> bool {
    &&& st.part_name@ == s.name
    &&& st.part_side == s.side
    &&& st.origin == s.origin
    &&& st.is_th == s.is_th
    &&& pin_state(st.pin) == s.pin
    &&& st.pending@.len() == s.pending.len()
    &&& forall|q: int| 0 <= q < st.pending@.len() ==> pin_state(#[trigger] st.pending@[q]) == s.pending[q]
    &&& st.any == s.any
    &&& st.outline@ == s.outline
    &&& st.parts@.len() == s.parts.len()
    &&& forall|p: int| 0 <= p < st.parts@.len() ==> ((#[trigger] st.parts@[p]).name@, st.parts@[p].side) == s.parts[p]
    &&& st.pins@.len() == s.pins.len()
    &&& forall|j: int| 0 <= j < st.pins@.len() ==> done_view(#[trigger] st.pins@[j]) == s.pins[j]
    &&& forall|j: int| 0 <= j < st.pins@.len() ==> (#[trigger] st.pins@[j]).part < st.parts@.len()
}

fn end_part(st: &mut V3State, Ghost(s): Ghost<V3Scan>)
    requires
        v3_rel(*old(st), s),
    ensures
        v3_rel(*final(st), v3_end_part(s)),
{
    let side = if st.is_th {
        Side::Both
    } else {
        st.part_side
    };
    let idx = st.parts.len();
    let mut name = String::new();
    std::mem::swap(&mut name, &mut st.part_name);
    st.parts.push(V3PartRec { name, side });
    let ghost parts1 = st.parts@;
    let ghost pins0 = st.pins@;
    let ghost add = s.pending.map_values(|p: V3PinState| v3_commit(p, idx as int, side));
    let mut k: usize = 0;
    while k < st.pending.len()
        invariant
            k <= st.pending@.len(),
            st.pending@.len() == s.pending.len(),
            forall|q: int| 0 <= q < st.pending@.len() ==> pin_state(#[trigger] st.pending@[q]) == s.pending[q],
            add == s.pending.map_values(|p: V3PinState| v3_commit(p, idx as int, side)),
            st.parts@ == parts1,
            st.part_name@ == Seq::<char>::empty(),
            idx < st.parts@.len(),
            st.any == s.any,
            st.outline@ == s.outline,
            pin_state(st.pin) == s.pin,
            st.pins@.len() == pins0.len() + k,
            forall|q: int| 0 <= q < pins0.len() ==> #[trigger] st.pins@[q] == pins0[q],
            forall|q: int| 0 <= q < k ==> done_view(#[trigger] st.pins@[pins0.len() + q]) == add[q],
            forall|j: int| 0 <= j < st.pins@.len() ==> (#[trigger] st.pins@[j]).part < st.parts@.len(),
        decreases st.pending@.len() - k,
    {
        let p = &st.pending[k];
        let done = V3DonePin {
            part: idx,
            number: p.number.clone(),
            name: p.name.clone(),
            pos: p.pos,
            radius: p.radius,
            side: match p.side {
                Some(x) => x,
                None => side,
            },
            net: p.net.clone(),
        };
        let ghost before = st.pins@;
        st.pins.push(done);
        proof {
            assert(pin_state(st.pending@[k as int]) == s.pending[k as int]);
            assert forall|j: int| 0 <= j < st.pins@.len() implies (#[trigger] st.pins@[j]).part < st.parts@.len() by {
                if j < before.len() {
                    assert(st.pins@[j] == before[j]);
                }
            }
            assert forall|q: int| 0 <= q < k + 1 implies done_view(#[trigger] st.pins@[pins0.len() + q]) == add[q] by {
                if q < k {
                    assert(st.pins@[pins0.len() + q] == before[pins0.len() + q]);
                }
            }
        }
        k = k + 1;
    }
    st.pending = Vec::new();
    st.part_side = Side::Top;
    st.origin = Point { x: 0, y: 0 };
    st.is_th = false;
    proof {
        let t = v3_end_part(s);
        assert forall|j: int| 0 <= j < st.pins@.len() implies done_view(#[trigger] st.pins@[j]) == t.pins[j] by {
            if j < pins0.len() {
                assert(st.pins@[j] == pins0[j]);
            } else {
                assert(done_view(st.pins@[pins0.len() + (j - pins0.len())]) == add[j - pins0.len()]);
            }
        }
        assert forall|p: int| 0 <= p < st.parts@.len() implies ((#[trigger] st.parts@[p]).name@, st.parts@[p].side) == t.parts[p] by {}
    }
}

/// Reads an `OUTLINE_POINTS` list from the cursor.
fn read_points(c: &mut Cursor) -> (pts: Vec<Point>)
    requires
        0 <= old(c).offset() <= old(c).data().len(),
    ensures
        pts@ == v3_points(old(c).data(), old(c).offset()),
{
    let ghost line = c.data();
    let ghost at = c.offset();
    let mut pts: Vec<Point> = Vec::new();
    loop
        invariant
            c.data() == line,
            0 <= c.offset() <= line.len(),
            pts@ + v3_points(line, c.offset()) == v3_points(line, at),
        ensures
            pts@ == v3_points(line, at),
        decreases c.data().len() - c.offset(),
    {
        let before = c.pos();
        let x = whole_mils(c);
        let y = whole_mils(c);
        if c.pos() == before {
            assert(v3_points(line, before as int) =~= Seq::<Point>::empty());
            assert(pts@ =~= pts@ + Seq::<Point>::empty());
            break;
        }
        let ghost rest = v3_points(line, c.offset());
        proof {
            assert(v3_points(line, before as int) == seq![Point { x, y }] + rest);
            assert(pts@.push(Point { x, y }) + rest =~= pts@ + (seq![Point { x, y }] + rest));
        }
        pts.push(Point { x, y });
    }
    pts
}

/// Reads an `OUTLINE_SEGMENTED` list from the cursor onto `out`.
fn read_segments(c: &mut Cursor, out: &mut Vec<(Point, Point)>)
    requires
        0 <= old(c).offset() <= old(c).data().len(),
    ensures
        final(out)@ == old(out)@ + v3_segments(old(c).data(), old(c).offset()),
{
    let ghost line = c.data();
    let ghost at = c.offset();
    let ghost o0 = out@;
    loop
        invariant
            c.data() == line,
            0 <= c.offset() <= line.len(),
            o0 + v3_segments(line, at) == out@ + v3_segments(line, c.offset()),
        ensures
            out@ == o0 + v3_segments(line, at),
        decreases c.data().len() - c.offset(),
    {
        let before = c.pos();
        let x1 = whole_mils(c);
        let y1 = whole_mils(c);
        let x2 = whole_mils(c);
        let y2 = whole_mils(c);
        if c.pos() == before {
            assert(v3_segments(line, before as int) =~= Seq::<(Point, Point)>::empty());
            assert(out@ =~= out@ + Seq::<(Point, Point)>::empty());
            break;
        }
        let seg = (Point { x: x1, y: y1 }, Point { x: x2, y: y2 });
        let ghost rest = v3_segments(line, c.offset());
        proof {
            assert(v3_segments(line, before as int) == seq![seg] + rest);
            assert(out@.push(seg) + rest =~= out@ + (seq![seg] + rest));
        }
        out.push(seg);
    }
}

fn part_field(st: &mut V3State, line: &[u8], kind: u8, Ghost(s): Ghost<V3Scan>)
    requires
        v3_rel(*old(st), s),
        1 <= kind <= 4,
    ensures
        v3_rel(*final(st), v3_part_field(s, line@, kind)),
{
    let mut c = Cursor::new(line);
    c.advance(key_len(kind));
    assert(c.offset() == v3_at(line@, kind));
    if kind == 1 {
        st.part_name = c.read_token();
        st.any = true;
    } else if kind == 2 {
        let t = c.read_token();
        st.part_side = side_letter(t.as_str());
    } else if kind == 3 {
        let x = whole_mils(&mut c);
        let y = whole_mils(&mut c);
        st.origin = Point { x, y };
    } else {
        let t = c.read_token();
        st.is_th = !same_text(t.as_str(), "SMD");
    }
}

fn pin_field(pin: &mut V3PinRec, origin: Point, line: &[u8], kind: u8)
    requires
        5 <= kind <= 10,
    ensures
        pin_state(*final(pin)) == v3_pin_field(pin_state(*old(pin)), origin, line@, kind),
{
    let mut c = Cursor::new(line);
    c.advance(key_len(kind));
    assert(c.offset() == v3_at(line@, kind));
    if kind == 5 {
        pin.number = c.read_token();
    } else if kind == 6 {
        pin.name = c.read_token();
    } else if kind == 7 {
        let t = c.read_token();
        pin.side = Some(side_letter(t.as_str()));
    } else if kind == 8 {
        let x = whole_mils(&mut c);
        let y = whole_mils(&mut c);
        pin.pos = Point { x: sat_add(x, origin.x), y: sat_add(y, origin.y) };
    } else if kind == 9 {
        pin.radius = c.read_scaled(3);
    } else {
        pin.net = c.read_token();
    }
}

fn outline_record(st: &mut V3State, line: &[u8], kind: u8, Ghost(s): Ghost<V3Scan>)
    requires
        v3_rel(*old(st), s),
        kind == 13 || kind == 14,
    ensures
        v3_rel(
            *final(st),
            V3Scan {
                outline: s.outline + (if kind == 13 {
                    polyline_segments(v3_points(line@, v3_at(line@, kind)))
                } else {
                    v3_segments(line@, v3_at(line@, kind))
                }),
                any: true,
                ..s
            },
        ),
{
    let mut c = Cursor::new(line);
    c.advance(key_len(kind));
    assert(c.offset() == v3_at(line@, kind));
    let mut out: Vec<(Point, Point)> = Vec::new();
    std::mem::swap(&mut out, &mut st.outline);
    if kind == 13 {
        let pts = read_points(&mut c);
        let segs = polyline_of(&pts);
        let ghost o0 = out@;
        let mut q: usize = 0;
        while q < segs.len()
            invariant
                q <= segs@.len(),
                out@ == o0 + segs@.take(q as int),
            decreases segs@.len() - q,
        {
            out.push(segs[q]);
            q = q + 1;
            assert(out@ =~= o0 + segs@.take(q as int));
        }
        assert(segs@.take(q as int) =~= segs@);
    } else {
        read_segments(&mut c, &mut out);
    }
    std::mem::swap(&mut out, &mut st.outline);
    st.any = true;
}

/// Handles one trimmed, non-empty line.
fn v3_line(st: &mut V3State, line: &[u8], Ghost(s): Ghost<V3Scan>)
    requires
        v3_rel(*old(st), s),
        line@.len() > 0,
    ensures
        v3_rel(*final(st), v3_apply(s, line@)),
{
    let kind = v3_record_of(line);
    if 1 <= kind && kind <= 4 {
        part_field(st, line, kind, Ghost(s));
    } else if 5 <= kind && kind <= 10 {
        let origin = st.origin;
        pin_field(&mut st.pin, origin, line, kind);
    } else if kind == 11 {
        let mut done = empty_pin();
        std::mem::swap(&mut done, &mut st.pin);
        st.pending.push(done);
        proof {
            let t = v3_apply(s, line@);
            assert forall|q: int| 0 <= q < st.pending@.len() implies pin_state(#[trigger] st.pending@[q]) == t.pending[q] by {}
        }
    } else if kind == 12 {
        end_part(st, Ghost(s));
    } else if kind == 13 || kind == 14 {
        outline_record(st, line, kind, Ghost(s));
    }
}

/// Parses a v3 `.bvr` file.
pub fn parse_v3(bytes: &[u8]) -> (r: Result<BoardModel, ParseError>)
    ensures
        ({
            let s = v3_scan(stringfile_lines(bytes@));
            &&& !s.any ==> fails_unrecognized(r)
            &&& s.any ==> (r is Ok <==> board_fits(s.parts.len() as int, s.pins.len() as int, 0))
            &&& s.any && r is Err ==> fails_malformed(r)
            &&& r is Ok ==> v3_model(r->Ok_0, s)
        }),
{
    let lines = split_lines(bytes);
    let ghost all = lines@.map_values(|l: &[u8]| l@);
    let mut st = V3State {
        part_name: String::new(),
        part_side: Side::Top,
        origin: Point { x: 0, y: 0 },
        is_th: false,
        pin: empty_pin(),
        pending: Vec::new(),
        any: false,
        outline: Vec::new(),
        parts: Vec::new(),
        pins: Vec::new(),
    };
    let ghost mut s = v3_start();
    proof {
        reveal_strlit("");
    }
    let mut i: usize = 0;
    assert(all.take(0) =~= Seq::<Seq<u8>>::empty());
    while i < lines.len()
        invariant
            all == lines@.map_values(|l: &[u8]| l@),
            all == stringfile_lines(bytes@),
            i <= lines@.len(),
            s == v3_scan(all.take(i as int)),
            v3_rel(st, s),
        decreases lines@.len() - i,
    {
        let line = ltrim(lines[i]);
        let ghost prev = s;
        proof {
            assert(all.take(i + 1).drop_last() =~= all.take(i as int));
            assert(all.take(i + 1).last() == lines@[i as int]@);
            s = v3_step(prev, lines@[i as int]@);
        }
        if line.len() != 0 {
            v3_line(&mut st, line, Ghost(prev));
        }
        i = i + 1;
    }
    assert(all.take(i as int) =~= all);
    if !st.any {
        return Err(ParseError::Unrecognized);
    }
    assemble_v3(st.outline, st.parts, st.pins, Ghost(s))
}


} // verus!
