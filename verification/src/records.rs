//! Boards from records: the parts, pins, test probes and outline a parser
//! read, in file order, put together by the board builder. Pins are wired
//! to their nets in record order, then the probes become test pads, and a
//! format without an outline can have one fabricated around the pins.

use vstd::prelude::*;
use crate::builder::{
    BoardBuilder, polyline_segments, finished_side, names_net, stored_pin, lemma_names_net_stable, fabricated_outline,
};
use crate::model::{
    BoardModel, BoardFormat, Part, Pin, Point, Side, NO_NET, DEFAULT_RADIUS, same_parts_attrs,
    same_part_attrs, pin_positions,
};
use crate::strs::same_text;
use crate::parsers::{ParseError, parsed_ok, malformed, fails_malformed, board_fits, check_fits};
use crate::text::{add_nails_as_pins, RawNail, nail_pin, is_nail_group};

verus! {

/// A part as read: designator, side, and the manufacturer code and value
/// when the format carries them.
pub struct PartRec {
    pub name: String,
    pub side: Side,
    pub mfg_code: Option<String>,
    pub value: Option<String>,
    pub package: Option<String>,
}

/// A pin as read: the index of its part among the part records, number,
/// name, position, radius (the default one when not positive), side and
/// raw net name.
pub struct PinRec {
    pub part: usize,
    pub number: String,
    pub name: String,
    pub pos: Point,
    pub radius: i64,
    pub side: Side,
    pub net: String,
}

/// A part record as values.
pub struct PartSpec {
    pub name: Seq<char>,
    pub side: Side,
    pub mfg_code: Option<Seq<char>>,
    pub value: Option<Seq<char>>,
    pub package: Option<Seq<char>>,
}

/// A pin record as values.
pub struct PinSpec {
    pub part: int,
    pub number: Seq<char>,
    pub name: Seq<char>,
    pub pos: Point,
    pub radius: i64,
    pub side: Side,
    pub net: Seq<char>,
}

/// A probe as values: position, side, probe number and raw net name.
pub struct NailSpec {
    pub pos: Point,
    pub side: Side,
    pub probe: i64,
    pub net: Seq<char>,
}

pub open spec fn opt_text(o: Option<String>) -> Option<Seq<char>> {
    match o {
        Some(s) => Some(s@),
        None => None,
    }
}

pub open spec fn part_spec(p: PartRec) -> PartSpec {
    PartSpec {
        name: p.name@,
        side: p.side,
        mfg_code: opt_text(p.mfg_code),
        value: opt_text(p.value),
        package: opt_text(p.package),
    }
}

pub open spec fn pin_spec(p: PinRec) -> PinSpec {
    PinSpec {
        part: p.part as int,
        number: p.number@,
        name: p.name@,
        pos: p.pos,
        radius: p.radius,
        side: p.side,
        net: p.net@,
    }
}

pub open spec fn nail_spec(n: RawNail) -> NailSpec {
    NailSpec { pos: n.pos, side: n.side, probe: n.probe, net: n.net@ }
}

/// The pin that record `r` becomes.
pub open spec fn pin_of(pin: Pin, r: PinSpec, m: BoardModel) -> bool {
    &&& pin.part == r.part
    &&& pin.number@ == r.number
    &&& pin.name@ == r.name
    &&& pin.pos == r.pos
    &&& pin.radius == (if r.radius <= 0 { DEFAULT_RADIUS } else { r.radius })
    &&& pin.side == r.side
    &&& !pin.is_test_pad
    &&& names_net(m.nets@, pin.net, r.net)
}

/// The board the records describe: parts in order (a part marked `Both`
/// whose pins lean to one side takes that side), pins in order, then the
/// probes as test pads under two "..." parts, and the outline as given, or
/// fabricated around the pins when `fabricate` is set and none was given.
pub open spec fn records_model(
    m: BoardModel,
    format: BoardFormat,
    outline: Seq<(Point, Point)>,
    parts: Seq<PartSpec>,
    pins: Seq<PinSpec>,
    nails: Seq<NailSpec>,
    fabricate: bool,
) -> bool {
    let np = parts.len();
    let nj = pins.len();
    &&& parsed_ok(m, format)
    &&& m.warnings@.len() == 0
    &&& m.parts@.len() == np + (if nails.len() > 0 { 2int } else { 0int })
    &&& forall|p: int|
        0 <= p < np ==> {
            &&& (#[trigger] m.parts@[p]).refdes@ == parts[p].name
            &&& m.parts@[p].side == finished_side(Part { side: parts[p].side, ..m.parts@[p] }, m.pins@)
            &&& opt_text(m.parts@[p].mfg_code) == parts[p].mfg_code
            &&& opt_text(m.parts@[p].value) == parts[p].value
            &&& opt_text(m.parts@[p].package) == parts[p].package
            &&& !m.parts@[p].is_dummy
        }
    &&& nails.len() > 0 ==> is_nail_group(m.parts@[np as int], Side::Bottom) && is_nail_group(
        m.parts@[np + 1int],
        Side::Top,
    )
    &&& m.pins@.len() == nj + nails.len()
    &&& forall|j: int| 0 <= j < nj ==> pin_of(#[trigger] m.pins@[j], pins[j], m)
    &&& forall|k: int|
        0 <= k < nails.len() ==> nail_pin(
            #[trigger] m.pins@[nj + k],
            nails[k].pos,
            nails[k].side,
            nails[k].probe,
            nails[k].net,
            np as u32,
            (np + 1) as u32,
            m.nets@,
        )
    &&& m.outline@ == (if fabricate && outline.len() == 0 && m.pins@.len() > 0 {
        fabricated_outline(pin_positions(m.pins@))
    } else {
        outline
    })
}

/// Builds the board from records whose pins name existing parts. Fails
/// only when the counts do not fit the model's 32-bit indices.
pub fn assemble(
    format: BoardFormat,
    outline: &Vec<(Point, Point)>,
    parts: &Vec<PartRec>,
    pins: &Vec<PinRec>,
    nails: &Vec<RawNail>,
    fabricate: bool,
) -> (r: Result<BoardModel, ParseError>)
    requires
        forall|j: int| 0 <= j < pins@.len() ==> (#[trigger] pins@[j]).part < parts@.len(),
    ensures
        r is Ok <==> board_fits(parts@.len() as int, pins@.len() as int, nails@.len() as int),
        r is Err ==> fails_malformed(r),
        r matches Ok(m) ==> records_model(
            m,
            format,
            outline@,
            parts@.map_values(|p: PartRec| part_spec(p)),
            pins@.map_values(|p: PinRec| pin_spec(p)),
            nails@.map_values(|n: RawNail| nail_spec(n)),
            fabricate,
        ),
{
    if !check_fits(parts.len(), pins.len(), nails.len()) {
        return Err(malformed("board too large"));
    }
    let ghost ps = parts@.map_values(|p: PartRec| part_spec(p));
    let ghost js = pins@.map_values(|p: PinRec| pin_spec(p));
    let ghost ns = nails@.map_values(|n: RawNail| nail_spec(n));
    let mut b = BoardBuilder::new();
    let mut o: usize = 0;
    while o < outline.len()
        invariant
            b.wf(),
            o <= outline@.len(),
            b.model().outline@ == outline@.take(o as int),
            b.model().parts@.len() == 0,
            b.model().pins@.len() == 0,
            b.model().nets@.len() == 0,
            b.model().warnings@.len() == 0,
        decreases outline@.len() - o,
    {
        let (a, z) = outline[o];
        b.add_outline_segment(a, z);
        o = o + 1;
        assert(b.model().outline@ =~= outline@.take(o as int));
    }
    assert(outline@.take(o as int) =~= outline@);
    let mut p: usize = 0;
    while p < parts.len()
        invariant
            b.wf(),
            p <= parts@.len(),
            parts@.len() + 3 < NO_NET,
            ps == parts@.map_values(|p: PartRec| part_spec(p)),
            b.model().parts@.len() == p,
            b.model().pins@.len() == 0,
            b.model().nets@.len() == 0,
            b.model().warnings@.len() == 0,
            b.model().outline@ == outline@,
            forall|q: int|
                0 <= q < p ==> {
                    &&& (#[trigger] b.model().parts@[q]).refdes@ == ps[q].name
                    &&& b.model().parts@[q].side == ps[q].side
                    &&& opt_text(b.model().parts@[q].mfg_code) == ps[q].mfg_code
                    &&& opt_text(b.model().parts@[q].value) == ps[q].value
                    &&& opt_text(b.model().parts@[q].package) == ps[q].package
                    &&& !b.model().parts@[q].is_dummy
                },
        decreases parts@.len() - p,
    {
        let rec = &parts[p];
        let code = match &rec.mfg_code {
            Some(c) => Some(c.clone()),
            None => None,
        };
        let value = match &rec.value {
            Some(v) => Some(v.clone()),
            None => None,
        };
        let package = match &rec.package {
            Some(k) => Some(k.clone()),
            None => None,
        };
        b.add_part(Part {
            refdes: rec.name.clone(),
            mfg_code: code,
            value,
            package,
            side: rec.side,
            pins: Vec::new(),
            is_dummy: false,
        });
        p = p + 1;
    }
    let ghost m1 = b.model();
    let mut j: usize = 0;
    while j < pins.len()
        invariant
            b.wf(),
            j <= pins@.len(),
            parts@.len() + 3 < NO_NET,
            pins@.len() + nails@.len() + 3 < NO_NET,
            js == pins@.map_values(|p: PinRec| pin_spec(p)),
            forall|q: int| 0 <= q < pins@.len() ==> (#[trigger] pins@[q]).part < parts@.len(),
            b.model().parts@.len() == parts@.len(),
            same_parts_attrs(b.model().parts@, m1.parts@),
            b.model().pins@.len() == j,
            b.model().nets@.len() <= j,
            b.model().warnings@.len() == 0,
            b.model().outline@ == m1.outline@,
            b.model().format_label@ == m1.format_label@,
            forall|q: int| 0 <= q < j ==> pin_of(#[trigger] b.model().pins@[q], js[q], b.model()),
        decreases pins@.len() - j,
    {
        let rec = &pins[j];
        let ghost nets_before = b.model().nets@;
        let ghost pins_before = b.model().pins@;
        let net = b.net_id(rec.net.as_str());
        let new_pin = Pin {
            part: rec.part as u32,
            number: rec.number.clone(),
            name: rec.name.clone(),
            pos: rec.pos,
            radius: rec.radius,
            side: rec.side,
            net,
            is_test_pad: false,
        };
        let ghost pin_v = new_pin;
        b.add_pin(new_pin);
        proof {
            let nets_now = b.model().nets@;
            assert(b.model().pins@[j as int] == stored_pin(pin_v));
            assert(js[j as int] == pin_spec(pins@[j as int]));
            assert forall|q: int| 0 <= q < j + 1 implies pin_of(#[trigger] b.model().pins@[q], js[q], b.model()) by {
                if q < j {
                    assert(b.model().pins@[q] == pins_before[q]);
                    lemma_names_net_stable(nets_before, nets_now, pins_before[q].net, js[q].net);
                }
            }
        }
        j = j + 1;
    }
    let ghost m2 = b.model();
    add_nails_as_pins(&mut b, nails.as_slice());
    proof {
        let m3 = b.model();
        assert forall|q: int| 0 <= q < pins@.len() implies pin_of(#[trigger] m3.pins@[q], js[q], m3) by {
            assert(m3.pins@[q] == m2.pins@[q]);
            assert(pin_of(m2.pins@[q], js[q], m2));
            lemma_names_net_stable(m2.nets@, m3.nets@, m2.pins@[q].net, js[q].net);
        }
    }
    let ghost m3 = b.model();
    if fabricate {
        b.generate_outline_from_pins();
    }
    let ghost m4 = b.model();
    proof {
        b.lemma_wf();
    }
    let m = b.finish(format);
    proof {
        let np = parts@.len() as int;
        assert forall|q: int| 0 <= q < np implies {
            &&& (#[trigger] m.parts@[q]).refdes@ == ps[q].name
            &&& m.parts@[q].side == finished_side(Part { side: ps[q].side, ..m.parts@[q] }, m.pins@)
            &&& opt_text(m.parts@[q].mfg_code) == ps[q].mfg_code
            &&& opt_text(m.parts@[q].value) == ps[q].value
            &&& opt_text(m.parts@[q].package) == ps[q].package
            &&& !m.parts@[q].is_dummy
        } by {
            assert(same_part_attrs(m3.parts@[q], m1.parts@[q]));
            assert(m4.parts@[q] == m3.parts@[q]);
            assert(m.parts@[q] == Part { side: finished_side(m4.parts@[q], m4.pins@), ..m4.parts@[q] });
        }
        if nails@.len() > 0 {
            assert(m.parts@[np] == Part { side: finished_side(m4.parts@[np], m4.pins@), ..m4.parts@[np] });
            assert(m.parts@[np + 1] == Part { side: finished_side(m4.parts@[np + 1], m4.pins@), ..m4.parts@[np + 1] });
        }
        assert forall|q: int| 0 <= q < pins@.len() implies pin_of(#[trigger] m.pins@[q], js[q], m) by {
            assert(pin_of(m3.pins@[q], js[q], m3));
        }
        assert forall|k: int| 0 <= k < nails@.len() implies nail_pin(
            #[trigger] m.pins@[pins@.len() + k],
            ns[k].pos,
            ns[k].side,
            ns[k].probe,
            ns[k].net,
            np as u32,
            (np + 1) as u32,
            m.nets@,
        ) by {
            assert(ns[k] == nail_spec(nails@[k]));
        }
    }
    Ok(m)
}

/// The segments joining consecutive points.
pub fn polyline_of(pts: &Vec<Point>) -> (segs: Vec<(Point, Point)>)
    ensures
        segs@ == polyline_segments(pts@),
{
    let mut segs: Vec<(Point, Point)> = Vec::new();
    if pts.len() < 2 {
        assert(segs@ =~= polyline_segments(pts@));
        return segs;
    }
    let mut i: usize = 1;
    while i < pts.len()
        invariant
            1 <= i <= pts@.len(),
            pts@.len() >= 2,
            segs@.len() == i - 1,
            forall|k: int| 0 <= k < i - 1 ==> #[trigger] segs@[k] == (pts@[k], pts@[k + 1]),
        decreases pts@.len() - i,
    {
        segs.push((pts[i - 1], pts[i]));
        i = i + 1;
    }
    assert(segs@ =~= polyline_segments(pts@));
    segs
}

/// Index of the last part named `name`, or -1.
pub open spec fn last_named(parts: Seq<PartSpec>, name: Seq<char>) -> int
    decreases parts.len(),
{
    if parts.len() == 0 {
        -1
    } else if parts.last().name == name {
        parts.len() - 1
    } else {
        last_named(parts.drop_last(), name)
    }
}

pub proof fn lemma_last_named_range(parts: Seq<PartSpec>, name: Seq<char>)
    ensures
        -1 <= last_named(parts, name) < parts.len(),
        last_named(parts, name) >= 0 ==> parts[last_named(parts, name)].name == name,
    decreases parts.len(),
{
    if parts.len() > 0 {
        lemma_last_named_range(parts.drop_last(), name);
    }
}

/// Index of the last part named `name`, if any.
pub fn find_part(parts: &Vec<PartRec>, name: &str) -> (r: Option<usize>)
    ensures
        match r {
            Some(k) => k == last_named(parts@.map_values(|p: PartRec| part_spec(p)), name@) && k < parts@.len(),
            None => last_named(parts@.map_values(|p: PartRec| part_spec(p)), name@) < 0,
        },
{
    let ghost ps = parts@.map_values(|p: PartRec| part_spec(p));
    let mut k = parts.len();
    assert(ps.take(k as int) =~= ps);
    while k > 0
        invariant
            k <= parts@.len(),
            ps == parts@.map_values(|p: PartRec| part_spec(p)),
            last_named(ps, name@) == last_named(ps.take(k as int), name@),
        decreases k,
    {
        assert(ps.take(k as int).drop_last() =~= ps.take(k - 1));
        assert(ps.take(k as int).last() == part_spec(parts@[k - 1]));
        if same_text(parts[k - 1].name.as_str(), name) {
            proof {
                lemma_last_named_range(ps.take(k as int), name@);
            }
            return Some(k - 1);
        }
        k = k - 1;
    }
    None
}

} // verus!
