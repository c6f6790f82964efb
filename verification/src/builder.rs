//! Incremental construction of a `BoardModel`: interning net names and
//! wiring the part <-> pin <-> net cross references. All parsers go through
//! this; it is the single place where net-name canonicalization happens.

use vstd::prelude::*;
use vstd::hash_map::StringHashMap;
use crate::strs::{trim_str, trim_ws, lemma_trim_ws_idem};
use crate::netclass::{is_no_connect, spec_is_no_connect};
use crate::model::{fold_min_x, fold_min_y, fold_max_x, fold_max_y, BoardModel, BoardFormat, Part, Pin, Net, Point, Side, NetId, NO_NET, DEFAULT_RADIUS, OUTLINE_MARGIN, canonical_net_name, part_pins, net_pins, format_label, sat_add, sat_sub, same_net_names, same_parts_attrs, lemma_part_pins_in_range, Extent, pin_positions, clamp64};

verus! {

/// The segments of a polyline: consecutive point pairs.
pub open spec fn polyline_segments(pts: Seq<Point>) -> Seq<(Point, Point)> {
    if pts.len() < 2 {
        Seq::empty()
    } else {
        Seq::new((pts.len() - 1) as nat, |i: int| (pts[i], pts[i + 1]))
    }
}

/// The net id `net_id` hands out for a raw name, given the current nets.
pub open spec fn interned_id(nets: Seq<Net>, raw: Seq<char>) -> NetId {
    let name = trim_ws(raw);
    if name.len() == 0 || spec_is_no_connect(name) {
        NO_NET
    } else if exists|n: int| 0 <= n < nets.len() && #[trigger] nets[n].name@ == name {
        (choose|n: int| 0 <= n < nets.len() && #[trigger] nets[n].name@ == name) as NetId
    } else {
        nets.len() as NetId
    }
}

/// Does interning `raw` append a new net?
pub open spec fn interns_new(nets: Seq<Net>, raw: Seq<char>) -> bool {
    let name = trim_ws(raw);
    &&& name.len() > 0
    &&& !spec_is_no_connect(name)
    &&& !exists|n: int| 0 <= n < nets.len() && #[trigger] nets[n].name@ == name
}

/// The pin as stored: a non-positive radius becomes the default radius.
pub open spec fn stored_pin(pin: Pin) -> Pin {
    if pin.radius <= 0 {
        Pin { radius: DEFAULT_RADIUS, ..pin }
    } else {
        pin
    }
}

/// How many of the listed pins sit on `side`.
pub open spec fn count_side(pins: Seq<Pin>, idx: Seq<u32>, side: Side) -> nat
    decreases idx.len(),
{
    if idx.len() == 0 {
        0
    } else {
        count_side(pins, idx.drop_last(), side) + if 0 <= idx.last() < pins.len()
            && pins[idx.last() as int].side == side {
            1nat
        } else {
            0nat
        }
    }
}

/// The side a part ends with: parts marked `Both` whose pins lean to one
/// side take the majority side of their pins.
pub open spec fn finished_side(part: Part, pins: Seq<Pin>) -> Side {
    let top = count_side(pins, part.pins@, Side::Top);
    let bottom = count_side(pins, part.pins@, Side::Bottom);
    if part.pins@.len() > 0 && part.side == Side::Both && top != bottom {
        if top >= bottom {
            Side::Top
        } else {
            Side::Bottom
        }
    } else {
        part.side
    }
}


proof fn lemma_part_pins_none_beyond(pins: Seq<Pin>, p: int)
    requires
        forall|i: int| 0 <= i < pins.len() ==> (#[trigger] pins[i]).part < p,
    ensures
        part_pins(pins, p) == Seq::<u32>::empty(),
    decreases pins.len(),
{
    if pins.len() > 0 {
        lemma_part_pins_none_beyond(pins.drop_last(), p);
        assert(pins[pins.len() - 1].part < p);
    }
}

proof fn lemma_net_pins_none_beyond(pins: Seq<Pin>, n: int)
    requires
        forall|i: int| 0 <= i < pins.len() ==> (#[trigger] pins[i]).net == NO_NET || pins[i].net < n,
        n < NO_NET,
    ensures
        net_pins(pins, n) == Seq::<u32>::empty(),
    decreases pins.len(),
{
    if pins.len() > 0 {
        lemma_net_pins_none_beyond(pins.drop_last(), n);
        assert(pins[pins.len() - 1].net != n);
    }
}


/// The rectangle, closed into a five-point polyline, that
/// `generate_outline_from_pins` draws around the given pin positions.
pub open spec fn fabricated_outline(pts: Seq<Point>) -> Seq<(Point, Point)> {
    let lo_x = clamp64(fold_min_x(pts) - OUTLINE_MARGIN);
    let lo_y = clamp64(fold_min_y(pts) - OUTLINE_MARGIN);
    let hi_x = clamp64(fold_max_x(pts) + OUTLINE_MARGIN);
    let hi_y = clamp64(fold_max_y(pts) + OUTLINE_MARGIN);
    polyline_segments(
        seq![
            Point { x: lo_x, y: lo_y },
            Point { x: hi_x, y: lo_y },
            Point { x: hi_x, y: hi_y },
            Point { x: lo_x, y: hi_y },
            Point { x: lo_x, y: lo_y },
        ],
    )
}

/// The finished side of part `p` of a model whose part `p` lists exactly
/// its pins.
fn self_side(model: &BoardModel, p: usize) -> (s: Side)
    requires
        p < model.parts@.len(),
        model.pins@.len() < NO_NET,
        model.parts@[p as int].pins@ == part_pins(model.pins@, p as int),
    ensures
        s == finished_side(model.parts@[p as int], model.pins@),
{
    let part = &model.parts[p];
    proof {
        lemma_part_pins_in_range(model.pins@, p as int);
    }
    if part.pins.len() == 0 {
        return part.side;
    }
    let mut top: usize = 0;
    let mut bottom: usize = 0;
    let mut k: usize = 0;
    while k < part.pins.len()
        invariant
            k <= part.pins@.len(),
            part.pins@ == part_pins(model.pins@, p as int),
            forall|j: int| 0 <= j < part.pins@.len() ==> (#[trigger] part.pins@[j]) < model.pins@.len(),
            top == count_side(model.pins@, part.pins@.take(k as int), Side::Top),
            bottom == count_side(model.pins@, part.pins@.take(k as int), Side::Bottom),
            top <= k,
            bottom <= k,
        decreases part.pins@.len() - k,
    {
        let pi = part.pins[k] as usize;
        proof {
            assert(part.pins@.take(k + 1).drop_last() =~= part.pins@.take(k as int));
        }
        match model.pins[pi].side {
            Side::Top => top = top + 1,
            Side::Bottom => bottom = bottom + 1,
            Side::Both => {},
        }
        k = k + 1;
    }
    assert(part.pins@.take(k as int) =~= part.pins@);
    if part.side == Side::Both && top != bottom {
        if top >= bottom {
            Side::Top
        } else {
            Side::Bottom
        }
    } else {
        part.side
    }
}


/// `id` is the net a raw name interns to: `NO_NET` for empty or
/// no-connect names, otherwise the net carrying the trimmed name.
pub open spec fn names_net(nets: Seq<Net>, id: NetId, raw: Seq<char>) -> bool {
    let name = trim_ws(raw);
    if name.len() == 0 || spec_is_no_connect(name) {
        id == NO_NET
    } else {
        id < nets.len() && nets[id as int].name@ == name
    }
}

/// `new` keeps the nets of `old`, in place, and may append more.
pub open spec fn nets_extend(old: Seq<Net>, new: Seq<Net>) -> bool {
    &&& old.len() <= new.len()
    &&& forall|n: int| 0 <= n < old.len() ==> #[trigger] new[n].name == old[n].name
}

pub proof fn lemma_names_net_stable(a: Seq<Net>, b: Seq<Net>, id: NetId, raw: Seq<char>)
    requires
        names_net(a, id, raw),
        nets_extend(a, b),
    ensures
        names_net(b, id, raw),
{
}

/// Net names that occur once each.
pub open spec fn distinct_net_names(nets: Seq<Net>) -> bool {
    forall|a: int, b: int| 0 <= a < b < nets.len() ==> #[trigger] nets[a].name@ != #[trigger] nets[b].name@
}

/// `b` is what interning `raw` makes of the nets `a`, as `net_id` states
/// it: one new net named by the trimmed text, or no change.
pub open spec fn interned_into(a: Seq<Net>, raw: Seq<char>, b: Seq<Net>) -> bool {
    &&& interns_new(a, raw) ==> b.len() == a.len() + 1 && b.drop_last() == a && b.last().name@ == trim_ws(raw)
    &&& !interns_new(a, raw) ==> b == a
}

/// Interning is stable: once a name is interned, interning any text that
/// trims to the same name gives the same id and adds no net. Empty and
/// not-connected names are `NO_NET` every time.
pub proof fn lemma_net_id_repeats(a: Seq<Net>, b: Seq<Net>, r1: Seq<char>, r2: Seq<char>)
    requires
        distinct_net_names(a),
        interned_into(a, r1, b),
        trim_ws(r1) == trim_ws(r2),
    ensures
        interned_id(b, r2) == interned_id(a, r1),
        !interns_new(b, r2),
        distinct_net_names(b),
{
    let name = trim_ws(r1);
    if name.len() == 0 || spec_is_no_connect(name) {
        assert(b == a);
    } else if interns_new(a, r1) {
        let k = a.len() as int;
        assert(b[k].name@ == name);
        assert forall|x: int, y: int| 0 <= x < y < b.len() implies #[trigger] b[x].name@ != #[trigger] b[y].name@ by {
            if y < k {
                assert(b[x] == a[x] && b[y] == a[y]);
            } else {
                assert(b[x] == a[x]);
            }
        }
        assert(exists|n: int| 0 <= n < b.len() && #[trigger] b[n].name@ == name);
        let c = choose|n: int| 0 <= n < b.len() && #[trigger] b[n].name@ == name;
        if c != k {
            assert(b[c] == a[c]);
        }
    } else {
        assert(b == a);
    }
}

pub struct BoardBuilder {
    model: BoardModel,
    net_ids: StringHashMap<NetId>,
}

impl BoardBuilder {
    /// The model built so far.
    pub closed spec fn model(&self) -> BoardModel {
        self.model
    }

    /// The builder's invariant: a well-formed model with canonical, distinct
    /// net names, and a name index that agrees with the nets.
    pub closed spec fn wf(&self) -> bool {
        &&& self.model.wf()
        &&& self.model.nets_canonical()
        &&& forall|k: Seq<char>|
            #[trigger] self.net_ids@.contains_key(k) ==> {
                &&& self.net_ids@[k] < self.model.nets@.len()
                &&& self.model.nets@[self.net_ids@[k] as int].name@ == k
            }
        &&& forall|n: int|
            0 <= n < self.model.nets@.len() ==> self.net_ids@.contains_key(
                #[trigger] self.model.nets@[n].name@,
            )
    }

    pub proof fn lemma_wf(&self)
        requires
            self.wf(),
        ensures
            self.model().wf(),
            self.model().nets_canonical(),
    {
    }

    pub fn new() -> (b: Self)
        ensures
            b.wf(),
            b.model().format_label@.len() == 0,
            b.model().outline@.len() == 0,
            b.model().parts@.len() == 0,
            b.model().pins@.len() == 0,
            b.model().nets@.len() == 0,
            b.model().warnings@.len() == 0,
    {
        let b = BoardBuilder {
            model: BoardModel {
                format_label: String::new(),
                outline: Vec::new(),
                parts: Vec::new(),
                pins: Vec::new(),
                nets: Vec::new(),
                warnings: Vec::new(),
            },
            net_ids: StringHashMap::new(),
        };
        b
    }

    pub fn warn(&mut self, msg: String)
        requires
            old(self).wf(),
        ensures
            final(self).wf(),
            final(self).model().warnings@ == old(self).model().warnings@.push(msg),
            final(self).model().format_label@ == old(self).model().format_label@,
            final(self).model().outline@ == old(self).model().outline@,
            final(self).model().parts@ == old(self).model().parts@,
            final(self).model().pins@ == old(self).model().pins@,
            final(self).model().nets@ == old(self).model().nets@,
    {
        self.model.warnings.push(msg);
    }

    pub fn add_outline_segment(&mut self, a: Point, b: Point)
        requires
            old(self).wf(),
        ensures
            final(self).wf(),
            final(self).model().outline@ == old(self).model().outline@.push((a, b)),
            final(self).model().format_label@ == old(self).model().format_label@,
            final(self).model().parts@ == old(self).model().parts@,
            final(self).model().pins@ == old(self).model().pins@,
            final(self).model().nets@ == old(self).model().nets@,
            final(self).model().warnings@ == old(self).model().warnings@,
    {
        self.model.outline.push((a, b));
    }

    /// Adds a closed/open polyline as segments.
    pub fn add_outline_polyline(&mut self, points: &[Point])
        requires
            old(self).wf(),
        ensures
            final(self).wf(),
            final(self).model().outline@ == old(self).model().outline@ + polyline_segments(points@),
            final(self).model().format_label@ == old(self).model().format_label@,
            final(self).model().parts@ == old(self).model().parts@,
            final(self).model().pins@ == old(self).model().pins@,
            final(self).model().nets@ == old(self).model().nets@,
            final(self).model().warnings@ == old(self).model().warnings@,
    {
        let ghost start = self.model.outline@;
        if points.len() < 2 {
            assert(polyline_segments(points@) =~= Seq::<(Point, Point)>::empty());
            assert(start + polyline_segments(points@) =~= start);
            return;
        }
        let mut i: usize = 1;
        while i < points.len()
            invariant
                1 <= i <= points.len(),
                points@.len() >= 2,
                self.wf(),
                self.model.outline@ == start + polyline_segments(points@).take(i - 1),
                self.model.format_label@ == old(self).model().format_label@,
                self.model.parts@ == old(self).model().parts@,
                self.model.pins@ == old(self).model().pins@,
                self.model.nets@ == old(self).model().nets@,
                self.model.warnings@ == old(self).model().warnings@,
                old(self).model().outline@ == start,
            decreases points.len() - i,
        {
            self.model.outline.push((points[i - 1], points[i]));
            assert(polyline_segments(points@).take(i as int) =~= polyline_segments(points@).take(
                i - 1,
            ).push((points@[i - 1], points@[i as int])));
            i = i + 1;
        }
        assert(polyline_segments(points@).take(points@.len() - 1) =~= polyline_segments(points@));
    }

    /// Appends a part (which must not list pins yet) and returns its index.
    pub fn add_part(&mut self, part: Part) -> (idx: u32)
        requires
            old(self).wf(),
            part.pins@.len() == 0,
            old(self).model().parts@.len() + 1 < NO_NET,
        ensures
            final(self).wf(),
            idx == old(self).model().parts@.len(),
            final(self).model().parts@ == old(self).model().parts@.push(part),
            final(self).model().format_label@ == old(self).model().format_label@,
            final(self).model().outline@ == old(self).model().outline@,
            final(self).model().pins@ == old(self).model().pins@,
            final(self).model().nets@ == old(self).model().nets@,
            final(self).model().warnings@ == old(self).model().warnings@,
    {
        let ghost old_model = self.model;
        let idx = self.model.parts.len() as u32;
        proof {
            lemma_part_pins_none_beyond(self.model.pins@, idx as int);
        }
        self.model.parts.push(part);
        proof {
            assert forall|p: int| 0 <= p < self.model.parts@.len() implies #[trigger] self.model.parts@[p].pins@
                == part_pins(self.model.pins@, p) by {
                if p < old_model.parts@.len() {
                    assert(self.model.parts@[p] == old_model.parts@[p]);
                }
            }
        }
        idx
    }

    pub fn part_count(&self) -> (n: usize)
        ensures
            n == self.model().parts@.len(),
    {
        self.model.parts.len()
    }

    /// Interns a net name. Unconnected markers collapse to `NO_NET`.
    pub fn net_id(&mut self, raw_name: &str) -> (id: NetId)
        requires
            old(self).wf(),
            old(self).model().nets@.len() + 1 < NO_NET,
        ensures
            final(self).wf(),
            id == interned_id(old(self).model().nets@, raw_name@),
            interned_into(old(self).model().nets@, raw_name@, final(self).model().nets@),
            interns_new(old(self).model().nets@, raw_name@) ==> final(self).model().nets@
                == old(self).model().nets@.push(
                Net { name: final(self).model().nets@.last().name, pins: final(self).model().nets@.last().pins },
            ) && final(self).model().nets@.last().name@ == trim_ws(raw_name@)
                && final(self).model().nets@.last().pins@.len() == 0,
            !interns_new(old(self).model().nets@, raw_name@) ==> final(self).model().nets@
                == old(self).model().nets@,
            id == NO_NET || id < final(self).model().nets@.len(),
            names_net(final(self).model().nets@, id, raw_name@),
            nets_extend(old(self).model().nets@, final(self).model().nets@),
            final(self).model().format_label@ == old(self).model().format_label@,
            final(self).model().outline@ == old(self).model().outline@,
            final(self).model().parts@ == old(self).model().parts@,
            final(self).model().pins@ == old(self).model().pins@,
            final(self).model().warnings@ == old(self).model().warnings@,
    {
        let name = trim_str(raw_name);
        if name.is_empty() || is_no_connect(name) {
            return NO_NET;
        }
        let ghost nets = self.model.nets@;
        match self.net_ids.get(name) {
            Some(id) => {
                let id = *id;
                proof {
                    let n = id as int;
                    assert(0 <= n < nets.len() && nets[n].name@ == name@);
                    let c = choose|m: int| 0 <= m < nets.len() && #[trigger] nets[m].name@ == name@;
                    if c != n {
                        if c < n {
                            assert(nets[c].name@ != nets[n].name@);
                        } else {
                            assert(nets[n].name@ != nets[c].name@);
                        }
                    }
                }
                id
            }
            None => {
                let id = self.model.nets.len() as NetId;
                proof {
                    assert forall|m: int| 0 <= m < nets.len() implies #[trigger] nets[m].name@ != name@ by {
                        assert(self.net_ids@.contains_key(nets[m].name@));
                    }
                    lemma_net_pins_none_beyond(self.model.pins@, id as int);
                    lemma_trim_ws_idem(raw_name@);
                }
                let key = name.to_owned();
                self.model.nets.push(Net { name: name.to_owned(), pins: Vec::new() });
                self.net_ids.insert(key, id);
                proof {
                    let nn = self.model.nets@;
                    assert(nn.len() == nets.len() + 1);
                    assert(nn.drop_last() =~= nets);
                    assert forall|m: int| 0 <= m < nn.len() implies #[trigger] self.model.nets@[m].pins@
                        == net_pins(self.model.pins@, m) by {
                        if m < nets.len() {
                            assert(nn[m] == nets[m]);
                        }
                    }
                    assert forall|m: int| 0 <= m < nn.len() implies self.net_ids@.contains_key(
                        #[trigger] nn[m].name@,
                    ) by {
                        if m < nets.len() {
                            assert(nn[m] == nets[m]);
                        }
                    }
                    assert forall|a: int, b: int| 0 <= a < b < nn.len() implies #[trigger] nn[a].name@
                        != #[trigger] nn[b].name@ by {
                        if b < nets.len() {
                            assert(nn[a] == nets[a]);
                            assert(nn[b] == nets[b]);
                        } else {
                            assert(nn[a] == nets[a]);
                        }
                    }
                    assert forall|n: int| 0 <= n < nn.len() implies canonical_net_name(
                        #[trigger] nn[n].name@,
                    ) by {
                        if n < nets.len() {
                            assert(nn[n] == nets[n]);
                        }
                    }
                    assert forall|k: Seq<char>| #[trigger] self.net_ids@.contains_key(k) implies {
                        &&& self.net_ids@[k] < nn.len()
                        &&& nn[self.net_ids@[k] as int].name@ == k
                    } by {
                        if k != name@ {
                            assert(old(self).net_ids@.contains_key(k));
                        }
                    }
                }
                id
            }
        }
    }

    /// Appends a pin, registering it with its part and its net. A
    /// non-positive radius becomes the default radius.
    pub fn add_pin(&mut self, pin: Pin) -> (idx: u32)
        requires
            old(self).wf(),
            pin.part < old(self).model().parts@.len(),
            pin.net == NO_NET || pin.net < old(self).model().nets@.len(),
            old(self).model().pins@.len() + 1 < NO_NET,
        ensures
            final(self).wf(),
            idx == old(self).model().pins@.len(),
            final(self).model().pins@ == old(self).model().pins@.push(stored_pin(pin)),
            same_parts_attrs(final(self).model().parts@, old(self).model().parts@),
            same_net_names(final(self).model().nets@, old(self).model().nets@),
            nets_extend(old(self).model().nets@, final(self).model().nets@),
            final(self).model().format_label@ == old(self).model().format_label@,
            final(self).model().outline@ == old(self).model().outline@,
            final(self).model().warnings@ == old(self).model().warnings@,
    {
        let ghost old_pins = self.model.pins@;
        let ghost old_parts = self.model.parts@;
        let ghost old_nets = self.model.nets@;
        let mut pin = pin;
        let idx = self.model.pins.len() as u32;
        if pin.radius <= 0 {
            pin.radius = DEFAULT_RADIUS;
        }
        let net = pin.net;
        let part = pin.part as usize;
        if net != NO_NET {
            self.model.nets[net as usize].pins.push(idx);
        }
        self.model.parts[part].pins.push(idx);
        self.model.pins.push(pin);
        proof {
            let np = self.model.pins@;
            assert(np.drop_last() =~= old_pins);
            assert forall|p: int| 0 <= p < self.model.parts@.len() implies #[trigger] self.model.parts@[p].pins@
                == part_pins(np, p) by {
                assert(part_pins(np, p) == if np.last().part == p { part_pins(old_pins, p).push(idx) } else { part_pins(old_pins, p) });
            }
            assert forall|n: int| 0 <= n < self.model.nets@.len() implies #[trigger] self.model.nets@[n].pins@
                == net_pins(np, n) by {
                assert(net_pins(np, n) == if np.last().net == n { net_pins(old_pins, n).push(idx) } else { net_pins(old_pins, n) });
            }
            assert forall|i: int| 0 <= i < np.len() implies (#[trigger] np[i]).net == NO_NET || np[i].net < self.model.nets@.len() by {
                if i < old_pins.len() {
                    assert(np[i] == old_pins[i]);
                }
            }
            assert forall|i: int| 0 <= i < np.len() implies (#[trigger] np[i]).part < self.model.parts@.len() by {
                if i < old_pins.len() {
                    assert(np[i] == old_pins[i]);
                }
            }
            assert forall|n: int| 0 <= n < self.model.nets@.len() implies #[trigger] self.model.nets@[n].name == old_nets[n].name by {}
            assert(self.model.nets@.len() == old_nets.len());
            assert forall|k: Seq<char>| #[trigger] self.net_ids@.contains_key(k) implies {
                &&& self.net_ids@[k] < self.model.nets@.len()
                &&& self.model.nets@[self.net_ids@[k] as int].name@ == k
            } by {
                assert(old(self).net_ids@.contains_key(k));
            }
            assert forall|n: int| 0 <= n < self.model.nets@.len() implies self.net_ids@.contains_key(#[trigger] self.model.nets@[n].name@) by {
                assert(self.model.nets@[n].name == old_nets[n].name);
            }
            assert forall|n: int| 0 <= n < self.model.nets@.len() implies canonical_net_name(#[trigger] self.model.nets@[n].name@) by {
                assert(self.model.nets@[n].name == old_nets[n].name);
            }
            assert forall|a: int, b: int| 0 <= a < b < self.model.nets@.len() implies #[trigger] self.model.nets@[a].name@
                != #[trigger] self.model.nets@[b].name@ by {
                assert(self.model.nets@[a].name == old_nets[a].name);
                assert(self.model.nets@[b].name == old_nets[b].name);
            }
        }
        idx
    }

    /// Marks the part at `idx` (when it exists) as lying on `side`.
    pub fn set_part_side(&mut self, idx: u32, side: Side)
        requires
            old(self).wf(),
        ensures
            final(self).wf(),
            idx < old(self).model().parts@.len() ==> final(self).model().parts@ == old(self).model().parts@.update(
                idx as int,
                Part { side, ..old(self).model().parts@[idx as int] },
            ),
            idx >= old(self).model().parts@.len() ==> final(self).model().parts@ == old(self).model().parts@,
            final(self).model().pins@ == old(self).model().pins@,
            final(self).model().nets@ == old(self).model().nets@,
            final(self).model().format_label@ == old(self).model().format_label@,
            final(self).model().outline@ == old(self).model().outline@,
            final(self).model().warnings@ == old(self).model().warnings@,
    {
        if (idx as usize) < self.model.parts.len() {
            self.model.parts[idx as usize].side = side;
            proof {
                assert(self.model.parts@ =~= old(self).model().parts@.update(
                    idx as int,
                    Part { side, ..old(self).model().parts@[idx as int] },
                ));
                assert forall|p: int| 0 <= p < self.model.parts@.len() implies #[trigger] self.model.parts@[p].pins@
                    == part_pins(self.model.pins@, p) by {
                    assert(self.model.parts@[p].pins == old(self).model().parts@[p].pins);
                }
            }
        }
    }

    /// Records the manufacturer code of the part at `idx` (when it exists).
    pub fn set_part_mfg_code(&mut self, idx: u32, code: Option<String>)
        requires
            old(self).wf(),
        ensures
            final(self).wf(),
            idx < old(self).model().parts@.len() ==> final(self).model().parts@ == old(self).model().parts@.update(
                idx as int,
                Part { mfg_code: code, ..old(self).model().parts@[idx as int] },
            ),
            idx >= old(self).model().parts@.len() ==> final(self).model().parts@ == old(self).model().parts@,
            final(self).model().pins@ == old(self).model().pins@,
            final(self).model().nets@ == old(self).model().nets@,
            final(self).model().format_label@ == old(self).model().format_label@,
            final(self).model().outline@ == old(self).model().outline@,
            final(self).model().warnings@ == old(self).model().warnings@,
    {
        if (idx as usize) < self.model.parts.len() {
            self.model.parts[idx as usize].mfg_code = code;
            proof {
                assert(self.model.parts@ =~= old(self).model().parts@.update(
                    idx as int,
                    Part { mfg_code: code, ..old(self).model().parts@[idx as int] },
                ));
                assert forall|p: int| 0 <= p < self.model.parts@.len() implies #[trigger] self.model.parts@[p].pins@
                    == part_pins(self.model.pins@, p) by {
                    assert(self.model.parts@[p].pins == old(self).model().parts@[p].pins);
                }
            }
        }
    }

    /// Records the value/description of the part at `idx` (when it exists).
    pub fn set_part_value(&mut self, idx: u32, value: Option<String>)
        requires
            old(self).wf(),
        ensures
            final(self).wf(),
            idx < old(self).model().parts@.len() ==> final(self).model().parts@ == old(self).model().parts@.update(
                idx as int,
                Part { value, ..old(self).model().parts@[idx as int] },
            ),
            idx >= old(self).model().parts@.len() ==> final(self).model().parts@ == old(self).model().parts@,
            final(self).model().pins@ == old(self).model().pins@,
            final(self).model().nets@ == old(self).model().nets@,
            final(self).model().format_label@ == old(self).model().format_label@,
            final(self).model().outline@ == old(self).model().outline@,
            final(self).model().warnings@ == old(self).model().warnings@,
    {
        if (idx as usize) < self.model.parts.len() {
            self.model.parts[idx as usize].value = value;
            proof {
                assert(self.model.parts@ =~= old(self).model().parts@.update(
                    idx as int,
                    Part { value, ..old(self).model().parts@[idx as int] },
                ));
                assert forall|p: int| 0 <= p < self.model.parts@.len() implies #[trigger] self.model.parts@[p].pins@
                    == part_pins(self.model.pins@, p) by {
                    assert(self.model.parts@[p].pins == old(self).model().parts@[p].pins);
                }
            }
        }
    }

    /// Fabricates a rectangular outline around the pins for formats that
    /// carry none (FZ, CAD, CST), 20 mil away from them.
    pub fn generate_outline_from_pins(&mut self)
        requires
            old(self).wf(),
        ensures
            final(self).wf(),
            final(self).model().outline@ == if old(self).model().outline@.len() == 0
                && old(self).model().pins@.len() > 0 {
                fabricated_outline(pin_positions(old(self).model().pins@))
            } else {
                old(self).model().outline@
            },
            final(self).model().pins@ == old(self).model().pins@,
            final(self).model().parts@ == old(self).model().parts@,
            final(self).model().nets@ == old(self).model().nets@,
            final(self).model().format_label@ == old(self).model().format_label@,
            final(self).model().warnings@ == old(self).model().warnings@,
    {
        if self.model.outline.len() != 0 || self.model.pins.len() == 0 {
            return;
        }
        let mut e = Extent::empty();
        let mut j: usize = 0;
        while j < self.model.pins.len()
            invariant
                j <= self.model.pins@.len(),
                e == Extent::of(pin_positions(self.model.pins@).take(j as int)),
            decreases self.model.pins@.len() - j,
        {
            let p = self.model.pins[j].pos;
            proof {
                assert(pin_positions(self.model.pins@).take(j + 1) =~= pin_positions(self.model.pins@).take(j as int).push(p));
            }
            e.extend(p);
            j = j + 1;
        }
        assert(pin_positions(self.model.pins@).take(j as int) =~= pin_positions(self.model.pins@));
        let min_x = sat_sub(e.min_x, OUTLINE_MARGIN);
        let min_y = sat_sub(e.min_y, OUTLINE_MARGIN);
        let max_x = sat_add(e.max_x, OUTLINE_MARGIN);
        let max_y = sat_add(e.max_y, OUTLINE_MARGIN);
        let corners = vec![
            Point { x: min_x, y: min_y },
            Point { x: max_x, y: min_y },
            Point { x: max_x, y: max_y },
            Point { x: min_x, y: max_y },
            Point { x: min_x, y: min_y },
        ];
        self.add_outline_polyline(corners.as_slice());
        proof {
            assert(polyline_segments(corners@) =~= fabricated_outline(pin_positions(old(self).model().pins@)));
            assert(self.model.outline@ =~= fabricated_outline(pin_positions(old(self).model().pins@)));
        }
    }

    /// The finished model: format label set, and parts marked `Both` whose
    /// pins lean to one side take the majority side.
    pub fn finish(self, format: BoardFormat) -> (m: BoardModel)
        requires
            self.wf(),
        ensures
            m.wf(),
            m.nets_canonical(),
            m.format_label@ == format_label(format),
            m.parts@.len() == self.model().parts@.len(),
            forall|p: int|
                0 <= p < m.parts@.len() ==> #[trigger] m.parts@[p] == (Part {
                    side: finished_side(self.model().parts@[p], self.model().pins@),
                    ..self.model().parts@[p]
                }),
            m.pins@ == self.model().pins@,
            m.nets@ == self.model().nets@,
            m.outline@ == self.model().outline@,
            m.warnings@ == self.model().warnings@,
    {
        let ghost old_parts = self.model.parts@;
        let ghost orig = self.model;
        let mut model = self.model;
        model.format_label = format.label().to_owned();
        let ghost label = model.format_label@;
        assert(label == format_label(format));
        let mut p: usize = 0;
        while p < model.parts.len()
            invariant
                p <= model.parts@.len(),
                model.parts@.len() == old_parts.len(),
                model.pins@ == self.model().pins@,
                model.pins@.len() < NO_NET,
                model.pins@ == orig.pins@,
                model.nets@ == orig.nets@,
                orig.wf(),
                orig.nets_canonical(),
                orig.parts@ == old_parts,
                model.format_label@ == label,
                model.outline@ == orig.outline@,
                model.warnings@ == orig.warnings@,
                forall|q: int| 0 <= q < old_parts.len() ==> (#[trigger] old_parts[q]).pins@ == part_pins(model.pins@, q),
                forall|q: int|
                    0 <= q < p ==> #[trigger] model.parts@[q] == (Part {
                        side: finished_side(old_parts[q], model.pins@),
                        ..old_parts[q]
                    }),
                forall|q: int| p <= q < old_parts.len() ==> #[trigger] model.parts@[q] == old_parts[q],
            decreases model.parts@.len() - p,
        {
            let side = self_side(&model, p);
            model.parts[p].side = side;
            p = p + 1;
        }
        proof {
            assert forall|q: int| 0 <= q < model.parts@.len() implies #[trigger] model.parts@[q].pins@ == part_pins(model.pins@, q) by {
                assert(model.parts@[q].pins == old_parts[q].pins);
            }
            assert forall|i: int| 0 <= i < model.pins@.len() implies (#[trigger] model.pins@[i]).part < model.parts@.len() by {
                assert(model.pins@[i] == orig.pins@[i]);
            }
        }
        model
    }
}

} // verus!
