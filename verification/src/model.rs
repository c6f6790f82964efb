//! Core domain model: the normalized board representation that every parser
//! produces and that the renderer, index and search layers consume.
//!
//! Coordinates are integers in thousandths of a mil (micro-inches), Y-up,
//! viewed from the top side. The renderer applies flip/mirror/rotation;
//! parsers never bake a view transform into the data beyond this
//! normalization.

use vstd::prelude::*;
use vstd::hash_map::StringHashMap;
use crate::strs::trim_ws;
use crate::netclass::spec_is_no_connect;

verus! {

/// Bump when `BoardModel` changes incompatibly; stale caches re-parse lazily.
pub const MODEL_VERSION: u32 = 2;

/// Coordinate units per mil.
pub const UNITS_PER_MIL: i64 = 1000;

/// Reference into `BoardModel::nets`. `NO_NET` marks unconnected pins.
pub type NetId = u32;

pub const NO_NET: NetId = 0xffff_ffffu32;

/// Default pin radius: half a mil.
pub const DEFAULT_RADIUS: i64 = 500;

/// Margin of a fabricated outline: 20 mil.
pub const OUTLINE_MARGIN: i64 = 20000;

/// The nearest `i64` to an integer.
pub open spec fn clamp64(v: int) -> i64 {
    if v > i64::MAX {
        i64::MAX
    } else if v < i64::MIN {
        i64::MIN
    } else {
        v as i64
    }
}

/// Saturating addition of coordinates.
pub fn sat_add(a: i64, b: i64) -> (r: i64)
    ensures
        r == clamp64(a + b),
{
    if b > 0 && a > i64::MAX - b {
        i64::MAX
    } else if b < 0 && a < i64::MIN - b {
        i64::MIN
    } else {
        a + b
    }
}

/// Saturating subtraction of coordinates.
pub fn sat_sub(a: i64, b: i64) -> (r: i64)
    ensures
        r == clamp64(a - b),
{
    if b < 0 && a > i64::MAX + b {
        i64::MAX
    } else if b > 0 && a < i64::MIN + b {
        i64::MIN
    } else {
        a - b
    }
}

/// Saturating multiplication of a coordinate by a factor.
pub fn sat_mul(a: i64, k: i64) -> (r: i64)
    ensures
        r == clamp64(a * k),
{
    assert(-0x8000_0000_0000_0000_0000_0000_0000_0000 <= (a as int) * (k as int)
        <= 0x7fff_ffff_ffff_ffff_ffff_ffff_ffff_ffff) by (nonlinear_arith)
        requires
            i64::MIN <= a <= i64::MAX,
            i64::MIN <= k <= i64::MAX,
    ;
    let p: i128 = (a as i128) * (k as i128);
    if p > i64::MAX as i128 {
        i64::MAX
    } else if p < i64::MIN as i128 {
        i64::MIN
    } else {
        p as i64
    }
}

#[derive(Debug, Clone, Copy, PartialEq, Eq, Structural)]
pub struct Point {
    pub x: i64,
    pub y: i64,
}

impl Point {
    pub fn new(x: i64, y: i64) -> (p: Self)
        ensures
            p == (Point { x, y }),
    {
        Point { x, y }
    }
}

/// Which side of the board a part or pin sits on.
#[derive(Debug, Clone, Copy, PartialEq, Eq, Hash, Structural)]
pub enum Side {
    Top,
    Bottom,
    /// Through-hole: visible/probe-able from both sides.
    Both,
}

impl Side {
    pub fn label(self) -> (s: &'static str)
        ensures
            s@ == match self {
                Side::Top => "top"@,
                Side::Bottom => "bottom"@,
                Side::Both => "both"@,
            },
    {
        match self {
            Side::Top => "top",
            Side::Bottom => "bottom",
            Side::Both => "both",
        }
    }
}

#[derive(Debug, Clone, Copy, PartialEq, Eq, Hash, Structural)]
pub enum BoardFormat {
    Brd,
    Brd2,
    Bdv,
    Bvr,
    Bvr3,
    Asc,
    Cad,
    GenCad,
    Cst,
    Fz,
    XzzPcb,
}

pub open spec fn format_label(f: BoardFormat) -> Seq<char> {
    match f {
        BoardFormat::Brd => "BRD (Test_Link)"@,
        BoardFormat::Brd2 => "BRD2"@,
        BoardFormat::Bdv => "BDV (Toptest)"@,
        BoardFormat::Bvr => "BVR"@,
        BoardFormat::Bvr3 => "BVR3"@,
        BoardFormat::Asc => "ASC"@,
        BoardFormat::Cad => "CAD (Samsung)"@,
        BoardFormat::GenCad => "GenCAD"@,
        BoardFormat::Cst => "CST"@,
        BoardFormat::Fz => "FZ (ASUS)"@,
        BoardFormat::XzzPcb => "XZZ PCB"@,
    }
}

impl BoardFormat {
    pub fn label(self) -> (s: &'static str)
        ensures
            s@ == format_label(self),
    {
        match self {
            BoardFormat::Brd => "BRD (Test_Link)",
            BoardFormat::Brd2 => "BRD2",
            BoardFormat::Bdv => "BDV (Toptest)",
            BoardFormat::Bvr => "BVR",
            BoardFormat::Bvr3 => "BVR3",
            BoardFormat::Asc => "ASC",
            BoardFormat::Cad => "CAD (Samsung)",
            BoardFormat::GenCad => "GenCAD",
            BoardFormat::Cst => "CST",
            BoardFormat::Fz => "FZ (ASUS)",
            BoardFormat::XzzPcb => "XZZ PCB",
        }
    }
}

#[derive(Debug)]
pub struct Part {
    pub refdes: String,
    /// Manufacturer code / part description when the format carries it.
    pub mfg_code: Option<String>,
    pub value: Option<String>,
    pub package: Option<String>,
    pub side: Side,
    /// Indices into `BoardModel::pins`, ascending.
    pub pins: Vec<u32>,
    /// True for the synthetic "..." parts that group loose test pads/nails.
    pub is_dummy: bool,
}

#[derive(Debug)]
pub struct Pin {
    /// Index into `BoardModel::parts`.
    pub part: u32,
    /// Pin number as printed ("1", "A3", ...). Empty when unknown.
    pub number: String,
    /// Functional name when distinct from the number (BGA signal names).
    pub name: String,
    pub pos: Point,
    pub radius: i64,
    pub side: Side,
    pub net: NetId,
    pub is_test_pad: bool,
}

#[derive(Debug)]
pub struct Net {
    pub name: String,
    /// Indices into `BoardModel::pins`, ascending.
    pub pins: Vec<u32>,
}

#[derive(Debug)]
pub struct BoardModel {
    pub format_label: String,
    pub outline: Vec<(Point, Point)>,
    pub parts: Vec<Part>,
    pub pins: Vec<Pin>,
    pub nets: Vec<Net>,
    pub warnings: Vec<String>,
}

/// Indices of the pins that belong to part `p`, ascending.
pub open spec fn part_pins(pins: Seq<Pin>, p: int) -> Seq<u32>
    decreases pins.len(),
{
    if pins.len() == 0 {
        Seq::empty()
    } else {
        let r = part_pins(pins.drop_last(), p);
        if pins.last().part == p {
            r.push((pins.len() - 1) as u32)
        } else {
            r
        }
    }
}

/// Indices of the pins connected to net `n`, ascending.
pub open spec fn net_pins(pins: Seq<Pin>, n: int) -> Seq<u32>
    decreases pins.len(),
{
    if pins.len() == 0 {
        Seq::empty()
    } else {
        let r = net_pins(pins.drop_last(), n);
        if pins.last().net == n {
            r.push((pins.len() - 1) as u32)
        } else {
            r
        }
    }
}

/// A net name as the builder stores it: trimmed, non-empty and not a
/// no-connect marker.
pub open spec fn canonical_net_name(s: Seq<char>) -> bool {
    &&& s.len() > 0
    &&& trim_ws(s) == s
    &&& !spec_is_no_connect(s)
}

impl BoardModel {
    /// The cross references are consistent: every part lists exactly its
    /// pins, every net lists exactly its pins, every pin's net and part
    /// exist.
    pub open spec fn wf(&self) -> bool {
        &&& self.pins@.len() < NO_NET
        &&& self.nets@.len() < NO_NET
        &&& self.parts@.len() < NO_NET
        &&& forall|p: int|
            0 <= p < self.parts@.len() ==> #[trigger] self.parts@[p].pins@ == part_pins(
                self.pins@,
                p,
            )
        &&& forall|n: int|
            0 <= n < self.nets@.len() ==> #[trigger] self.nets@[n].pins@ == net_pins(self.pins@, n)
        &&& forall|i: int|
            0 <= i < self.pins@.len() ==> (#[trigger] self.pins@[i]).net == NO_NET
                || self.pins@[i].net < self.nets@.len()
        &&& forall|i: int|
            0 <= i < self.pins@.len() ==> (#[trigger] self.pins@[i]).part < self.parts@.len()
    }

    /// Net names are canonical and distinct.
    pub open spec fn nets_canonical(&self) -> bool {
        &&& forall|n: int|
            0 <= n < self.nets@.len() ==> canonical_net_name(#[trigger] self.nets@[n].name@)
        &&& forall|a: int, b: int|
            0 <= a < b < self.nets@.len() ==> #[trigger] self.nets@[a].name@
                != #[trigger] self.nets@[b].name@
    }
}

} // verus!

verus! {

pub open spec fn min_i64(a: i64, b: i64) -> i64 {
    if a <= b { a } else { b }
}

pub open spec fn max_i64(a: i64, b: i64) -> i64 {
    if a >= b { a } else { b }
}

/// Smallest x over the points (`i64::MAX` when there are none).
pub open spec fn fold_min_x(pts: Seq<Point>) -> i64
    decreases pts.len(),
{
    if pts.len() == 0 { i64::MAX } else { min_i64(fold_min_x(pts.drop_last()), pts.last().x) }
}

pub open spec fn fold_min_y(pts: Seq<Point>) -> i64
    decreases pts.len(),
{
    if pts.len() == 0 { i64::MAX } else { min_i64(fold_min_y(pts.drop_last()), pts.last().y) }
}

pub open spec fn fold_max_x(pts: Seq<Point>) -> i64
    decreases pts.len(),
{
    if pts.len() == 0 { i64::MIN } else { max_i64(fold_max_x(pts.drop_last()), pts.last().x) }
}

pub open spec fn fold_max_y(pts: Seq<Point>) -> i64
    decreases pts.len(),
{
    if pts.len() == 0 { i64::MIN } else { max_i64(fold_max_y(pts.drop_last()), pts.last().y) }
}

/// Axis-aligned bounds of a point set, `None` when it is empty.
pub open spec fn bounds_of(pts: Seq<Point>) -> Option<(Point, Point)> {
    if pts.len() == 0 {
        None
    } else {
        Some(
            (
                Point { x: fold_min_x(pts), y: fold_min_y(pts) },
                Point { x: fold_max_x(pts), y: fold_max_y(pts) },
            ),
        )
    }
}

/// Both end points of every outline segment, in order.
pub open spec fn outline_points(outline: Seq<(Point, Point)>) -> Seq<Point> {
    Seq::new(2 * outline.len(), |i: int| if i % 2 == 0 { outline[i / 2].0 } else { outline[i / 2].1 })
}

/// Positions of all pins, in order.
pub open spec fn pin_positions(pins: Seq<Pin>) -> Seq<Point> {
    pins.map_values(|p: Pin| p.pos)
}

/// Positions of the listed pins, in order.
pub open spec fn listed_positions(pins: Seq<Pin>, idx: Seq<u32>) -> Seq<Point> {
    idx.map_values(|i: u32| pins[i as int].pos)
}

/// Running bounds of a point sequence, as a single accumulator.
pub struct Extent {
    pub min_x: i64,
    pub min_y: i64,
    pub max_x: i64,
    pub max_y: i64,
}

impl Extent {
    pub open spec fn of(pts: Seq<Point>) -> Extent {
        Extent {
            min_x: fold_min_x(pts),
            min_y: fold_min_y(pts),
            max_x: fold_max_x(pts),
            max_y: fold_max_y(pts),
        }
    }

    pub fn empty() -> (e: Extent)
        ensures
            e == Extent::of(Seq::empty()),
    {
        Extent { min_x: i64::MAX, min_y: i64::MAX, max_x: i64::MIN, max_y: i64::MIN }
    }

    pub fn extend(&mut self, p: Point)
        ensures
            forall|pts: Seq<Point>| *old(self) == Extent::of(pts) ==> *final(self) == Extent::of(pts.push(p)),
    {
        if p.x < self.min_x {
            self.min_x = p.x;
        }
        if p.y < self.min_y {
            self.min_y = p.y;
        }
        if p.x > self.max_x {
            self.max_x = p.x;
        }
        if p.y > self.max_y {
            self.max_y = p.y;
        }
        proof {
            assert forall|pts: Seq<Point>| *old(self) == Extent::of(pts) implies *final(self) == Extent::of(pts.push(p)) by {
                assert(pts.push(p).drop_last() =~= pts);
            }
        }
    }
}

impl BoardModel {
    /// Axis-aligned bounds of everything drawable. None for an empty board.
    pub fn bounds(&self) -> (r: Option<(Point, Point)>)
        ensures
            r == bounds_of(outline_points(self.outline@) + pin_positions(self.pins@)),
    {
        let ghost all = outline_points(self.outline@) + pin_positions(self.pins@);
        let mut e = Extent::empty();
        let mut i: usize = 0;
        while i < self.outline.len()
            invariant
                i <= self.outline@.len(),
                e == Extent::of(outline_points(self.outline@).take(2 * i)),
            decreases self.outline@.len() - i,
        {
            let (a, b) = self.outline[i];
            let ghost pts = outline_points(self.outline@);
            proof {
                assert(pts.take(2 * i + 1) =~= pts.take(2 * i).push(a));
                assert(pts.take(2 * i + 2) =~= pts.take(2 * i + 1).push(b));
            }
            e.extend(a);
            e.extend(b);
            i = i + 1;
        }
        assert(outline_points(self.outline@).take(2 * i) =~= outline_points(self.outline@));
        let mut j: usize = 0;
        while j < self.pins.len()
            invariant
                j <= self.pins@.len(),
                e == Extent::of(outline_points(self.outline@) + pin_positions(self.pins@).take(j as int)),
            decreases self.pins@.len() - j,
        {
            let ghost before = outline_points(self.outline@) + pin_positions(self.pins@).take(j as int);
            let p = self.pins[j].pos;
            proof {
                assert(outline_points(self.outline@) + pin_positions(self.pins@).take(j + 1) =~= before.push(p));
            }
            e.extend(p);
            j = j + 1;
        }
        assert(pin_positions(self.pins@).take(j as int) =~= pin_positions(self.pins@));
        if self.outline.len() == 0 && self.pins.len() == 0 {
            assert(all.len() == 0);
            None
        } else {
            Some((Point { x: e.min_x, y: e.min_y }, Point { x: e.max_x, y: e.max_y }))
        }
    }

    /// Bounds of one part, derived from its pins (boardview formats rarely
    /// carry part outlines).
    pub fn part_bounds(&self, part_idx: usize) -> (r: Option<(Point, Point)>)
        requires
            self.wf(),
        ensures
            part_idx >= self.parts@.len() ==> r is None,
            part_idx < self.parts@.len() ==> r == bounds_of(
                listed_positions(self.pins@, self.parts@[part_idx as int].pins@),
            ),
    {
        if part_idx >= self.parts.len() {
            return None;
        }
        let part = &self.parts[part_idx];
        proof {
            lemma_part_pins_in_range(self.pins@, part_idx as int);
        }
        self.listed_bounds(&part.pins)
    }

    pub fn net_bounds(&self, net: NetId) -> (r: Option<(Point, Point)>)
        requires
            self.wf(),
        ensures
            net as int >= self.nets@.len() ==> r is None,
            (net as int) < self.nets@.len() ==> r == bounds_of(
                listed_positions(self.pins@, self.nets@[net as int].pins@),
            ),
    {
        if net as usize >= self.nets.len() {
            return None;
        }
        let n = &self.nets[net as usize];
        proof {
            lemma_net_pins_in_range(self.pins@, net as int);
        }
        self.listed_bounds(&n.pins)
    }

    fn listed_bounds(&self, idx: &Vec<u32>) -> (r: Option<(Point, Point)>)
        requires
            forall|k: int| 0 <= k < idx@.len() ==> (#[trigger] idx@[k]) < self.pins@.len(),
        ensures
            r == bounds_of(listed_positions(self.pins@, idx@)),
    {
        let mut e = Extent::empty();
        let mut k: usize = 0;
        while k < idx.len()
            invariant
                k <= idx@.len(),
                forall|k: int| 0 <= k < idx@.len() ==> (#[trigger] idx@[k]) < self.pins@.len(),
                e == Extent::of(listed_positions(self.pins@, idx@).take(k as int)),
            decreases idx@.len() - k,
        {
            let p = self.pins[idx[k] as usize].pos;
            proof {
                assert(listed_positions(self.pins@, idx@).take(k + 1) =~= listed_positions(
                    self.pins@,
                    idx@,
                ).take(k as int).push(p));
            }
            e.extend(p);
            k = k + 1;
        }
        assert(listed_positions(self.pins@, idx@).take(k as int) =~= listed_positions(self.pins@, idx@));
        if idx.len() == 0 {
            None
        } else {
            Some((Point { x: e.min_x, y: e.min_y }, Point { x: e.max_x, y: e.max_y }))
        }
    }
}

/// Every index a part lists is a pin of that part.
pub proof fn lemma_part_pins_in_range(pins: Seq<Pin>, p: int)
    requires
        pins.len() < NO_NET,
    ensures
        forall|k: int|
            0 <= k < part_pins(pins, p).len() ==> {
                &&& (#[trigger] part_pins(pins, p)[k]) < pins.len()
                &&& pins[part_pins(pins, p)[k] as int].part == p
            },
        forall|a: int, b: int|
            0 <= a < b < part_pins(pins, p).len() ==> #[trigger] part_pins(pins, p)[a]
                < #[trigger] part_pins(pins, p)[b],
    decreases pins.len(),
{
    if pins.len() > 0 {
        let d = pins.drop_last();
        lemma_part_pins_in_range(d, p);
        let r = part_pins(d, p);
        assert forall|k: int| 0 <= k < r.len() implies (#[trigger] r[k]) < d.len() && pins[r[k] as int] == d[r[k] as int] by {}
    }
}

/// Every index a net lists is a pin on that net.
pub proof fn lemma_net_pins_in_range(pins: Seq<Pin>, n: int)
    requires
        pins.len() < NO_NET,
    ensures
        forall|k: int|
            0 <= k < net_pins(pins, n).len() ==> {
                &&& (#[trigger] net_pins(pins, n)[k]) < pins.len()
                &&& pins[net_pins(pins, n)[k] as int].net == n
            },
        forall|a: int, b: int|
            0 <= a < b < net_pins(pins, n).len() ==> #[trigger] net_pins(pins, n)[a]
                < #[trigger] net_pins(pins, n)[b],
    decreases pins.len(),
{
    if pins.len() > 0 {
        let d = pins.drop_last();
        lemma_net_pins_in_range(d, n);
        let r = net_pins(d, n);
        assert forall|k: int| 0 <= k < r.len() implies (#[trigger] r[k]) < d.len() && pins[r[k] as int] == d[r[k] as int] by {}
    }
}

} // verus!

verus! {

/// Two parts agree on everything but their pin lists.
pub open spec fn same_part_attrs(a: Part, b: Part) -> bool {
    &&& a.refdes == b.refdes
    &&& a.mfg_code == b.mfg_code
    &&& a.value == b.value
    &&& a.package == b.package
    &&& a.side == b.side
    &&& a.is_dummy == b.is_dummy
}

/// Two net lists agree on names.
pub open spec fn same_net_names(a: Seq<Net>, b: Seq<Net>) -> bool {
    &&& a.len() == b.len()
    &&& forall|n: int| 0 <= n < a.len() ==> #[trigger] a[n].name == b[n].name
}

/// Two part lists agree on everything but pin lists.
pub open spec fn same_parts_attrs(a: Seq<Part>, b: Seq<Part>) -> bool {
    &&& a.len() == b.len()
    &&& forall|p: int| 0 <= p < a.len() ==> same_part_attrs(#[trigger] a[p], b[p])
}

} // verus!

verus! {

/// Adding one pin extends the pin lists of its part and of its net.
proof fn lemma_lists_step(pins: Seq<Pin>, j: int, p: int, n: int)
    requires
        0 <= j < pins.len(),
    ensures
        part_pins(pins.take(j + 1), p) == (if pins[j].part == p {
            part_pins(pins.take(j), p).push(j as u32)
        } else {
            part_pins(pins.take(j), p)
        }),
        net_pins(pins.take(j + 1), n) == (if pins[j].net == n {
            net_pins(pins.take(j), n).push(j as u32)
        } else {
            net_pins(pins.take(j), n)
        }),
{
    assert(pins.take(j + 1).drop_last() =~= pins.take(j));
}

fn same_u32s(a: &Vec<u32>, b: &Vec<u32>) -> (r: bool)
    ensures
        r == (a@ == b@),
{
    if a.len() != b.len() {
        return false;
    }
    let mut i: usize = 0;
    while i < a.len()
        invariant
            i <= a@.len(),
            a@.len() == b@.len(),
            forall|k: int| 0 <= k < i ==> a@[k] == b@[k],
        decreases a@.len() - i,
    {
        if a[i] != b[i] {
            return false;
        }
        i = i + 1;
    }
    assert(a@ =~= b@);
    true
}

impl BoardModel {
    /// Checks the cross references of a model that was not built here (one
    /// read back from the cache, say).
    pub fn check_wf(&self) -> (r: bool)
        ensures
            r == self.wf(),
    {
        let np = self.pins.len();
        let nn = self.nets.len();
        let nparts = self.parts.len();
        if np >= 0xffff_ffffusize || nn >= 0xffff_ffffusize || nparts >= 0xffff_ffffusize {
            return false;
        }
        let mut i: usize = 0;
        while i < np
            invariant
                np == self.pins@.len(),
                nn == self.nets@.len(),
                nparts == self.parts@.len(),
                i <= np,
                forall|k: int| 0 <= k < i ==> (#[trigger] self.pins@[k]).net == NO_NET
                    || self.pins@[k].net < nn,
                forall|k: int| 0 <= k < i ==> (#[trigger] self.pins@[k]).part < nparts,
            decreases np - i,
        {
            let pin = &self.pins[i];
            if !(pin.net == NO_NET || (pin.net as usize) < nn) || (pin.part as usize) >= nparts {
                return false;
            }
            i = i + 1;
        }
        let mut by_part: Vec<Vec<u32>> = Vec::new();
        let mut k: usize = 0;
        while k < nparts
            invariant
                k <= nparts,
                by_part@.len() == k,
                forall|q: int| 0 <= q < k ==> (#[trigger] by_part@[q])@.len() == 0,
            decreases nparts - k,
        {
            by_part.push(Vec::new());
            k = k + 1;
        }
        let mut by_net: Vec<Vec<u32>> = Vec::new();
        k = 0;
        while k < nn
            invariant
                k <= nn,
                by_net@.len() == k,
                forall|q: int| 0 <= q < k ==> (#[trigger] by_net@[q])@.len() == 0,
            decreases nn - k,
        {
            by_net.push(Vec::new());
            k = k + 1;
        }
        assert(self.pins@.take(0) =~= Seq::<Pin>::empty());
        let mut j: usize = 0;
        while j < np
            invariant
                np == self.pins@.len(),
                np < 0xffff_ffff,
                nn < 0xffff_ffff,
                nn == self.nets@.len(),
                nparts == self.parts@.len(),
                j <= np,
                by_part@.len() == nparts,
                by_net@.len() == nn,
                forall|k: int| 0 <= k < np ==> (#[trigger] self.pins@[k]).net == NO_NET
                    || self.pins@[k].net < nn,
                forall|k: int| 0 <= k < np ==> (#[trigger] self.pins@[k]).part < nparts,
                forall|q: int| 0 <= q < nparts ==> (#[trigger] by_part@[q])@ == part_pins(
                    self.pins@.take(j as int),
                    q,
                ),
                forall|q: int| 0 <= q < nn ==> (#[trigger] by_net@[q])@ == net_pins(
                    self.pins@.take(j as int),
                    q,
                ),
            decreases np - j,
        {
            let part = self.pins[j].part as usize;
            let net = self.pins[j].net;
            let ghost bp = by_part@;
            let ghost bn = by_net@;
            by_part[part].push(j as u32);
            if net != NO_NET {
                by_net[net as usize].push(j as u32);
                assert(by_net@[net as int]@ == bn[net as int]@.push(j as u32));
                assert(forall|q: int| 0 <= q < nn && q != net ==> by_net@[q] == bn[q]);
            } else {
                assert(by_net@ == bn);
            }
            proof {
                assert forall|q: int| 0 <= q < nparts implies (#[trigger] by_part@[q])@ == part_pins(
                    self.pins@.take(j + 1),
                    q,
                ) by {
                    lemma_lists_step(self.pins@, j as int, q, 0);
                    if q != part as int {
                        assert(by_part@[q] == bp[q]);
                    }
                }
                assert forall|q: int| 0 <= q < nn implies (#[trigger] by_net@[q])@ == net_pins(
                    self.pins@.take(j + 1),
                    q,
                ) by {
                    lemma_lists_step(self.pins@, j as int, 0, q);
                    assert(bn[q]@ == net_pins(self.pins@.take(j as int), q));
                    if net == NO_NET || q != net as int {
                        assert(by_net@[q] == bn[q]);
                    } else {
                        assert(by_net@[q]@ == bn[q]@.push(j as u32));
                    }
                }
            }
            j = j + 1;
        }
        assert(self.pins@.take(np as int) =~= self.pins@);
        let mut p: usize = 0;
        while p < nparts
            invariant
                np == self.pins@.len(),
                nparts == self.parts@.len(),
                p <= nparts,
                by_part@.len() == nparts,
                forall|q: int| 0 <= q < nparts ==> (#[trigger] by_part@[q])@ == part_pins(self.pins@, q),
                forall|q: int| 0 <= q < p ==> (#[trigger] self.parts@[q]).pins@ == part_pins(self.pins@, q),
            decreases nparts - p,
        {
            if !same_u32s(&self.parts[p].pins, &by_part[p]) {
                return false;
            }
            p = p + 1;
        }
        let mut n: usize = 0;
        while n < nn
            invariant
                np == self.pins@.len(),
                nn == self.nets@.len(),
                n <= nn,
                by_net@.len() == nn,
                forall|q: int| 0 <= q < nn ==> (#[trigger] by_net@[q])@ == net_pins(self.pins@, q),
                forall|q: int| 0 <= q < n ==> (#[trigger] self.nets@[q]).pins@ == net_pins(self.pins@, q),
            decreases nn - n,
        {
            if !same_u32s(&self.nets[n].pins, &by_net[n]) {
                return false;
            }
            n = n + 1;
        }
        true
    }
}

} // verus!
