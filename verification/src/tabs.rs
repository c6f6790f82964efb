//! Selection on an open board and net expansion ("follow the rail through
//! jumpers"): from the selected net, nets reached through two-pin jumper
//! parts are highlighted by how many jumpers away they are.

use vstd::prelude::*;
use crate::model::{BoardModel, NetId, NO_NET};
use crate::strs::{concat_str, chars_of, chars_eq};
use crate::netclass::{is_ground, is_jumper_refdes, spec_is_ground, spec_is_jumper_refdes};

verus! {

/// A pending request to bring a part or a net into view.
#[derive(Debug, Clone, Copy, PartialEq, Eq, Structural)]
pub enum CenterRequest {
    Part(usize),
    Net(usize),
}

/// The selection state of an open board.
pub struct Selection {
    pub selected_part: Option<usize>,
    pub selected_net: Option<NetId>,
    /// 0 = off; 1..=3 jumper-expansion levels.
    pub expansion: u8,
}

impl Selection {
    pub fn new() -> (s: Self)
        ensures
            s.selected_part is None,
            s.selected_net is None,
            s.expansion == 0,
    {
        Selection { selected_part: None, selected_net: None, expansion: 0 }
    }

    /// Selects a pin: its part, and its net when it has one.
    pub fn select_pin(&mut self, model: &BoardModel, pin_idx: usize)
        requires
            pin_idx < model.pins@.len(),
        ensures
            final(self).selected_part == Some(model.pins@[pin_idx as int].part as usize),
            final(self).selected_net == (if model.pins@[pin_idx as int].net != NO_NET {
                Some(model.pins@[pin_idx as int].net)
            } else {
                None
            }),
            final(self).expansion == old(self).expansion,
    {
        let pin = &model.pins[pin_idx];
        self.selected_part = Some(pin.part as usize);
        self.selected_net = if pin.net != NO_NET {
            Some(pin.net)
        } else {
            None
        };
    }

    pub fn select_net(&mut self, net: NetId)
        ensures
            final(self).selected_net == Some(net),
            final(self).selected_part == old(self).selected_part,
            final(self).expansion == old(self).expansion,
    {
        self.selected_net = Some(net);
    }
}

/// A part that carries a rail: not a test-pad group, exactly two pins, and
/// a jumper-like designator.
pub open spec fn link_part(m: BoardModel, pt: int) -> bool {
    &&& !m.parts@[pt].is_dummy
    &&& m.parts@[pt].pins@.len() == 2
    &&& spec_is_jumper_refdes(m.parts@[pt].refdes@)
}

/// Net `o` is reached from net `n` through pin `j` of `n` and pin `q` of
/// that pin's part, a jumper; `o` is connected, different from `n`, and not
/// ground.
pub open spec fn linked_via(m: BoardModel, n: int, j: int, q: int, o: int) -> bool {
    &&& 0 <= j < m.nets@[n].pins@.len()
    &&& 0 <= q < 2
    &&& link_part(m, m.pins@[m.nets@[n].pins@[j] as int].part as int)
    &&& m.pins@[m.parts@[m.pins@[m.nets@[n].pins@[j] as int].part as int].pins@[q] as int].net == o
    &&& o != NO_NET
    &&& o != n
    &&& !spec_is_ground(m.nets@[o].name@)
}

pub open spec fn linked(m: BoardModel, n: int, o: int) -> bool {
    exists|j: int, q: int| #[trigger] linked_via(m, n, j, q, o)
}

/// The nets within `k` jumpers of `root`.
pub open spec fn reach(m: BoardModel, root: int, k: nat) -> Set<int>
    decreases k,
{
    if k == 0 {
        set![root]
    } else {
        let r = reach(m, root, (k - 1) as nat);
        r.union(Set::new(|o: int| exists|n: int| r.contains(n) && #[trigger] linked(m, n, o)))
    }
}

/// `o` is exactly `l` jumpers away from `root`.
pub open spec fn at_level(m: BoardModel, root: int, o: int, l: nat) -> bool {
    &&& reach(m, root, l).contains(o)
    &&& (l == 0 || !reach(m, root, (l - 1) as nat).contains(o))
}

/// Expansion never enters ground: every net it reaches besides the
/// selected one is a connected net whose name is not a ground name.
pub proof fn lemma_expansion_avoids_ground(m: BoardModel, root: int, k: nat, o: int)
    requires
        reach(m, root, k).contains(o),
        o != root,
    ensures
        o != NO_NET,
        !spec_is_ground(m.nets@[o].name@),
    decreases k,
{
    if k > 0 {
        let r = reach(m, root, (k - 1) as nat);
        if !r.contains(o) {
            let n = choose|n: int| r.contains(n) && #[trigger] linked(m, n, o);
            let (j, q) = choose|j: int, q: int| #[trigger] linked_via(m, n, j, q, o);
        } else {
            lemma_expansion_avoids_ground(m, root, (k - 1) as nat, o);
        }
    }
}

/// Each expansion step crosses a jumper: when net `o` is linked to net
/// `n`, some two-pin part that is not a test-pad group and whose
/// designator is a jumper has one pin on `n` and one on `o`.
pub proof fn lemma_expansion_crosses_jumper(m: BoardModel, n: int, o: int)
    requires
        m.wf(),
        0 <= n < m.nets@.len(),
        linked(m, n, o),
    ensures
        exists|pt: int, x: int, y: int|
            #![trigger m.pins@[x], m.pins@[y], m.parts@[pt]]
            0 <= pt < m.parts@.len() && 0 <= x < m.pins@.len() && 0 <= y < m.pins@.len() && m.parts@[pt].pins@.len()
                == 2 && !m.parts@[pt].is_dummy && spec_is_jumper_refdes(m.parts@[pt].refdes@) && m.pins@[x].part == pt
                && m.pins@[y].part == pt && m.pins@[x].net == n && m.pins@[y].net == o,
{
    let (j, q) = choose|j: int, q: int| #[trigger] linked_via(m, n, j, q, o);
    crate::model::lemma_net_pins_in_range(m.pins@, n);
    let x = m.nets@[n].pins@[j] as int;
    assert(m.nets@[n].pins@ == crate::model::net_pins(m.pins@, n));
    assert(x < m.pins@.len() && m.pins@[x].net == n);
    let pt = m.pins@[x].part as int;
    assert(pt < m.parts@.len());
    crate::model::lemma_part_pins_in_range(m.pins@, pt);
    assert(m.parts@[pt].pins@ == crate::model::part_pins(m.pins@, pt));
    let y = m.parts@[pt].pins@[q] as int;
    assert(y < m.pins@.len() && m.pins@[y].part == pt);
    assert(m.parts@[pt] == m.parts@[pt]);
}

proof fn lemma_reach_grows(m: BoardModel, root: int, a: nat, b: nat)
    requires
        a <= b,
    ensures
        reach(m, root, a).subset_of(reach(m, root, b)),
    decreases b,
{
    if a < b {
        lemma_reach_grows(m, root, a, (b - 1) as nat);
    }
}

proof fn lemma_reach_stable(m: BoardModel, root: int, k: nat, e: nat)
    requires
        k <= e,
        reach(m, root, k + 1) == reach(m, root, k),
    ensures
        reach(m, root, e) == reach(m, root, k),
    decreases e - k,
{
    if k < e {
        lemma_reach_stable_step(m, root, k);
        lemma_reach_stable(m, root, k + 1, e);
    }
}

proof fn lemma_reach_stable_step(m: BoardModel, root: int, k: nat)
    requires
        reach(m, root, k + 1) == reach(m, root, k),
    ensures
        reach(m, root, k + 2) == reach(m, root, k + 1),
{
    assert(reach(m, root, k + 2) =~= reach(m, root, k + 1));
}

/// The highlight levels as pairs: no net twice, each at its distance.
pub open spec fn levels_ok(m: BoardModel, root: int, v: Seq<(NetId, u8)>) -> bool {
    &&& forall|a: int, b: int| 0 <= a < b < v.len() ==> (#[trigger] v[a]).0 != (#[trigger] v[b]).0
    &&& forall|a: int| 0 <= a < v.len() ==> at_level(m, root, (#[trigger] v[a]).0 as int, v[a].1 as nat)
}

pub open spec fn keys(v: Seq<(NetId, u8)>) -> Set<int> {
    Set::new(|o: int| exists|a: int| 0 <= a < v.len() && #[trigger] v[a].0 as int == o)
}

fn find_key(v: &Vec<(NetId, u8)>, o: NetId) -> (r: bool)
    ensures
        r == keys(v@).contains(o as int),
{
    let mut i: usize = 0;
    while i < v.len()
        invariant
            i <= v@.len(),
            forall|a: int| 0 <= a < i ==> v@[a].0 != o,
        decreases v@.len() - i,
    {
        if v[i].0 == o {
            assert(v@[i as int].0 as int == o as int);
            return true;
        }
        i = i + 1;
    }
    false
}

/// Net id to highlight level for the selection: the selected net at 0, and
/// with expansion on, every net reached through up to `expansion` jumpers
/// at its distance. Nothing without a selected net.
pub fn highlight_map(sel: &Selection, model: &BoardModel) -> (r: Vec<(NetId, u8)>)
    requires
        model.wf(),
        sel.selected_net matches Some(n) ==> n < model.nets@.len(),
    ensures
        sel.selected_net is None ==> r@.len() == 0,
        sel.selected_net matches Some(root) ==> {
            &&& levels_ok(*model, root as int, r@)
            &&& keys(r@) == reach(*model, root as int, sel.expansion as nat)
        },
{
    let root = match sel.selected_net {
        Some(n) => n,
        None => {
            return Vec::new();
        },
    };
    let ghost rt = root as int;
    let mut map: Vec<(NetId, u8)> = Vec::new();
    map.push((root, 0u8));
    proof {
        assert(map@[0].0 as int == rt);
        assert(keys(map@) =~= reach(*model, rt, 0));
        assert(at_level(*model, rt, rt, 0));
    }
    if sel.expansion == 0 {
        return map;
    }
    let mut frontier: Vec<NetId> = Vec::new();
    frontier.push(root);
    assert(frontier@[0] == root);
    let mut level: u16 = 1;
    let max_level = sel.expansion as u16;
    while level <= max_level
        invariant
            model.wf(),
            root < model.nets@.len(),
            rt == root as int,
            1 <= level,
            level <= sel.expansion + 1,
            max_level == sel.expansion,
            sel.selected_net == Some(root),
            levels_ok(*model, rt, map@),
            keys(map@) == reach(*model, rt, (level - 1) as nat),
            forall|f: int| 0 <= f < frontier@.len() ==> (#[trigger] frontier@[f]) < model.nets@.len(),
            forall|o: int| #[trigger] reach(*model, rt, (level - 1) as nat).contains(o) && !(level >= 2 && reach(*model, rt, (level - 2) as nat).contains(o)) ==> exists|f: int| 0 <= f < frontier@.len() && frontier@[f] == o,
            forall|f: int| 0 <= f < frontier@.len() ==> reach(*model, rt, (level - 1) as nat).contains(#[trigger] frontier@[f] as int),
        decreases 256 - level,
    {
        let ghost prev = reach(*model, rt, (level - 1) as nat);
        let ghost newly = Set::new(|o: int| exists|n: int| prev.contains(n) && #[trigger] linked(*model, n, o));
        let mut next: Vec<NetId> = Vec::new();
        let mut fi: usize = 0;
        while fi < frontier.len()
            invariant
                model.wf(),
                root < model.nets@.len(),
                rt == root as int,
                1 <= level <= sel.expansion,
                fi <= frontier@.len(),
                prev == reach(*model, rt, (level - 1) as nat),
                newly == Set::new(|o: int| exists|n: int| prev.contains(n) && #[trigger] linked(*model, n, o)),
                levels_ok(*model, rt, map@),
                forall|f: int| 0 <= f < frontier@.len() ==> (#[trigger] frontier@[f]) < model.nets@.len(),
                forall|f: int| 0 <= f < frontier@.len() ==> prev.contains(#[trigger] frontier@[f] as int),
                prev.subset_of(keys(map@)),
                keys(map@).subset_of(prev.union(newly)),
                forall|f: int, o: int| 0 <= f < fi && #[trigger] linked(*model, frontier@[f] as int, o) ==> keys(map@).contains(o),
                forall|a: int| 0 <= a < map@.len() && !prev.contains(#[trigger] map@[a].0 as int) ==> map@[a].1 == level,
                forall|x: int| 0 <= x < next@.len() ==> keys(map@).contains(#[trigger] next@[x] as int) && !prev.contains(next@[x] as int) && (next@[x] as int) < model.nets@.len(),
                forall|o: int| #[trigger] keys(map@).contains(o) && !prev.contains(o) ==> exists|x: int| 0 <= x < next@.len() && next@[x] == o,
            decreases frontier@.len() - fi,
        {
            let net = frontier[fi];
            let ghost n = net as int;
            let npins = model.nets[net as usize].pins.len();
            let mut j: usize = 0;
            while j < npins
                invariant
                    model.wf(),
                    rt == root as int,
                    1 <= level <= sel.expansion,
                    n == net as int,
                    net < model.nets@.len(),
                    prev.contains(n),
                    npins == model.nets@[n].pins@.len(),
                    j <= npins,
                    prev == reach(*model, rt, (level - 1) as nat),
                    newly == Set::new(|o: int| exists|n: int| prev.contains(n) && #[trigger] linked(*model, n, o)),
                    levels_ok(*model, rt, map@),
                    prev.subset_of(keys(map@)),
                    keys(map@).subset_of(prev.union(newly)),
                    forall|f: int, o: int| 0 <= f < fi && #[trigger] linked(*model, frontier@[f] as int, o) ==> keys(map@).contains(o),
                    forall|jj: int, q: int, o: int| 0 <= jj < j && #[trigger] linked_via(*model, n, jj, q, o) ==> keys(map@).contains(o),
                    forall|a: int| 0 <= a < map@.len() && !prev.contains(#[trigger] map@[a].0 as int) ==> map@[a].1 == level,
                    forall|x: int| 0 <= x < next@.len() ==> keys(map@).contains(#[trigger] next@[x] as int) && !prev.contains(next@[x] as int) && (next@[x] as int) < model.nets@.len(),
                    forall|o: int| #[trigger] keys(map@).contains(o) && !prev.contains(o) ==> exists|x: int| 0 <= x < next@.len() && next@[x] == o,
                decreases npins - j,
            {
                let pin_idx = model.nets[net as usize].pins[j] as usize;
                proof {
                    crate::model::lemma_net_pins_in_range(model.pins@, n);
                }
                let pt = model.pins[pin_idx].part as usize;
                let part = &model.parts[pt];
                let is_link = !part.is_dummy && part.pins.len() == 2 && is_jumper_refdes(part.refdes.as_str());
                if is_link {
                    proof {
                        crate::model::lemma_part_pins_in_range(model.pins@, pt as int);
                    }
                    let mut q: usize = 0;
                    while q < 2
                        invariant
                            model.wf(),
                            rt == root as int,
                            1 <= level <= sel.expansion,
                            n == net as int,
                            net < model.nets@.len(),
                            prev.contains(n),
                            j < npins,
                            npins == model.nets@[n].pins@.len(),
                            pin_idx == model.nets@[n].pins@[j as int],
                            pin_idx < model.pins@.len(),
                            pt == model.pins@[pin_idx as int].part,
                            pt < model.parts@.len(),
                            link_part(*model, pt as int),
                            forall|k: int| 0 <= k < model.parts@[pt as int].pins@.len() ==> (#[trigger] model.parts@[pt as int].pins@[k]) < model.pins@.len(),
                            q <= 2,
                            prev == reach(*model, rt, (level - 1) as nat),
                            newly == Set::new(|o: int| exists|n: int| prev.contains(n) && #[trigger] linked(*model, n, o)),
                            levels_ok(*model, rt, map@),
                            prev.subset_of(keys(map@)),
                            keys(map@).subset_of(prev.union(newly)),
                            forall|f: int, o: int| 0 <= f < fi && #[trigger] linked(*model, frontier@[f] as int, o) ==> keys(map@).contains(o),
                            forall|jj: int, qq: int, o: int| 0 <= jj < j && #[trigger] linked_via(*model, n, jj, qq, o) ==> keys(map@).contains(o),
                            forall|qq: int, o: int| 0 <= qq < q && #[trigger] linked_via(*model, n, j as int, qq, o) ==> keys(map@).contains(o),
                            forall|a: int| 0 <= a < map@.len() && !prev.contains(#[trigger] map@[a].0 as int) ==> map@[a].1 == level,
                            forall|x: int| 0 <= x < next@.len() ==> keys(map@).contains(#[trigger] next@[x] as int) && !prev.contains(next@[x] as int) && (next@[x] as int) < model.nets@.len(),
                            forall|o: int| #[trigger] keys(map@).contains(o) && !prev.contains(o) ==> exists|x: int| 0 <= x < next@.len() && next@[x] == o,
                        decreases 2 - q,
                    {
                        let other = model.pins[model.parts[pt].pins[q] as usize].net;
                        if other != NO_NET && other != net && !is_ground(model.nets[other as usize].name.as_str()) {
                            proof {
                                assert(linked_via(*model, n, j as int, q as int, other as int));
                                assert(linked(*model, n, other as int));
                            }
                            if !find_key(&map, other) {
                                let ghost before = map@;
                                let ghost next_before = next@;
                                map.push((other, level as u8));
                                next.push(other);
                                proof {
                                    assert(prev.contains(n) && linked(*model, n, other as int));
                                    assert(newly.contains(other as int));
                                    assert(map@[map@.len() - 1].0 == other);
                                    assert forall|o: int| keys(map@).contains(o) == keys(before).insert(other as int).contains(o) by {
                                        if keys(before).contains(o) {
                                            let a = choose|a: int| 0 <= a < before.len() && #[trigger] before[a].0 as int == o;
                                            assert(map@[a] == before[a]);
                                        }
                                        if keys(map@).contains(o) {
                                            let a = choose|a: int| 0 <= a < map@.len() && #[trigger] map@[a].0 as int == o;
                                            if a < before.len() {
                                                assert(map@[a] == before[a]);
                                            }
                                        }
                                    }
                                    assert(keys(map@) =~= keys(before).insert(other as int));
                                    assert(at_level(*model, rt, other as int, level as nat)) by {
                                        assert(reach(*model, rt, level as nat) == prev.union(newly));
                                    }
                                    assert(map@[map@.len() - 1].0 == other);
                                    assert forall|a: int, b: int| 0 <= a < b < map@.len() implies (#[trigger] map@[a]).0 != (#[trigger] map@[b]).0 by {
                                        if b == map@.len() - 1 {
                                            assert(before[a] == map@[a]);
                                            if before[a].0 == other {
                                                assert(keys(before).contains(other as int));
                                            }
                                        } else {
                                            assert(before[a] == map@[a] && before[b] == map@[b]);
                                        }
                                    }
                                    assert forall|a: int| 0 <= a < map@.len() implies at_level(*model, rt, (#[trigger] map@[a]).0 as int, map@[a].1 as nat) by {
                                        if a < map@.len() - 1 {
                                            assert(before[a] == map@[a]);
                                        }
                                    }
                                    assert forall|o: int| #[trigger] keys(map@).contains(o) && !prev.contains(o) implies exists|x: int| 0 <= x < next@.len() && next@[x] == o by {
                                        if o == other as int {
                                            assert(next@[next@.len() - 1] == other);
                                        } else {
                                            assert(keys(before).contains(o));
                                            let x = choose|x: int| 0 <= x < next_before.len() && next_before[x] == o;
                                            assert(next@[x] == o);
                                        }
                                    }
                                }
                            }
                        }
                        proof {
                            assert forall|qq: int, o: int| 0 <= qq < q + 1 && #[trigger] linked_via(*model, n, j as int, qq, o) implies keys(map@).contains(o) by {
                                if qq == q {
                                    assert(o == other as int);
                                }
                            }
                        }
                        q = q + 1;
                    }
                    proof {
                        assert forall|jj: int, qq: int, o: int| 0 <= jj < j + 1 && #[trigger] linked_via(*model, n, jj, qq, o) implies keys(map@).contains(o) by {}
                    }
                } else {
                    proof {
                        assert forall|jj: int, qq: int, o: int| 0 <= jj < j + 1 && #[trigger] linked_via(*model, n, jj, qq, o) implies keys(map@).contains(o) by {
                            if jj == j {
                                assert(!link_part(*model, pt as int));
                            }
                        }
                    }
                }
                j = j + 1;
            }
            proof {
                assert forall|f: int, o: int| 0 <= f < fi + 1 && #[trigger] linked(*model, frontier@[f] as int, o) implies keys(map@).contains(o) by {
                    if f == fi {
                        let (jj, qq) = choose|jj: int, qq: int| #[trigger] linked_via(*model, n, jj, qq, o);
                        assert(linked_via(*model, n, jj, qq, o));
                    }
                }
            }
            fi = fi + 1;
        }
        proof {
            let cur = reach(*model, rt, level as nat);
            assert(cur == prev.union(newly));
            assert forall|o: int| #[trigger] newly.contains(o) implies keys(map@).contains(o) by {
                let n0 = choose|n0: int| prev.contains(n0) && #[trigger] linked(*model, n0, o);
                if level >= 2 && reach(*model, rt, (level - 2) as nat).contains(n0) {
                    assert(reach(*model, rt, (level - 1) as nat) == reach(*model, rt, (level - 2) as nat).union(
                        Set::new(|o2: int| exists|n: int| reach(*model, rt, (level - 2) as nat).contains(n) && #[trigger] linked(*model, n, o2))));
                    assert(prev.contains(o));
                } else {
                    let f = choose|f: int| 0 <= f < frontier@.len() && frontier@[f] == n0;
                    assert(linked(*model, frontier@[f] as int, o));
                }
            }
            assert(keys(map@) =~= cur);
        }
        if next.len() == 0 {
            proof {
                assert forall|o: int| #[trigger] reach(*model, rt, level as nat).contains(o) implies prev.contains(o) by {
                    if !prev.contains(o) {
                        assert(keys(map@).contains(o));
                        let x = choose|x: int| 0 <= x < next@.len() && next@[x] == o;
                    }
                }
                assert(reach(*model, rt, level as nat) =~= prev);
                lemma_reach_stable(*model, rt, (level - 1) as nat, sel.expansion as nat);
            }
            return map;
        }
        frontier = next;
        level = level + 1;
    }
    map
}

/// The number of pins on net `a`.
pub open spec fn net_size(m: BoardModel, a: int) -> int {
    m.nets@[a].pins@.len() as int
}

/// Net `a` is listed before net `b`: more pins first, ties in model order.
pub open spec fn listed_before(m: BoardModel, a: int, b: int) -> bool {
    net_size(m, a) > net_size(m, b) || (net_size(m, a) == net_size(m, b) && a < b)
}

/// `order` lists the first `limit` of nets `0..k` in that order.
pub open spec fn busiest_of(m: BoardModel, order: Seq<usize>, k: int, limit: int) -> bool {
    &&& order.len() == (if limit < k { limit } else { k })
    &&& forall|i: int| 0 <= i < order.len() ==> order[i] < k
    &&& forall|i: int, j: int|
        0 <= i < j < order.len() ==> listed_before(m, #[trigger] order[i] as int, #[trigger] order[j] as int)
    &&& forall|e: usize, i: int|
        e < k && !order.contains(e) && 0 <= i < order.len() ==> #[trigger] listed_before(m, order[i] as int, e as int)
    &&& order.len() < limit ==> forall|e: usize| e < k ==> #[trigger] order.contains(e)
}

/// Net `k` joins the listing of nets `0..k` at `p`, the first place whose
/// net is smaller; the last one drops out when the listing overflows.
proof fn lemma_busiest_insert(m: BoardModel, order: Seq<usize>, k: usize, limit: int, p: int)
    requires
        busiest_of(m, order, k as int, limit),
        k < m.nets@.len(),
        0 <= p <= order.len(),
        p < limit,
        forall|q: int| 0 <= q < p ==> net_size(m, #[trigger] order[q] as int) >= net_size(m, k as int),
        p < order.len() ==> net_size(m, order[p] as int) < net_size(m, k as int),
    ensures
        ({
            let ins = order.insert(p, k);
            busiest_of(m, if ins.len() > limit { ins.drop_last() } else { ins }, k + 1, limit)
        }),
{
    let ins = order.insert(p, k);
    order.insert_ensures(p, k);
    let out = if ins.len() > limit {
        ins.drop_last()
    } else {
        ins
    };
    let n = order.len() as int;
    assert(forall|i: int| 0 <= i < out.len() ==> #[trigger] out[i] == ins[i]);
    assert(forall|i: int| 0 <= i < p ==> #[trigger] ins[i] == order[i]);
    assert(forall|i: int| p < i <= n ==> #[trigger] ins[i] == order[i - 1]);
    assert(ins[p] == k);
    // Where `k` stands relative to the old listing.
    assert forall|q: int| p <= q < n implies listed_before(m, k as int, #[trigger] order[q] as int) by {
        if q > p {
            assert(listed_before(m, order[p] as int, order[q] as int));
        }
    }
    assert forall|q: int| 0 <= q < p implies listed_before(m, #[trigger] order[q] as int, k as int) by {
        assert(order[q] < k);
    }
    // Sorted.
    assert forall|i: int, j: int| 0 <= i < j < ins.len() implies listed_before(
        m,
        #[trigger] ins[i] as int,
        #[trigger] ins[j] as int,
    ) by {
        if j < p {
            assert(listed_before(m, order[i] as int, order[j] as int));
        } else if j == p {
            assert(listed_before(m, order[i] as int, k as int));
        } else if i < p {
            assert(listed_before(m, order[i] as int, order[j - 1] as int));
        } else if i == p {
            assert(listed_before(m, k as int, order[j - 1] as int));
        } else {
            assert(listed_before(m, order[i - 1] as int, order[j - 1] as int));
        }
    }
    assert forall|i: int, j: int| 0 <= i < j < out.len() implies listed_before(
        m,
        #[trigger] out[i] as int,
        #[trigger] out[j] as int,
    ) by {
        assert(listed_before(m, ins[i] as int, ins[j] as int));
    }
    // In range.
    assert forall|i: int| 0 <= i < out.len() implies out[i] < k + 1 by {
        if i < p {
            assert(order[i] < k);
        } else if i > p {
            assert(order[i - 1] < k);
        }
    }
    assert(out[p] == k);
    // What drops out is the old last net.
    assert forall|e: usize| e < k && #[trigger] order.contains(e) && !out.contains(e) implies ins.len() > limit && e
        == order[n - 1] by {
        let w = choose|w: int| 0 <= w < n && order[w] == e;
        if w < p {
            assert(out[w] == e);
        } else if w + 1 < out.len() {
            assert(out[w + 1] == e);
        } else {
            assert(w == n - 1);
        }
    }
    // Complete.
    assert forall|e: usize, i: int| e < k + 1 && !out.contains(e) && 0 <= i < out.len() implies #[trigger] listed_before(
        m,
        out[i] as int,
        e as int,
    ) by {
        assert(e != k);
        if order.contains(e) {
            let last = n - 1;
            assert(e == order[last]);
            if i < p {
                assert(listed_before(m, order[i] as int, order[last] as int));
            } else if i == p {
                if p < last {
                    assert(listed_before(m, order[p] as int, order[last] as int));
                }
            } else {
                assert(i - 1 < last);
                assert(listed_before(m, order[i - 1] as int, order[last] as int));
            }
        } else {
            assert(n == limit);
            if i < p {
                assert(listed_before(m, order[i] as int, e as int));
            } else if i == p {
                let last = n - 1;
                assert(listed_before(m, order[last] as int, e as int));
                if p < last {
                    assert(listed_before(m, order[p] as int, order[last] as int));
                }
            } else {
                assert(listed_before(m, order[i - 1] as int, e as int));
            }
        }
    }
    if out.len() < limit {
        assert forall|e: usize| e < k + 1 implies #[trigger] out.contains(e) by {
            if e < k {
                assert(order.contains(e));
                let w = choose|w: int| 0 <= w < n && order[w] == e;
                if w < p {
                    assert(out[w] == e);
                } else {
                    assert(out[w + 1] == e);
                }
            }
        }
    }
}

/// The first `limit` nets of the board, busiest first, ties in model
/// order: where a board's rails are.
pub fn busiest_nets(model: &BoardModel, limit: usize) -> (order: Vec<usize>)
    ensures
        busiest_of(*model, order@, model.nets@.len() as int, limit as int),
{
    let mut order: Vec<usize> = Vec::new();
    let mut k: usize = 0;
    while k < model.nets.len()
        invariant
            k <= model.nets@.len(),
            busiest_of(*model, order@, k as int, limit as int),
        decreases model.nets@.len() - k,
    {
        let c = model.nets[k].pins.len();
        let mut p: usize = 0;
        while p < order.len() && model.nets[order[p]].pins.len() >= c
            invariant
                k < model.nets@.len(),
                p <= order@.len(),
                c == model.nets@[k as int].pins@.len(),
                forall|i: int| 0 <= i < order@.len() ==> order@[i] < k,
                forall|q: int| 0 <= q < p ==> net_size(*model, #[trigger] order@[q] as int) >= c,
            decreases order@.len() - p,
        {
            p = p + 1;
        }
        if p < limit {
            proof {
                lemma_busiest_insert(*model, order@, k, limit as int, p as int);
            }
            order.insert(p, k);
            if order.len() > limit {
                order.pop();
            }
        } else {
            assert forall|e: usize, i: int|
                e < k + 1 && !order@.contains(e) && 0 <= i < order@.len() implies #[trigger] listed_before(
                *model,
                order@[i] as int,
                e as int,
            ) by {
                if e == k {
                    assert(net_size(*model, order@[i] as int) >= c);
                }
            }
        }
        k = k + 1;
    }
    order
}

/// How the part inspector lists a pin: its net's name ("(nc)" for none),
/// behind its number and an arrow when it has a number.
pub open spec fn pin_label_text(m: BoardModel, j: int) -> Seq<char> {
    let pin = m.pins@[j];
    let net = if pin.net == NO_NET {
        "(nc)"@
    } else {
        m.nets@[pin.net as int].name@
    };
    if pin.number@.len() == 0 {
        net
    } else {
        pin.number@ + " \u{2192} "@ + net
    }
}

pub fn pin_label(model: &BoardModel, j: usize) -> (s: String)
    requires
        model.wf(),
        j < model.pins@.len(),
    ensures
        s@ == pin_label_text(*model, j as int),
{
    let pin = &model.pins[j];
    let net = if pin.net == NO_NET {
        "(nc)".to_owned()
    } else {
        model.nets[pin.net as usize].name.clone()
    };
    if pin.number.as_str().is_empty() {
        net
    } else {
        let head = concat_str(pin.number.as_str(), " \u{2192} ");
        concat_str(head.as_str(), net.as_str())
    }
}

/// Texts in lexicographic order of their characters.
pub open spec fn text_lt(a: Seq<char>, b: Seq<char>) -> bool
    decreases a.len(),
{
    if a.len() == 0 {
        b.len() > 0
    } else if b.len() == 0 {
        false
    } else if a[0] != b[0] {
        (a[0] as u32) < (b[0] as u32)
    } else {
        text_lt(a.drop_first(), b.drop_first())
    }
}

proof fn lemma_text_lt_order(a: Seq<char>, b: Seq<char>, c: Seq<char>)
    ensures
        !text_lt(a, a),
        text_lt(a, b) ==> !text_lt(b, a),
        a != b ==> text_lt(a, b) || text_lt(b, a),
        text_lt(a, b) && text_lt(b, c) ==> text_lt(a, c),
    decreases a.len(),
{
    if a.len() > 0 {
        lemma_text_lt_order(a.drop_first(), a.drop_first(), a.drop_first());
        if b.len() > 0 {
            vstd::utf8::char_u32_cast(a[0], a[0] as u32);
            vstd::utf8::char_u32_cast(b[0], b[0] as u32);
            lemma_text_lt_order(a.drop_first(), b.drop_first(), b.drop_first());
            if a[0] == b[0] && a != b {
                assert(a.drop_first() != b.drop_first()) by {
                    if a.drop_first() == b.drop_first() {
                        assert(a =~= seq![a[0]] + a.drop_first());
                        assert(b =~= seq![b[0]] + b.drop_first());
                    }
                }
            }
            if c.len() > 0 {
                lemma_text_lt_order(a.drop_first(), b.drop_first(), c.drop_first());
            }
        }
    } else if b.len() == 0 {
        assert(a =~= b);
    }
}

fn text_lt_exec(a: &Vec<char>, b: &Vec<char>) -> (r: bool)
    ensures
        r == text_lt(a@, b@),
{
    let mut i: usize = 0;
    assert(a@.skip(0) =~= a@);
    assert(b@.skip(0) =~= b@);
    while i < a.len() && i < b.len() && a[i] == b[i]
        invariant
            i <= a@.len(),
            i <= b@.len(),
            text_lt(a@, b@) == text_lt(a@.skip(i as int), b@.skip(i as int)),
        decreases a@.len() - i,
    {
        assert(a@.skip(i as int).drop_first() =~= a@.skip(i + 1));
        assert(b@.skip(i as int).drop_first() =~= b@.skip(i + 1));
        i = i + 1;
    }
    if i == a.len() {
        i < b.len()
    } else if i == b.len() {
        false
    } else {
        let x = a[i];
        let y = b[i];
        assert(a@.skip(i as int)[0] == x && b@.skip(i as int)[0] == y);
        assert(a@.skip(i as int).len() > 0 && b@.skip(i as int).len() > 0);
        (x as u32) < (y as u32)
    }
}

/// The name of the net of highlight entry `i`.
pub open spec fn entry_name(m: BoardModel, v: Seq<(NetId, u8)>, i: int) -> Seq<char> {
    m.nets@[v[i].0 as int].name@
}

/// Highlight entry `i` is listed before `j`: lower level first, then by
/// net name, then in the order of the entries.
pub open spec fn entry_before(m: BoardModel, v: Seq<(NetId, u8)>, i: int, j: int) -> bool {
    ||| v[i].1 < v[j].1
    ||| (v[i].1 == v[j].1 && text_lt(entry_name(m, v, i), entry_name(m, v, j)))
    ||| (v[i].1 == v[j].1 && entry_name(m, v, i) == entry_name(m, v, j) && i < j)
}

/// `order` lists the entries among the first `k` that were reached
/// through jumpers (level above 0), in `entry_before` order.
pub open spec fn expansion_listing(m: BoardModel, v: Seq<(NetId, u8)>, order: Seq<usize>, k: int) -> bool {
    &&& forall|a: int| 0 <= a < order.len() ==> order[a] < k && v[order[a] as int].1 > 0
    &&& forall|a: int, b: int|
        0 <= a < b < order.len() ==> entry_before(m, v, #[trigger] order[a] as int, #[trigger] order[b] as int)
    &&& forall|e: usize| e < k && v[e as int].1 > 0 ==> #[trigger] order.contains(e)
}

proof fn lemma_entry_order(m: BoardModel, v: Seq<(NetId, u8)>, a: int, b: int, c: int)
    ensures
        a != b ==> entry_before(m, v, a, b) || entry_before(m, v, b, a),
        entry_before(m, v, a, b) ==> !entry_before(m, v, b, a),
        entry_before(m, v, a, b) && entry_before(m, v, b, c) ==> entry_before(m, v, a, c),
{
    lemma_text_lt_order(entry_name(m, v, a), entry_name(m, v, b), entry_name(m, v, c));
    lemma_text_lt_order(entry_name(m, v, b), entry_name(m, v, a), entry_name(m, v, c));
    lemma_text_lt_order(entry_name(m, v, a), entry_name(m, v, c), entry_name(m, v, b));
}

/// Entry `i` joins the listing of the entries before it at `p`, the first
/// place whose entry it comes before.
proof fn lemma_listing_insert(m: BoardModel, v: Seq<(NetId, u8)>, order: Seq<usize>, i: usize, p: int)
    requires
        expansion_listing(m, v, order, i as int),
        v[i as int].1 > 0,
        0 <= p <= order.len(),
        forall|q: int| 0 <= q < p ==> !entry_before(m, v, i as int, #[trigger] order[q] as int),
        p < order.len() ==> entry_before(m, v, i as int, order[p] as int),
    ensures
        expansion_listing(m, v, order.insert(p, i), i + 1),
{
    let out = order.insert(p, i);
    order.insert_ensures(p, i);
    let n = order.len() as int;
    assert(forall|q: int| 0 <= q < p ==> #[trigger] out[q] == order[q]);
    assert(forall|q: int| p < q <= n ==> #[trigger] out[q] == order[q - 1]);
    assert forall|q: int| 0 <= q < p implies entry_before(m, v, #[trigger] order[q] as int, i as int) by {
        lemma_entry_order(m, v, order[q] as int, i as int, i as int);
    }
    assert forall|q: int| p <= q < n implies entry_before(m, v, i as int, #[trigger] order[q] as int) by {
        if q > p {
            lemma_entry_order(m, v, i as int, order[p] as int, order[q] as int);
        }
    }
    assert forall|a: int, b: int| 0 <= a < b < out.len() implies entry_before(
        m,
        v,
        #[trigger] out[a] as int,
        #[trigger] out[b] as int,
    ) by {
        if b < p {
            assert(entry_before(m, v, order[a] as int, order[b] as int));
        } else if b == p {
            assert(entry_before(m, v, order[a] as int, i as int));
        } else if a < p {
            assert(entry_before(m, v, order[a] as int, order[b - 1] as int));
        } else if a == p {
            assert(entry_before(m, v, i as int, order[b - 1] as int));
        } else {
            assert(entry_before(m, v, order[a - 1] as int, order[b - 1] as int));
        }
    }
    assert forall|a: int| 0 <= a < out.len() implies out[a] < i + 1 && v[out[a] as int].1 > 0 by {
        if a < p {
            assert(out[a] == order[a]);
        } else if a > p {
            assert(out[a] == order[a - 1]);
        }
    }
    assert forall|e: usize| e < i + 1 && v[e as int].1 > 0 implies #[trigger] out.contains(e) by {
        if e == i {
            assert(out[p] == i);
        } else {
            assert(order.contains(e));
            let w = choose|w: int| 0 <= w < n && order[w] == e;
            if w < p {
                assert(out[w] == e);
            } else {
                assert(out[w + 1] == e);
            }
        }
    }
}

/// The first place in `order` whose entry entry `i` comes before.
fn insert_position(
    model: &BoardModel,
    entries: &Vec<(NetId, u8)>,
    order: &Vec<usize>,
    i: usize,
    name_i: &Vec<char>,
) -> (p: usize)
    requires
        i < entries@.len(),
        forall|j: int| 0 <= j < entries@.len() ==> (#[trigger] entries@[j]).0 < model.nets@.len(),
        expansion_listing(*model, entries@, order@, i as int),
        name_i@ == entry_name(*model, entries@, i as int),
    ensures
        p <= order@.len(),
        forall|q: int| 0 <= q < p ==> !entry_before(*model, entries@, i as int, #[trigger] order@[q] as int),
        p < order@.len() ==> entry_before(*model, entries@, i as int, order@[p as int] as int),
{
    let mut p: usize = 0;
    while p < order.len()
        invariant
            i < entries@.len(),
            p <= order@.len(),
            forall|j: int| 0 <= j < entries@.len() ==> (#[trigger] entries@[j]).0 < model.nets@.len(),
            expansion_listing(*model, entries@, order@, i as int),
            name_i@ == entry_name(*model, entries@, i as int),
            forall|q: int| 0 <= q < p ==> !entry_before(*model, entries@, i as int, #[trigger] order@[q] as int),
        decreases order@.len() - p,
    {
        let o = order[p];
        let name_o = chars_of(model.nets[entries[o].0 as usize].name.as_str());
        let li = entries[i].1;
        let lo = entries[o].1;
        let before = li < lo || (li == lo && (text_lt_exec(name_i, &name_o) || (chars_eq(name_i, &name_o) && i < o)));
        if before {
            return p;
        }
        p = p + 1;
    }
    p
}

/// The order in which the net panel lists the nets reached through
/// jumpers: by level, then by name.
pub fn expansion_order(model: &BoardModel, entries: &Vec<(NetId, u8)>) -> (order: Vec<usize>)
    requires
        forall|i: int| 0 <= i < entries@.len() ==> (#[trigger] entries@[i]).0 < model.nets@.len(),
    ensures
        expansion_listing(*model, entries@, order@, entries@.len() as int),
{
    let ghost v = entries@;
    let mut order: Vec<usize> = Vec::new();
    let mut i: usize = 0;
    while i < entries.len()
        invariant
            v == entries@,
            i <= entries@.len(),
            forall|j: int| 0 <= j < entries@.len() ==> (#[trigger] entries@[j]).0 < model.nets@.len(),
            expansion_listing(*model, v, order@, i as int),
        decreases entries@.len() - i,
    {
        if entries[i].1 > 0 {
            let name_i = chars_of(model.nets[entries[i].0 as usize].name.as_str());
            let p = insert_position(model, entries, &order, i, &name_i);
            proof {
                lemma_listing_insert(*model, v, order@, i, p as int);
            }
            order.insert(p, i);
        } else {
            assert forall|e: usize| e < i + 1 && v[e as int].1 > 0 implies #[trigger] order@.contains(e) by {
                assert(e != i);
            }
        }
        i = i + 1;
    }
    order
}

} // verus!
