//! Reachability search and path reconstruction: which tiles a unit can reach
//! within its travel budget, and the concrete waypoint path to one of them.
//!
//! The search is a cost-bucketed breadth-first expansion: edge costs are the
//! small positive integers 1 (same terrain layer) and 3 (an air unit crossing
//! a layer boundary), so pending edges are kept in one bucket per cumulative
//! cost instead of a priority queue.

use vstd::prelude::*;

use crate::coord_map::CoordMap;
use crate::map::MapLayout;
use crate::unit::Unit;

verus! {

/// Whether `b` is one cardinal (4-way) step away from `a`.
pub open spec fn adjacent(a: (i32, i32), b: (i32, i32)) -> bool {
    ||| (b.0 == a.0 + 1 && b.1 == a.1)
    ||| (b.0 == a.0 - 1 && b.1 == a.1)
    ||| (b.0 == a.0 && b.1 == a.1 + 1)
    ||| (b.0 == a.0 && b.1 == a.1 - 1)
}

/// The movement cost from tile `a` to tile `b`, for a unit that is in the
/// air or on the ground. Both tiles must exist; moving within one terrain
/// layer costs 1; crossing layers is impassable on the ground and costs a
/// fixed 3 in the air.
pub open spec fn edge_cost(lay: Map<(i32, i32), u32>, a: (i32, i32), b: (i32, i32), is_air: bool) -> Option<u32> {
    if !(lay.dom().contains(a) && lay.dom().contains(b)) {
        None
    } else if lay[a] == lay[b] {
        Some(1u32)
    } else if is_air {
        Some(3u32)
    } else {
        None
    }
}

/// Whether `t` can be reached from `origin` by cardinal steps over existing
/// tiles whose costs sum to at most `budget`. The origin itself is always
/// reachable.
pub open spec fn reachable_within(
    lay: Map<(i32, i32), u32>,
    is_air: bool,
    origin: (i32, i32),
    t: (i32, i32),
    budget: nat,
) -> bool
    decreases budget,
{
    ||| t == origin
    ||| exists|p: (i32, i32), c: u32|
        {
            &&& adjacent(p, t)
            &&& edge_cost(lay, p, t, is_air) == Some(c)
            &&& 1 <= c <= budget
            &&& reachable_within(lay, is_air, origin, p, (budget - c) as nat)
        }
}

/// A larger budget reaches everything a smaller one does.
pub proof fn lemma_reachable_monotone(
    lay: Map<(i32, i32), u32>,
    is_air: bool,
    origin: (i32, i32),
    t: (i32, i32),
    b1: nat,
    b2: nat,
)
    requires
        reachable_within(lay, is_air, origin, t, b1),
        b1 <= b2,
    ensures
        reachable_within(lay, is_air, origin, t, b2),
    decreases b1,
{
    if t != origin {
        let (p, c) = choose|p: (i32, i32), c: u32|
            {
                &&& adjacent(p, t)
                &&& edge_cost(lay, p, t, is_air) == Some(c)
                &&& 1 <= c <= b1
                &&& reachable_within(lay, is_air, origin, p, (b1 - c) as nat)
            };
        lemma_reachable_monotone(lay, is_air, origin, p, (b1 - c) as nat, (b2 - c) as nat);
    }
}

/// One valid edge extends reachability by the edge's cost.
pub proof fn lemma_reachable_step(
    lay: Map<(i32, i32), u32>,
    is_air: bool,
    origin: (i32, i32),
    p: (i32, i32),
    t: (i32, i32),
    c: u32,
    b: nat,
    b2: nat,
)
    requires
        reachable_within(lay, is_air, origin, p, b),
        adjacent(p, t),
        edge_cost(lay, p, t, is_air) == Some(c),
        b + c <= b2,
    ensures
        reachable_within(lay, is_air, origin, t, b2),
{
    lemma_reachable_monotone(lay, is_air, origin, p, b, (b2 - c) as nat);
}

/// A cost labelling that witnesses that a predecessor map is a tree rooted
/// at `origin`: the origin maps to itself at cost 0, and every other entry's
/// predecessor is an entry of strictly smaller cost.
pub open spec fn costs_ok(
    m: Map<(i32, i32), (i32, i32)>,
    origin: (i32, i32),
    costs: Map<(i32, i32), nat>,
) -> bool {
    &&& m.dom().contains(origin)
    &&& m[origin] == origin
    &&& costs.dom().contains(origin)
    &&& costs[origin] == 0
    &&& forall|t: (i32, i32)|
        m.dom().contains(t) && t != origin ==> {
            &&& m.dom().contains(#[trigger] m[t])
            &&& costs.dom().contains(t)
            &&& costs.dom().contains(m[t])
            &&& costs[m[t]] < costs[t]
        }
}

/// The predecessor map is a tree rooted at `origin`: walking predecessors
/// from any entry reaches `origin` after finitely many steps.
pub open spec fn pred_tree_ok(m: Map<(i32, i32), (i32, i32)>, origin: (i32, i32)) -> bool {
    exists|costs: Map<(i32, i32), nat>| costs_ok(m, origin, costs)
}

/// Every predecessor edge of the map is a cardinal step whose cost is
/// defined over the given layout.
pub open spec fn pred_edges_ok(
    m: Map<(i32, i32), (i32, i32)>,
    origin: (i32, i32),
    lay: Map<(i32, i32), u32>,
    is_air: bool,
) -> bool {
    forall|t: (i32, i32)|
        m.dom().contains(t) && t != origin ==> adjacent(#[trigger] m[t], t) && edge_cost(
            lay,
            m[t],
            t,
            is_air,
        ) is Some
}

/// What a reconstructed waypoint path is: it starts at `origin`, ends at
/// `to`, visits only entries of the predecessor map, and each waypoint's
/// predecessor is the waypoint before it.
pub open spec fn path_ok(
    m: Map<(i32, i32), (i32, i32)>,
    origin: (i32, i32),
    to: (i32, i32),
    p: Seq<(i32, i32)>,
) -> bool {
    &&& p.len() >= 1
    &&& p[0] == origin
    &&& p.last() == to
    &&& forall|k: int| 0 <= k < p.len() ==> m.dom().contains(#[trigger] p[k])
    &&& forall|k: int| 0 < k < p.len() ==> m[#[trigger] p[k]] == p[k - 1]
    &&& forall|k: int| 0 < k < p.len() ==> p[k] != origin
}

/// Consecutive waypoints of a reconstructed path are cardinal-adjacent and
/// form edges that the layout allows; this is what makes a path safe to walk.
pub proof fn lemma_path_edges_valid(
    m: Map<(i32, i32), (i32, i32)>,
    origin: (i32, i32),
    lay: Map<(i32, i32), u32>,
    is_air: bool,
    to: (i32, i32),
    p: Seq<(i32, i32)>,
)
    requires
        pred_edges_ok(m, origin, lay, is_air),
        path_ok(m, origin, to, p),
    ensures
        forall|k: int|
            0 <= k < p.len() - 1 ==> adjacent(#[trigger] p[k], p[k + 1]) && edge_cost(
                lay,
                p[k],
                p[k + 1],
                is_air,
            ) is Some,
{
    assert forall|k: int| 0 <= k < p.len() - 1 implies adjacent(#[trigger] p[k], p[k + 1])
        && edge_cost(lay, p[k], p[k + 1], is_air) is Some by {
        assert(m[p[k + 1]] == p[k]);
        assert(p[k + 1] != origin);
    }
}

/// Walks the predecessor map backward from `to` and returns the waypoint
/// path from `from` to `to`, or `None` when `to` was never reached. `from`
/// must be the origin the map was computed from.
pub fn to_path(
    paths: &CoordMap<(i32, i32)>,
    from: (i32, i32),
    to: (i32, i32),
) -> (r: Option<Vec<(i32, i32)>>)
    requires
        paths.wf(),
        pred_tree_ok(paths@, from),
    ensures
        match r {
            Some(p) => path_ok(paths@, from, to, p@),
            None => !paths@.dom().contains(to),
        },
        (r is Some) == paths@.dom().contains(to),
{
    let ghost costs = choose|c: Map<(i32, i32), nat>| costs_ok(paths@, from, c);
    let mut rev: Vec<(i32, i32)> = Vec::new();
    rev.push(to);
    let mut current = to;
    while !(current.0 == from.0 && current.1 == from.1)
        invariant
            paths.wf(),
            costs_ok(paths@, from, costs),
            rev@.len() >= 1,
            rev@[0] == to,
            rev@.last() == current,
            forall|k: int|
                0 <= k < rev@.len() - 1 ==> paths@.dom().contains(#[trigger] rev@[k]) && paths@[rev@[k]]
                    == rev@[k + 1],
            forall|k: int| 0 <= k < rev@.len() - 1 ==> #[trigger] rev@[k] != from,
        decreases (if paths@.dom().contains(current) {
            costs[current]
        } else {
            0nat
        }),
    {
        match paths.get(current) {
            Some(waypoint) => {
                proof {
                    assert(costs[paths@[current]] < costs[current]);
                }
                current = *waypoint;
                rev.push(current);
            },
            None => {
                proof {
                    if paths@.dom().contains(to) {
                        // `to` starts the walk, and every later `current` is
                        // an entry's predecessor, which is itself an entry;
                        // so the walk can only fail on the very first step.
                        assert(rev@.len() >= 2 ==> paths@.dom().contains(
                            rev@[rev@.len() - 2],
                        ) && paths@[rev@[rev@.len() - 2]] == current);
                        assert(paths@.dom().contains(current));
                    }
                }
                return None;
            },
        }
    }
    proof {
        assert(current == from);
    }
    // current == from: reverse the collected waypoints.
    let n = rev.len();
    let mut path: Vec<(i32, i32)> = Vec::new();
    let mut i: usize = n;
    while i > 0
        invariant
            n == rev@.len(),
            i <= n,
            path@.len() == n - i,
            forall|j: int| 0 <= j < path@.len() ==> #[trigger] path@[j] == rev@[n - 1 - j],
        decreases i,
    {
        i = i - 1;
        path.push(rev[i]);
    }
    proof {
        assert(path@.len() == rev@.len());
        assert(path@[0] == rev@[n - 1]);
        assert(path@.last() == rev@[0]);
        assert forall|k: int| 0 <= k < path@.len() implies paths@.dom().contains(
            #[trigger] path@[k],
        ) by {
            assert(path@[k] == rev@[n - 1 - k]);
            if n - 1 - k == n - 1 {
                assert(rev@.last() == current);
            }
        }
        assert forall|k: int| 0 < k < path@.len() implies paths@[#[trigger] path@[k]] == path@[k
            - 1] by {
            assert(path@[k] == rev@[n - 1 - k]);
            assert(path@[k - 1] == rev@[n - k]);
        }
        assert forall|k: int| 0 < k < path@.len() implies #[trigger] path@[k] != from by {
            assert(path@[k] == rev@[n - 1 - k]);
        }
    }
    Some(path)
}



/// The sequences held by a vector of buckets.
pub open spec fn bucket_views(b: Seq<Vec<((i32, i32), (i32, i32))>>) -> Seq<
    Seq<((i32, i32), (i32, i32))>,
> {
    b.map_values(|v: Vec<((i32, i32), (i32, i32))>| v@)
}

/// An entry of cost bucket `j` is a pending edge out of an already-settled
/// tile: its source is settled at a smaller cost, and the edge's cost makes
/// up exactly the difference.
pub open spec fn edge_entry_ok(
    lay: Map<(i32, i32), u32>,
    is_air: bool,
    paths: Map<(i32, i32), (i32, i32)>,
    gcosts: Map<(i32, i32), nat>,
    e: ((i32, i32), (i32, i32)),
    j: int,
) -> bool {
    &&& paths.dom().contains(e.0)
    &&& gcosts.dom().contains(e.0)
    &&& gcosts[e.0] < j
    &&& adjacent(e.0, e.1)
    &&& edge_cost(lay, e.0, e.1, is_air) == Some((j - gcosts[e.0]) as u32)
}

/// The settled part of the search is a predecessor tree labelled with exact
/// minimal costs: the origin sits at cost 0; every other settled tile hangs
/// off a settled predecessor by a valid edge whose cost is exactly the
/// difference of the labels, is reachable within its own label, and within
/// nothing smaller.
pub open spec fn tree_inv(
    lay: Map<(i32, i32), u32>,
    is_air: bool,
    origin: (i32, i32),
    paths: Map<(i32, i32), (i32, i32)>,
    gcosts: Map<(i32, i32), nat>,
    distance: nat,
) -> bool {
    &&& paths.dom().contains(origin)
    &&& paths[origin] == origin
    &&& gcosts.dom().contains(origin)
    &&& gcosts[origin] == 0
    &&& forall|t: (i32, i32)|
        #[trigger] paths.dom().contains(t) ==> gcosts.dom().contains(t) && gcosts[t] <= distance
    &&& forall|t: (i32, i32)|
        #[trigger] paths.dom().contains(t) && t != origin ==> {
            &&& paths.dom().contains(paths[t])
            &&& adjacent(paths[t], t)
            &&& gcosts[paths[t]] < gcosts[t]
            &&& edge_cost(lay, paths[t], t, is_air) == Some((gcosts[t] - gcosts[paths[t]]) as u32)
        }
    &&& forall|t: (i32, i32)|
        #[trigger] paths.dom().contains(t) ==> reachable_within(lay, is_air, origin, t, gcosts[t])
    &&& forall|t: (i32, i32)|
        #[trigger] paths.dom().contains(t) && t != origin ==> !reachable_within(
            lay,
            is_air,
            origin,
            t,
            (gcosts[t] - 1) as nat,
        )
}

/// Everything reachable within `budget` is already settled.
pub open spec fn done_inv(
    lay: Map<(i32, i32), u32>,
    is_air: bool,
    origin: (i32, i32),
    paths: Map<(i32, i32), (i32, i32)>,
    budget: nat,
) -> bool {
    forall|t: (i32, i32)|
        #[trigger] reachable_within(lay, is_air, origin, t, budget) ==> paths.dom().contains(t)
}

/// Every pending edge in buckets `lo..=distance` is well-formed.
pub open spec fn buckets_inv(
    lay: Map<(i32, i32), u32>,
    is_air: bool,
    bs: Seq<Seq<((i32, i32), (i32, i32))>>,
    paths: Map<(i32, i32), (i32, i32)>,
    gcosts: Map<(i32, i32), nat>,
    lo: int,
    distance: nat,
) -> bool {
    forall|j: int, idx: int|
        lo <= j <= distance && 0 <= idx < bs[j].len() ==> edge_entry_ok(
            lay,
            is_air,
            paths,
            gcosts,
            #[trigger] bs[j][idx],
            j,
        )
}

/// Every valid edge out of a settled tile whose cumulative cost lands in an
/// unprocessed bucket `lo..=distance` is pending in that bucket.
pub open spec fn pending_inv(
    lay: Map<(i32, i32), u32>,
    is_air: bool,
    bs: Seq<Seq<((i32, i32), (i32, i32))>>,
    paths: Map<(i32, i32), (i32, i32)>,
    gcosts: Map<(i32, i32), nat>,
    lo: int,
    distance: nat,
) -> bool {
    forall|p: (i32, i32), t: (i32, i32)|
        paths.dom().contains(p) && adjacent(p, t) && (#[trigger] edge_cost(lay, p, t, is_air))
            is Some && lo <= gcosts[p] + edge_cost(lay, p, t, is_air)->Some_0 <= distance
            ==> bs[gcosts[p] + edge_cost(lay, p, t, is_air)->Some_0].contains((p, t))
}

/// Like `pending_inv`, but for edges whose cumulative cost is exactly the
/// bucket being processed: the edge's target is settled already, or the edge
/// still waits in the unprocessed suffix of that bucket.
pub open spec fn pending_now_inv(
    lay: Map<(i32, i32), u32>,
    is_air: bool,
    q: Seq<((i32, i32), (i32, i32))>,
    qi: int,
    paths: Map<(i32, i32), (i32, i32)>,
    gcosts: Map<(i32, i32), nat>,
    i: int,
) -> bool {
    forall|p: (i32, i32), t: (i32, i32)|
        paths.dom().contains(p) && adjacent(p, t) && (#[trigger] edge_cost(lay, p, t, is_air))
            is Some && gcosts[p] + edge_cost(lay, p, t, is_air)->Some_0 == i
            ==> paths.dom().contains(t) || exists|idx: int| qi <= idx < q.len() && q[idx] == (p, t)
}

/// The movement cost from tile `from` to tile `to` for the given unit; see
/// `edge_cost`.
pub fn distance_cost_from_to(
    from: (i32, i32),
    to: (i32, i32),
    map_layout: &MapLayout,
    unit: &Unit,
) -> (r: Option<u32>)
    requires
        map_layout.wf(),
    ensures
        r == edge_cost(map_layout.tiles@, from, to, unit.is_air),
{
    match (map_layout.tiles.get(from), map_layout.tiles.get(to)) {
        (Some(a), Some(b)) => {
            if *a == *b {
                Some(1)
            } else if unit.is_air {
                Some(3)
            } else {
                None
            }
        },
        _ => None,
    }
}

/// Queues one candidate edge if the layout allows it and it fits the budget.
fn push_one_edge(
    buckets: &mut Vec<Vec<((i32, i32), (i32, i32))>>,
    map_layout: &MapLayout,
    unit: &Unit,
    from: (i32, i32),
    dest: (i32, i32),
    base: u32,
    distance: u32,
)
    requires
        map_layout.wf(),
        old(buckets)@.len() == distance + 1,
        base <= distance,
        adjacent(from, dest),
    ensures
        final(buckets)@.len() == old(buckets)@.len(),
        forall|j: int, e: ((i32, i32), (i32, i32))|
            0 <= j < old(buckets)@.len() && old(buckets)@[j]@.contains(e) ==> final(buckets)@[j]@.contains(e),
        forall|j: int| 0 <= j <= base ==> final(buckets)@[j]@ == old(buckets)@[j]@,
        (edge_cost(map_layout.tiles@, from, dest, unit.is_air) is Some && base + edge_cost(
            map_layout.tiles@,
            from,
            dest,
            unit.is_air,
        )->Some_0 <= distance) ==> final(buckets)@[base + edge_cost(
            map_layout.tiles@,
            from,
            dest,
            unit.is_air,
        )->Some_0]@.contains((from, dest)),
        forall|j: int, e: ((i32, i32), (i32, i32))|
            0 <= j < final(buckets)@.len() && final(buckets)@[j]@.contains(e) ==> old(buckets)@[j]@.contains(e) || (e == (from, dest) && edge_cost(
                map_layout.tiles@,
                from,
                dest,
                unit.is_air,
            ) == Some((j - base) as u32) && base < j <= distance),
{
    if let Some(cost) = distance_cost_from_to(from, dest, map_layout, unit) {
        let key = base as u64 + cost as u64;
        if key <= distance as u64 {
            let kk = key as usize;
            let bucket = &mut buckets[kk];
            bucket.push((from, dest));
            proof {
                assert(buckets@[kk as int]@.contains((from, dest))) by {
                    assert(buckets@[kk as int]@.last() == (from, dest));
                }
                assert forall|j: int, e: ((i32, i32), (i32, i32))|
                    0 <= j < old(buckets)@.len() && old(buckets)@[j]@.contains(e) implies buckets@[j]@.contains(
                    e,
                ) by {
                    if j == kk as int {
                        let idx = choose|idx: int|
                            0 <= idx < old(buckets)@[j]@.len() && old(buckets)@[j]@[idx] == e;
                        assert(buckets@[j]@[idx] == e);
                    }
                }
                assert forall|j: int, e: ((i32, i32), (i32, i32))|
                    0 <= j < buckets@.len() && buckets@[j]@.contains(e) implies old(buckets)@[j]@.contains(e) || (e == (from, dest) && edge_cost(
                    map_layout.tiles@,
                    from,
                    dest,
                    unit.is_air,
                ) == Some((j - base) as u32) && base < j <= distance) by {
                    if j == kk as int && !old(buckets)@[j]@.contains(e) {
                        let idx = choose|idx: int|
                            0 <= idx < buckets@[j]@.len() && buckets@[j]@[idx] == e;
                        assert(idx == buckets@[j]@.len() - 1);
                    }
                }
            }
        }
    }
}

/// Queues the valid outgoing edges of `from` (settled at cumulative cost
/// `base`) into the buckets of their cumulative costs, dropping those over
/// the budget. Expansion is 4-directional: the cardinal grid neighbours.
fn push_edges(
    buckets: &mut Vec<Vec<((i32, i32), (i32, i32))>>,
    map_layout: &MapLayout,
    unit: &Unit,
    from: (i32, i32),
    base: u32,
    distance: u32,
)
    requires
        map_layout.wf(),
        old(buckets)@.len() == distance + 1,
        base <= distance,
    ensures
        final(buckets)@.len() == old(buckets)@.len(),
        forall|j: int, e: ((i32, i32), (i32, i32))|
            0 <= j < old(buckets)@.len() && old(buckets)@[j]@.contains(e) ==> final(buckets)@[j]@.contains(e),
        forall|j: int| 0 <= j <= base ==> final(buckets)@[j]@ == old(buckets)@[j]@,
        forall|t: (i32, i32)|
            adjacent(from, t) && (#[trigger] edge_cost(map_layout.tiles@, from, t, unit.is_air))
                is Some && base + edge_cost(map_layout.tiles@, from, t, unit.is_air)->Some_0
                <= distance ==> final(buckets)@[base + edge_cost(
                map_layout.tiles@,
                from,
                t,
                unit.is_air,
            )->Some_0]@.contains((from, t)),
        forall|j: int, e: ((i32, i32), (i32, i32))|
            0 <= j < final(buckets)@.len() && final(buckets)@[j]@.contains(e) ==> old(buckets)@[j]@.contains(e) || (e.0 == from && adjacent(from, e.1) && edge_cost(
                map_layout.tiles@,
                from,
                e.1,
                unit.is_air,
            ) == Some((j - base) as u32) && base < j <= distance),
{
    let (x, y) = from;
    if x < i32::MAX {
        push_one_edge(buckets, map_layout, unit, from, (x + 1, y), base, distance);
    }
    if x > i32::MIN {
        push_one_edge(buckets, map_layout, unit, from, (x - 1, y), base, distance);
    }
    if y < i32::MAX {
        push_one_edge(buckets, map_layout, unit, from, (x, y + 1), base, distance);
    }
    if y > i32::MIN {
        push_one_edge(buckets, map_layout, unit, from, (x, y - 1), base, distance);
    }
    proof {
        assert forall|t: (i32, i32)|
            adjacent(from, t) && (#[trigger] edge_cost(map_layout.tiles@, from, t, unit.is_air))
                is Some && base + edge_cost(map_layout.tiles@, from, t, unit.is_air)->Some_0
                <= distance implies final(buckets)@[base + edge_cost(
            map_layout.tiles@,
            from,
            t,
            unit.is_air,
        )->Some_0]@.contains((from, t)) by {
            assert(t == (t.0, t.1));
        }
    }
}

/// Computes every tile reachable from `location` within the travel budget,
/// as a predecessor map: each reachable tile maps to the tile it was first
/// reached from, and the origin maps to itself. A tile is in the map exactly
/// when some chain of valid steps reaches it with total cost at most
/// `distance`; the map is a well-founded predecessor tree whose edges the
/// layout allows, so paths reconstructed from it are walkable. The budget
/// stays below `u32::MAX` so that one pending-edge bucket per cumulative
/// cost value fits a vector.
pub fn find_unit_paths(
    distance: u32,
    location: (i32, i32),
    map_layout: &MapLayout,
    unit: &Unit,
) -> (paths: CoordMap<(i32, i32)>)
    requires
        map_layout.wf(),
        distance < 0xffff_ffffu32,
    ensures
        paths.wf(),
        forall|t: (i32, i32)|
            paths@.dom().contains(t) <==> reachable_within(
                map_layout.tiles@,
                unit.is_air,
                location,
                t,
                distance as nat,
            ),
        pred_tree_ok(paths@, location),
        pred_edges_ok(paths@, location, map_layout.tiles@, unit.is_air),
        paths@.dom().contains(location) && paths@[location] == location,
{
    let ghost lay = map_layout.tiles@;
    let ghost air = unit.is_air;

    let mut paths: CoordMap<(i32, i32)> = CoordMap::new();
    paths.insert(location, location);
    let ghost mut gcosts = Map::<(i32, i32), nat>::empty().insert(location, 0nat);

    let n_buckets: usize = distance as usize + 1;
    let mut buckets: Vec<Vec<((i32, i32), (i32, i32))>> = Vec::new();
    let mut j: usize = 0;
    while j < n_buckets
        invariant
            j <= n_buckets,
            buckets@.len() == j,
            forall|k: int| 0 <= k < j ==> (#[trigger] buckets@[k])@.len() == 0,
        decreases n_buckets - j,
    {
        buckets.push(Vec::new());
        j = j + 1;
    }

    push_edges(&mut buckets, map_layout, unit, location, 0, distance);

    proof {
        assert forall|t: (i32, i32)|
            #[trigger] reachable_within(lay, air, location, t, 0nat) implies paths@.dom().contains(
            t,
        ) by {
            if t != location {
                assert(false);
            }
        }
        assert forall|p: (i32, i32), t: (i32, i32)|
            paths@.dom().contains(p) && adjacent(p, t) && (#[trigger] edge_cost(lay, p, t, air))
                is Some && 1 <= gcosts[p] + edge_cost(lay, p, t, air)->Some_0 <= distance implies
            bucket_views(buckets@)[gcosts[p] + edge_cost(lay, p, t, air)->Some_0].contains(
            (p, t),
        ) by {
            assert(p == location);
            assert(gcosts[p] == 0);
        }
        assert(tree_inv(lay, air, location, paths@, gcosts, distance as nat));
        assert(done_inv(lay, air, location, paths@, 0nat));
        assert(pending_inv(lay, air, bucket_views(buckets@), paths@, gcosts, 1, distance as nat));
        assert forall|j2: int, idx: int|
            1 <= j2 <= distance && 0 <= idx < bucket_views(buckets@)[j2].len() implies
            edge_entry_ok(lay, air, paths@, gcosts, #[trigger] bucket_views(buckets@)[j2][idx], j2)
        by {
            assert(bucket_views(buckets@)[j2].contains(bucket_views(buckets@)[j2][idx]));
        }
    }

    let mut i: u32 = 1;
    while i <= distance
        invariant
            map_layout.wf(),
            lay == map_layout.tiles@,
            air == unit.is_air,
            distance < 0xffff_ffffu32,
            1 <= i <= distance + 1,
            paths.wf(),
            buckets@.len() == distance + 1,
            tree_inv(lay, air, location, paths@, gcosts, distance as nat),
            done_inv(lay, air, location, paths@, (i - 1) as nat),
            buckets_inv(
                lay,
                air,
                bucket_views(buckets@),
                paths@,
                gcosts,
                i as int,
                distance as nat,
            ),
            pending_inv(
                lay,
                air,
                bucket_views(buckets@),
                paths@,
                gcosts,
                i as int,
                distance as nat,
            ),
        decreases distance + 1 - i,
    {
        let ii = i as usize;
        let ghost q0 = buckets@[i as int]@;
        let qlen = buckets[ii].len();
        let mut qi: usize = 0;
        proof {
            assert forall|p: (i32, i32), t: (i32, i32)|
                paths@.dom().contains(p) && adjacent(p, t) && (#[trigger] edge_cost(
                    lay,
                    p,
                    t,
                    air,
                )) is Some && gcosts[p] + edge_cost(lay, p, t, air)->Some_0 == i as int implies
                paths@.dom().contains(t) || exists|idx: int|
                0 <= idx < q0.len() && q0[idx] == (p, t) by {
                assert(bucket_views(buckets@)[gcosts[p] + edge_cost(lay, p, t, air)->Some_0].contains(
                    (p, t),
                ));
            }
            assert forall|idx: int| 0 <= idx < q0.len() implies edge_entry_ok(
                lay,
                air,
                paths@,
                gcosts,
                #[trigger] q0[idx],
                i as int,
            ) by {
                assert(bucket_views(buckets@)[i as int][idx] == q0[idx]);
            }
        }
        while qi < qlen
            invariant
                map_layout.wf(),
                lay == map_layout.tiles@,
                air == unit.is_air,
                distance < 0xffff_ffffu32,
                1 <= i <= distance,
                ii == i as usize,
                paths.wf(),
                buckets@.len() == distance + 1,
                buckets@[i as int]@ == q0,
                qlen == q0.len(),
                qi <= qlen,
                tree_inv(lay, air, location, paths@, gcosts, distance as nat),
                done_inv(lay, air, location, paths@, (i - 1) as nat),
                forall|idx: int|
                    0 <= idx < q0.len() ==> edge_entry_ok(
                        lay,
                        air,
                        paths@,
                        gcosts,
                        #[trigger] q0[idx],
                        i as int,
                    ),
                buckets_inv(
                    lay,
                    air,
                    bucket_views(buckets@),
                    paths@,
                    gcosts,
                    i as int + 1,
                    distance as nat,
                ),
                pending_inv(
                    lay,
                    air,
                    bucket_views(buckets@),
                    paths@,
                    gcosts,
                    i as int + 1,
                    distance as nat,
                ),
                pending_now_inv(lay, air, q0, qi as int, paths@, gcosts, i as int),
            decreases qlen - qi,
        {
            let edge = buckets[ii][qi];
            let (f, t) = edge;
            let ghost paths0 = paths@;
            let ghost gcosts0 = gcosts;
            if !paths.contains_key(t) {
                paths.insert(t, f);
                proof {
                    gcosts = gcosts.insert(t, i as nat);
                    assert(edge_entry_ok(lay, air, paths0, gcosts0, (f, t), i as int));
                    let c = (i - gcosts0[f]) as u32;
                    lemma_reachable_step(
                        lay,
                        air,
                        location,
                        f,
                        t,
                        c,
                        gcosts0[f],
                        i as nat,
                    );
                    assert(!reachable_within(lay, air, location, t, (i - 1) as nat));
                    assert(tree_inv(lay, air, location, paths@, gcosts, distance as nat));
                }
                let ghost buckets1 = buckets@;
                push_edges(&mut buckets, map_layout, unit, t, i, distance);
                proof {
                    // the bucket being processed is below the push base, so
                    // it did not change
                    assert(buckets@[i as int]@ == q0);
                    // pending edges of previously settled tiles are still
                    // queued, and the new tile's edges are queued now
                    assert forall|p: (i32, i32), t2: (i32, i32)|
                        paths@.dom().contains(p) && adjacent(p, t2) && (#[trigger] edge_cost(
                            lay,
                            p,
                            t2,
                            air,
                        )) is Some && i as int + 1 <= gcosts[p] + edge_cost(lay, p, t2, air)->Some_0
                            <= distance implies bucket_views(buckets@)[gcosts[p] + edge_cost(
                        lay,
                        p,
                        t2,
                        air,
                    )->Some_0].contains((p, t2)) by {
                        if p == t {
                            assert(gcosts[p] == i as nat);
                        } else {
                            assert(paths0.dom().contains(p));
                        }
                    }
                    // every queued edge, old or new, is well-formed
                    assert forall|j2: int, idx: int|
                        i as int + 1 <= j2 <= distance && 0 <= idx < bucket_views(
                            buckets@,
                        )[j2].len() implies edge_entry_ok(
                        lay,
                        air,
                        paths@,
                        gcosts,
                        #[trigger] bucket_views(buckets@)[j2][idx],
                        j2,
                    ) by {
                        let e = bucket_views(buckets@)[j2][idx];
                        assert(buckets@[j2]@.contains(e));
                        if buckets1[j2]@.contains(e) {
                            let idxo = choose|idxo: int|
                                0 <= idxo < buckets1[j2]@.len() && buckets1[j2]@[idxo] == e;
                            assert(bucket_views(buckets1)[j2][idxo] == e);
                            assert(edge_entry_ok(lay, air, paths0, gcosts0, e, j2));
                            assert(e.0 != t);
                        } else {
                            assert(e.0 == t && gcosts[t] == i as nat);
                        }
                    }
                    // an edge landing exactly on this bucket's cost must
                    // come from a tile settled before this bucket started
                    assert forall|p: (i32, i32), t2: (i32, i32)|
                        paths@.dom().contains(p) && adjacent(p, t2) && (#[trigger] edge_cost(
                            lay,
                            p,
                            t2,
                            air,
                        )) is Some && gcosts[p] + edge_cost(lay, p, t2, air)->Some_0 == i as int
                        implies paths@.dom().contains(t2) || exists|idx: int|
                        qi + 1 <= idx < q0.len() && q0[idx] == (p, t2) by {
                        if p == t {
                            assert(gcosts[p] == i as nat);
                        } else {
                            assert(paths0.dom().contains(p));
                            assert(gcosts0[p] == gcosts[p]);
                            if !paths0.dom().contains(t2) {
                                let idx = choose|idx: int|
                                    qi <= idx < q0.len() && q0[idx] == (p, t2);
                                if idx == qi {
                                    assert(t2 == t);
                                } else {
                                    assert(qi + 1 <= idx < q0.len() && q0[idx] == (p, t2));
                                }
                            }
                        }
                    }
                }
            } else {
                proof {
                    assert forall|p: (i32, i32), t2: (i32, i32)|
                        paths@.dom().contains(p) && adjacent(p, t2) && (#[trigger] edge_cost(
                            lay,
                            p,
                            t2,
                            air,
                        )) is Some && gcosts[p] + edge_cost(lay, p, t2, air)->Some_0 == i as int
                        implies paths@.dom().contains(t2) || exists|idx: int|
                        qi + 1 <= idx < q0.len() && q0[idx] == (p, t2) by {
                        if !paths@.dom().contains(t2) {
                            let idx = choose|idx: int| qi <= idx < q0.len() && q0[idx] == (p, t2);
                            if idx == qi {
                                assert(t2 == t);
                                assert(false);
                            } else {
                                assert(qi + 1 <= idx < q0.len() && q0[idx] == (p, t2));
                            }
                        }
                    }
                }
            }
            qi = qi + 1;
        }
        proof {
            // everything reachable within `i` is settled now: its last step
            // comes from a tile settled at minimal cost, whose pending edge
            // this bucket has just drained
            assert forall|t: (i32, i32)|
                #[trigger] reachable_within(lay, air, location, t, i as nat) implies
                paths@.dom().contains(t) by {
                if t != location && !paths@.dom().contains(t) {
                    let (p, c) = choose|p: (i32, i32), c: u32|
                        {
                            &&& adjacent(p, t)
                            &&& edge_cost(lay, p, t, air) == Some(c)
                            &&& 1 <= c <= i as nat
                            &&& reachable_within(lay, air, location, p, (i as nat - c) as nat)
                        };
                    lemma_reachable_monotone(
                        lay,
                        air,
                        location,
                        p,
                        (i as nat - c) as nat,
                        (i - 1) as nat,
                    );
                    assert(paths@.dom().contains(p));
                    if gcosts[p] + c > i as int {
                        if p == location {
                            assert(false);
                        } else {
                            assert(i as int - c <= gcosts[p] - 1);
                            lemma_reachable_monotone(
                                lay,
                                air,
                                location,
                                p,
                                (i as nat - c) as nat,
                                (gcosts[p] - 1) as nat,
                            );
                            assert(false);
                        }
                    }
                    if gcosts[p] + c == i as int {
                        assert(paths@.dom().contains(t));
                    } else {
                        assert(gcosts[p] + c <= i as int - 1);
                        lemma_reachable_step(
                            lay,
                            air,
                            location,
                            p,
                            t,
                            c,
                            gcosts[p],
                            (i - 1) as nat,
                        );
                    }
                    assert(false);
                }
            }
        }
        i = i + 1;
    }

    proof {
        assert forall|t: (i32, i32)| paths@.dom().contains(t) implies reachable_within(
            lay,
            air,
            location,
            t,
            distance as nat,
        ) by {
            lemma_reachable_monotone(lay, air, location, t, gcosts[t], distance as nat);
        }
        assert(costs_ok(paths@, location, gcosts));
    }
    paths
}


/// The magnitude of an integer.
pub open spec fn int_abs(x: int) -> int {
    if x < 0 {
        -x
    } else {
        x
    }
}

/// The Manhattan (4-way taxicab) distance between two grid coordinates.
pub open spec fn manhattan(a: (i32, i32), b: (i32, i32)) -> int {
    int_abs(b.0 - a.0) + int_abs(b.1 - a.1)
}

/// Costs bound distance: whatever the terrain and the unit, a tile reachable
/// within budget `d` lies at Manhattan distance at most `d`, since every
/// step moves one tile and costs at least 1.
pub proof fn lemma_reachable_manhattan(
    lay: Map<(i32, i32), u32>,
    is_air: bool,
    origin: (i32, i32),
    t: (i32, i32),
    d: nat,
)
    requires
        reachable_within(lay, is_air, origin, t, d),
    ensures
        manhattan(origin, t) <= d,
    decreases d,
{
    if t != origin {
        let (p, c) = choose|p: (i32, i32), c: u32|
            {
                &&& adjacent(p, t)
                &&& edge_cost(lay, p, t, is_air) == Some(c)
                &&& 1 <= c <= d
                &&& reachable_within(lay, is_air, origin, p, (d - c) as nat)
            };
        lemma_reachable_manhattan(lay, is_air, origin, p, (d - c) as nat);
    }
}

/// A ground unit never changes terrain layer: every tile it can reach lies
/// on its starting tile's layer.
pub proof fn lemma_ground_stays_on_layer(
    lay: Map<(i32, i32), u32>,
    origin: (i32, i32),
    t: (i32, i32),
    d: nat,
)
    requires
        reachable_within(lay, false, origin, t, d),
        t != origin,
    ensures
        lay.dom().contains(t),
        lay.dom().contains(origin),
        lay[t] == lay[origin],
    decreases d,
{
    let (p, c) = choose|p: (i32, i32), c: u32|
        {
            &&& adjacent(p, t)
            &&& edge_cost(lay, p, t, false) == Some(c)
            &&& 1 <= c <= d
            &&& reachable_within(lay, false, origin, p, (d - c) as nat)
        };
    if p != origin {
        lemma_ground_stays_on_layer(lay, origin, p, (d - c) as nat);
    }
}

/// An air unit with at least 3 movement left crosses a terrain-layer
/// boundary to an adjacent existing tile: the hop costs a flat 3.
pub proof fn lemma_air_crosses_layers(
    lay: Map<(i32, i32), u32>,
    origin: (i32, i32),
    t: (i32, i32),
    d: nat,
)
    requires
        adjacent(origin, t),
        lay.dom().contains(origin),
        lay.dom().contains(t),
        d >= 3,
    ensures
        reachable_within(lay, true, origin, t, d),
{
    assert(edge_cost(lay, origin, t, true) matches Some(c) && 1 <= c <= 3);
    let c = edge_cost(lay, origin, t, true)->Some_0;
    assert(reachable_within(lay, true, origin, origin, (d - c) as nat));
    lemma_reachable_step(lay, true, origin, origin, t, c, (d - c) as nat, d);
}

/// On a single-layer map whose tiles cover the whole Manhattan diamond of
/// radius `d` around `origin`, a ground unit with budget `d` reaches exactly
/// that diamond: every step costs 1, so reachability coincides with
/// Manhattan distance.
pub proof fn lemma_ground_diamond(
    lay: Map<(i32, i32), u32>,
    level: u32,
    origin: (i32, i32),
    t: (i32, i32),
    d: nat,
)
    requires
        forall|c: (i32, i32)| #[trigger] lay.dom().contains(c) ==> lay[c] == level,
        forall|c: (i32, i32)| manhattan(origin, c) <= d ==> #[trigger] lay.dom().contains(c),
    ensures
        reachable_within(lay, false, origin, t, d) <==> manhattan(origin, t) <= d,
    decreases d,
{
    if reachable_within(lay, false, origin, t, d) {
        lemma_reachable_manhattan(lay, false, origin, t, d);
    }
    if manhattan(origin, t) <= d && t != origin {
        let p: (i32, i32) = if t.0 > origin.0 {
            ((t.0 - 1) as i32, t.1)
        } else if t.0 < origin.0 {
            ((t.0 + 1) as i32, t.1)
        } else if t.1 > origin.1 {
            (t.0, (t.1 - 1) as i32)
        } else {
            (t.0, (t.1 + 1) as i32)
        };
        assert(manhattan(origin, p) == manhattan(origin, t) - 1);
        assert(manhattan(origin, p) <= d - 1);
        assert forall|c: (i32, i32)| manhattan(origin, c) <= (d - 1) as nat implies
            #[trigger] lay.dom().contains(c) by {
            assert(manhattan(origin, c) <= d);
        }
        lemma_ground_diamond(lay, level, origin, p, (d - 1) as nat);
        assert(lay.dom().contains(p));
        assert(lay.dom().contains(t));
        assert(edge_cost(lay, p, t, false) == Some(1u32));
        lemma_reachable_step(lay, false, origin, p, t, 1u32, (d - 1) as nat, d);
    }
}

} // verus!
