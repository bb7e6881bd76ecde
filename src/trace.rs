//! Tracing single blocks: walking from a road side around the network, always turning onto the
//! neighboring road side at each intersection, until the walk comes back.
use crate::conservation::interior_apart;
use crate::graph::{other_endpoint, BlockError, IntersectionID, LaneID, RoadGraph};
use crate::perimeter::Perimeter;
use crate::road::RoadSideID;
use vstd::prelude::*;

verus! {

/// The first index `>= k` at which `x` occurs in `s`, or -1.
pub open spec fn first_index(s: Seq<RoadSideID>, x: RoadSideID, k: int) -> int
    decreases s.len() - k,
{
    if k < 0 || k >= s.len() {
        -1
    } else if s[k] == x {
        k
    } else {
        first_index(s, x, k + 1)
    }
}

/// Arriving along `cur` at an intersection whose sides sorted by angle are `sorted`: the side
/// to continue with. That is the next one around, unless it is the other side of the same road;
/// then the previous one, which may be the same road only at a dead end (two sides in all).
/// `None` when `cur` is not there or no such side exists.
pub open spec fn next_side(sorted: Seq<RoadSideID>, cur: RoadSideID) -> Option<RoadSideID> {
    let idx = first_index(sorted, cur, 0);
    let n = sorted.len();
    if idx < 0 {
        None
    } else {
        let a = sorted[if idx + 1 == n {
            0
        } else {
            idx + 1
        }];
        let b = sorted[if idx == 0 {
            n - 1
        } else {
            idx - 1
        }];
        if a == cur {
            None
        } else if a.road != cur.road {
            Some(a)
        } else if b == cur || (b.road == cur.road && n != 2) {
            None
        } else {
            Some(b)
        }
    }
}

/// The walk from `cur` at intersection `i` until it reaches `start` again, with at most `fuel`
/// steps: the sides passed, ending with `start`.
pub open spec fn walk(
    g: RoadGraph,
    start: RoadSideID,
    cur: RoadSideID,
    i: IntersectionID,
    fuel: nat,
) -> Result<Seq<RoadSideID>, BlockError>
    decreases fuel,
{
    if fuel == 0 || i.0 >= g.intersections@.len() {
        Err(BlockError::MalformedLoop)
    } else if g.intersections@[i.0 as int].border {
        Err(BlockError::BoundaryReached)
    } else {
        match next_side(g.intersections@[i.0 as int].road_sides@, cur) {
            None => Err(BlockError::MalformedLoop),
            Some(next) => match other_endpoint(g, next.road, i) {
                None => Err(BlockError::MalformedLoop),
                Some(ni) => if next == start {
                    Ok(seq![cur, start])
                } else {
                    match walk(g, start, next, ni, (fuel - 1) as nat) {
                        Ok(rest) => Ok(seq![cur] + rest),
                        Err(e) => Err(e),
                    }
                },
            },
        }
    }
}

/// `pre` followed by the walk, when the walk closes.
pub open spec fn prepend(pre: Seq<RoadSideID>, r: Result<Seq<RoadSideID>, BlockError>) -> Result<
    Seq<RoadSideID>,
    BlockError,
> {
    match r {
        Ok(s) => Ok(pre + s),
        Err(e) => Err(e),
    }
}

/// A closed walk passes every road side at most once, so no walk needs more steps than there
/// are road sides.
pub open spec fn trace_limit(g: RoadGraph) -> nat {
    if g.roads@.len() <= (usize::MAX - 1) / 2 {
        (2 * g.roads@.len() + 1) as nat
    } else {
        usize::MAX as nat
    }
}

/// The trace that starts from lane `l`: from its nearest road side, towards its destination.
pub open spec fn lane_trace(g: RoadGraph, l: int) -> Result<Seq<RoadSideID>, BlockError> {
    let side = g.lanes@[l].nearest_side;
    walk(g, side, side, g.lanes@[l].dst_i, trace_limit(g))
}

/// The traces over the first `k` lanes: those that succeeded, and the road sides seen, which
/// are those of every successful trace and the start of every failed one. A lane whose side was
/// seen is skipped.
pub open spec fn all_traces(g: RoadGraph, k: int) -> (Seq<Seq<RoadSideID>>, Set<RoadSideID>)
    decreases k,
{
    if k <= 0 {
        (Seq::empty(), Set::empty())
    } else {
        let prior = all_traces(g, k - 1);
        let side = g.lanes@[k - 1].nearest_side;
        if prior.1.contains(side) {
            prior
        } else {
            match lane_trace(g, k - 1) {
                Ok(s) => (prior.0.push(s), prior.1 + s.to_set()),
                Err(_) => (prior.0, prior.1.insert(side)),
            }
        }
    }
}

/// A walk that closes starts with `cur` and ends with `start`.
pub proof fn lemma_walk_shape(
    g: RoadGraph,
    start: RoadSideID,
    cur: RoadSideID,
    i: IntersectionID,
    fuel: nat,
)
    requires
        walk(g, start, cur, i, fuel) is Ok,
    ensures
        walk(g, start, cur, i, fuel)->Ok_0.len() >= 2,
        walk(g, start, cur, i, fuel)->Ok_0[0] == cur,
        walk(g, start, cur, i, fuel)->Ok_0.last() == start,
    decreases fuel,
{
    let next = next_side(g.intersections@[i.0 as int].road_sides@, cur)->Some_0;
    let ni = other_endpoint(g, next.road, i)->Some_0;
    if next != start {
        lemma_walk_shape(g, start, next, ni, (fuel - 1) as nat);
    }
}

/// Tracing from a lane that leads into a border intersection reaches the boundary at once.
pub proof fn lemma_border_lane(g: RoadGraph, l: int)
    requires
        0 <= l < g.lanes@.len(),
        g.lanes@[l].dst_i.0 < g.intersections@.len(),
        g.intersections@[g.lanes@[l].dst_i.0 as int].border,
    ensures
        lane_trace(g, l) == Err::<Seq<RoadSideID>, BlockError>(BlockError::BoundaryReached),
{
    assert(trace_limit(g) > 0);
}

/// The first position of `x` in `s`.
fn find_side(s: &Vec<RoadSideID>, x: RoadSideID) -> (idx: Option<usize>)
    ensures
        match idx {
            Some(k) => first_index(s@, x, 0) == k,
            None => first_index(s@, x, 0) == -1,
        },
{
    let mut k: usize = 0;
    while k < s.len()
        invariant
            k <= s@.len(),
            first_index(s@, x, 0) == first_index(s@, x, k as int),
        decreases s@.len() - k,
    {
        if s[k] == x {
            return Some(k);
        }
        k = k + 1;
    }
    None
}

/// The side to continue with at an intersection; see `next_side`.
fn next_side_exec(sorted: &Vec<RoadSideID>, cur: RoadSideID) -> (r: Option<RoadSideID>)
    ensures
        r == next_side(sorted@, cur),
{
    let idx = match find_side(sorted, cur) {
        Some(k) => k,
        None => {
            return None;
        },
    };
    proof {
        lemma_first_index_range(sorted@, cur, 0);
    }
    let n = sorted.len();
    let a = sorted[if idx + 1 == n {
        0
    } else {
        idx + 1
    }];
    let b = sorted[if idx == 0 {
        n - 1
    } else {
        idx - 1
    }];
    if a == cur {
        None
    } else if a.road != cur.road {
        Some(a)
    } else if b == cur || (b.road == cur.road && n != 2) {
        None
    } else {
        // Doubling back at a dead-end
        Some(b)
    }
}

proof fn lemma_first_index_range(s: Seq<RoadSideID>, x: RoadSideID, k: int)
    ensures
        first_index(s, x, k) == -1 || (0 <= k <= first_index(s, x, k) < s.len() && s[first_index(s, x, k)] == x),
    decreases s.len() - k,
{
    if 0 <= k < s.len() && s[k] != x {
        lemma_first_index_range(s, x, k + 1);
    }
}

impl Perimeter {
    /// Starting at any lane, snap to the nearest side of that road, then begin tracing a single
    /// block, with no interior roads. This will fail if a map boundary is reached.
    pub fn single_block(map: &RoadGraph, start: LaneID) -> (r: Result<Perimeter, BlockError>)
        requires
            start.0 < map.lanes@.len(),
        ensures
            match r {
                Ok(p) => lane_trace(*map, start.0 as int) == Ok::<Seq<RoadSideID>, BlockError>(
                    p.roads@,
                ) && p.interior@.len() == 0 && p.wf() && interior_apart(p@),
                Err(e) => lane_trace(*map, start.0 as int) == Err::<Seq<RoadSideID>, BlockError>(
                    e,
                ),
            },
    {
        let lane = map.lanes[start.0];
        let start_road_side = lane.nearest_side;
        let ghost top = lane_trace(*map, start.0 as int);
        // We need to track which side of the road we're at, but also which direction we're
        // facing
        let mut current_road_side = start_road_side;
        let mut current_intersection = lane.dst_i;
        let mut roads: Vec<RoadSideID> = Vec::new();
        let mut fuel: usize = if map.roads.len() <= (usize::MAX - 1) / 2 {
            2 * map.roads.len() + 1
        } else {
            usize::MAX
        };
        proof {
            assert(prepend(roads@, top) =~= top) by {
                if top is Ok {
                    assert(Seq::<RoadSideID>::empty() + top->Ok_0 =~= top->Ok_0);
                }
            }
        }
        loop
            invariant
                top == lane_trace(*map, start.0 as int),
                start_road_side == map.lanes@[start.0 as int].nearest_side,
                top == prepend(
                    roads@,
                    walk(*map, start_road_side, current_road_side, current_intersection, fuel as nat),
                ),
            decreases fuel,
        {
            if fuel == 0 || current_intersection.0 >= map.intersections.len() {
                return Err(BlockError::MalformedLoop);
            }
            let i = &map.intersections[current_intersection.0];
            if i.border {
                return Err(BlockError::BoundaryReached);
            }
            let next = match next_side_exec(&i.road_sides, current_road_side) {
                Some(n) => n,
                None => {
                    return Err(BlockError::MalformedLoop);
                },
            };
            let ghost before = roads@;
            roads.push(current_road_side);
            let next_intersection = match map.other_endpt(next.road, current_intersection) {
                Some(x) => x,
                None => {
                    return Err(BlockError::MalformedLoop);
                },
            };
            if next == start_road_side {
                roads.push(start_road_side);
                proof {
                    assert(roads@ =~= before + seq![current_road_side, start_road_side]);
                    lemma_walk_shape(
                        *map,
                        start_road_side,
                        start_road_side,
                        map.lanes@[start.0 as int].dst_i,
                        trace_limit(*map),
                    );
                }
                let p = Perimeter { roads, interior: Vec::new() };
                proof {
                    assert(p.interior@.to_set() =~= Set::<crate::road::RoadID>::empty());
                }
                return Ok(p);
            }
            proof {
                let rest = walk(*map, start_road_side, next, next_intersection, (fuel - 1) as nat);
                if rest is Ok {
                    assert(before + (seq![current_road_side] + rest->Ok_0) =~= roads@ + rest->Ok_0);
                }
            }
            current_road_side = next;
            current_intersection = next_intersection;
            fuel = fuel - 1;
        }
    }

    /// This calculates all single block perimeters for the entire map. The resulting list does
    /// not cover roads near the map boundary.
    pub fn find_all_single_blocks(map: &RoadGraph) -> (r: Vec<Perimeter>)
        ensures
            r@.len() == all_traces(*map, map.lanes@.len() as int).0.len(),
            forall|k: int|
                0 <= k < r@.len() ==> #[trigger] r@[k].roads@ == all_traces(
                    *map,
                    map.lanes@.len() as int,
                ).0[k] && r@[k].interior@.len() == 0 && r@[k].wf() && interior_apart(r@[k]@),
    {
        let mut seen: Vec<RoadSideID> = Vec::new();
        let mut perimeters: Vec<Perimeter> = Vec::new();
        let mut l: usize = 0;
        while l < map.lanes.len()
            invariant
                l <= map.lanes@.len(),
                seen@.to_set() == all_traces(*map, l as int).1,
                perimeters@.len() == all_traces(*map, l as int).0.len(),
                forall|k: int|
                    0 <= k < perimeters@.len() ==> #[trigger] perimeters@[k].roads@ == all_traces(
                        *map,
                        l as int,
                    ).0[k] && perimeters@[k].interior@.len() == 0 && perimeters@[k].wf()
                        && interior_apart(perimeters@[k]@),
            decreases map.lanes@.len() - l,
        {
            let side = map.lanes[l].nearest_side;
            if contains_side(&seen, side) {
                l = l + 1;
                continue;
            }
            match Perimeter::single_block(map, LaneID(l)) {
                Ok(perimeter) => {
                    let mut j: usize = 0;
                    let ghost seen0 = seen@;
                    while j < perimeter.roads.len()
                        invariant
                            j <= perimeter.roads@.len(),
                            seen@.to_set() == seen0.to_set() + perimeter.roads@.take(j as int).to_set(),
                        decreases perimeter.roads@.len() - j,
                    {
                        let ghost sj = seen@;
                        seen.push(perimeter.roads[j]);
                        proof {
                            let t = perimeter.roads@;
                            assert(t.take(j + 1) =~= t.take(j as int).push(t[j as int]));
                            t.take(j as int).lemma_push_to_set_commute(t[j as int]);
                            sj.lemma_push_to_set_commute(t[j as int]);
                            assert(seen@.to_set() =~= seen0.to_set() + t.take(j + 1).to_set());
                        }
                        j = j + 1;
                    }
                    proof {
                        assert(perimeter.roads@.take(j as int) =~= perimeter.roads@);
                    }
                    let ghost p_in = perimeters@;
                    perimeters.push(perimeter);
                    proof {
                        assert forall|k: int| 0 <= k < perimeters@.len() implies #[trigger] perimeters@[k].roads@
                            == all_traces(*map, l + 1).0[k] && perimeters@[k].interior@.len() == 0
                            && perimeters@[k].wf() && interior_apart(perimeters@[k]@) by {
                            if k < p_in.len() {
                                assert(perimeters@[k] == p_in[k]);
                            }
                        }
                    }
                },
                Err(_) => {
                    // Don't try again
                    let ghost sj = seen@;
                    seen.push(side);
                    proof {
                        sj.lemma_push_to_set_commute(side);
                    }
                },
            }
            l = l + 1;
        }
        perimeters
    }
}

/// `x` is in `v`.
fn contains_side(v: &Vec<RoadSideID>, x: RoadSideID) -> (b: bool)
    ensures
        b == v@.to_set().contains(x),
{
    let mut i: usize = 0;
    while i < v.len()
        invariant
            i <= v@.len(),
            forall|j: int| 0 <= j < i ==> v@[j] != x,
        decreases v@.len() - i,
    {
        if v[i] == x {
            proof {
                assert(v@.contains(x));
            }
            return true;
        }
        i = i + 1;
    }
    false
}

} // verus!
