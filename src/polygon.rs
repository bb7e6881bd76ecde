//! The discrete part of building a block's polygon: for each pair of neighboring road sides in a
//! loop, which lane's edge to follow, in which direction, and around which intersection to join
//! it to the previous piece. Points and distances are left to the caller.
use crate::graph::{BlockError, Direction, IntersectionID, Lane, LaneID, RoadGraph};
use crate::perimeter::Perimeter;
use crate::ring::is_closed;
use crate::road::{RoadSideID, SideOfRoad};
use vstd::prelude::*;

verus! {

/// How to order the points of a piece.
#[derive(Clone, Copy, PartialEq, Eq, Structural, Debug)]
pub enum Orientation {
    /// Follow the lane.
    Keep,
    /// Against the lane.
    Reverse,
    /// The two roads link the same two intersections: start from the end nearer to the last
    /// point placed; for the first piece the order does not matter.
    Closest,
}

/// One piece of the polygon: the edge of `side`, along its outermost lane.
#[derive(Clone, Copy, PartialEq, Eq, Structural, Debug)]
pub struct Segment {
    pub side: RoadSideID,
    pub lane: LaneID,
    /// The shifted centerline runs against the lane and must be reversed to follow it.
    pub reverse_centerline: bool,
    pub orientation: Orientation,
}

/// The outermost lane on a side of a road, if the road and the lane exist.
pub open spec fn outer_lane(g: RoadGraph, s: RoadSideID) -> Option<LaneID> {
    if s.road.0 >= g.roads@.len() {
        None
    } else {
        let road = g.roads@[s.road.0 as int];
        let l = match s.side {
            SideOfRoad::Left => road.left_lane,
            SideOfRoad::Right => road.right_lane,
        };
        if l.0 < g.lanes@.len() {
            Some(l)
        } else {
            None
        }
    }
}

/// The one endpoint that two lanes share; `None` when they share none or both.
pub open spec fn common_endpoint(a: Lane, b: Lane) -> Option<IntersectionID> {
    let src_shared = a.src_i == b.src_i || a.src_i == b.dst_i;
    let dst_shared = a.dst_i == b.src_i || a.dst_i == b.dst_i;
    if src_shared && (a.src_i == a.dst_i || !dst_shared) {
        Some(a.src_i)
    } else if dst_shared && !src_shared {
        Some(a.dst_i)
    } else {
        None
    }
}

/// The piece for side `a`, followed in the loop by side `b`. Doubling back at a dead end keeps
/// the lane's direction; otherwise the shared endpoint decides it: keep when it is where the
/// lane ends. Fails when either lane is unknown, or when both sides reduce to the same lane.
pub open spec fn segment_of(g: RoadGraph, a: RoadSideID, b: RoadSideID) -> Result<
    Segment,
    BlockError,
> {
    match (outer_lane(g, a), outer_lane(g, b)) {
        (Some(l1), Some(l2)) => {
            let lane1 = g.lanes@[l1.0 as int];
            let lane2 = g.lanes@[l2.0 as int];
            if l1 == l2 {
                Err(BlockError::MalformedLoop)
            } else {
                let orientation = if a.road == b.road {
                    Orientation::Keep
                } else {
                    match common_endpoint(lane1, lane2) {
                        Some(i) => if i == lane1.dst_i {
                            Orientation::Keep
                        } else {
                            Orientation::Reverse
                        },
                        None => Orientation::Closest,
                    }
                };
                Ok(
                    Segment {
                        side: a,
                        lane: l1,
                        reverse_centerline: lane1.dir == Direction::Back,
                        orientation,
                    },
                )
            }
        },
        _ => Err(BlockError::MalformedLoop),
    }
}

/// The pieces for the first `n` pairs of neighbors in `roads`; the first failure wins.
pub open spec fn segments_upto(g: RoadGraph, roads: Seq<RoadSideID>, n: int) -> Result<
    Seq<Segment>,
    BlockError,
>
    decreases n,
{
    if n <= 0 {
        Ok(Seq::empty())
    } else {
        match segments_upto(g, roads, n - 1) {
            Err(e) => Err(e),
            Ok(s) => match segment_of(g, roads[n - 1], roads[n]) {
                Err(e) => Err(e),
                Ok(seg) => Ok(s.push(seg)),
            },
        }
    }
}

/// The pieces of a loop, one per pair of neighbors; a loop that is not closed is malformed.
pub open spec fn block_segments(g: RoadGraph, roads: Seq<RoadSideID>) -> Result<
    Seq<Segment>,
    BlockError,
> {
    if !is_closed(roads) {
        Err(BlockError::MalformedLoop)
    } else {
        segments_upto(g, roads, roads.len() - 1)
    }
}

/// Whether a piece keeps its lane's order, given which end of it is nearer to the last point
/// placed (`None` for the first piece, `Some(true)` when it is the lane's start).
pub open spec fn keeps_orientation(o: Orientation, first_end_nearer: Option<bool>) -> bool {
    match o {
        Orientation::Keep => true,
        Orientation::Reverse => false,
        Orientation::Closest => match first_end_nearer {
            Some(b) => b,
            None => true,
        },
    }
}

impl RoadGraph {
    /// The outermost lane on a side of a road.
    pub fn outermost_lane(&self, s: RoadSideID) -> (r: Option<LaneID>)
        ensures
            r == outer_lane(*self, s),
    {
        if s.road.0 >= self.roads.len() {
            return None;
        }
        let road = self.roads[s.road.0];
        let l = match s.side {
            SideOfRoad::Left => road.left_lane,
            SideOfRoad::Right => road.right_lane,
        };
        if l.0 < self.lanes.len() {
            Some(l)
        } else {
            None
        }
    }

    /// The intersection before a piece, around which it joins the previous one, and whether to
    /// go the longer way around it (at a dead end, so as not to cut across the stub).
    pub fn join_before(&self, seg: Segment, keep: bool) -> (r: Option<(IntersectionID, bool)>)
        ensures
            seg.lane.0 < self.lanes@.len() ==> {
                let lane = self.lanes@[seg.lane.0 as int];
                let i = if keep {
                    lane.src_i
                } else {
                    lane.dst_i
                };
                r == if i.0 < self.intersections@.len() {
                    Some((i, self.intersections@[i.0 as int].dead_end))
                } else {
                    None::<(IntersectionID, bool)>
                }
            },
            seg.lane.0 >= self.lanes@.len() ==> r is None,
    {
        if seg.lane.0 >= self.lanes.len() {
            return None;
        }
        let lane = self.lanes[seg.lane.0];
        let i = if keep {
            lane.src_i
        } else {
            lane.dst_i
        };
        if i.0 < self.intersections.len() {
            Some((i, self.intersections[i.0].dead_end))
        } else {
            None
        }
    }
}

/// The one endpoint that two lanes share.
pub fn common_endpt(a: &Lane, b: &Lane) -> (r: Option<IntersectionID>)
    ensures
        r == common_endpoint(*a, *b),
{
    let src_shared = a.src_i == b.src_i || a.src_i == b.dst_i;
    let dst_shared = a.dst_i == b.src_i || a.dst_i == b.dst_i;
    if src_shared && (a.src_i == a.dst_i || !dst_shared) {
        Some(a.src_i)
    } else if dst_shared && !src_shared {
        Some(a.dst_i)
    } else {
        None
    }
}

/// The piece for side `a`, followed by side `b`.
pub fn segment(map: &RoadGraph, a: RoadSideID, b: RoadSideID) -> (r: Result<Segment, BlockError>)
    ensures
        r == segment_of(*map, a, b),
{
    let l1 = match map.outermost_lane(a) {
        Some(l) => l,
        None => {
            return Err(BlockError::MalformedLoop);
        },
    };
    let l2 = match map.outermost_lane(b) {
        Some(l) => l,
        None => {
            return Err(BlockError::MalformedLoop);
        },
    };
    // Two adjacent sides on the same lane: duplicate adjacent roads.
    if l1 == l2 {
        return Err(BlockError::MalformedLoop);
    }
    let lane1 = map.lanes[l1.0];
    let lane2 = map.lanes[l2.0];
    let orientation = if a.road == b.road {
        // We're doubling back at a dead-end. Always follow the orientation of the lane.
        Orientation::Keep
    } else {
        match common_endpt(&lane1, &lane2) {
            Some(i) => if i == lane1.dst_i {
                Orientation::Keep
            } else {
                Orientation::Reverse
            },
            None => Orientation::Closest,
        }
    };
    Ok(
        Segment {
            side: a,
            lane: l1,
            reverse_centerline: lane1.dir == Direction::Back,
            orientation,
        },
    )
}

/// Whether a piece keeps its lane's order; see `keeps_orientation`.
pub fn keep_orientation(o: Orientation, first_end_nearer: Option<bool>) -> (r: bool)
    ensures
        r == keeps_orientation(o, first_end_nearer),
{
    match o {
        Orientation::Keep => true,
        Orientation::Reverse => false,
        Orientation::Closest => match first_end_nearer {
            Some(b) => b,
            None => true,
        },
    }
}

impl Perimeter {
    /// The pieces of this perimeter's polygon, one per pair of neighboring road sides, in
    /// order. Fails on a loop that is not closed, an unknown lane, or two neighboring sides on
    /// one lane.
    pub fn segments(&self, map: &RoadGraph) -> (r: Result<Vec<Segment>, BlockError>)
        ensures
            match r {
                Ok(v) => block_segments(*map, self.roads@) == Ok::<Seq<Segment>, BlockError>(v@),
                Err(e) => block_segments(*map, self.roads@) == Err::<Seq<Segment>, BlockError>(e),
            },
    {
        let n = self.roads.len();
        if n < 2 || self.roads[0] != self.roads[n - 1] {
            return Err(BlockError::MalformedLoop);
        }
        let mut out: Vec<Segment> = Vec::new();
        let mut k: usize = 0;
        while k + 1 < n
            invariant
                n == self.roads@.len(),
                n >= 2,
                k + 1 <= n,
                segments_upto(*map, self.roads@, k as int) == Ok::<Seq<Segment>, BlockError>(out@),
            decreases n - k,
        {
            match segment(map, self.roads[k], self.roads[k + 1]) {
                Ok(seg) => {
                    out.push(seg);
                },
                Err(e) => {
                    proof {
                        lemma_segments_fail(*map, self.roads@, k as int + 1, (n - 1) as int);
                    }
                    return Err(e);
                },
            }
            k = k + 1;
        }
        Ok(out)
    }
}

proof fn lemma_segments_fail(g: RoadGraph, roads: Seq<RoadSideID>, m: int, n: int)
    requires
        1 <= m <= n,
        segments_upto(g, roads, m) is Err,
    ensures
        segments_upto(g, roads, n) == segments_upto(g, roads, m),
    decreases n - m,
{
    if m < n {
        lemma_segments_fail(g, roads, m, n - 1);
    }
}

} // verus!
