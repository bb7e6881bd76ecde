//! A read-only road graph: intersections with their road sides in angular order, roads with
//! their endpoints, and lanes with the side of the road they are nearest to.
use crate::road::{RoadID, RoadSideID};
use vstd::prelude::*;

verus! {

/// Identifies an intersection: its index in `RoadGraph::intersections`.
#[derive(Clone, Copy, PartialEq, Eq, Structural, Debug, Hash)]
pub struct IntersectionID(pub usize);

/// Identifies a lane: its index in `RoadGraph::lanes`.
#[derive(Clone, Copy, PartialEq, Eq, Structural, Debug, Hash)]
pub struct LaneID(pub usize);

/// An intersection of the network.
pub struct Intersection {
    /// At the edge of the covered network, where tracing cannot continue.
    pub border: bool,
    /// Only one road leads here.
    pub dead_end: bool,
    /// The road sides meeting here, sorted by incoming angle.
    pub road_sides: Vec<RoadSideID>,
}

/// A road, between two intersections, with the outermost lane on each side.
#[derive(Clone, Copy, PartialEq, Eq, Structural, Debug)]
pub struct Road {
    pub src_i: IntersectionID,
    pub dst_i: IntersectionID,
    pub left_lane: LaneID,
    pub right_lane: LaneID,
}

/// Which way a lane runs relative to its road.
#[derive(Clone, Copy, PartialEq, Eq, Structural, Debug)]
pub enum Direction {
    Fwd,
    Back,
}

/// A lane: the side of its road it is nearest to, where it starts and ends, and its direction.
#[derive(Clone, Copy, PartialEq, Eq, Structural, Debug)]
pub struct Lane {
    pub nearest_side: RoadSideID,
    pub src_i: IntersectionID,
    pub dst_i: IntersectionID,
    pub dir: Direction,
}

/// The road network, indexed by the ids above; a `RoadID` indexes `roads`.
pub struct RoadGraph {
    pub intersections: Vec<Intersection>,
    pub roads: Vec<Road>,
    pub lanes: Vec<Lane>,
}

/// Why a loop could not be traced or built.
#[derive(Clone, Copy, PartialEq, Eq, Structural, Debug)]
pub enum BlockError {
    /// The walk reached a border intersection before closing.
    BoundaryReached,
    /// The graph or the loop is inconsistent: an unknown id, a side missing from its
    /// intersection, a walk that never closes, or two adjacent sides on one lane.
    MalformedLoop,
}

/// The other end of road `r` from intersection `i`, if `r` exists and ends at `i`.
pub open spec fn other_endpoint(g: RoadGraph, r: RoadID, i: IntersectionID) -> Option<
    IntersectionID,
> {
    if r.0 >= g.roads@.len() {
        None
    } else if g.roads@[r.0 as int].src_i == i {
        Some(g.roads@[r.0 as int].dst_i)
    } else if g.roads@[r.0 as int].dst_i == i {
        Some(g.roads@[r.0 as int].src_i)
    } else {
        None
    }
}

impl RoadGraph {
    /// The other end of road `r` from intersection `i`.
    pub fn other_endpt(&self, r: RoadID, i: IntersectionID) -> (res: Option<IntersectionID>)
        ensures
            res == other_endpoint(*self, r, i),
    {
        if r.0 >= self.roads.len() {
            None
        } else {
            let road = self.roads[r.0];
            if road.src_i == i {
                Some(road.dst_i)
            } else if road.dst_i == i {
                Some(road.src_i)
            } else {
                None
            }
        }
    }
}

} // verus!
