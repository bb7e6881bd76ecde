use vstd::prelude::*;

verus! {

/// Identifies one road of the network.
#[derive(Clone, Copy, PartialEq, Eq, Structural, Debug, Hash)]
pub struct RoadID(pub usize);

/// A side of a road, relative to the road's canonical direction.
#[derive(Clone, Copy, PartialEq, Eq, Structural, Debug, Hash)]
pub enum SideOfRoad {
    Right,
    Left,
}

/// One lateral face of a road: the unit that a perimeter traces.
#[derive(Clone, Copy, PartialEq, Eq, Structural, Debug, Hash)]
pub struct RoadSideID {
    pub road: RoadID,
    pub side: SideOfRoad,
}

impl RoadSideID {
    pub fn new(road: RoadID, side: SideOfRoad) -> (r: RoadSideID)
        ensures
            r.road == road,
            r.side == side,
    {
        RoadSideID { road, side }
    }
}

} // verus!
