use map_model::graph::{
    BlockError, Direction, Intersection, IntersectionID, Lane, LaneID, Road, RoadGraph,
};
use map_model::perimeter::Perimeter;
use map_model::polygon::{keep_orientation, Orientation, Segment};
use map_model::road::{RoadID, RoadSideID, SideOfRoad};

fn left(r: usize) -> RoadSideID {
    RoadSideID::new(RoadID(r), SideOfRoad::Left)
}

fn right(r: usize) -> RoadSideID {
    RoadSideID::new(RoadID(r), SideOfRoad::Right)
}

/// Roads given as (src, dst); each gets a forward lane on its right side (lane 2r) and a
/// backward lane on its left side (lane 2r + 1).
fn graph_of(ends: &[(usize, usize)], num_intersections: usize) -> RoadGraph {
    let mut roads = Vec::new();
    let mut lanes = Vec::new();
    for (r, (src, dst)) in ends.iter().enumerate() {
        roads.push(Road {
            src_i: IntersectionID(*src),
            dst_i: IntersectionID(*dst),
            left_lane: LaneID(2 * r + 1),
            right_lane: LaneID(2 * r),
        });
        lanes.push(Lane {
            nearest_side: right(r),
            src_i: IntersectionID(*src),
            dst_i: IntersectionID(*dst),
            dir: Direction::Fwd,
        });
        lanes.push(Lane {
            nearest_side: left(r),
            src_i: IntersectionID(*dst),
            dst_i: IntersectionID(*src),
            dir: Direction::Back,
        });
    }
    let mut intersections = Vec::new();
    for i in 0..num_intersections {
        intersections.push(Intersection {
            border: false,
            dead_end: i == 4,
            road_sides: Vec::new(),
        });
    }
    RoadGraph {
        intersections,
        roads,
        lanes,
    }
}

fn square() -> RoadGraph {
    graph_of(&[(0, 1), (1, 2), (2, 3), (3, 0)], 5)
}

fn loop_of(roads: Vec<RoadSideID>) -> Perimeter {
    Perimeter {
        roads,
        interior: Vec::new(),
    }
}

#[test]
fn square_segments() {
    let g = square();
    let p = loop_of(vec![left(0), left(1), left(2), left(3), left(0)]);
    let segs = p.segments(&g).unwrap();
    assert_eq!(segs.len(), 4);
    for (k, seg) in segs.iter().enumerate() {
        assert_eq!(seg.side, left(k));
        assert_eq!(seg.lane, LaneID(2 * k + 1));
        assert!(seg.reverse_centerline);
        // The left lane runs from the road's end back to its start; the next road shares the
        // road's end, which is where this lane starts.
        assert_eq!(seg.orientation, Orientation::Reverse);
    }
    assert_eq!(
        g.join_before(segs[0], false),
        Some((IntersectionID(0), false))
    );
    assert_eq!(g.join_before(segs[0], true), Some((IntersectionID(1), false)));
}

#[test]
fn right_side_segments_keep_lane_order() {
    let g = square();
    let p = loop_of(vec![right(3), right(2), right(1), right(0), right(3)]);
    let segs = p.segments(&g).unwrap();
    // Lane 6 runs from D (3) to A (0); the next lane (road 2, C to D) shares D, its start.
    assert_eq!(segs[0].lane, LaneID(6));
    assert!(!segs[0].reverse_centerline);
    assert_eq!(segs[0].orientation, Orientation::Reverse);
}

#[test]
fn dead_end_doubling_back_keeps_lane_order() {
    let g = graph_of(&[(0, 1), (1, 2), (2, 0), (1, 4)], 5);
    let p = loop_of(vec![left(0), left(3), right(3), left(1), left(2), left(0)]);
    let segs = p.segments(&g).unwrap();
    assert_eq!(segs.len(), 5);
    assert_eq!(segs[1].side, left(3));
    assert_eq!(segs[1].orientation, Orientation::Keep);
    // The left lane of the stub runs from X (4) back to B (1): kept, it starts at the dead end.
    assert_eq!(g.join_before(segs[1], true), Some((IntersectionID(4), true)));
}

#[test]
fn parallel_roads_decide_by_distance() {
    let g = graph_of(&[(0, 1), (0, 1)], 2);
    let p = loop_of(vec![left(0), right(1), left(0)]);
    let segs = p.segments(&g).unwrap();
    assert_eq!(segs[0].orientation, Orientation::Closest);
    assert!(keep_orientation(segs[0].orientation, None));
    assert!(keep_orientation(segs[0].orientation, Some(true)));
    assert!(!keep_orientation(segs[0].orientation, Some(false)));
    assert!(keep_orientation(Orientation::Keep, Some(false)));
    assert!(!keep_orientation(Orientation::Reverse, None));
}

#[test]
fn one_lane_road_is_malformed() {
    let mut g = square();
    g.roads[0].left_lane = LaneID(0);
    let p = loop_of(vec![left(0), right(0), left(1), left(0)]);
    assert_eq!(p.segments(&g), Err(BlockError::MalformedLoop));
}

#[test]
fn open_loop_is_malformed() {
    let g = square();
    assert_eq!(
        loop_of(vec![left(0), left(1)]).segments(&g),
        Err(BlockError::MalformedLoop)
    );
    assert_eq!(loop_of(vec![left(0)]).segments(&g), Err(BlockError::MalformedLoop));
    let unknown = loop_of(vec![left(0), left(9), left(0)]);
    assert_eq!(unknown.segments(&g), Err(BlockError::MalformedLoop));
}

#[test]
fn segment_fields() {
    let g = square();
    let s = map_model::polygon::segment(&g, left(1), left(2)).unwrap();
    assert_eq!(
        s,
        Segment {
            side: left(1),
            lane: LaneID(3),
            reverse_centerline: true,
            orientation: Orientation::Reverse,
        }
    );
}
