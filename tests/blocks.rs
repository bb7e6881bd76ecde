use map_model::graph::{
    BlockError, Direction, Intersection, IntersectionID, Lane, LaneID, Road, RoadGraph,
};
use map_model::perimeter::Perimeter;
use map_model::road::{RoadID, RoadSideID, SideOfRoad};

fn left(r: usize) -> RoadSideID {
    RoadSideID::new(RoadID(r), SideOfRoad::Left)
}

fn right(r: usize) -> RoadSideID {
    RoadSideID::new(RoadID(r), SideOfRoad::Right)
}

fn road(src: usize, dst: usize) -> Road {
    Road {
        src_i: IntersectionID(src),
        dst_i: IntersectionID(dst),
        left_lane: LaneID(0),
        right_lane: LaneID(0),
    }
}

fn inter(border: bool, road_sides: Vec<RoadSideID>) -> Intersection {
    Intersection {
        border,
        dead_end: road_sides.len() == 2,
        road_sides,
    }
}

fn lane(side: RoadSideID, dst: usize) -> Lane {
    Lane {
        nearest_side: side,
        src_i: IntersectionID(dst),
        dst_i: IntersectionID(dst),
        dir: Direction::Fwd,
    }
}

fn perimeter(roads: Vec<RoadSideID>) -> Perimeter {
    Perimeter {
        roads,
        interior: Vec::new(),
    }
}

fn sorted_roads(p: &Perimeter) -> Vec<usize> {
    let mut v: Vec<usize> = p.roads.iter().map(|s| s.road.0).collect();
    v.sort();
    v.dedup();
    v
}

fn sorted_interior(p: &Perimeter) -> Vec<usize> {
    let mut v: Vec<usize> = p.interior.iter().map(|r| r.0).collect();
    v.sort();
    v
}

/// A square block A(0) B(1) C(2) D(3), roads 0..4 going around it with the left side inside,
/// and at each corner two roads out to border intersections (roads 4..12, intersections 4..12).
fn grid_block() -> RoadGraph {
    let mut roads = vec![road(0, 1), road(1, 2), road(2, 3), road(3, 0)];
    let mut intersections = Vec::new();
    let mut extra: Vec<Vec<RoadSideID>> = vec![Vec::new(); 4];
    for corner in 0..4 {
        for k in 0..2 {
            let r = roads.len();
            roads.push(road(corner, 4 + corner * 2 + k));
            extra[corner].push(left(r));
            extra[corner].push(right(r));
        }
    }
    for corner in 0..4 {
        let incoming = (corner + 3) % 4;
        let outgoing = corner;
        let mut sides = vec![right(incoming), left(incoming), left(outgoing), right(outgoing)];
        sides.extend(extra[corner].clone());
        intersections.push(inter(false, sides));
    }
    for corner in 0..4 {
        for k in 0..2 {
            let r = 4 + corner * 2 + k;
            intersections.push(inter(true, vec![left(r), right(r)]));
        }
    }
    let lanes = vec![
        lane(left(0), 1),
        lane(left(1), 2),
        lane(left(2), 3),
        lane(left(3), 0),
    ];
    RoadGraph {
        intersections,
        roads,
        lanes,
    }
}

#[test]
fn grid_block_traces_four_sides() {
    let g = grid_block();
    for l in 0..4 {
        let p = match Perimeter::single_block(&g, LaneID(l)) {
            Ok(p) => p,
            Err(e) => panic!("trace failed: {:?}", e),
        };
        assert_eq!(p.roads.len(), 5);
        assert_eq!(p.roads[0], *p.roads.last().unwrap());
        assert_eq!(sorted_roads(&p), vec![0, 1, 2, 3]);
        assert!(p.interior.is_empty());
    }
    let p = Perimeter::single_block(&g, LaneID(0)).unwrap();
    assert_eq!(p.roads, vec![left(0), left(1), left(2), left(3), left(0)]);
}

/// Two squares side by side: A(0) B(1) C(2) D(3) on the left, B E(4) F(5) C on the right,
/// sharing road 1 (B to C). Both are traced counter-clockwise.
fn two_squares() -> RoadGraph {
    let roads = vec![
        road(0, 1),
        road(1, 2),
        road(2, 3),
        road(3, 0),
        road(1, 4),
        road(4, 5),
        road(5, 2),
    ];
    let intersections = vec![
        inter(false, vec![right(3), left(3), left(0), right(0)]),
        inter(false, vec![right(0), left(0), left(1), right(1), left(4), right(4)]),
        inter(false, vec![right(6), left(6), right(1), left(1), left(2), right(2)]),
        inter(false, vec![right(2), left(2), left(3), right(3)]),
        inter(false, vec![right(4), left(4), left(5), right(5)]),
        inter(false, vec![right(5), left(5), left(6), right(6)]),
    ];
    let lanes = vec![lane(left(0), 1), lane(left(4), 4)];
    RoadGraph {
        intersections,
        roads,
        lanes,
    }
}

#[test]
fn adjacent_squares_merge() {
    let g = two_squares();
    let mut a = Perimeter::single_block(&g, LaneID(0)).unwrap();
    let mut b = Perimeter::single_block(&g, LaneID(1)).unwrap();
    assert_eq!(a.roads, vec![left(0), left(1), left(2), left(3), left(0)]);
    assert_eq!(b.roads, vec![left(4), left(5), left(6), right(1), left(4)]);
    let common: Vec<usize> = sorted_roads(&a)
        .into_iter()
        .filter(|r| sorted_roads(&b).contains(r))
        .collect();
    assert_eq!(common, vec![1]);

    assert!(a.try_to_merge(&mut b));
    assert_eq!(a.roads.len() - 1, 6);
    assert_eq!(a.roads[0], *a.roads.last().unwrap());
    assert_eq!(sorted_interior(&a), vec![1]);
    assert_eq!(sorted_roads(&a), vec![0, 2, 3, 4, 5, 6]);
    assert_eq!(
        a.roads,
        vec![left(2), left(3), left(0), left(4), left(5), left(6), left(2)]
    );
    assert!(b.roads.is_empty());
    assert!(b.interior.is_empty());
}

#[test]
fn merge_all_fuses_adjacent_squares() {
    let g = two_squares();
    let a = Perimeter::single_block(&g, LaneID(0)).unwrap();
    let b = Perimeter::single_block(&g, LaneID(1)).unwrap();
    let out = Perimeter::merge_all(vec![a, b], false);
    assert_eq!(out.len(), 1);
    assert_eq!(sorted_interior(&out[0]), vec![1]);
    assert_eq!(sorted_roads(&out[0]), vec![0, 2, 3, 4, 5, 6]);
}

#[test]
fn merge_all_stepwise_stops_after_one_merge() {
    // Three squares in a row; the third shares road 6 with the second only.
    let a = perimeter(vec![left(0), left(1), left(2), left(3), left(0)]);
    let b = perimeter(vec![left(4), left(5), left(6), right(1), left(4)]);
    let c = perimeter(vec![left(7), left(8), left(9), right(6), left(7)]);
    let out = Perimeter::merge_all(vec![a, b, c], true);
    assert_eq!(out.len(), 2);
    assert_eq!(sorted_interior(&out[0]), vec![1]);
    assert_eq!(sorted_roads(&out[1]), vec![6, 7, 8, 9]);
}

#[test]
fn merge_all_keeps_every_road() {
    let a = perimeter(vec![left(0), left(1), left(2), left(3), left(0)]);
    let b = perimeter(vec![left(4), left(5), left(6), right(1), left(4)]);
    let c = perimeter(vec![left(7), left(8), left(9), right(6), left(7)]);
    let d = perimeter(vec![left(20), left(21), left(22), left(20)]);
    let out = Perimeter::merge_all(vec![a, b, c, d], false);
    assert_eq!(out.len(), 2);
    let mut all: Vec<usize> = Vec::new();
    for p in &out {
        all.extend(sorted_roads(p));
        all.extend(sorted_interior(p));
    }
    all.sort();
    all.dedup();
    assert_eq!(all, vec![0, 1, 2, 3, 4, 5, 6, 7, 8, 9, 20, 21, 22]);
}

/// A square with a dead-end stub (road 4) from B into the block, ending at X (4).
fn square_with_stub() -> RoadGraph {
    let roads = vec![road(0, 1), road(1, 2), road(2, 3), road(3, 0), road(1, 4)];
    let intersections = vec![
        inter(false, vec![right(3), left(3), left(0), right(0)]),
        inter(false, vec![right(0), left(0), left(4), right(4), left(1), right(1)]),
        inter(false, vec![right(1), left(1), left(2), right(2)]),
        inter(false, vec![right(2), left(2), left(3), right(3)]),
        inter(false, vec![left(4), right(4)]),
    ];
    let lanes = vec![lane(left(0), 1)];
    RoadGraph {
        intersections,
        roads,
        lanes,
    }
}

#[test]
fn dead_end_stub_is_collapsed() {
    let g = square_with_stub();
    let mut p = Perimeter::single_block(&g, LaneID(0)).unwrap();
    assert_eq!(
        p.roads,
        vec![left(0), left(4), right(4), left(1), left(2), left(3), left(0)]
    );
    p.collapse_deadends();
    assert_eq!(p.roads, vec![left(0), left(1), left(2), left(3), left(0)]);
    assert_eq!(sorted_interior(&p), vec![4]);
}

#[test]
fn collapse_rotates_away_from_seam() {
    // The dead end (road 4) straddles the join of the loop.
    let mut p = perimeter(vec![right(4), left(1), left(2), left(3), left(0), left(4), right(4)]);
    p.collapse_deadends();
    assert_eq!(p.roads, vec![left(1), left(2), left(3), left(0), left(1)]);
    assert_eq!(sorted_interior(&p), vec![4]);
}

#[test]
fn collapse_without_dead_ends_changes_nothing() {
    let mut p = perimeter(vec![left(0), left(1), left(2), left(0)]);
    p.collapse_deadends();
    assert_eq!(p.roads, vec![left(0), left(1), left(2), left(0)]);
    assert!(p.interior.is_empty());
}

/// Road 0 runs from A (0) to the border intersection Z (1); roads 1, 2 and 3 make a triangle
/// A, B (2), C (3).
fn border_network() -> RoadGraph {
    let roads = vec![road(0, 1), road(0, 2), road(2, 3), road(3, 0)];
    let intersections = vec![
        inter(false, vec![right(3), left(3), left(1), right(1), left(0), right(0)]),
        inter(true, vec![left(0), right(0)]),
        inter(false, vec![right(1), left(1), left(2), right(2)]),
        inter(false, vec![right(2), left(2), left(3), right(3)]),
    ];
    let lanes = vec![lane(left(0), 1), lane(left(0), 1), lane(left(1), 2)];
    RoadGraph {
        intersections,
        roads,
        lanes,
    }
}

#[test]
fn border_road_reaches_boundary() {
    let g = border_network();
    match Perimeter::single_block(&g, LaneID(0)) {
        Err(e) => assert_eq!(e, BlockError::BoundaryReached),
        Ok(_) => panic!("expected to reach the boundary"),
    }
    let all = Perimeter::find_all_single_blocks(&g);
    assert_eq!(all.len(), 1);
    assert_eq!(all[0].roads, vec![left(1), left(2), left(3), left(1)]);
    for p in &all {
        assert!(!p.roads.contains(&left(0)));
    }
}

#[test]
fn trace_from_missing_side_is_malformed() {
    let mut g = border_network();
    g.lanes.push(lane(left(2), 0));
    match Perimeter::single_block(&g, LaneID(3)) {
        Err(e) => assert_eq!(e, BlockError::MalformedLoop),
        Ok(_) => panic!("expected a malformed loop"),
    }
}

#[test]
fn all_single_blocks_of_two_squares() {
    let mut g = two_squares();
    g.lanes.push(lane(left(1), 2));
    let all = Perimeter::find_all_single_blocks(&g);
    // The third lane's side was seen in the first trace.
    assert_eq!(all.len(), 2);
    assert_eq!(all[0].roads, vec![left(0), left(1), left(2), left(3), left(0)]);
    assert_eq!(all[1].roads, vec![left(4), left(5), left(6), right(1), left(4)]);
}

#[test]
fn disjoint_loops_touching_at_a_point_do_not_merge() {
    // Both loops pass through one intersection but share no road.
    let mut a = perimeter(vec![left(0), left(1), left(2), left(0)]);
    let mut b = perimeter(vec![left(3), left(4), left(5), left(3)]);
    let a0 = a.roads.clone();
    let b0 = b.roads.clone();
    assert!(!a.try_to_merge(&mut b));
    assert_eq!(a.roads, a0);
    assert_eq!(b.roads, b0);
    assert!(a.interior.is_empty());
    assert!(b.interior.is_empty());
}

#[test]
fn merge_that_would_leave_a_hole_fails() {
    // b shares roads 0 and 2 with a, but they are not consecutive on a.
    let mut a = perimeter(vec![left(0), left(1), left(2), left(3), left(0)]);
    let mut b = perimeter(vec![right(0), left(7), right(2), left(8), right(0)]);
    assert!(!a.try_to_merge(&mut b));
    assert_eq!(sorted_roads(&a), vec![0, 1, 2, 3]);
    assert_eq!(sorted_roads(&b), vec![0, 2, 7, 8]);
    assert_eq!(a.roads[0], *a.roads.last().unwrap());
    assert_eq!(b.roads[0], *b.roads.last().unwrap());
}

#[test]
fn merge_all_of_nothing() {
    assert!(Perimeter::merge_all(Vec::new(), false).is_empty());
    let single = Perimeter::merge_all(vec![perimeter(vec![left(0), left(1), left(0)])], false);
    assert_eq!(single.len(), 1);
    assert_eq!(single[0].roads, vec![left(0), left(1), left(0)]);
}

#[test]
fn merging_a_loop_with_its_other_face_fails() {
    // Nothing would be left of either loop.
    let mut a = perimeter(vec![left(0), left(1), left(2), left(0)]);
    let mut b = perimeter(vec![right(2), right(1), right(0), right(2)]);
    assert!(!a.try_to_merge(&mut b));
    assert_eq!(a.roads, vec![left(0), left(1), left(2), left(0)]);
    assert_eq!(b.roads, vec![right(2), right(1), right(0), right(2)]);
}

#[test]
fn loops_that_cannot_be_collapsed() {
    // Folding would remove every entry.
    assert!(!perimeter(vec![left(1), left(2), right(2), right(1), left(1)]).can_collapse());
    assert!(!perimeter(vec![left(5), right(5), left(5)]).can_collapse());
    // A single road: no join to rotate to.
    assert!(!perimeter(vec![left(5), left(5)]).can_collapse());
    assert!(!perimeter(Vec::new()).can_collapse());
    assert!(perimeter(vec![left(0), left(4), right(4), left(1), left(0)]).can_collapse());
}

#[test]
fn collapse_leaves_no_neighbors_on_one_road() {
    let mut p = perimeter(vec![left(0), left(4), left(6), right(6), right(4), left(1), left(2), left(0)]);
    assert!(p.can_collapse());
    p.collapse_deadends();
    assert_eq!(p.roads, vec![left(0), left(1), left(2), left(0)]);
    assert_eq!(sorted_interior(&p), vec![4, 6]);
    for w in p.roads[..p.roads.len() - 1].windows(2) {
        assert_ne!(w[0].road, w[1].road);
    }
}
