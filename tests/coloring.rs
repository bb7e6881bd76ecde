use map_model::perimeter::Perimeter;
use map_model::road::{RoadID, RoadSideID, SideOfRoad};

fn side(r: usize) -> RoadSideID {
    RoadSideID::new(RoadID(r), SideOfRoad::Left)
}

fn loop_of(roads: &[usize]) -> Perimeter {
    let mut v: Vec<RoadSideID> = roads.iter().map(|r| side(*r)).collect();
    v.push(side(roads[0]));
    Perimeter {
        roads: v,
        interior: Vec::new(),
    }
}

fn triangle_of_loops() -> Vec<Perimeter> {
    // Each pair of loops shares one road.
    vec![
        loop_of(&[0, 1, 10]),
        loop_of(&[1, 2, 11]),
        loop_of(&[2, 0, 12]),
    ]
}

#[test]
fn three_adjacent_loops_need_three_colors() {
    let loops = triangle_of_loops();
    assert_eq!(Perimeter::calculate_coloring(&loops, 2), None);
    assert_eq!(Perimeter::calculate_coloring(&loops, 3), Some(vec![0, 1, 2]));
}

#[test]
fn coloring_reuses_colors_of_non_neighbors() {
    let loops = vec![loop_of(&[0, 1]), loop_of(&[1, 2]), loop_of(&[3, 4]), loop_of(&[2, 5])];
    let colors = Perimeter::calculate_coloring(&loops, 2).unwrap();
    assert_eq!(colors, vec![0, 1, 0, 0]);
    for i in 0..loops.len() {
        for j in 0..loops.len() {
            if i != j && share(&loops[i], &loops[j]) {
                assert_ne!(colors[i], colors[j]);
            }
        }
    }
}

fn share(a: &Perimeter, b: &Perimeter) -> bool {
    map_model::coloring::shares_road(a, b)
}

#[test]
fn coloring_with_no_colors_fails_unless_empty() {
    assert_eq!(Perimeter::calculate_coloring(&[], 0), Some(vec![]));
    assert_eq!(Perimeter::calculate_coloring(&[loop_of(&[0, 1])], 0), None);
}

#[test]
fn partition_groups_connected_loops() {
    let loops = vec![
        loop_of(&[0, 1]),
        loop_of(&[5, 6]),
        loop_of(&[1, 2]),
        loop_of(&[2, 3]),
        loop_of(&[6, 7]),
    ];
    let groups = Perimeter::partition_by_predicate(loops, |r: RoadID| r.0 != 2);
    let ids: Vec<Vec<usize>> = groups
        .iter()
        .map(|g| g.iter().map(|p| p.roads[0].road.0).collect())
        .collect();
    // Road 2 does not link the third and fourth loops.
    assert_eq!(ids, vec![vec![0, 1], vec![5, 6], vec![2]]);
    let total: usize = groups.iter().map(|g| g.len()).sum();
    assert_eq!(total, 5);
}

#[test]
fn partition_every_loop_once() {
    let loops = vec![loop_of(&[0, 1]), loop_of(&[1, 2]), loop_of(&[9, 8])];
    let groups = Perimeter::partition_by_predicate(loops, |_r: RoadID| true);
    assert_eq!(groups.len(), 2);
    assert_eq!(groups[0].len(), 2);
    assert_eq!(groups[1].len(), 1);
    let none = Perimeter::partition_by_predicate(Vec::new(), |_r: RoadID| true);
    assert!(none.is_empty());
}
