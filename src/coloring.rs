//! Greedy coloring of perimeters, so that perimeters sharing a road differ in color.
use crate::perimeter::{views, Perimeter, PerimeterModel};
use crate::ring::has_road;
use crate::road::RoadID;
use vstd::prelude::*;

verus! {

/// The two perimeters share a road.
pub open spec fn adjacent(a: PerimeterModel, b: PerimeterModel) -> bool {
    exists|r: RoadID| has_road(a.roads, r) && has_road(b.roads, r)
}

/// Color `c` is taken by an earlier perimeter (before `i`) that shares a road with `ps[i]`.
pub open spec fn color_taken(ps: Seq<PerimeterModel>, cs: Seq<usize>, i: int, c: int) -> bool {
    exists|j: int| 0 <= j < i && adjacent(ps[i], ps[j]) && #[trigger] cs[j] == c
}

/// The least color from `c` up, below `k`, that `color_taken` leaves free; `k` when none is.
pub open spec fn least_free(ps: Seq<PerimeterModel>, cs: Seq<usize>, i: int, k: int, c: int) -> int
    decreases k - c,
{
    if c >= k {
        k
    } else if color_taken(ps, cs, i, c) {
        least_free(ps, cs, i, k, c + 1)
    } else {
        c
    }
}

/// Greedy coloring of the first `n` perimeters in order, each getting the least color below
/// `k` that no earlier neighbor has; `None` once one finds none.
pub open spec fn greedy_colors(ps: Seq<PerimeterModel>, k: int, n: int) -> Option<Seq<usize>>
    decreases n,
{
    if n <= 0 {
        Some(Seq::empty())
    } else {
        match greedy_colors(ps, k, n - 1) {
            None => None,
            Some(cs) => {
                let c = least_free(ps, cs, n - 1, k, 0);
                if c < k {
                    Some(cs.push(c as usize))
                } else {
                    None
                }
            },
        }
    }
}

proof fn lemma_least_free(ps: Seq<PerimeterModel>, cs: Seq<usize>, i: int, k: int, c: int)
    requires
        0 <= c <= k,
    ensures
        c <= least_free(ps, cs, i, k, c) <= k,
        least_free(ps, cs, i, k, c) < k ==> !color_taken(ps, cs, i, least_free(ps, cs, i, k, c)),
    decreases k - c,
{
    if c < k && color_taken(ps, cs, i, c) {
        lemma_least_free(ps, cs, i, k, c + 1);
    }
}

/// A greedy coloring uses colors below `k` only, and perimeters sharing a road get different
/// colors.
pub proof fn lemma_coloring_valid(ps: Seq<PerimeterModel>, k: int, n: int)
    requires
        greedy_colors(ps, k, n) is Some,
        0 <= n <= ps.len(),
        0 <= k <= usize::MAX,
    ensures
        greedy_colors(ps, k, n).unwrap().len() == n,
        forall|i: int| 0 <= i < n ==> #[trigger] greedy_colors(ps, k, n).unwrap()[i] < k,
        forall|i: int, j: int|
            0 <= i < n && 0 <= j < n && i != j && adjacent(ps[i], ps[j]) ==> greedy_colors(
                ps,
                k,
                n,
            ).unwrap()[i] != greedy_colors(ps, k, n).unwrap()[j],
    decreases n,
{
    if n > 0 {
        lemma_coloring_valid(ps, k, n - 1);
        let cs = greedy_colors(ps, k, n - 1).unwrap();
        let c = least_free(ps, cs, n - 1, k, 0);
        lemma_least_free(ps, cs, n - 1, k, 0);
        let all = cs.push(c as usize);
        assert forall|i: int, j: int|
            0 <= i < n && 0 <= j < n && i != j && adjacent(ps[i], ps[j]) implies all[i]
            != all[j] by {
            if i == n - 1 {
                if all[j] == all[i] {
                    assert(cs[j] == c);
                    assert(color_taken(ps, cs, n - 1, c));
                }
            } else if j == n - 1 {
                assert(adjacent(ps[j], ps[i])) by {
                    let r = choose|r: RoadID| has_road(ps[i].roads, r) && has_road(ps[j].roads, r);
                    assert(has_road(ps[j].roads, r) && has_road(ps[i].roads, r));
                }
                if all[j] == all[i] {
                    assert(cs[i] == c);
                    assert(color_taken(ps, cs, n - 1, c));
                }
            } else {
                assert(all[i] == cs[i] && all[j] == cs[j]);
            }
        }
    }
}

proof fn lemma_greedy_stays_none(ps: Seq<PerimeterModel>, k: int, m: int, n: int)
    requires
        0 <= m <= n,
        greedy_colors(ps, k, m) is None,
    ensures
        greedy_colors(ps, k, n) is None,
    decreases n - m,
{
    if m < n {
        lemma_greedy_stays_none(ps, k, m, n - 1);
    }
}

impl Perimeter {
    /// Assign each perimeter one of `num_colors`, such that no two adjacent perimeters share the
    /// same color. May fail. The resulting colors are expressed as `[0, num_colors)`. Perimeters
    /// are colored greedily in order, so failure does not mean that no coloring exists.
    pub fn calculate_coloring(input: &[Perimeter], num_colors: usize) -> (r: Option<Vec<usize>>)
        ensures
            match r {
                Some(v) => greedy_colors(views(input@), num_colors as int, input@.len() as int)
                    == Some(v@),
                None => greedy_colors(views(input@), num_colors as int, input@.len() as int)
                    is None,
            },
    {
        let ghost ps = views(input@);
        let ghost k = num_colors as int;
        // Greedily fill out a color for each perimeter, in the same order as the input
        let mut assigned_colors: Vec<usize> = Vec::new();
        let mut this_idx: usize = 0;
        while this_idx < input.len()
            invariant
                this_idx <= input@.len(),
                ps == views(input@),
                k == num_colors as int,
                greedy_colors(ps, k, this_idx as int) == Some(assigned_colors@),
            decreases input@.len() - this_idx,
        {
            proof {
                lemma_coloring_valid(ps, k, this_idx as int);
                assert(ps.len() == input@.len());
            }
            let mut available_colors: Vec<bool> = Vec::new();
            while available_colors.len() < num_colors
                invariant
                    available_colors@.len() <= num_colors,
                    forall|c: int| 0 <= c < available_colors@.len() ==> available_colors@[c],
                decreases num_colors - available_colors@.len(),
            {
                available_colors.push(true);
            }
            // Find all neighbors. We assign colors in order, so any neighbor index smaller than
            // us has been chosen
            let mut other_idx: usize = 0;
            while other_idx < this_idx
                invariant
                    this_idx < input@.len(),
                    other_idx <= this_idx,
                    k == num_colors as int,
                    ps == views(input@),
                    assigned_colors@.len() == this_idx,
                    forall|i: int| 0 <= i < this_idx ==> #[trigger] assigned_colors@[i] < k,
                    available_colors@.len() == num_colors,
                    forall|c: int|
                        0 <= c < num_colors ==> (!#[trigger] available_colors@[c]
                            <==> exists|j: int|
                            0 <= j < other_idx && adjacent(ps[this_idx as int], ps[j])
                                && #[trigger] assigned_colors@[j] == c),
                decreases this_idx - other_idx,
            {
                if shares_road(&input[this_idx], &input[other_idx]) {
                    available_colors.set(assigned_colors[other_idx], false);
                }
                other_idx = other_idx + 1;
            }
            let mut color: usize = 0;
            while color < num_colors && !available_colors[color]
                invariant
                    color <= num_colors,
                    available_colors@.len() == num_colors,
                    least_free(ps, assigned_colors@, this_idx as int, k, 0) == least_free(
                        ps,
                        assigned_colors@,
                        this_idx as int,
                        k,
                        color as int,
                    ),
                    forall|c: int|
                        0 <= c < num_colors ==> (!#[trigger] available_colors@[c]
                            <==> color_taken(ps, assigned_colors@, this_idx as int, c)),
                decreases num_colors - color,
            {
                color = color + 1;
            }
            if color < num_colors {
                assigned_colors.push(color);
            } else {
                proof {
                    lemma_greedy_stays_none(ps, k, this_idx + 1, input@.len() as int);
                }
                // Too few colors
                return None;
            }
            this_idx = this_idx + 1;
        }
        Some(assigned_colors)
    }
}

/// The two perimeters share a road.
pub fn shares_road(a: &Perimeter, b: &Perimeter) -> (r: bool)
    ensures
        r == adjacent(a@, b@),
{
    let mut i: usize = 0;
    while i < a.roads.len()
        invariant
            i <= a.roads@.len(),
            forall|j: int| 0 <= j < i ==> !has_road(b.roads@, #[trigger] a.roads@[j].road),
        decreases a.roads@.len() - i,
    {
        if crate::perimeter::side_has_road(&b.roads, a.roads[i].road) {
            proof {
                let r = a.roads@[i as int].road;
                assert(has_road(a.roads@, r));
                assert(has_road(a.roads@, r) && has_road(b.roads@, r));
                assert(a@.roads == a.roads@ && b@.roads == b.roads@);
                assert(has_road(a@.roads, r) && has_road(b@.roads, r));
            }
            return true;
        }
        i = i + 1;
    }
    proof {
        if adjacent(a@, b@) {
            let r = choose|r: RoadID| has_road(a.roads@, r) && has_road(b.roads@, r);
            let j = choose|j: int| 0 <= j < a.roads@.len() && #[trigger] a.roads@[j].road == r;
            assert(!has_road(b.roads@, a.roads@[j].road));
        }
    }
    false
}

} // verus!
