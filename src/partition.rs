//! Splitting perimeters into groups that can be merged independently: the connected components
//! of "shares a road that passes a predicate".
use crate::perimeter::{all_wf, views, Perimeter, PerimeterModel};
use crate::ring::has_road;
use crate::road::RoadID;
use vstd::prelude::*;

verus! {

/// Perimeters `i` and `j` share a road of `pass`.
pub open spec fn linked(ps: Seq<PerimeterModel>, pass: Set<RoadID>, i: int, j: int) -> bool {
    exists|r: RoadID|
        #![trigger pass.contains(r), has_road(ps[i].roads, r), has_road(ps[j].roads, r)]
        pass.contains(r) && has_road(ps[i].roads, r) && has_road(ps[j].roads, r)
}

/// `p` is a walk along `linked` steps between perimeters of `ps`.
pub open spec fn is_walk(ps: Seq<PerimeterModel>, pass: Set<RoadID>, p: Seq<int>) -> bool {
    &&& p.len() >= 1
    &&& forall|k: int| 0 <= k < p.len() ==> 0 <= #[trigger] p[k] < ps.len()
    &&& forall|k: int| 0 <= k < p.len() - 1 ==> linked(ps, pass, #[trigger] p[k], p[k + 1])
}

/// Perimeter `j` can be reached from perimeter `i` along `linked` steps.
pub open spec fn reaches(ps: Seq<PerimeterModel>, pass: Set<RoadID>, i: int, j: int) -> bool {
    exists|p: Seq<int>| #[trigger] is_walk(ps, pass, p) && p[0] == i && p.last() == j
}

/// Index `i` is in some group.
pub open spec fn in_some_group(groups: Seq<Seq<usize>>, i: int) -> bool {
    exists|g: int, a: int|
        0 <= g < groups.len() && 0 <= a < groups[g].len() && #[trigger] groups[g][a] == i
}

/// `groups` are the connected components of `linked` over the indices of `ps`: each index in
/// exactly one group, each group sorted, closed under `linked` and reachable from its first
/// index, and groups ordered by their first index.
pub open spec fn is_components(
    ps: Seq<PerimeterModel>,
    pass: Set<RoadID>,
    groups: Seq<Seq<usize>>,
) -> bool {
    &&& forall|g: int| 0 <= g < groups.len() ==> #[trigger] groups[g].len() > 0
    &&& forall|g: int, a: int|
        0 <= g < groups.len() && 0 <= a < groups[g].len() ==> #[trigger] groups[g][a] < ps.len()
    &&& forall|g: int, a: int, b: int|
        0 <= g < groups.len() && 0 <= a < b < groups[g].len() ==> #[trigger] groups[g][a]
            < #[trigger] groups[g][b]
    &&& forall|i: int| 0 <= i < ps.len() ==> #[trigger] in_some_group(groups, i)
    &&& forall|g1: int, a1: int, g2: int, a2: int|
        0 <= g1 < groups.len() && 0 <= g2 < groups.len() && 0 <= a1 < groups[g1].len() && 0
            <= a2 < groups[g2].len() && #[trigger] groups[g1][a1] == #[trigger] groups[g2][a2]
            ==> g1 == g2
    &&& forall|g: int, a: int, j: int|
        0 <= g < groups.len() && 0 <= a < groups[g].len() && 0 <= j < ps.len() && #[trigger] linked(
            ps,
            pass,
            groups[g][a] as int,
            j,
        ) ==> exists|b: int| 0 <= b < groups[g].len() && #[trigger] groups[g][b] == j
    &&& forall|g: int, a: int|
        0 <= g < groups.len() && 0 <= a < groups[g].len() ==> reaches(
            ps,
            pass,
            groups[g][0] as int,
            #[trigger] groups[g][a] as int,
        )
    &&& forall|g1: int, g2: int|
        0 <= g1 < g2 < groups.len() ==> #[trigger] groups[g1][0] < #[trigger] groups[g2][0]
}

/// Number of `true` entries.
pub open spec fn count_true(s: Seq<bool>) -> int
    decreases s.len(),
{
    if s.len() == 0 {
        0
    } else {
        count_true(s.drop_last()) + if s.last() {
            1int
        } else {
            0
        }
    }
}

proof fn lemma_count_true(s: Seq<bool>, i: int)
    requires
        0 <= i < s.len(),
        !s[i],
    ensures
        count_true(s.update(i, true)) == count_true(s) + 1,
        count_true(s) < s.len(),
    decreases s.len(),
{
    let t = s.update(i, true);
    if i == s.len() - 1 {
        assert(t.drop_last() =~= s.drop_last());
        lemma_count_bound(s.drop_last());
    } else {
        assert(t.drop_last() =~= s.drop_last().update(i, true));
        lemma_count_true(s.drop_last(), i);
    }
}

proof fn lemma_count_bound(s: Seq<bool>)
    ensures
        0 <= count_true(s) <= s.len(),
    decreases s.len(),
{
    if s.len() > 0 {
        lemma_count_bound(s.drop_last());
    }
}

proof fn lemma_walk_extend(ps: Seq<PerimeterModel>, pass: Set<RoadID>, i: int, j: int, k: int)
    requires
        reaches(ps, pass, i, j),
        linked(ps, pass, j, k),
        0 <= k < ps.len(),
    ensures
        reaches(ps, pass, i, k),
{
    let p = choose|p: Seq<int>| #[trigger] is_walk(ps, pass, p) && p[0] == i && p.last() == j;
    let q = p.push(k);
    assert(q[q.len() - 2] == j);
    assert(is_walk(ps, pass, q));
}

proof fn lemma_linked_symmetric(ps: Seq<PerimeterModel>, pass: Set<RoadID>, i: int, j: int)
    requires
        linked(ps, pass, i, j),
    ensures
        linked(ps, pass, j, i),
{
    let r = choose|r: RoadID|
        #![trigger pass.contains(r), has_road(ps[i].roads, r), has_road(ps[j].roads, r)]
        pass.contains(r) && has_road(ps[i].roads, r) && has_road(ps[j].roads, r);
    assert(pass.contains(r) && has_road(ps[j].roads, r) && has_road(ps[i].roads, r));
}

/// Perimeters `a` and `b` share a road of `pass`.
fn linked_exec(a: &Perimeter, b: &Perimeter, pass: &Vec<RoadID>) -> (r: bool)
    ensures
        r == exists|x: RoadID|
            #![trigger pass@.to_set().contains(x), has_road(a.roads@, x), has_road(b.roads@, x)]
            pass@.to_set().contains(x) && has_road(a.roads@, x) && has_road(b.roads@, x),
{
    let mut i: usize = 0;
    while i < a.roads.len()
        invariant
            i <= a.roads@.len(),
            forall|j: int|
                0 <= j < i ==> !(pass@.contains(#[trigger] a.roads@[j].road) && has_road(
                    b.roads@,
                    a.roads@[j].road,
                )),
        decreases a.roads@.len() - i,
    {
        let x = a.roads[i].road;
        if crate::perimeter::contains_road(pass, x) && crate::perimeter::side_has_road(
            &b.roads,
            x,
        ) {
            proof {
                assert(has_road(a.roads@, x));
                assert(pass@.to_set().contains(x));
            }
            return true;
        }
        i = i + 1;
    }
    proof {
        assert forall|x: RoadID|
            !(pass@.to_set().contains(x) && has_road(a.roads@, x) && has_road(b.roads@, x)) by {
            if has_road(a.roads@, x) {
                let j = choose|j: int| 0 <= j < a.roads@.len() && #[trigger] a.roads@[j].road == x;
                assert(!(pass@.contains(a.roads@[j].road) && has_road(b.roads@, a.roads@[j].road)));
            }
        }
    }
    false
}

/// The component of `start`, as a mark per perimeter; `finished` marks earlier components.
fn floodfill(
    input: &Vec<Perimeter>,
    pass: &Vec<RoadID>,
    start: usize,
    finished: &Vec<bool>,
) -> (visited: Vec<bool>)
    requires
        start < input@.len(),
        finished@.len() == input@.len(),
        !finished@[start as int],
        forall|i: int, j: int|
            0 <= i < input@.len() && 0 <= j < input@.len() && finished@[i] && #[trigger] linked(
                views(input@),
                pass@.to_set(),
                i,
                j,
            ) ==> finished@[j],
    ensures
        visited@.len() == input@.len(),
        visited@[start as int],
        forall|i: int|
            0 <= i < input@.len() && #[trigger] visited@[i] ==> !finished@[i] && reaches(
                views(input@),
                pass@.to_set(),
                start as int,
                i,
            ),
        forall|i: int, j: int|
            0 <= i < input@.len() && 0 <= j < input@.len() && visited@[i] && #[trigger] linked(
                views(input@),
                pass@.to_set(),
                i,
                j,
            ) ==> visited@[j],
{
    let ghost ps = views(input@);
    let ghost s = pass@.to_set();
    let n = input.len();
    let mut visited: Vec<bool> = Vec::new();
    while visited.len() < n
        invariant
            visited@.len() <= n,
            forall|i: int| 0 <= i < visited@.len() ==> !#[trigger] visited@[i],
        decreases n - visited@.len(),
    {
        visited.push(false);
    }
    proof {
        assert(count_true(visited@) == 0) by {
            assert forall|m: int| 0 <= m <= n implies count_true(#[trigger] visited@.take(m))
                == 0 by {
                lemma_count_zero(visited@, m);
            }
            assert(visited@.take(n as int) =~= visited@);
        }
        let w = seq![start as int];
        assert(is_walk(ps, s, w));
    }
    let mut queue: Vec<usize> = Vec::new();
    queue.push(start);
    proof {
        assert(queue@[0] == start);
    }
    let mut num_visited: usize = 0;
    while queue.len() > 0
        invariant
            n == input@.len(),
            start < n,
            ps == views(input@),
            s == pass@.to_set(),
            visited@.len() == n,
            num_visited == count_true(visited@),
            finished@.len() == n,
            !finished@[start as int],
            forall|i: int, j: int|
                0 <= i < n && 0 <= j < n && finished@[i] && #[trigger] linked(ps, s, i, j)
                    ==> finished@[j],
            forall|k: int|
                0 <= k < queue@.len() ==> #[trigger] queue@[k] < n && !finished@[queue@[k] as int]
                    && reaches(ps, s, start as int, queue@[k] as int),
            forall|i: int|
                0 <= i < n && #[trigger] visited@[i] ==> !finished@[i] && reaches(
                    ps,
                    s,
                    start as int,
                    i,
                ),
            forall|i: int, j: int|
                0 <= i < n && 0 <= j < n && visited@[i] && #[trigger] linked(ps, s, i, j) ==> visited@[j]
                    || queue@.contains(j as usize),
            visited@[start as int] || queue@.contains(start),
        decreases n - num_visited, queue@.len(),
    {
        let ghost q0 = queue@;
        let current = queue.pop().unwrap();
        proof {
            lemma_count_bound(visited@);
            assert(q0[q0.len() - 1] == current);
            assert forall|x: usize| q0.contains(x) && x != current implies queue@.contains(x) by {
                let k = choose|k: int| 0 <= k < q0.len() && q0[k] == x;
                assert(queue@[k] == x);
            }
            assert forall|k: int| 0 <= k < queue@.len() implies #[trigger] queue@[k] < n
                && !finished@[queue@[k] as int] && reaches(ps, s, start as int, queue@[k] as int) by {
                assert(queue@[k] == q0[k]);
            }
        }
        if visited[current] {
            continue;
        }
        proof {
            lemma_count_true(visited@, current as int);
        }
        visited.set(current, true);
        num_visited = num_visited + 1;
        let mut j: usize = 0;
        while j < n
            invariant
                n == input@.len(),
                ps == views(input@),
                s == pass@.to_set(),
                j <= n,
                current < n,
                visited@.len() == n,
                visited@[current as int],
                start < n,
                visited@[start as int] || queue@.contains(start),
                !finished@[current as int],
                reaches(ps, s, start as int, current as int),
                finished@.len() == n,
                forall|i: int, j: int|
                    0 <= i < n && 0 <= j < n && finished@[i] && #[trigger] linked(ps, s, i, j)
                        ==> finished@[j],
                forall|k: int|
                    0 <= k < queue@.len() ==> #[trigger] queue@[k] < n && !finished@[queue@[k] as int]
                        && reaches(ps, s, start as int, queue@[k] as int),
                forall|k: int|
                    0 <= k < j && #[trigger] linked(ps, s, current as int, k) ==> queue@.contains(
                        k as usize,
                    ),
                forall|i: int, k: int|
                    0 <= i < n && 0 <= k < n && visited@[i] && i != current && #[trigger] linked(ps, s, i, k)
                        ==> visited@[k] || queue@.contains(k as usize),
            decreases n - j,
        {
            if linked_exec(&input[current], &input[j], pass) {
                proof {
                    assert(input@[current as int]@ == ps[current as int]);
                    assert(input@[j as int]@ == ps[j as int]);
                    let x = choose|x: RoadID|
                        #![trigger pass@.to_set().contains(x), has_road(input@[current as int].roads@, x), has_road(input@[j as int].roads@, x)]
                        pass@.to_set().contains(x) && has_road(input@[current as int].roads@, x)
                            && has_road(input@[j as int].roads@, x);
                    assert(s.contains(x) && has_road(ps[current as int].roads, x) && has_road(
                        ps[j as int].roads,
                        x,
                    ));
                    assert(linked(ps, s, current as int, j as int));
                    lemma_walk_extend(ps, s, start as int, current as int, j as int);
                    lemma_linked_symmetric(ps, s, current as int, j as int);
                }
                let ghost q0 = queue@;
                queue.push(j);
                proof {
                    assert forall|x: usize| q0.contains(x) implies queue@.contains(x) by {
                        let k = choose|k: int| 0 <= k < q0.len() && q0[k] == x;
                        assert(queue@[k] == x);
                    }
                    assert(queue@[q0.len() as int] == j);
                }
            } else {
                proof {
                    assert(input@[current as int]@ == ps[current as int]);
                    assert(input@[j as int]@ == ps[j as int]);
                    if linked(ps, s, current as int, j as int) {
                        let x = choose|x: RoadID|
                            #![trigger s.contains(x), has_road(ps[current as int].roads, x), has_road(ps[j as int].roads, x)]
                            s.contains(x) && has_road(ps[current as int].roads, x) && has_road(
                                ps[j as int].roads,
                                x,
                            );
                        assert(pass@.to_set().contains(x) && has_road(
                            input@[current as int].roads@,
                            x,
                        ) && has_road(input@[j as int].roads@, x));
                    }
                }
            }
            j = j + 1;
        }
    }
    proof {
        assert forall|i: int, j: int|
            0 <= i < n && 0 <= j < n && visited@[i] && #[trigger] linked(ps, s, i, j) implies visited@[j] by {
            if queue@.contains(j as usize) {
                let k = choose|k: int| 0 <= k < queue@.len() && queue@[k] == j as usize;
            }
        }
        if queue@.contains(start) {
            let k = choose|k: int| 0 <= k < queue@.len() && queue@[k] == start;
        }
    }
    visited
}

proof fn lemma_count_zero(v: Seq<bool>, m: int)
    requires
        0 <= m <= v.len(),
        forall|i: int| 0 <= i < v.len() ==> !#[trigger] v[i],
    ensures
        count_true(v.take(m)) == 0,
    decreases m,
{
    if m > 0 {
        assert(v.take(m).drop_last() =~= v.take(m - 1));
        lemma_count_zero(v, m - 1);
    }
}

/// Each group's indices as a sequence.
pub open spec fn group_views(v: Seq<Vec<usize>>) -> Seq<Seq<usize>> {
    v.map_values(|g: Vec<usize>| g@)
}

/// The connected components of `linked` over `input`, for the roads in `pass`.
pub fn components(input: &Vec<Perimeter>, pass: &Vec<RoadID>) -> (groups: Vec<Vec<usize>>)
    ensures
        is_components(views(input@), pass@.to_set(), group_views(groups@)),
{
    let ghost ps = views(input@);
    let ghost s = pass@.to_set();
    let n = input.len();
    let mut finished: Vec<bool> = Vec::new();
    while finished.len() < n
        invariant
            finished@.len() <= n,
            forall|i: int| 0 <= i < finished@.len() ==> !#[trigger] finished@[i],
        decreases n - finished@.len(),
    {
        finished.push(false);
    }
    let mut groups: Vec<Vec<usize>> = Vec::new();
    let mut start: usize = 0;
    while start < n
        invariant
            n == input@.len(),
            ps == views(input@),
            s == pass@.to_set(),
            start <= n,
            finished@.len() == n,
            forall|i: int, j: int|
                0 <= i < n && 0 <= j < n && finished@[i] && #[trigger] linked(ps, s, i, j)
                    ==> finished@[j],
            forall|i: int| 0 <= i < start ==> #[trigger] finished@[i],
            forall|i: int| 0 <= i < n ==> (#[trigger] finished@[i] <==> in_some_group(group_views(groups@), i)),
            forall|g: int| 0 <= g < groups@.len() ==> #[trigger] group_views(groups@)[g].len() > 0,
            forall|g: int, a: int|
                0 <= g < groups@.len() && 0 <= a < group_views(groups@)[g].len()
                    ==> #[trigger] group_views(groups@)[g][a] < n,
            forall|g: int, a: int, b: int|
                0 <= g < groups@.len() && 0 <= a < b < group_views(groups@)[g].len()
                    ==> #[trigger] group_views(groups@)[g][a] < #[trigger] group_views(groups@)[g][b],
            forall|g1: int, a1: int, g2: int, a2: int|
                0 <= g1 < groups@.len() && 0 <= g2 < groups@.len() && 0 <= a1 < group_views(groups@)[g1].len()
                    && 0 <= a2 < group_views(groups@)[g2].len() && #[trigger] group_views(groups@)[g1][a1]
                    == #[trigger] group_views(groups@)[g2][a2] ==> g1 == g2,
            forall|g: int, a: int, j: int|
                0 <= g < groups@.len() && 0 <= a < group_views(groups@)[g].len() && 0 <= j < n
                    && #[trigger] linked(ps, s, group_views(groups@)[g][a] as int, j) ==> exists|b: int|
                    0 <= b < group_views(groups@)[g].len() && #[trigger] group_views(groups@)[g][b] == j,
            forall|g: int, a: int|
                0 <= g < groups@.len() && 0 <= a < group_views(groups@)[g].len() ==> reaches(
                    ps,
                    s,
                    group_views(groups@)[g][0] as int,
                    #[trigger] group_views(groups@)[g][a] as int,
                ),
            forall|g1: int, g2: int|
                0 <= g1 < g2 < groups@.len() ==> #[trigger] group_views(groups@)[g1][0]
                    < #[trigger] group_views(groups@)[g2][0],
            forall|g: int| 0 <= g < groups@.len() ==> #[trigger] group_views(groups@)[g][0] < start,
        decreases n - start,
    {
        if finished[start] {
            start = start + 1;
            continue;
        }
        let visited = floodfill(input, pass, start, &finished);
        // The indices of everything in that component, in order.
        let mut group: Vec<usize> = Vec::new();
        let mut i: usize = 0;
        while i < n
            invariant
                i <= n,
                visited@.len() == n,
                forall|a: int| 0 <= a < group@.len() ==> #[trigger] group@[a] < i && visited@[group@[a] as int],
                forall|a: int, b: int| 0 <= a < b < group@.len() ==> #[trigger] group@[a] < #[trigger] group@[b],
                forall|k: int| 0 <= k < i && #[trigger] visited@[k] ==> group@.contains(k as usize),
            decreases n - i,
        {
            if visited[i] {
                let ghost g0 = group@;
                group.push(i);
                proof {
                    assert forall|x: usize| g0.contains(x) implies group@.contains(x) by {
                        let a = choose|a: int| 0 <= a < g0.len() && g0[a] == x;
                        assert(group@[a] == x);
                    }
                    assert(group@[g0.len() as int] == i);
                }
            }
            i = i + 1;
        }
        proof {
            assert(group@.contains(start));
        }
        let ghost gs0 = group_views(groups@);
        let ghost f0 = finished@;
        let mut k: usize = 0;
        while k < n
            invariant
                k <= n,
                visited@.len() == n,
                finished@.len() == n,
                forall|i: int| 0 <= i < n ==> #[trigger] finished@[i] == (f0[i] || (i < k && visited@[i])),
            decreases n - k,
        {
            if visited[k] {
                finished.set(k, true);
            }
            k = k + 1;
        }
        groups.push(group);
        proof {
            let gs = group_views(groups@);
            assert(gs =~= gs0.push(group@));
            let gl = gs0.len() as int;
            let first = group@[0];
            assert(first == start) by {
                let a = choose|a: int| 0 <= a < group@.len() && group@[a] == start;
                if a > 0 {
                    assert(group@[0] < group@[a]);
                }
                assert(visited@[first as int]);
                assert(!f0[first as int]);
            }
            assert(gs[gl] == group@);
            assert forall|i: int| 0 <= i < n implies (#[trigger] finished@[i] <==> in_some_group(gs, i)) by {
                if visited@[i] {
                    let a = choose|a: int| 0 <= a < group@.len() && group@[a] == i as usize;
                    assert(gs[gl][a] == i);
                }
                if in_some_group(gs, i) {
                    let (g, a) = choose|g: int, a: int| 0 <= g < gs.len() && 0 <= a < gs[g].len() && #[trigger] gs[g][a] == i;
                    if g < gl {
                        assert(gs0[g][a] == i);
                        assert(in_some_group(gs0, i));
                    }
                }
                if f0[i] {
                    let (g, a) = choose|g: int, a: int| 0 <= g < gs0.len() && 0 <= a < gs0[g].len() && #[trigger] gs0[g][a] == i;
                    assert(gs[g][a] == i);
                }
            }
            assert forall|g1: int, a1: int, g2: int, a2: int|
                0 <= g1 < gs.len() && 0 <= g2 < gs.len() && 0 <= a1 < gs[g1].len()
                    && 0 <= a2 < gs[g2].len() && #[trigger] gs[g1][a1] == #[trigger] gs[g2][a2]
                    implies g1 == g2 by {
                if g1 < gl && g2 == gl {
                    assert(in_some_group(gs0, gs0[g1][a1] as int));
                    assert(visited@[gs[g2][a2] as int]);
                }
                if g2 < gl && g1 == gl {
                    assert(in_some_group(gs0, gs0[g2][a2] as int));
                    assert(visited@[gs[g1][a1] as int]);
                }
            }
            assert forall|g: int, a: int, j: int|
                0 <= g < gs.len() && 0 <= a < gs[g].len() && 0 <= j < n
                    && #[trigger] linked(ps, s, gs[g][a] as int, j) implies exists|b: int|
                    0 <= b < gs[g].len() && #[trigger] gs[g][b] == j by {
                if g == gl {
                    assert(visited@[gs[g][a] as int]);
                    assert(visited@[j]);
                    assert(group@.contains(j as usize));
                    let b = choose|b: int| 0 <= b < group@.len() && group@[b] == j as usize;
                    assert(gs[g][b] == j);
                } else {
                    assert(gs[g] == gs0[g]);
                }
            }
            assert forall|g: int, a: int|
                0 <= g < gs.len() && 0 <= a < gs[g].len() implies reaches(
                    ps,
                    s,
                    gs[g][0] as int,
                    #[trigger] gs[g][a] as int,
                ) by {
                if g == gl {
                    assert(visited@[gs[g][a] as int]);
                } else {
                    assert(gs[g] == gs0[g]);
                }
            }
            assert forall|g: int| 0 <= g < gs.len() implies #[trigger] gs[g].len() > 0 by {
                if g < gl {
                    assert(gs[g] == gs0[g]);
                }
            }
            assert forall|g: int, a: int| 0 <= g < gs.len() && 0 <= a < gs[g].len() implies #[trigger] gs[g][a] < n by {
                if g < gl {
                    assert(gs[g] == gs0[g]);
                }
            }
            assert forall|g: int, a: int, b: int| 0 <= g < gs.len() && 0 <= a < b < gs[g].len()
                implies #[trigger] gs[g][a] < #[trigger] gs[g][b] by {
                if g < gl {
                    assert(gs[g] == gs0[g]);
                }
            }
            assert forall|g1: int, g2: int| 0 <= g1 < g2 < gs.len() implies #[trigger] gs[g1][0] < #[trigger] gs[g2][0] by {
                if g2 < gl {
                    assert(gs[g1] == gs0[g1] && gs[g2] == gs0[g2]);
                } else {
                    assert(gs[g1] == gs0[g1]);
                }
            }
            assert forall|g: int| 0 <= g < gs.len() implies #[trigger] gs[g][0] < start + 1 by {
                if g < gl {
                    assert(gs[g] == gs0[g]);
                }
            }
        }
        start = start + 1;
    }
    proof {
        let gs = group_views(groups@);
        assert(gs.len() == groups@.len());
        assert forall|i: int| 0 <= i < ps.len() implies #[trigger] in_some_group(gs, i) by {
            assert(finished@[i]);
        }
    }
    groups
}

impl Perimeter {
    /// Consider the perimeters as a graph, with adjacency determined by sharing any road in
    /// common that passes the predicate. Partition adjacent perimeters into connected groups.
    /// Each partition should produce a single result with `merge_all`. The predicate is asked
    /// about the roads of the perimeters; a road counts as passing if it ever said so.
    pub fn partition_by_predicate<F: Fn(RoadID) -> bool>(input: Vec<Perimeter>, predicate: F) -> (r:
        Vec<Vec<Perimeter>>)
        requires
            forall|x: RoadID| predicate.requires((x,)),
        ensures
            exists|pass: Set<RoadID>, groups: Seq<Seq<usize>>|
                {
                    &&& is_components(views(input@), pass, groups)
                    &&& forall|x: RoadID| #[trigger] pass.contains(x) ==> predicate.ensures((x,), true)
                    &&& forall|x: RoadID, i: int|
                        0 <= i < input@.len() && #[trigger] has_road(input@[i].roads@, x) && !pass.contains(x)
                            ==> predicate.ensures((x,), false)
                    &&& r@.len() == groups.len()
                    &&& forall|g: int| 0 <= g < groups.len() ==> #[trigger] r@[g]@.len() == groups[g].len()
                    &&& forall|g: int, a: int|
                        0 <= g < groups.len() && 0 <= a < groups[g].len() ==> #[trigger] r@[g]@[a]@
                            == input@[groups[g][a] as int]@
                },
            all_wf(input@) ==> forall|g: int| 0 <= g < r@.len() ==> all_wf(#[trigger] r@[g]@),
    {
        let mut pass: Vec<RoadID> = Vec::new();
        let mut i: usize = 0;
        while i < input.len()
            invariant
                i <= input@.len(),
                forall|x: RoadID| #[trigger] pass@.contains(x) ==> predicate.ensures((x,), true),
                forall|x: RoadID, k: int|
                    0 <= k < i && #[trigger] has_road(input@[k].roads@, x) && !pass@.contains(x)
                        ==> predicate.ensures((x,), false),
                forall|x: RoadID| predicate.requires((x,)),
            decreases input@.len() - i,
        {
            let roads = &input[i].roads;
            let mut j: usize = 0;
            while j < roads.len()
                invariant
                    j <= roads@.len(),
                    i < input@.len(),
                    roads == input@[i as int].roads,
                    forall|x: RoadID| #[trigger] pass@.contains(x) ==> predicate.ensures((x,), true),
                    forall|x: RoadID, k: int|
                        0 <= k < i && #[trigger] has_road(input@[k].roads@, x) && !pass@.contains(x)
                            ==> predicate.ensures((x,), false),
                    forall|a: int|
                        0 <= a < j && !pass@.contains(#[trigger] roads@[a].road)
                            ==> predicate.ensures((roads@[a].road,), false),
                    forall|x: RoadID| predicate.requires((x,)),
                decreases roads@.len() - j,
            {
                let x = roads[j].road;
                let ok = predicate(x);
                let ghost pass_before = pass@;
                if ok && !crate::perimeter::contains_road(&pass, x) {
                    let ghost p_in = pass@;
                    pass.push(x);
                    proof {
                        assert forall|y: RoadID| p_in.contains(y) implies pass@.contains(y) by {
                            let a = choose|a: int| 0 <= a < p_in.len() && p_in[a] == y;
                            assert(pass@[a] == y);
                        }
                        assert forall|y: RoadID| #[trigger] pass@.contains(y) implies predicate.ensures((y,), true) by {
                            let a = choose|a: int| 0 <= a < pass@.len() && pass@[a] == y;
                            if a < p_in.len() {
                                assert(p_in[a] == y);
                                assert(p_in.contains(y));
                            } else {
                                assert(pass@[a] == x);
                                assert(predicate.ensures((x,), ok));
                            }
                        }
                    }
                }
                proof {
                    assert(roads@[j as int].road == x);
                    assert forall|y: RoadID| pass_before.contains(y) implies pass@.contains(y) by {
                        let a = choose|a: int| 0 <= a < pass_before.len() && pass_before[a] == y;
                        assert(pass@[a] == y);
                    }
                    if ok {
                        assert(pass@.contains(x)) by {
                            if pass_before.contains(x) {
                            } else {
                                assert(pass@[pass@.len() - 1] == x);
                            }
                        }
                    }
                }
                j = j + 1;
            }
            proof {
                assert forall|x: RoadID, k: int|
                    0 <= k < i + 1 && #[trigger] has_road(input@[k].roads@, x) && !pass@.contains(x)
                        implies predicate.ensures((x,), false) by {
                    if k == i {
                        let a = choose|a: int| 0 <= a < roads@.len() && #[trigger] roads@[a].road == x;
                    }
                }
            }
            i = i + 1;
        }
        let groups = components(&input, &pass);
        let ghost gs = group_views(groups@);
        let mut results: Vec<Vec<Perimeter>> = Vec::new();
        let mut g: usize = 0;
        while g < groups.len()
            invariant
                g <= groups@.len(),
                gs == group_views(groups@),
                is_components(views(input@), pass@.to_set(), gs),
                results@.len() == g,
                forall|h: int| 0 <= h < g ==> #[trigger] results@[h]@.len() == gs[h].len(),
                forall|h: int, a: int|
                    0 <= h < g && 0 <= a < gs[h].len() ==> #[trigger] results@[h]@[a]@
                        == input@[gs[h][a] as int]@,
                all_wf(input@) ==> forall|h: int| 0 <= h < g ==> all_wf(#[trigger] results@[h]@),
            decreases groups@.len() - g,
        {
            let indices = &groups[g];
            proof {
                assert(indices@ == gs[g as int]);
            }
            let mut partition: Vec<Perimeter> = Vec::new();
            let mut a: usize = 0;
            while a < indices.len()
                invariant
                    a <= indices@.len(),
                    indices@ == gs[g as int],
                    g < gs.len(),
                    is_components(views(input@), pass@.to_set(), gs),
                    partition@.len() == a,
                    forall|b: int| 0 <= b < a ==> #[trigger] partition@[b]@ == input@[indices@[b] as int]@,
                    all_wf(input@) ==> all_wf(partition@),
                decreases indices@.len() - a,
            {
                proof {
                    assert(gs[g as int][a as int] < views(input@).len());
                }
                let p = input[indices[a]].duplicate();
                partition.push(p);
                proof {
                    assert(partition@[a as int] == p);
                }
                a = a + 1;
            }
            results.push(partition);
            proof {
                assert(results@[g as int]@ == partition@);
            }
            g = g + 1;
        }
        proof {
            let s = pass@.to_set();
            assert forall|x: RoadID| #[trigger] s.contains(x) implies predicate.ensures((x,), true) by {
                assert(pass@.contains(x));
            }
            assert forall|x: RoadID, k: int|
                0 <= k < input@.len() && #[trigger] has_road(input@[k].roads@, x) && !s.contains(x)
                    implies predicate.ensures((x,), false) by {
                assert(!pass@.contains(x));
            }
        }
        results
    }
}

} // verus!
