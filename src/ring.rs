//! Mathematical model of a loop of road sides: a ring is the loop without its repeated closing
//! element. Rotation, dead-end folding and the search for a merge seam are stated here.
use crate::road::{RoadID, RoadSideID, SideOfRoad};
use vstd::prelude::*;

verus! {

/// Index of the element before `k`, wrapping around the ring.
pub open spec fn prev(s: Seq<RoadSideID>, k: int) -> int {
    if k == 0 {
        s.len() - 1
    } else {
        k - 1
    }
}

/// Some side of road `r` appears in `s`.
pub open spec fn has_road(s: Seq<RoadSideID>, r: RoadID) -> bool {
    exists|i: int| 0 <= i < s.len() && #[trigger] s[i].road == r
}

/// Cyclic rotation of `s` to the left by `k` places.
pub open spec fn rotate(s: Seq<RoadSideID>, k: int) -> Seq<RoadSideID> {
    s.subrange(k, s.len() as int) + s.subrange(0, k)
}

/// The closed form of a ring: its first element repeated at the end.
pub open spec fn close(s: Seq<RoadSideID>) -> Seq<RoadSideID> {
    s.push(s[0])
}

/// A closed loop: at least one step, first element equal to the last.
pub open spec fn is_closed(s: Seq<RoadSideID>) -> bool {
    s.len() >= 2 && s[0] == s.last()
}

/// The least `j >= k` at which the road changes from the previous element (cyclically), or 0
/// when there is none.
pub open spec fn seam_from(s: Seq<RoadSideID>, k: int) -> int
    decreases s.len() - k,
{
    if k < 0 || k >= s.len() {
        0
    } else if s[k].road != s[prev(s, k)].road {
        k
    } else {
        seam_from(s, k + 1)
    }
}

/// Folds each side that follows a side of the same road: both leave the loop. Scans left to
/// right with a stack.
pub open spec fn fold_stack(s: Seq<RoadSideID>) -> Seq<RoadSideID>
    decreases s.len(),
{
    if s.len() == 0 {
        s
    } else {
        let st = fold_stack(s.drop_last());
        if st.len() > 0 && st.last().road == s.last().road {
            st.drop_last()
        } else {
            st.push(s.last())
        }
    }
}

/// The roads that `fold_stack` folds away, in order.
pub open spec fn folded(s: Seq<RoadSideID>) -> Seq<RoadID>
    decreases s.len(),
{
    if s.len() == 0 {
        Seq::empty()
    } else {
        let st = fold_stack(s.drop_last());
        let f = folded(s.drop_last());
        if st.len() > 0 && st.last().road == s.last().road {
            f.push(s.last().road)
        } else {
            f
        }
    }
}

/// The distinct roads of `a` that also occur in `b`, in order of first occurrence in `a`.
pub open spec fn common_roads(a: Seq<RoadSideID>, b: Seq<RoadSideID>) -> Seq<RoadID>
    decreases a.len(),
{
    if a.len() == 0 {
        Seq::empty()
    } else {
        let c = common_roads(a.drop_last(), b);
        let r = a.last().road;
        if has_road(b, r) && !c.contains(r) {
            c.push(r)
        } else {
            c
        }
    }
}

/// The least `j >= k` where a run of common roads ends just before `j` (cyclically), or 0 when
/// there is none. Rotating there puts a run of common roads at the end of the ring.
pub open spec fn tail_from(s: Seq<RoadSideID>, common: Seq<RoadID>, k: int) -> int
    decreases s.len() - k,
{
    if k < 0 || k >= s.len() {
        0
    } else if !common.contains(s[k].road) && common.contains(s[prev(s, k)].road) {
        k
    } else {
        tail_from(s, common, k + 1)
    }
}

/// The last `n` elements of `s` (all of it, if shorter) lie on common roads.
pub open spec fn tail_in(s: Seq<RoadSideID>, common: Seq<RoadID>, n: int) -> bool {
    forall|i: int| s.len() - n <= i < s.len() && 0 <= i ==> common.contains(#[trigger] s[i].road)
}

pub proof fn lemma_seam_range(s: Seq<RoadSideID>, k: int)
    ensures
        s.len() > 0 ==> 0 <= seam_from(s, k) < s.len(),
        s.len() == 0 ==> seam_from(s, k) == 0,
    decreases s.len() - k,
{
    if 0 <= k < s.len() && s[k].road == s[prev(s, k)].road {
        lemma_seam_range(s, k + 1);
    }
}

pub proof fn lemma_tail_range(s: Seq<RoadSideID>, common: Seq<RoadID>, k: int)
    ensures
        s.len() > 0 ==> 0 <= tail_from(s, common, k) < s.len(),
        s.len() == 0 ==> tail_from(s, common, k) == 0,
    decreases s.len() - k,
{
    if 0 <= k < s.len() && !(!common.contains(s[k].road) && common.contains(
        s[prev(s, k)].road,
    )) {
        lemma_tail_range(s, common, k + 1);
    }
}

pub proof fn lemma_rotate_has_road(s: Seq<RoadSideID>, k: int, r: RoadID)
    requires
        0 <= k <= s.len(),
    ensures
        rotate(s, k).len() == s.len(),
        has_road(rotate(s, k), r) == has_road(s, r),
{
    let t = rotate(s, k);
    let n = s.len();
    if has_road(s, r) {
        let i = choose|i: int| 0 <= i < s.len() && #[trigger] s[i].road == r;
        if i >= k {
            assert(t[i - k].road == r);
        } else {
            assert(t[n - k + i].road == r);
        }
    }
    if has_road(t, r) {
        let j = choose|j: int| 0 <= j < t.len() && #[trigger] t[j].road == r;
        if j < n - k {
            assert(s[j + k].road == r);
        } else {
            assert(s[j - (n - k)].road == r);
        }
    }
}

pub proof fn lemma_close_has_road(s: Seq<RoadSideID>, r: RoadID)
    requires
        s.len() > 0,
    ensures
        has_road(close(s), r) == has_road(s, r),
{
    let t = close(s);
    if has_road(t, r) {
        let j = choose|j: int| 0 <= j < t.len() && #[trigger] t[j].road == r;
        if j == s.len() {
            assert(s[0].road == r);
        } else {
            assert(s[j].road == r);
        }
    }
    if has_road(s, r) {
        let i = choose|i: int| 0 <= i < s.len() && #[trigger] s[i].road == r;
        assert(t[i].road == r);
    }
}

pub proof fn lemma_closed_has_road(s: Seq<RoadSideID>, r: RoadID)
    requires
        is_closed(s),
    ensures
        has_road(s, r) == has_road(s.drop_last(), r),
{
    assert(close(s.drop_last()) =~= s);
    lemma_close_has_road(s.drop_last(), r);
}

/// What the fold keeps or folds away is exactly what was there.
pub proof fn lemma_fold_keeps_roads(s: Seq<RoadSideID>, r: RoadID)
    ensures
        has_road(s, r) <==> (has_road(fold_stack(s), r) || folded(s).contains(r)),
    decreases s.len(),
{
    if s.len() == 0 {
        assert(!folded(s).contains(r));
    } else {
        let p = s.drop_last();
        let e = s.last();
        assert(s =~= p.push(e));
        let st = fold_stack(p);
        lemma_fold_keeps_roads(p, r);
        lemma_has_road_push(p, e, r);
        if st.len() > 0 && st.last().road == e.road {
            assert(st =~= st.drop_last().push(st.last()));
            lemma_has_road_push(st.drop_last(), st.last(), r);
            assert(folded(s) == folded(p).push(e.road));
            vstd::seq_lib::lemma_seq_contains_after_push(folded(p), e.road, r);
            assert(fold_stack(s) == st.drop_last());
        } else {
            lemma_has_road_push(st, e, r);
            assert(fold_stack(s) == st.push(e));
            assert(folded(s) == folded(p));
        }
    }
}

pub proof fn lemma_has_road_push(s: Seq<RoadSideID>, e: RoadSideID, r: RoadID)
    ensures
        has_road(s.push(e), r) <==> (has_road(s, r) || e.road == r),
{
    let t = s.push(e);
    if has_road(s, r) {
        let i = choose|i: int| 0 <= i < s.len() && #[trigger] s[i].road == r;
        assert(t[i].road == r);
    }
    if e.road == r {
        assert(t[s.len() as int].road == r);
    }
    if has_road(t, r) {
        let j = choose|j: int| 0 <= j < t.len() && #[trigger] t[j].road == r;
        if j < s.len() {
            assert(s[j].road == r);
        }
    }
}

pub proof fn lemma_has_road_concat(a: Seq<RoadSideID>, b: Seq<RoadSideID>, r: RoadID)
    ensures
        has_road(a + b, r) <==> (has_road(a, r) || has_road(b, r)),
{
    let t = a + b;
    if has_road(a, r) {
        let i = choose|i: int| 0 <= i < a.len() && #[trigger] a[i].road == r;
        assert(t[i].road == r);
    }
    if has_road(b, r) {
        let i = choose|i: int| 0 <= i < b.len() && #[trigger] b[i].road == r;
        assert(t[a.len() + i].road == r);
    }
    if has_road(t, r) {
        let j = choose|j: int| 0 <= j < t.len() && #[trigger] t[j].road == r;
        if j < a.len() {
            assert(a[j].road == r);
        } else {
            assert(b[j - a.len()].road == r);
        }
    }
}

} // verus!

verus! {

/// The roads of the sides of `s`, in order.
pub open spec fn roads_of(s: Seq<RoadSideID>) -> Seq<RoadID> {
    s.map_values(|x: RoadSideID| x.road)
}

/// Every common road is a road of both rings, and each is listed once.
pub proof fn lemma_common_roads(a: Seq<RoadSideID>, b: Seq<RoadSideID>)
    ensures
        common_roads(a, b).no_duplicates(),
        common_roads(a, b).len() <= a.len(),
        forall|r: RoadID|
            #[trigger] common_roads(a, b).contains(r) <==> (has_road(a, r) && has_road(b, r)),
    decreases a.len(),
{
    if a.len() > 0 {
        let p = a.drop_last();
        let e = a.last();
        lemma_common_roads(p, b);
        assert(a =~= p.push(e));
        let c = common_roads(p, b);
        assert forall|r: RoadID| #[trigger]
            common_roads(a, b).contains(r) <==> (has_road(a, r) && has_road(b, r)) by {
            lemma_has_road_push(p, e, r);
            vstd::seq_lib::lemma_seq_contains_after_push(c, e.road, r);
        }
        if has_road(b, e.road) && !c.contains(e.road) {
            assert forall|i: int, j: int|
                0 <= i < j < c.push(e.road).len() implies c.push(e.road)[i] != c.push(e.road)[j] by {
                if j == c.len() {
                    assert(c[i] == c.push(e.road)[i]);
                }
            }
        }
    }
}

/// There are no more common roads than sides in the second ring.
pub proof fn lemma_common_roads_len(a: Seq<RoadSideID>, b: Seq<RoadSideID>)
    ensures
        common_roads(a, b).len() <= b.len(),
{
    let c = common_roads(a, b);
    lemma_common_roads(a, b);
    let rb = roads_of(b);
    assert(c.to_set().subset_of(rb.to_set())) by {
        assert forall|r: RoadID| c.to_set().contains(r) implies rb.to_set().contains(r) by {
            assert(c.contains(r));
            let i = choose|i: int| 0 <= i < b.len() && #[trigger] b[i].road == r;
            assert(rb[i] == r);
        }
    }
    c.unique_seq_to_set();
    rb.lemma_cardinality_of_set();
    vstd::seq_lib::seq_to_set_is_finite(rb);
    vstd::set_lib::lemma_len_subset(c.to_set(), rb.to_set());
}

/// Dead ends can be folded on ring `s`: some neighboring sides (cyclically) lie on different
/// roads, so there is a join to rotate to, and folding from there leaves something.
pub open spec fn collapsible(s: Seq<RoadSideID>) -> bool {
    let k = seam_from(s, 0);
    s.len() > 0 && s[k].road != s[prev(s, k)].road && fold_stack(rotate(s, k)).len() > 0
}

/// After folding, no two neighbors lie on the same road.
pub proof fn lemma_fold_no_pairs(s: Seq<RoadSideID>)
    ensures
        forall|i: int|
            0 <= i < fold_stack(s).len() - 1 ==> #[trigger] fold_stack(s)[i].road != fold_stack(
                s,
            )[i + 1].road,
    decreases s.len(),
{
    if s.len() > 0 {
        lemma_fold_no_pairs(s.drop_last());
        let st = fold_stack(s.drop_last());
        if st.len() > 0 && st.last().road == s.last().road {
            assert forall|i: int| 0 <= i < st.drop_last().len() - 1 implies #[trigger] st.drop_last()[i].road
                != st.drop_last()[i + 1].road by {
                assert(st.drop_last()[i] == st[i] && st.drop_last()[i + 1] == st[i + 1]);
            }
        } else {
            let t = st.push(s.last());
            assert forall|i: int| 0 <= i < t.len() - 1 implies #[trigger] t[i].road != t[i + 1].road by {
                assert(t[i] == st[i]);
                if i + 1 < st.len() {
                    assert(t[i + 1] == st[i + 1]);
                }
            }
        }
    }
}

/// Both sides of road `r` occur in `s`.
pub open spec fn both_sides_in(s: Seq<RoadSideID>, r: RoadID) -> bool {
    s.contains(RoadSideID { road: r, side: SideOfRoad::Left }) && s.contains(
        RoadSideID { road: r, side: SideOfRoad::Right },
    )
}

/// On a ring without repeated sides, folding keeps sides distinct, uses both sides of every
/// road it folds away, and leaves no side of such a road behind.
pub proof fn lemma_fold_apart(s: Seq<RoadSideID>)
    requires
        s.no_duplicates(),
    ensures
        fold_stack(s).no_duplicates(),
        forall|x: RoadSideID| #[trigger] fold_stack(s).contains(x) ==> s.contains(x),
        forall|r: RoadID| #[trigger] folded(s).contains(r) ==> both_sides_in(s, r),
        forall|r: RoadID| #[trigger] has_road(fold_stack(s), r) ==> !folded(s).contains(r),
    decreases s.len(),
{
    if s.len() > 0 {
        let p = s.drop_last();
        let x = s.last();
        assert(s =~= p.push(x));
        assert(p.no_duplicates()) by {
            assert forall|i: int, j: int| 0 <= i < j < p.len() implies p[i] != p[j] by {
                assert(p[i] == s[i] && p[j] == s[j]);
            }
        }
        lemma_fold_apart(p);
        let st = fold_stack(p);
        assert(!p.contains(x)) by {
            if p.contains(x) {
                let i = choose|i: int| 0 <= i < p.len() && p[i] == x;
                assert(s[i] == s[s.len() - 1]);
            }
        }
        assert forall|y: RoadSideID| p.contains(y) implies s.contains(y) by {
            let i = choose|i: int| 0 <= i < p.len() && p[i] == y;
            assert(s[i] == y);
        }
        assert(s.contains(x)) by {
            assert(s[s.len() - 1] == x);
        }
        if st.len() > 0 && st.last().road == x.road {
            let top = st.last();
            let t = st.drop_last();
            assert(st =~= t.push(top));
            assert(st.contains(top)) by {
                assert(st[st.len() - 1] == top);
            }
            assert(p.contains(top));
            assert(top != x);
            assert(fold_stack(s) == t);
            assert(folded(s) == folded(p).push(x.road));
            assert(t.no_duplicates()) by {
                assert forall|i: int, j: int| 0 <= i < j < t.len() implies t[i] != t[j] by {
                    assert(t[i] == st[i] && t[j] == st[j]);
                }
            }
            assert forall|y: RoadSideID| #[trigger] t.contains(y) implies s.contains(y) by {
                let i = choose|i: int| 0 <= i < t.len() && t[i] == y;
                assert(st[i] == y);
                assert(st.contains(y));
            }
            assert forall|r: RoadID| #[trigger] folded(s).contains(r) implies both_sides_in(s, r) by {
                vstd::seq_lib::lemma_seq_contains_after_push(folded(p), x.road, r);
                if r == x.road {
                    if top.side == SideOfRoad::Left {
                        assert(x.side == SideOfRoad::Right);
                    } else {
                        assert(x.side == SideOfRoad::Left);
                    }
                }
            }
            assert forall|r: RoadID| #[trigger] has_road(t, r) implies !folded(s).contains(r) by {
                let i = choose|i: int| 0 <= i < t.len() && #[trigger] t[i].road == r;
                let e = t[i];
                assert(st[i] == e);
                assert(has_road(st, r));
                assert(e != top) by {
                    assert(st[st.len() - 1] == top);
                }
                assert(st.contains(e));
                assert(p.contains(e));
                assert(e != x);
                if r == x.road {
                    assert(false) by {
                        if e.side == SideOfRoad::Left {
                            if top.side == SideOfRoad::Left {
                                assert(e == top);
                            } else {
                                assert(x.side == SideOfRoad::Left || x.side == SideOfRoad::Right);
                            }
                        } else {
                            if top.side == SideOfRoad::Right {
                                assert(e == top);
                            }
                        }
                    }
                }
                vstd::seq_lib::lemma_seq_contains_after_push(folded(p), x.road, r);
            }
        } else {
            let t = st.push(x);
            assert(fold_stack(s) == t);
            assert(folded(s) == folded(p));
            assert(!st.contains(x));
            assert(t.no_duplicates()) by {
                assert forall|i: int, j: int| 0 <= i < j < t.len() implies t[i] != t[j] by {
                    if j == st.len() {
                        assert(st.contains(st[i]));
                    } else {
                        assert(t[i] == st[i] && t[j] == st[j]);
                    }
                }
            }
            assert forall|y: RoadSideID| #[trigger] t.contains(y) implies s.contains(y) by {
                vstd::seq_lib::lemma_seq_contains_after_push(st, x, y);
            }
            assert forall|r: RoadID| #[trigger] has_road(t, r) implies !folded(s).contains(r) by {
                lemma_has_road_push(st, x, r);
                if r == x.road && folded(p).contains(r) {
                    assert(both_sides_in(p, r));
                    if x.side == SideOfRoad::Left {
                        assert(x == (RoadSideID { road: r, side: SideOfRoad::Left }));
                    } else {
                        assert(x == (RoadSideID { road: r, side: SideOfRoad::Right }));
                    }
                }
            }
        }
    }
}

/// Rotating a ring keeps its sides distinct.
pub proof fn lemma_rotate_no_dup(s: Seq<RoadSideID>, k: int)
    requires
        s.no_duplicates(),
        0 <= k <= s.len(),
    ensures
        rotate(s, k).no_duplicates(),
{
    let t = rotate(s, k);
    let n = s.len();
    assert forall|i: int, j: int| 0 <= i < j < t.len() implies t[i] != t[j] by {
        let si = if i < n - k { i + k } else { i - (n - k) };
        let sj = if j < n - k { j + k } else { j - (n - k) };
        assert(t[i] == s[si] && t[j] == s[sj]);
        assert(si != sj);
    }
}

/// With no two neighbors on one road, folding changes nothing.
pub proof fn lemma_fold_without_pairs(s: Seq<RoadSideID>)
    requires
        forall|k: int| 0 <= k < s.len() - 1 ==> #[trigger] s[k].road != s[k + 1].road,
    ensures
        fold_stack(s) == s,
        folded(s) == Seq::<RoadID>::empty(),
    decreases s.len(),
{
    if s.len() > 0 {
        let p = s.drop_last();
        assert forall|k: int| 0 <= k < p.len() - 1 implies #[trigger] p[k].road != p[k + 1].road by {
            assert(p[k] == s[k] && p[k + 1] == s[k + 1]);
        }
        lemma_fold_without_pairs(p);
        if p.len() > 0 {
            assert(s[p.len() - 1].road != s[p.len() as int].road);
        }
        assert(p.push(s.last()) =~= s);
    }
}

/// Folding a ring whose only neighbors on one road are at `i` and `i + 1`, and whose sides
/// around that pair lie on different roads: exactly that pair leaves, and its road is folded.
pub proof fn lemma_fold_one_stub(s: Seq<RoadSideID>, i: int, k: int)
    requires
        0 <= i,
        i + 2 <= k <= s.len(),
        s[i].road == s[i + 1].road,
        forall|j: int| 0 <= j < s.len() - 1 && j != i ==> #[trigger] s[j].road != s[j + 1].road,
        i >= 1 && i + 2 < s.len() ==> s[i - 1].road != s[i + 2].road,
    ensures
        fold_stack(s.take(k)) == s.take(i) + s.subrange(i + 2, k),
        folded(s.take(k)) == seq![s[i].road],
    decreases k,
{
    let t = s.take(k);
    assert(t.drop_last() =~= s.take(k - 1));
    if k == i + 2 {
        let u = s.take(i + 1);
        assert forall|j: int| 0 <= j < u.len() - 1 implies #[trigger] u[j].road != u[j + 1].road by {
            assert(u[j] == s[j] && u[j + 1] == s[j + 1]);
        }
        lemma_fold_without_pairs(u);
        assert(u.drop_last() =~= s.take(i));
        assert(s.take(i) + s.subrange(i + 2, k) =~= s.take(i));
    } else {
        lemma_fold_one_stub(s, i, k - 1);
        let w = s.take(i) + s.subrange(i + 2, k - 1);
        if w.len() > 0 {
            if k - 1 > i + 1 + 1 {
                assert(w.last() == s[k - 2]);
                assert(s[k - 2].road != s[k - 1].road);
            } else {
                assert(w.last() == s[i - 1]);
            }
        }
        assert(w.push(s[k - 1]) =~= s.take(i) + s.subrange(i + 2, k));
    }
}

} // verus!
