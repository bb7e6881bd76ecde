//! What folding and merging keep: no road is lost or invented, each merged perimeter holds the
//! roads of the group of inputs it came from, and interior roads stay off the boundary.
use crate::perimeter::{
    collapse_model, merge_all_model, merge_model, pass_model, place_model, rounds_model,
    PerimeterModel,
};
use crate::ring::{
    close, common_roads, fold_stack, folded, has_road, is_closed, lemma_close_has_road,
    lemma_closed_has_road, lemma_common_roads, lemma_common_roads_len, lemma_fold_apart,
    lemma_fold_keeps_roads, lemma_fold_one_stub, lemma_has_road_concat, lemma_rotate_has_road,
    lemma_rotate_no_dup, lemma_seam_range, lemma_tail_range, rotate, seam_from, tail_from,
    tail_in,
};
use crate::road::{RoadID, RoadSideID};
use vstd::prelude::*;

verus! {

/// Some perimeter of `ps` holds road `r`, on its boundary or inside.
pub open spec fn covers(ps: Seq<PerimeterModel>, r: RoadID) -> bool {
    exists|i: int| 0 <= i < ps.len() && #[trigger] ps[i].holds_road(r)
}

/// Every perimeter of `ps` is a closed loop.
pub open spec fn all_closed(ps: Seq<PerimeterModel>) -> bool {
    forall|i: int| 0 <= i < ps.len() ==> is_closed(#[trigger] ps[i].roads)
}

proof fn lemma_covers_push(ps: Seq<PerimeterModel>, x: PerimeterModel, r: RoadID)
    ensures
        covers(ps.push(x), r) <==> (covers(ps, r) || x.holds_road(r)),
{
    let t = ps.push(x);
    if covers(ps, r) {
        let i = choose|i: int| 0 <= i < ps.len() && #[trigger] ps[i].holds_road(r);
        assert(t[i].holds_road(r));
    }
    if x.holds_road(r) {
        assert(t[ps.len() as int].holds_road(r));
    }
    if covers(t, r) {
        let i = choose|i: int| 0 <= i < t.len() && #[trigger] t[i].holds_road(r);
        if i < ps.len() {
            assert(ps[i].holds_road(r));
        }
    }
}

proof fn lemma_covers_update(ps: Seq<PerimeterModel>, j: int, x: PerimeterModel, r: RoadID)
    requires
        0 <= j < ps.len(),
    ensures
        (covers(ps.update(j, x), r) || ps[j].holds_road(r)) <==> (covers(ps, r) || x.holds_road(
            r,
        )),
        x.holds_road(r) ==> covers(ps.update(j, x), r),
        ps[j].holds_road(r) ==> covers(ps, r),
{
    let t = ps.update(j, x);
    assert(t[j] == x);
    if covers(ps, r) {
        let i = choose|i: int| 0 <= i < ps.len() && #[trigger] ps[i].holds_road(r);
        if i != j {
            assert(t[i].holds_road(r));
        }
    }
    if covers(t, r) {
        let i = choose|i: int| 0 <= i < t.len() && #[trigger] t[i].holds_road(r);
        if i != j {
            assert(ps[i].holds_road(r));
        }
    }
}

/// Folding dead ends keeps a loop closed and moves roads only from the boundary to the inside.
pub proof fn lemma_collapse_keeps_roads(p: PerimeterModel, r: RoadID)
    requires
        is_closed(p.roads),
        p.collapsible(),
    ensures
        is_closed(collapse_model(p).roads),
        collapse_model(p).holds_road(r) == p.holds_road(r),
{
    let ring = p.ring();
    lemma_seam_range(ring, 0);
    let s = rotate(ring, seam_from(ring, 0));
    let f = fold_stack(s);
    lemma_rotate_has_road(ring, seam_from(ring, 0), r);
    lemma_closed_has_road(p.roads, r);
    if f.len() > 0 {
        lemma_fold_keeps_roads(s, r);
        lemma_close_has_road(f, r);
        assert(folded(s).to_set().contains(r) == folded(s).contains(r));
    }
}

proof fn lemma_tail_split(s: Seq<crate::road::RoadSideID>, n: int, r: RoadID)
    requires
        0 <= n <= s.len(),
    ensures
        has_road(s, r) <==> (has_road(s.take(n), r) || has_road(s.skip(n), r)),
{
    assert(s =~= s.take(n) + s.skip(n));
    lemma_has_road_concat(s.take(n), s.skip(n), r);
}

/// A merge attempt keeps both loops closed (the second one only where it failed), and the
/// roads of the two perimeters together stay the same.
pub proof fn lemma_merge_keeps_roads(a: PerimeterModel, b: PerimeterModel, r: RoadID)
    requires
        is_closed(a.roads),
        is_closed(b.roads),
    ensures
        is_closed(merge_model(a, b).0.roads),
        !merge_model(a, b).2 ==> is_closed(merge_model(a, b).1.roads),
        merge_model(a, b).2 ==> !merge_model(a, b).1.holds_road(r),
        !merge_model(a, b).2 ==> merge_model(a, b).0.holds_road(r) == a.holds_road(r)
            && merge_model(a, b).1.holds_road(r) == b.holds_road(r),
        (merge_model(a, b).0.holds_road(r) || merge_model(a, b).1.holds_road(r)) <==> (
        a.holds_road(r) || b.holds_road(r)),
{
    let sa = a.ring();
    let sb = b.ring();
    let common = common_roads(sa, sb);
    let c = common.len() as int;
    lemma_closed_has_road(a.roads, r);
    lemma_closed_has_road(b.roads, r);
    if c > 0 {
        lemma_common_roads(sa, sb);
        lemma_common_roads_len(sa, sb);
        lemma_tail_range(sa, common, 0);
        lemma_tail_range(sb, common, 0);
        let ra = rotate(sa, tail_from(sa, common, 0));
        let rb = rotate(sb, tail_from(sb, common, 0));
        lemma_rotate_has_road(sa, tail_from(sa, common, 0), r);
        lemma_rotate_has_road(sb, tail_from(sb, common, 0), r);
        lemma_close_has_road(ra, r);
        lemma_close_has_road(rb, r);
        let m = merge_model(a, b);
        if m.2 {
            let ta = ra.take(ra.len() - c);
            let tb = rb.take(rb.len() - c);
            let mm = ta + tb;
            let merged = PerimeterModel {
                roads: close(mm),
                interior: a.interior + common.to_set() + b.interior,
            };
            lemma_close_has_road(mm, r);
            lemma_has_road_concat(ta, tb, r);
            lemma_tail_split(ra, ra.len() - c, r);
            lemma_tail_split(rb, rb.len() - c, r);
            if has_road(ra.skip(ra.len() - c), r) {
                let i = choose|i: int|
                    0 <= i < ra.skip(ra.len() - c).len() && #[trigger] ra.skip(
                        ra.len() - c,
                    )[i].road == r;
                assert(ra[ra.len() - c + i].road == r);
                assert(common.contains(r));
            }
            if has_road(rb.skip(rb.len() - c), r) {
                let i = choose|i: int|
                    0 <= i < rb.skip(rb.len() - c).len() && #[trigger] rb.skip(
                        rb.len() - c,
                    )[i].road == r;
                assert(rb[rb.len() - c + i].road == r);
                assert(common.contains(r));
            }
            assert(common.to_set().contains(r) == common.contains(r));
            assert(close(mm).drop_last() =~= mm);
            lemma_collapse_keeps_roads(merged, r);
            assert(!has_road(Seq::<crate::road::RoadSideID>::empty(), r));
        }
    }
}

proof fn lemma_place_keeps_roads(
    results: Seq<PerimeterModel>,
    p: PerimeterModel,
    j: int,
    r: RoadID,
)
    requires
        all_closed(results),
        is_closed(p.roads),
        0 <= j,
    ensures
        all_closed(place_model(results, p, j).0),
        covers(place_model(results, p, j).0, r) <==> (covers(results, r) || p.holds_road(r)),
    decreases results.len() - j,
{
    if j >= results.len() {
        lemma_covers_push(results, p, r);
        assert(all_closed(results.push(p))) by {
            assert forall|i: int| 0 <= i < results.push(p).len() implies is_closed(
                #[trigger] results.push(p)[i].roads,
            ) by {
                if i < results.len() {
                    assert(results.push(p)[i] == results[i]);
                }
            }
        }
    } else {
        let m = merge_model(results[j], p);
        lemma_merge_keeps_roads(results[j], p, r);
        let u = results.update(j, m.0);
        assert(all_closed(u)) by {
            assert forall|i: int| 0 <= i < u.len() implies is_closed(#[trigger] u[i].roads) by {
                if i != j {
                    assert(u[i] == results[i]);
                }
            }
        }
        lemma_covers_update(results, j, m.0, r);
        if !m.2 {
            lemma_place_keeps_roads(u, m.1, j + 1, r);
        }
    }
}

proof fn lemma_pass_keeps_roads(input: Seq<PerimeterModel>, stepwise: bool, r: RoadID)
    requires
        all_closed(input),
    ensures
        all_closed(pass_model(input, stepwise).0),
        covers(pass_model(input, stepwise).0, r) <==> covers(input, r),
    decreases input.len(),
{
    if input.len() > 0 {
        let init = input.drop_last();
        let x = input.last();
        assert(input =~= init.push(x));
        assert(all_closed(init)) by {
            assert forall|i: int| 0 <= i < init.len() implies is_closed(
                #[trigger] init[i].roads,
            ) by {
                assert(init[i] == input[i]);
            }
        }
        assert(is_closed(x.roads));
        lemma_pass_keeps_roads(init, stepwise, r);
        lemma_covers_push(init, x, r);
        let prior = pass_model(init, stepwise);
        if prior.1 {
            lemma_place_keeps_roads(prior.0, x, prior.0.len() as int, r);
        } else {
            lemma_place_keeps_roads(prior.0, x, 0, r);
        }
    } else {
        assert(!covers(pass_model(input, stepwise).0, r));
    }
}

proof fn lemma_rounds_keep_roads(input: Seq<PerimeterModel>, stepwise: bool, r: RoadID)
    requires
        all_closed(input),
    ensures
        all_closed(rounds_model(input, stepwise)),
        covers(rounds_model(input, stepwise), r) <==> covers(input, r),
    decreases input.len(),
{
    lemma_pass_keeps_roads(input, stepwise, r);
    let results = pass_model(input, stepwise).0;
    if results.len() > 1 && results.len() < input.len() && !stepwise {
        lemma_rounds_keep_roads(results, stepwise, r);
    }
}

/// Merging all perimeters neither drops nor invents a road: a road lies on the boundary of or
/// inside some output perimeter exactly when it does so for some input perimeter.
pub proof fn lemma_merge_all_keeps_roads(input: Seq<PerimeterModel>, stepwise: bool, r: RoadID)
    requires
        all_closed(input),
        forall|i: int| 0 <= i < input.len() ==> (#[trigger] input[i]).collapsible(),
    ensures
        covers(merge_all_model(input, stepwise), r) <==> covers(input, r),
        all_closed(merge_all_model(input, stepwise)),
{
    let collapsed = input.map_values(|p: PerimeterModel| collapse_model(p));
    assert forall|i: int| 0 <= i < collapsed.len() implies is_closed(
        #[trigger] collapsed[i].roads,
    ) && (collapsed[i].holds_road(r) == input[i].holds_road(r)) by {
        lemma_collapse_keeps_roads(input[i], r);
    }
    if covers(input, r) {
        let i = choose|i: int| 0 <= i < input.len() && #[trigger] input[i].holds_road(r);
        assert(collapsed[i].holds_road(r));
    }
    if covers(collapsed, r) {
        let i = choose|i: int| 0 <= i < collapsed.len() && #[trigger] collapsed[i].holds_road(r);
        assert(input[i].holds_road(r));
    }
    lemma_rounds_keep_roads(collapsed, stepwise, r);
}

/// Two perimeters that share no road never merge, and both are left exactly as they were.
pub proof fn lemma_disjoint_merge_fails(a: PerimeterModel, b: PerimeterModel)
    requires
        is_closed(a.roads),
        is_closed(b.roads),
        forall|r: RoadID| !(#[trigger] has_road(a.roads, r) && has_road(b.roads, r)),
    ensures
        merge_model(a, b) == (a, b, false),
{
    let sa = a.ring();
    let sb = b.ring();
    lemma_common_roads(sa, sb);
    let common = common_roads(sa, sb);
    if common.len() > 0 {
        let r = common[0];
        assert(common.contains(r));
        lemma_closed_has_road(a.roads, r);
        lemma_closed_has_road(b.roads, r);
    }
}

/// No interior road of `p` lies on its boundary.
pub open spec fn interior_apart(p: PerimeterModel) -> bool {
    forall|r: RoadID| #[trigger] p.interior.contains(r) ==> !has_road(p.roads, r)
}

/// Folding the dead ends of a loop that passes no road side twice keeps interior roads off the
/// boundary, and the folded loop still passes no side twice.
pub proof fn lemma_collapse_keeps_interior_apart(p: PerimeterModel)
    requires
        is_closed(p.roads),
        p.collapsible(),
        p.ring().no_duplicates(),
        interior_apart(p),
    ensures
        interior_apart(collapse_model(p)),
        collapse_model(p).ring().no_duplicates(),
{
    let ring = p.ring();
    let k = seam_from(ring, 0);
    lemma_seam_range(ring, 0);
    let s = rotate(ring, k);
    lemma_rotate_no_dup(ring, k);
    lemma_fold_apart(s);
    let f = fold_stack(s);
    let q = collapse_model(p);
    assert(q.ring() =~= f);
    assert forall|r: RoadID| #[trigger] q.interior.contains(r) implies !has_road(q.roads, r) by {
        lemma_close_has_road(f, r);
        lemma_fold_keeps_roads(s, r);
        lemma_rotate_has_road(ring, k, r);
        lemma_closed_has_road(p.roads, r);
        assert(folded(s).to_set().contains(r) == folded(s).contains(r));
    }
}

proof fn lemma_rotate_contains(s: Seq<RoadSideID>, k: int, x: RoadSideID)
    requires
        0 <= k <= s.len(),
    ensures
        rotate(s, k).contains(x) == s.contains(x),
{
    let t = rotate(s, k);
    let n = s.len();
    if s.contains(x) {
        let i = choose|i: int| 0 <= i < n && s[i] == x;
        if i >= k {
            assert(t[i - k] == x);
        } else {
            assert(t[n - k + i] == x);
        }
    }
    if t.contains(x) {
        let j = choose|j: int| 0 <= j < t.len() && t[j] == x;
        if j < n - k {
            assert(s[j + k] == x);
        } else {
            assert(s[j - (n - k)] == x);
        }
    }
}

/// Two different sides of one road of `a` use up that road: `b`, which shares no side with
/// `a`, has no side of it.
proof fn lemma_one_side(a: Seq<RoadSideID>, b: Seq<RoadSideID>, i: int, j: int)
    requires
        a.no_duplicates(),
        forall|x: RoadSideID| #[trigger] a.contains(x) ==> !b.contains(x),
        0 <= i < a.len(),
        0 <= j < a.len(),
        i != j,
        a[i].road == a[j].road,
    ensures
        !has_road(b, a[i].road),
{
    if has_road(b, a[i].road) {
        let k = choose|k: int| 0 <= k < b.len() && #[trigger] b[k].road == a[i].road;
        let y = b[k];
        assert(b.contains(y));
        assert(a[i] != a[j]);
        if y.side == a[i].side {
            assert(y == a[i]);
            assert(a.contains(a[i]));
        } else {
            assert(y == a[j]);
            assert(a.contains(a[j]));
        }
    }
}

/// When each common road has a side in `y`, and the last `common.len()` sides of `x` all lie on
/// common roads, no earlier side of `x` does.
proof fn lemma_remainder_off_common(x: Seq<RoadSideID>, y: Seq<RoadSideID>, common: Seq<RoadID>)
    requires
        x.no_duplicates(),
        forall|e: RoadSideID| #[trigger] x.contains(e) ==> !y.contains(e),
        common.no_duplicates(),
        common.len() <= x.len(),
        forall|r: RoadID| #[trigger] common.contains(r) ==> has_road(y, r),
        tail_in(x, common, common.len() as int),
    ensures
        forall|i: int| 0 <= i < x.len() - common.len() ==> !common.contains(#[trigger] x[i].road),
{
    let n = x.len();
    let c = common.len() as int;
    assert forall|i: int| 0 <= i < n - c implies !common.contains(#[trigger] x[i].road) by {
        let r = x[i].road;
        if common.contains(r) {
            let t = x.skip(n - c).map_values(|e: RoadSideID| e.road);
            assert(t.len() == c);
            assert forall|p: int| 0 <= p < c implies #[trigger] t[p] == x[n - c + p].road && common.contains(t[p])
                && t[p] != r by {
                assert(x.skip(n - c)[p] == x[n - c + p]);
                assert(common.contains(x[n - c + p].road));
                if x[n - c + p].road == r {
                    lemma_one_side(x, y, i, n - c + p);
                }
            }
            assert(t.no_duplicates()) by {
                assert forall|p: int, q: int| 0 <= p < q < c implies t[p] != t[q] by {
                    if t[p] == t[q] {
                        lemma_one_side(x, y, n - c + p, n - c + q);
                    }
                }
            }
            t.unique_seq_to_set();
            common.unique_seq_to_set();
            vstd::seq_lib::seq_to_set_is_finite(common);
            let rest = common.to_set().remove(r);
            assert(common.to_set().contains(r));
            assert(rest.len() == c - 1);
            assert(t.to_set().subset_of(rest)) by {
                assert forall|v: RoadID| t.to_set().contains(v) implies rest.contains(v) by {
                    let p = choose|p: int| 0 <= p < t.len() && t[p] == v;
                    assert(common.contains(t[p]));
                }
            }
            vstd::set_lib::lemma_len_subset(t.to_set(), rest);
        }
    }
}

/// Merging two loops that share no road side, and whose interior roads lie on neither boundary,
/// gives a loop whose interior roads are off its boundary and that passes no side twice.
pub proof fn lemma_merge_keeps_interior_apart(a: PerimeterModel, b: PerimeterModel)
    requires
        is_closed(a.roads),
        is_closed(b.roads),
        (a.ring() + b.ring()).no_duplicates(),
        forall|r: RoadID| #[trigger] a.interior.contains(r) ==> !has_road(a.roads, r) && !has_road(b.roads, r),
        forall|r: RoadID| #[trigger] b.interior.contains(r) ==> !has_road(a.roads, r) && !has_road(b.roads, r),
    ensures
        merge_model(a, b).2 ==> interior_apart(merge_model(a, b).0) && merge_model(
            a,
            b,
        ).0.ring().no_duplicates(),
{
    if merge_model(a, b).2 {
        let sa = a.ring();
        let sb = b.ring();
        let ab = sa + sb;
        let common = common_roads(sa, sb);
        let c = common.len() as int;
        lemma_common_roads(sa, sb);
        lemma_common_roads_len(sa, sb);
        assert(sa.no_duplicates()) by {
            assert forall|i: int, j: int| 0 <= i < j < sa.len() implies sa[i] != sa[j] by {
                assert(ab[i] == sa[i] && ab[j] == sa[j]);
            }
        }
        assert(sb.no_duplicates()) by {
            assert forall|i: int, j: int| 0 <= i < j < sb.len() implies sb[i] != sb[j] by {
                assert(ab[sa.len() + i] == sb[i] && ab[sa.len() + j] == sb[j]);
            }
        }
        assert forall|e: RoadSideID| #[trigger] sa.contains(e) implies !sb.contains(e) by {
            if sb.contains(e) {
                let i = choose|i: int| 0 <= i < sa.len() && sa[i] == e;
                let j = choose|j: int| 0 <= j < sb.len() && sb[j] == e;
                assert(ab[i] == ab[sa.len() + j]);
            }
        }
        let ka = tail_from(sa, common, 0);
        let kb = tail_from(sb, common, 0);
        lemma_tail_range(sa, common, 0);
        lemma_tail_range(sb, common, 0);
        let ra = rotate(sa, ka);
        let rb = rotate(sb, kb);
        lemma_rotate_no_dup(sa, ka);
        lemma_rotate_no_dup(sb, kb);
        assert forall|e: RoadSideID| #[trigger] ra.contains(e) implies !rb.contains(e) by {
            lemma_rotate_contains(sa, ka, e);
            lemma_rotate_contains(sb, kb, e);
        }
        assert forall|e: RoadSideID| #[trigger] rb.contains(e) implies !ra.contains(e) by {
            lemma_rotate_contains(sa, ka, e);
            lemma_rotate_contains(sb, kb, e);
        }
        assert forall|r: RoadID| #[trigger] common.contains(r) implies has_road(rb, r) && has_road(ra, r) by {
            lemma_rotate_has_road(sa, ka, r);
            lemma_rotate_has_road(sb, kb, r);
        }
        lemma_remainder_off_common(ra, rb, common);
        lemma_remainder_off_common(rb, ra, common);
        let ta = ra.take(ra.len() - c);
        let tb = rb.take(rb.len() - c);
        let m = ta + tb;
        assert(m.no_duplicates()) by {
            assert forall|i: int, j: int| 0 <= i < j < m.len() implies m[i] != m[j] by {
                if j < ta.len() {
                    assert(m[i] == ra[i] && m[j] == ra[j]);
                } else if i >= ta.len() {
                    assert(m[i] == rb[i - ta.len()] && m[j] == rb[j - ta.len()]);
                } else {
                    assert(m[i] == ra[i] && m[j] == rb[j - ta.len()]);
                    assert(ra.contains(ra[i]));
                    assert(rb.contains(rb[j - ta.len()]));
                }
            }
        }
        let merged = PerimeterModel {
            roads: close(m),
            interior: a.interior + common.to_set() + b.interior,
        };
        assert(merged.ring() =~= m);
        assert forall|r: RoadID| #[trigger] merged.interior.contains(r) implies !has_road(merged.roads, r) by {
            lemma_close_has_road(m, r);
            lemma_has_road_concat(ta, tb, r);
            lemma_tail_split(ra, ra.len() - c, r);
            lemma_tail_split(rb, rb.len() - c, r);
            lemma_rotate_has_road(sa, ka, r);
            lemma_rotate_has_road(sb, kb, r);
            lemma_closed_has_road(a.roads, r);
            lemma_closed_has_road(b.roads, r);
            assert(common.to_set().contains(r) == common.contains(r));
            if common.contains(r) {
                if has_road(ta, r) {
                    let i = choose|i: int| 0 <= i < ta.len() && #[trigger] ta[i].road == r;
                    assert(ra[i].road == r);
                }
                if has_road(tb, r) {
                    let i = choose|i: int| 0 <= i < tb.len() && #[trigger] tb[i].road == r;
                    assert(rb[i].road == r);
                }
            }
        }
        lemma_collapse_keeps_interior_apart(merged);
    }
}

/// Some input went into output `j`.
pub open spec fn received(own: Seq<int>, j: int) -> bool {
    exists|i: int| 0 <= i < own.len() && #[trigger] own[i] == j
}

/// Some input that went into output `j` holds road `r`.
pub open spec fn group_holds(src: Seq<PerimeterModel>, own: Seq<int>, j: int, r: RoadID) -> bool {
    exists|i: int| 0 <= i < src.len() && own[i] == j && #[trigger] src[i].holds_road(r)
}

/// `out` groups `src`: input `i` went into output `own[i]`, every output received some input,
/// and each output holds exactly the roads of the inputs that went into it.
pub open spec fn grouped(src: Seq<PerimeterModel>, out: Seq<PerimeterModel>, own: Seq<int>) -> bool {
    &&& own.len() == src.len()
    &&& forall|i: int| 0 <= i < src.len() ==> 0 <= #[trigger] own[i] < out.len()
    &&& forall|j: int| 0 <= j < out.len() ==> #[trigger] received(own, j)
    &&& forall|j: int, r: RoadID|
        0 <= j < out.len() ==> (#[trigger] out[j].holds_road(r) <==> group_holds(src, own, j, r))
}

/// Where `p` landed when placed into `results`: output `jp`, which gained its roads; every other
/// result kept its own, and `p` was appended only when it merged with none.
pub open spec fn lands(
    results: Seq<PerimeterModel>,
    p: PerimeterModel,
    out: Seq<PerimeterModel>,
    jp: int,
) -> bool {
    &&& 0 <= jp < out.len()
    &&& (out.len() == results.len() || (out.len() == results.len() + 1 && jp == results.len()))
    &&& forall|t: int, r: RoadID|
        0 <= t < out.len() ==> (#[trigger] out[t].holds_road(r) <==> ((t < results.len()
            && results[t].holds_road(r)) || (t == jp && p.holds_road(r))))
}

proof fn lemma_place_lands(results: Seq<PerimeterModel>, p: PerimeterModel, j: int)
    requires
        all_closed(results),
        is_closed(p.roads),
        0 <= j,
    ensures
        exists|jp: int| lands(results, p, place_model(results, p, j).0, jp),
    decreases results.len() - j,
{
    let out = place_model(results, p, j).0;
    if j >= results.len() {
        assert(lands(results, p, out, results.len() as int));
    } else {
        let m = merge_model(results[j], p);
        lemma_merge_keeps_roads(results[j], p, arbitrary());
        let u = results.update(j, m.0);
        assert(u[j] == m.0);
        if m.2 {
            assert(out == u);
            assert forall|t: int, r: RoadID| 0 <= t < out.len() implies (#[trigger] out[t].holds_road(r)
                <==> ((t < results.len() && results[t].holds_road(r)) || (t == j && p.holds_road(r)))) by {
                lemma_merge_keeps_roads(results[j], p, r);
                if t != j {
                    assert(u[t] == results[t]);
                }
            }
            assert(lands(results, p, out, j));
        } else {
            assert(out == place_model(u, m.1, j + 1).0);
            assert(all_closed(u)) by {
                assert forall|i: int| 0 <= i < u.len() implies is_closed(#[trigger] u[i].roads) by {
                    if i != j {
                        assert(u[i] == results[i]);
                    }
                }
            }
            lemma_place_lands(u, m.1, j + 1);
            let jp = choose|jp: int| lands(u, m.1, out, jp);
            assert forall|t: int, r: RoadID| 0 <= t < out.len() implies (#[trigger] out[t].holds_road(r)
                <==> ((t < results.len() && results[t].holds_road(r)) || (t == jp && p.holds_road(r)))) by {
                lemma_merge_keeps_roads(results[j], p, r);
                if t < u.len() && t != j {
                    assert(u[t] == results[t]);
                }
            }
            assert(lands(results, p, out, jp));
        }
    }
}

proof fn lemma_pass_groups(input: Seq<PerimeterModel>, stepwise: bool)
    requires
        all_closed(input),
    ensures
        exists|own: Seq<int>| grouped(input, pass_model(input, stepwise).0, own),
    decreases input.len(),
{
    let out = pass_model(input, stepwise).0;
    if input.len() == 0 {
        assert(grouped(input, out, Seq::empty()));
    } else {
        let init = input.drop_last();
        let x = input.last();
        let n = init.len() as int;
        assert(all_closed(init)) by {
            assert forall|i: int| 0 <= i < init.len() implies is_closed(#[trigger] init[i].roads) by {
                assert(init[i] == input[i]);
            }
        }
        assert(is_closed(x.roads));
        lemma_pass_groups(init, stepwise);
        lemma_pass_keeps_roads(init, stepwise, arbitrary());
        let prior = pass_model(init, stepwise);
        let own0 = choose|own: Seq<int>| grouped(init, prior.0, own);
        let jp = if prior.1 {
            prior.0.len() as int
        } else {
            lemma_place_lands(prior.0, x, 0);
            choose|jp: int| lands(prior.0, x, out, jp)
        };
        if prior.1 {
            assert(lands(prior.0, x, out, jp));
        }
        let own = own0.push(jp);
        assert forall|i: int| 0 <= i < input.len() implies 0 <= #[trigger] own[i] < out.len() by {
            if i < n {
                assert(own[i] == own0[i]);
            }
        }
        assert forall|j: int| 0 <= j < out.len() implies #[trigger] received(own, j) by {
            if j == jp {
                assert(own[n] == jp);
            } else {
                assert(j < prior.0.len());
                assert(received(own0, j));
                let i = choose|i: int| 0 <= i < own0.len() && #[trigger] own0[i] == j;
                assert(own[i] == j);
            }
        }
        assert forall|j: int, r: RoadID| 0 <= j < out.len() implies (#[trigger] out[j].holds_road(r)
            <==> group_holds(input, own, j, r)) by {
            if j < prior.0.len() && prior.0[j].holds_road(r) {
                assert(group_holds(init, own0, j, r));
                let i = choose|i: int| 0 <= i < init.len() && own0[i] == j && #[trigger] init[i].holds_road(r);
                assert(own[i] == j && input[i] == init[i]);
            }
            if j == jp && x.holds_road(r) {
                assert(own[n] == j && input[n] == x);
            }
            if group_holds(input, own, j, r) {
                let i = choose|i: int| 0 <= i < input.len() && own[i] == j && #[trigger] input[i].holds_road(r);
                if i < n {
                    assert(own0[i] == j && init[i] == input[i]);
                    assert(group_holds(init, own0, j, r));
                }
            }
        }
        assert(grouped(input, out, own));
    }
}

proof fn lemma_grouped_compose(
    a: Seq<PerimeterModel>,
    b: Seq<PerimeterModel>,
    c: Seq<PerimeterModel>,
    o1: Seq<int>,
    o2: Seq<int>,
)
    requires
        grouped(a, b, o1),
        grouped(b, c, o2),
    ensures
        grouped(a, c, Seq::new(a.len(), |i: int| o2[o1[i]])),
{
    let o = Seq::new(a.len(), |i: int| o2[o1[i]]);
    assert forall|i: int| 0 <= i < a.len() implies 0 <= #[trigger] o[i] < c.len() by {
        assert(0 <= o1[i] < b.len());
    }
    assert forall|j: int| 0 <= j < c.len() implies #[trigger] received(o, j) by {
        assert(received(o2, j));
        let k = choose|k: int| 0 <= k < o2.len() && #[trigger] o2[k] == j;
        assert(0 <= k < b.len());
        assert(received(o1, k));
        let i = choose|i: int| 0 <= i < o1.len() && #[trigger] o1[i] == k;
        assert(o[i] == o2[o1[i]]);
        assert(o[i] == j);
    }
    assert forall|j: int, r: RoadID| 0 <= j < c.len() implies (#[trigger] c[j].holds_road(r)
        <==> group_holds(a, o, j, r)) by {
        if c[j].holds_road(r) {
            let k = choose|k: int| 0 <= k < b.len() && o2[k] == j && #[trigger] b[k].holds_road(r);
            let i = choose|i: int| 0 <= i < a.len() && o1[i] == k && #[trigger] a[i].holds_road(r);
            assert(o[i] == j);
        }
        if group_holds(a, o, j, r) {
            let i = choose|i: int| 0 <= i < a.len() && o[i] == j && #[trigger] a[i].holds_road(r);
            let k = o1[i];
            assert(0 <= k < b.len());
            assert(group_holds(a, o1, k, r));
            assert(b[k].holds_road(r));
        }
    }
}

proof fn lemma_rounds_group(input: Seq<PerimeterModel>, stepwise: bool)
    requires
        all_closed(input),
    ensures
        exists|own: Seq<int>| grouped(input, rounds_model(input, stepwise), own),
    decreases input.len(),
{
    lemma_pass_groups(input, stepwise);
    lemma_pass_keeps_roads(input, stepwise, arbitrary());
    let results = pass_model(input, stepwise).0;
    if results.len() > 1 && results.len() < input.len() && !stepwise {
        lemma_rounds_group(results, stepwise);
        let o1 = choose|own: Seq<int>| grouped(input, results, own);
        let o2 = choose|own: Seq<int>| grouped(results, rounds_model(results, stepwise), own);
        lemma_grouped_compose(input, results, rounds_model(results, stepwise), o1, o2);
        assert(rounds_model(input, stepwise) == rounds_model(results, stepwise));
    } else {
        assert(rounds_model(input, stepwise) == results);
    }
}

/// Each output of merging all perimeters holds exactly the roads, on its boundary or inside, of
/// a nonempty group of inputs, and every input belongs to exactly one such group.
pub proof fn lemma_merge_all_groups(input: Seq<PerimeterModel>, stepwise: bool)
    requires
        all_closed(input),
        forall|i: int| 0 <= i < input.len() ==> (#[trigger] input[i]).collapsible(),
    ensures
        exists|own: Seq<int>| grouped(input, merge_all_model(input, stepwise), own),
{
    let collapsed = input.map_values(|p: PerimeterModel| collapse_model(p));
    let id = Seq::new(input.len(), |i: int| i);
    assert forall|i: int| 0 <= i < collapsed.len() implies is_closed(#[trigger] collapsed[i].roads) by {
        lemma_collapse_keeps_roads(input[i], arbitrary());
    }
    assert forall|j: int| 0 <= j < collapsed.len() implies #[trigger] received(id, j) by {
        assert(id[j] == j);
    }
    assert forall|j: int, r: RoadID| 0 <= j < collapsed.len() implies (#[trigger] collapsed[j].holds_road(r)
        <==> group_holds(input, id, j, r)) by {
        lemma_collapse_keeps_roads(input[j], r);
        if group_holds(input, id, j, r) {
            let i = choose|i: int| 0 <= i < input.len() && id[i] == j && #[trigger] input[i].holds_road(r);
        }
        assert(id[j] == j);
    }
    assert(grouped(input, collapsed, id));
    lemma_rounds_group(collapsed, stepwise);
    let o2 = choose|own: Seq<int>| grouped(collapsed, rounds_model(collapsed, stepwise), own);
    lemma_grouped_compose(input, collapsed, rounds_model(collapsed, stepwise), id, o2);
    assert(merge_all_model(input, stepwise) == rounds_model(collapsed, stepwise));
}

/// A loop with one single-segment dead end: its two sides are neighbors at `i` and `i + 1`
/// (not straddling the join), its road appears nowhere else, the sides around it lie on
/// different roads, and no other neighbors share a road. Folding removes exactly those two
/// sides and moves the dead end's road inside.
pub proof fn lemma_collapse_one_stub(p: PerimeterModel, i: int)
    requires
        is_closed(p.roads),
        p.ring().len() >= 3,
        0 <= i && i + 1 < p.ring().len(),
        p.ring()[i].road == p.ring()[i + 1].road,
        p.ring()[0].road != p.ring().last().road,
        forall|j: int|
            0 <= j < p.ring().len() - 1 && j != i ==> #[trigger] p.ring()[j].road != p.ring()[j
                + 1].road,
        i >= 1 && i + 2 < p.ring().len() ==> p.ring()[i - 1].road != p.ring()[i + 2].road,
        forall|j: int|
            0 <= j < p.ring().len() && j != i && j != i + 1 ==> #[trigger] p.ring()[j].road
                != p.ring()[i].road,
    ensures
        p.collapsible(),
        is_closed(collapse_model(p).roads),
        collapse_model(p).roads.len() == p.roads.len() - 2,
        collapse_model(p).interior == p.interior.insert(p.ring()[i].road),
        !has_road(collapse_model(p).roads, p.ring()[i].road),
{
    let s = p.ring();
    let n = s.len() as int;
    let d = s[i].road;
    assert(seam_from(s, 0) == 0);
    assert(rotate(s, 0) =~= s);
    lemma_fold_one_stub(s, i, n);
    assert(s.take(n) =~= s);
    let f = s.take(i) + s.subrange(i + 2, n);
    assert(fold_stack(s) == f);
    assert(f.len() == n - 2);
    assert(seq![d].to_set() =~= Set::<RoadID>::empty().insert(d)) by {
        assert(seq![d].contains(d)) by {
            assert(seq![d][0] == d);
        }
    }
    assert(collapse_model(p).interior =~= p.interior.insert(d));
    lemma_close_has_road(f, d);
    if has_road(f, d) {
        let j = choose|j: int| 0 <= j < f.len() && #[trigger] f[j].road == d;
        if j < i {
            assert(f[j] == s[j]);
        } else {
            assert(f[j] == s[j + 2]);
        }
    }
}

} // verus!
