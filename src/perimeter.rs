//! Perimeters: closed loops of road sides with the set of roads they enclose.
use crate::ring::{
    close, collapsible, common_roads, fold_stack, folded, has_road, is_closed, lemma_common_roads,
    lemma_common_roads_len, lemma_fold_no_pairs, lemma_seam_range, lemma_tail_range, rotate,
    seam_from, tail_from, tail_in,
};
use crate::road::{RoadID, RoadSideID};
use vstd::prelude::*;

verus! {

/// A sequence of road sides in order, beginning and ending at the same place, with the roads
/// that lie entirely inside it. Tracing along the sequence should yield a simple polygon.
#[derive(Clone, Debug)]
pub struct Perimeter {
    pub roads: Vec<RoadSideID>,
    /// These roads exist entirely within the perimeter. Each appears once.
    pub interior: Vec<RoadID>,
}

/// What a perimeter stands for: its closed loop and its set of interior roads.
pub struct PerimeterModel {
    pub roads: Seq<RoadSideID>,
    pub interior: Set<RoadID>,
}

impl View for Perimeter {
    type V = PerimeterModel;

    open spec fn view(&self) -> PerimeterModel {
        PerimeterModel { roads: self.roads@, interior: self.interior@.to_set() }
    }
}

impl PerimeterModel {
    /// The loop without its repeated closing element.
    pub open spec fn ring(self) -> Seq<RoadSideID> {
        self.roads.drop_last()
    }

    /// Dead ends can be folded: see `collapsible`.
    pub open spec fn collapsible(self) -> bool {
        self.roads.len() > 0 && collapsible(self.ring())
    }

    /// Road `r` is on the boundary or inside.
    pub open spec fn holds_road(self, r: RoadID) -> bool {
        has_road(self.roads, r) || self.interior.contains(r)
    }
}

/// The effect of folding dead ends: rotate so that no dead end straddles the join, fold
/// back-and-forth pairs, and move their roads inside.
pub open spec fn collapse_model(p: PerimeterModel) -> PerimeterModel {
    let s = rotate(p.ring(), seam_from(p.ring(), 0));
    PerimeterModel { roads: close(fold_stack(s)), interior: p.interior + folded(s).to_set() }
}

/// The effect of trying to merge `b` into `a`: the new `a`, the new `b`, and whether they merged.
/// Both rings are rotated so that a run of their common roads ends each; when in each the last
/// sides (as many as there are common roads) all lie on common roads, those are cut from both,
/// what remains of `b` is appended to what remains of `a`, and the common roads move inside.
/// A merge whose loop could not then have its dead ends folded fails.
pub open spec fn merge_model(a: PerimeterModel, b: PerimeterModel) -> (
    PerimeterModel,
    PerimeterModel,
    bool,
) {
    let sa = a.ring();
    let sb = b.ring();
    let common = common_roads(sa, sb);
    let c = common.len() as int;
    if c == 0 {
        (a, b, false)
    } else {
        let ra = rotate(sa, tail_from(sa, common, 0));
        let rb = rotate(sb, tail_from(sb, common, 0));
        let m = ra.take(ra.len() - c) + rb.take(rb.len() - c);
        if !tail_in(ra, common, c) || !tail_in(rb, common, c) || !collapsible(m) {
            (
                PerimeterModel { roads: close(ra), interior: a.interior },
                PerimeterModel { roads: close(rb), interior: b.interior },
                false,
            )
        } else {
            (
                collapse_model(
                    PerimeterModel {
                        roads: close(m),
                        interior: a.interior + common.to_set() + b.interior,
                    },
                ),
                PerimeterModel { roads: Seq::empty(), interior: Set::empty() },
                true,
            )
        }
    }
}

/// Tries to merge `p` into `results[j]`, then into each later result in turn, with the
/// rotations that failed attempts leave behind; where none takes it, it is appended. Also says
/// whether a merge happened.
pub open spec fn place_model(results: Seq<PerimeterModel>, p: PerimeterModel, j: int) -> (
    Seq<PerimeterModel>,
    bool,
)
    decreases results.len() - j,
{
    if j < 0 || j >= results.len() {
        (results.push(p), false)
    } else {
        let m = merge_model(results[j], p);
        if m.2 {
            (results.update(j, m.0), true)
        } else {
            place_model(results.update(j, m.0), m.1, j + 1)
        }
    }
}

/// One pass over `input` in order: the results, and whether merging stopped for the rest of
/// the pass (after the first merge, when stepping).
pub open spec fn pass_model(input: Seq<PerimeterModel>, stepwise: bool) -> (
    Seq<PerimeterModel>,
    bool,
)
    decreases input.len(),
{
    if input.len() == 0 {
        (Seq::empty(), false)
    } else {
        let prior = pass_model(input.drop_last(), stepwise);
        if prior.1 {
            (prior.0.push(input.last()), true)
        } else {
            let placed = place_model(prior.0, input.last(), 0);
            (placed.0, placed.1 && stepwise)
        }
    }
}

/// Passes repeat while one leaves more than one result and fewer results than it was given,
/// unless stepping.
pub open spec fn rounds_model(input: Seq<PerimeterModel>, stepwise: bool) -> Seq<PerimeterModel>
    decreases input.len(),
{
    let results = pass_model(input, stepwise).0;
    if results.len() > 1 && results.len() < input.len() && !stepwise {
        rounds_model(results, stepwise)
    } else {
        results
    }
}

/// Dead ends are folded on every input, then passes of merging run.
pub open spec fn merge_all_model(input: Seq<PerimeterModel>, stepwise: bool) -> Seq<
    PerimeterModel,
> {
    rounds_model(input.map_values(|p: PerimeterModel| collapse_model(p)), stepwise)
}

/// Views of a sequence of perimeters.
pub open spec fn views(v: Seq<Perimeter>) -> Seq<PerimeterModel> {
    v.map_values(|p: Perimeter| p@)
}

/// Every perimeter of `v` is well formed.
pub open spec fn all_wf(v: Seq<Perimeter>) -> bool {
    forall|i: int| 0 <= i < v.len() ==> #[trigger] v[i].wf()
}

impl Perimeter {
    /// Closed loop, and no interior road listed twice.
    pub open spec fn wf(&self) -> bool {
        is_closed(self.roads@) && self.interior@.no_duplicates()
    }

    /// A perimeter has the first and last road matching up, but that's confusing to work with.
    /// Temporarily undo that.
    fn undo_invariant(&mut self)
        requires
            old(self).roads@.len() >= 1,
            old(self).roads@[0] == old(self).roads@.last(),
        ensures
            final(self).roads@ == old(self).roads@.drop_last(),
            final(self).interior == old(self).interior,
    {
        let _ = self.roads.pop();
    }

    /// Restore the first=last invariant. Methods may temporarily break this, but must restore
    /// it before returning.
    fn restore_invariant(&mut self)
        requires
            old(self).roads@.len() > 0,
        ensures
            final(self).roads@ == close(old(self).roads@),
            final(self).interior == old(self).interior,
    {
        let first = self.roads[0];
        self.roads.push(first);
    }

    /// Try to merge two blocks. Returns true if this is successful, which will only be when the
    /// blocks are adjacent, but the merge wouldn't create an interior "hole", and the merged
    /// loop's dead ends can then be folded. On success `other` is left empty.
    ///
    /// Note this may modify both perimeters and still return `false`. The modification is just
    /// to rotate the order of the road loop; this doesn't logically change the perimeter.
    pub fn try_to_merge(&mut self, other: &mut Perimeter) -> (r: bool)
        requires
            old(self).wf(),
            old(other).wf(),
        ensures
            merge_model(old(self)@, old(other)@) == (final(self)@, final(other)@, r),
            final(self).wf(),
            !r ==> final(other).wf(),
            r ==> final(other).roads@.len() == 0 && final(other).interior@.len() == 0,
    {
        let ghost a0 = self@;
        let ghost b0 = other@;
        self.undo_invariant();
        other.undo_invariant();
        let ghost sa = self.roads@;
        let ghost sb = other.roads@;

        let common = find_common(&self.roads, &other.roads);
        proof {
            lemma_common_roads(sa, sb);
            lemma_common_roads_len(sa, sb);
        }
        if common.len() == 0 {
            self.restore_invariant();
            other.restore_invariant();
            proof {
                assert(self.roads@ =~= a0.roads);
                assert(other.roads@ =~= b0.roads);
            }
            return false;
        }

        // Rotate the order of roads, so that a run of the common roads is at the end.
        let ka = find_tail(&self.roads, &common);
        let kb = find_tail(&other.roads, &common);
        proof {
            lemma_tail_range(sa, common@, 0);
            lemma_tail_range(sb, common@, 0);
        }
        self.roads = rotated(&self.roads, ka);
        other.roads = rotated(&other.roads, kb);
        let c = common.len();

        // If the common roads are not all at the end, they are split by other roads, and
        // merging would leave a hole.
        if !tail_on_common(&self.roads, &common, c) || !tail_on_common(&other.roads, &common, c) {
            self.restore_invariant();
            other.restore_invariant();
            return false;
        }

        // Very straightforward snipping now. This order assumes everything is clockwise to
        // start with.
        let ghost ra = self.roads@;
        let ghost rb = other.roads@;
        let joined = join_remainders(&self.roads, &other.roads, c);
        let ghost m = joined@;
        // Make sure the dead-ends of the result can be folded.
        if !ring_collapses(&joined) {
            self.restore_invariant();
            other.restore_invariant();
            return false;
        }
        self.roads = joined;
        other.roads = Vec::new();

        let mut j: usize = 0;
        while j < common.len()
            invariant
                j <= common@.len(),
                self.roads@ == m,
                other.roads@.len() == 0,
                other.interior@ == old(other).interior@,
                self.interior@.no_duplicates(),
                self.interior@.to_set() == a0.interior + common@.take(j as int).to_set(),
            decreases common@.len() - j,
        {
            insert_road(&mut self.interior, common[j]);
            proof {
                assert(common@.take(j + 1) =~= common@.take(j as int).push(common@[j as int]));
                common@.take(j as int).lemma_push_to_set_commute(common@[j as int]);
                assert(self.interior@.to_set() =~= a0.interior + common@.take(j + 1).to_set());
            }
            j = j + 1;
        }
        proof {
            assert(common@.take(j as int) =~= common@);
        }
        let mut j: usize = 0;
        while j < other.interior.len()
            invariant
                j <= other.interior@.len(),
                other.interior@ == old(other).interior@,
                self.roads@ == m,
                other.roads@.len() == 0,
                self.interior@.no_duplicates(),
                self.interior@.to_set() == a0.interior + common@.to_set()
                    + other.interior@.take(j as int).to_set(),
            decreases other.interior@.len() - j,
        {
            insert_road(&mut self.interior, other.interior[j]);
            proof {
                let t = other.interior@;
                assert(t.take(j + 1) =~= t.take(j as int).push(t[j as int]));
                t.take(j as int).lemma_push_to_set_commute(t[j as int]);
                assert(self.interior@.to_set() =~= a0.interior + common@.to_set() + t.take(
                    j + 1,
                ).to_set());
            }
            j = j + 1;
        }
        proof {
            assert(other.interior@.take(j as int) =~= other.interior@);
        }
        other.interior = Vec::new();

        self.restore_invariant();
        proof {
            assert(self.roads@.drop_last() =~= m);
        }
        // Make sure we didn't wind up with any internal dead-ends
        self.collapse_deadends();
        proof {
            assert(other@.interior =~= Set::<RoadID>::empty());
            assert(other@.roads =~= Seq::<RoadSideID>::empty());
        }
        true
    }

    /// Try to merge all given perimeters. If successful, only one perimeter will be returned.
    /// Perimeters are never "destroyed" -- if not merged, they'll appear in the results. If
    /// `stepwise_debug` is true, returns after performing just one merge.
    /// Every input must let its dead ends be folded (see `can_collapse`).
    pub fn merge_all(input: Vec<Perimeter>, stepwise_debug: bool) -> (r: Vec<Perimeter>)
        requires
            all_wf(input@),
            forall|i: int| 0 <= i < input@.len() ==> (#[trigger] input@[i])@.collapsible(),
        ensures
            all_wf(r@),
            views(r@) == merge_all_model(views(input@), stepwise_debug),
    {
        // Internal dead-ends break merging, so first collapse of those. Do this before even
        // looking for neighbors, since finding common roads doesn't understand dead-ends.
        let ghost orig = views(input@);
        let ghost target = orig.map_values(|p: PerimeterModel| collapse_model(p));
        let mut input = input;
        let mut current: Vec<Perimeter> = Vec::new();
        let ghost mut k: int = 0;
        #[verifier::loop_isolation(false)]
        while input.len() > 0
            invariant
                0 <= k <= orig.len(),
                views(input@) == orig.skip(k),
                all_wf(input@),
                forall|i: int| 0 <= i < input@.len() ==> (#[trigger] input@[i])@.collapsible(),
                all_wf(current@),
                views(current@) == target.take(k),
            decreases input@.len(),
        {
            let ghost before = input@;
            let mut p = input.remove(0);
            proof {
                assert(views(before)[0] == before[0]@);
                assert(views(input@) =~= views(before).skip(1));
                assert(orig.skip(k).skip(1) =~= orig.skip(k + 1));
                assert(views(before).len() == before.len());
                assert(k < orig.len());
                assert(p@ == orig[k]);
            }
            p.collapse_deadends();
            let ghost before_push = current@;
            current.push(p);
            proof {
                assert(target[k] == collapse_model(orig[k]));
                assert(views(current@) =~= views(before_push).push(p@));
                k = k + 1;
                assert(views(current@) =~= target.take(k));
            }
        }
        proof {
            assert(views(current@) =~= target);
        }
        #[verifier::loop_isolation(false)]
        loop
            invariant
                all_wf(current@),
                rounds_model(views(current@), stepwise_debug) == rounds_model(
                    target,
                    stepwise_debug,
                ),
            decreases current@.len(),
        {
            let num_input = current.len();
            let ghost cur = views(current@);
            let results = merge_pass(current, stepwise_debug);
            proof {
                assert(rounds_model(cur, stepwise_debug) == if views(results@).len() > 1
                    && views(results@).len() < cur.len() && !stepwise_debug {
                    rounds_model(views(results@), stepwise_debug)
                } else {
                    views(results@)
                });
            }
            // Should we try merging again?
            if results.len() > 1 && results.len() < num_input && !stepwise_debug {
                current = results;
            } else {
                return results;
            }
        }
    }

    /// A copy of this perimeter.
    pub fn duplicate(&self) -> (r: Perimeter)
        ensures
            r.roads@ == self.roads@,
            r.interior@ == self.interior@,
            r@ == self@,
            self.wf() ==> r.wf(),
    {
        let mut roads: Vec<RoadSideID> = Vec::new();
        let mut i: usize = 0;
        while i < self.roads.len()
            invariant
                i <= self.roads@.len(),
                roads@ == self.roads@.take(i as int),
            decreases self.roads@.len() - i,
        {
            roads.push(self.roads[i]);
            i = i + 1;
            proof {
                assert(roads@ =~= self.roads@.take(i as int));
            }
        }
        let mut interior: Vec<RoadID> = Vec::new();
        let mut j: usize = 0;
        while j < self.interior.len()
            invariant
                j <= self.interior@.len(),
                interior@ == self.interior@.take(j as int),
            decreases self.interior@.len() - j,
        {
            interior.push(self.interior[j]);
            j = j + 1;
            proof {
                assert(interior@ =~= self.interior@.take(j as int));
            }
        }
        proof {
            assert(roads@ =~= self.roads@);
            assert(interior@ =~= self.interior@);
        }
        Perimeter { roads, interior }
    }

    /// If the perimeter follows any dead-end roads, "collapse" them and instead make the
    /// perimeter contain the dead-end. Afterwards no two neighbors lie on the same road. The
    /// perimeter must have two roads at least, and must not fold away entirely (see
    /// `can_collapse`).
    pub fn collapse_deadends(&mut self)
        requires
            old(self).wf(),
            old(self)@.collapsible(),
        ensures
            final(self).wf(),
            final(self)@ == collapse_model(old(self)@),
            forall|i: int|
                0 <= i && i + 1 < final(self).roads@.len() - 1 ==> #[trigger] final(self).roads@[i].road
                    != final(self).roads@[i + 1].road,
    {
        let ghost p_in = self@;
        self.undo_invariant();
        let k = find_seam(&self.roads);
        proof {
            lemma_seam_range(self.roads@, 0);
        }
        let ring = rotated(&self.roads, k);
        let (stack, added) = fold_ring(&ring);
        proof {
            lemma_fold_no_pairs(ring@);
        }
        let mut j: usize = 0;
        while j < added.len()
            invariant
                j <= added@.len(),
                self.interior@.no_duplicates(),
                self.interior@.to_set() == p_in.interior + added@.take(j as int).to_set(),
            decreases added@.len() - j,
        {
            insert_road(&mut self.interior, added[j]);
            proof {
                assert(added@.take(j + 1) =~= added@.take(j as int).push(added@[j as int]));
                added@.take(j as int).lemma_push_to_set_commute(added@[j as int]);
                assert(self.interior@.to_set() =~= p_in.interior + added@.take(j + 1).to_set());
            }
            j = j + 1;
        }
        proof {
            assert(added@.take(j as int) =~= added@);
        }
        self.roads = stack;
        self.restore_invariant();
        proof {
            assert forall|i: int| 0 <= i && i + 1 < self.roads@.len() - 1 implies #[trigger] self.roads@[i].road
                != self.roads@[i + 1].road by {
                assert(self.roads@[i] == fold_stack(ring@)[i]);
                assert(self.roads@[i + 1] == fold_stack(ring@)[i + 1]);
            }
        }
    }

    /// Dead ends can be folded on this perimeter: it has at least two roads, and folding
    /// leaves something.
    pub fn can_collapse(&self) -> (r: bool)
        ensures
            r == self@.collapsible(),
    {
        let n = self.roads.len();
        if n == 0 {
            return false;
        }
        let ring = prefix(&self.roads, n - 1);
        proof {
            assert(ring@ =~= self@.ring());
        }
        ring_collapses(&ring)
    }
}

/// One pass of merging: each perimeter in turn is merged into the first result that takes it,
/// or becomes a result of its own.
fn merge_pass(input: Vec<Perimeter>, stepwise_debug: bool) -> (r: Vec<Perimeter>)
    requires
        all_wf(input@),
    ensures
        all_wf(r@),
        views(r@) == pass_model(views(input@), stepwise_debug).0,
{
    let ghost orig = views(input@);
    let mut input = input;
    let mut results: Vec<Perimeter> = Vec::new();
    let mut debug = false;
    let ghost mut k: int = 0;
    while input.len() > 0
        invariant
            0 <= k <= orig.len(),
            views(input@) == orig.skip(k),
            all_wf(input@),
            all_wf(results@),
            (views(results@), debug) == pass_model(orig.take(k), stepwise_debug),
        decreases input@.len(),
    {
        let ghost before = input@;
        let p = input.remove(0);
        proof {
            assert(views(before)[0] == before[0]@);
            assert(views(input@) =~= views(before).skip(1));
            assert(orig.skip(k).skip(1) =~= orig.skip(k + 1));
            assert(orig.take(k + 1).drop_last() =~= orig.take(k));
        }
        if debug {
            results.push(p);
            proof {
                assert(views(results@) =~= pass_model(orig.take(k + 1), stepwise_debug).0);
            }
        } else {
            let merged = place(&mut results, p);
            // To debug, stop after any single change
            debug = merged && stepwise_debug;
        }
        proof {
            k = k + 1;
        }
    }
    proof {
        assert(orig.take(k) =~= orig);
    }
    results
}

/// Merges `p` into the first of `results` that takes it, or appends it.
fn place(results: &mut Vec<Perimeter>, p: Perimeter) -> (merged: bool)
    requires
        all_wf(old(results)@),
        p.wf(),
    ensures
        all_wf(final(results)@),
        (views(final(results)@), merged) == place_model(views(old(results)@), p@, 0),
{
    let ghost p_in = p@;
    let mut p = p;
    let mut j: usize = 0;
    #[verifier::loop_isolation(false)]
    while j < results.len()
        invariant
            j <= results@.len(),
            all_wf(results@),
            p.wf(),
            place_model(views(old(results)@), p_in, 0) == place_model(
                views(results@),
                p@,
                j as int,
            ),
        decreases results@.len() - j,
    {
        let ghost before = results@;
        let ghost p_before = p@;
        let mut other = results.remove(j);
        proof {
            assert(views(before)[j as int] == other@);
        }
        let ok = other.try_to_merge(&mut p);
        results.insert(j, other);
        proof {
            assert(views(results@) =~= views(before).update(j as int, other@));
        }
        if ok {
            proof {
                assert(place_model(views(before), p_before, j as int) == (views(results@), true));
            }
            return true;
        }
        j = j + 1;
    }
    let ghost before = results@;
    results.push(p);
    proof {
        assert(views(results@) =~= views(before).push(p@));
    }
    false
}

/// Folds back-and-forth pairs of `ring`: what stays, and the roads folded away.
fn fold_ring(ring: &Vec<RoadSideID>) -> (r: (Vec<RoadSideID>, Vec<RoadID>))
    ensures
        r.0@ == fold_stack(ring@),
        r.1@ == folded(ring@),
{
    let mut stack: Vec<RoadSideID> = Vec::new();
    let mut added: Vec<RoadID> = Vec::new();
    let mut i: usize = 0;
    while i < ring.len()
        invariant
            i <= ring@.len(),
            stack@ == fold_stack(ring@.take(i as int)),
            added@ == folded(ring@.take(i as int)),
        decreases ring@.len() - i,
    {
        let id = ring[i];
        proof {
            assert(ring@.take(i + 1).drop_last() =~= ring@.take(i as int));
        }
        if stack.len() > 0 && stack[stack.len() - 1].road == id.road {
            let _ = stack.pop();
            added.push(id.road);
        } else {
            stack.push(id);
        }
        i = i + 1;
    }
    proof {
        assert(ring@.take(i as int) =~= ring@);
    }
    (stack, added)
}

/// Dead ends can be folded on `ring`; see `collapsible`.
fn ring_collapses(ring: &Vec<RoadSideID>) -> (r: bool)
    ensures
        r == collapsible(ring@),
{
    let n = ring.len();
    if n == 0 {
        return false;
    }
    let k = find_seam(ring);
    proof {
        lemma_seam_range(ring@, 0);
    }
    let p = if k == 0 {
        n - 1
    } else {
        k - 1
    };
    if ring[k].road == ring[p].road {
        return false;
    }
    let rot = rotated(ring, k);
    let (stack, _) = fold_ring(&rot);
    stack.len() > 0
}

/// The first `n` sides of `v`.
fn prefix(v: &Vec<RoadSideID>, n: usize) -> (r: Vec<RoadSideID>)
    requires
        n <= v@.len(),
    ensures
        r@ == v@.take(n as int),
{
    let mut r: Vec<RoadSideID> = Vec::new();
    let mut i: usize = 0;
    while i < n
        invariant
            i <= n <= v@.len(),
            r@ == v@.take(i as int),
        decreases n - i,
    {
        r.push(v[i]);
        i = i + 1;
        proof {
            assert(r@ =~= v@.take(i as int));
        }
    }
    r
}

/// What remains of `a` and then of `b` once the last `c` sides of each are cut.
fn join_remainders(a: &Vec<RoadSideID>, b: &Vec<RoadSideID>, c: usize) -> (r: Vec<RoadSideID>)
    requires
        c <= a@.len(),
        c <= b@.len(),
    ensures
        r@ == a@.take(a@.len() - c) + b@.take(b@.len() - c),
{
    let mut r = prefix(a, a.len() - c);
    let mut i: usize = 0;
    let ghost ra = r@;
    while i < b.len() - c
        invariant
            c <= b@.len(),
            i <= b@.len() - c,
            r@ == ra + b@.take(i as int),
        decreases b@.len() - c - i,
    {
        r.push(b[i]);
        i = i + 1;
        proof {
            assert(r@ =~= ra + b@.take(i as int));
        }
    }
    r
}

/// The ring `s` rotated left by `k` places.
fn rotated(s: &Vec<RoadSideID>, k: usize) -> (r: Vec<RoadSideID>)
    requires
        k <= s@.len(),
    ensures
        r@ == rotate(s@, k as int),
{
    let mut r: Vec<RoadSideID> = Vec::new();
    let mut i: usize = k;
    while i < s.len()
        invariant
            k <= i <= s@.len(),
            r@ == s@.subrange(k as int, i as int),
        decreases s@.len() - i,
    {
        r.push(s[i]);
        i = i + 1;
        proof {
            assert(r@ =~= s@.subrange(k as int, i as int));
        }
    }
    let mut j: usize = 0;
    while j < k
        invariant
            j <= k <= s@.len(),
            r@ == s@.subrange(k as int, s@.len() as int) + s@.subrange(0, j as int),
        decreases k - j,
    {
        r.push(s[j]);
        j = j + 1;
        proof {
            assert(r@ =~= s@.subrange(k as int, s@.len() as int) + s@.subrange(0, j as int));
        }
    }
    r
}

/// Where to rotate so that the road changes across the join.
fn find_seam(s: &Vec<RoadSideID>) -> (k: usize)
    ensures
        k == seam_from(s@, 0),
{
    let n = s.len();
    let mut k: usize = 0;
    while k < n
        invariant
            n == s@.len(),
            k <= n,
            seam_from(s@, 0) == seam_from(s@, k as int),
        decreases n - k,
    {
        let p = if k == 0 {
            n - 1
        } else {
            k - 1
        };
        if s[k].road != s[p].road {
            return k;
        }
        k = k + 1;
    }
    0
}

/// The distinct roads of `a` that `b` also has.
fn find_common(a: &Vec<RoadSideID>, b: &Vec<RoadSideID>) -> (c: Vec<RoadID>)
    ensures
        c@ == common_roads(a@, b@),
{
    let mut c: Vec<RoadID> = Vec::new();
    let mut i: usize = 0;
    while i < a.len()
        invariant
            i <= a@.len(),
            c@ == common_roads(a@.take(i as int), b@),
        decreases a@.len() - i,
    {
        let r = a[i].road;
        proof {
            assert(a@.take(i + 1).drop_last() =~= a@.take(i as int));
        }
        if side_has_road(b, r) && !contains_road(&c, r) {
            c.push(r);
        }
        i = i + 1;
    }
    proof {
        assert(a@.take(i as int) =~= a@);
    }
    c
}

/// Where to rotate so that a run of common roads ends the ring.
fn find_tail(s: &Vec<RoadSideID>, common: &Vec<RoadID>) -> (k: usize)
    ensures
        k == tail_from(s@, common@, 0),
{
    let n = s.len();
    let mut k: usize = 0;
    while k < n
        invariant
            n == s@.len(),
            k <= n,
            tail_from(s@, common@, 0) == tail_from(s@, common@, k as int),
        decreases n - k,
    {
        let p = if k == 0 {
            n - 1
        } else {
            k - 1
        };
        if !contains_road(common, s[k].road) && contains_road(common, s[p].road) {
            return k;
        }
        k = k + 1;
    }
    0
}

/// The last `c` sides of `s` (all of them, if fewer) lie on common roads.
fn tail_on_common(s: &Vec<RoadSideID>, common: &Vec<RoadID>, c: usize) -> (b: bool)
    ensures
        b == tail_in(s@, common@, c as int),
{
    let n = s.len();
    let mut i: usize = if n > c {
        n - c
    } else {
        0
    };
    while i < n
        invariant
            n == s@.len(),
            i <= n,
            n - c <= i,
            forall|j: int| n - c <= j < i && 0 <= j ==> common@.contains(#[trigger] s@[j].road),
        decreases n - i,
    {
        if !contains_road(common, s[i].road) {
            proof {
                assert(!common@.contains(s@[i as int].road));
            }
            return false;
        }
        i = i + 1;
    }
    true
}

/// Some side of road `r` is in `s`.
pub fn side_has_road(s: &Vec<RoadSideID>, r: RoadID) -> (b: bool)
    ensures
        b == has_road(s@, r),
{
    let mut i: usize = 0;
    while i < s.len()
        invariant
            i <= s@.len(),
            forall|j: int| 0 <= j < i ==> s@[j].road != r,
        decreases s@.len() - i,
    {
        if s[i].road == r {
            return true;
        }
        i = i + 1;
    }
    false
}

/// Adds `r` to a list of distinct roads.
fn insert_road(v: &mut Vec<RoadID>, r: RoadID)
    requires
        old(v)@.no_duplicates(),
    ensures
        final(v)@.no_duplicates(),
        final(v)@.to_set() == old(v)@.to_set().insert(r),
{
    if !contains_road(v, r) {
        proof {
            old(v)@.lemma_push_to_set_commute(r);
        }
        v.push(r);
    } else {
        proof {
            assert(old(v)@.to_set() =~= old(v)@.to_set().insert(r));
        }
    }
}

/// `r` is in `v`.
pub fn contains_road(v: &Vec<RoadID>, r: RoadID) -> (b: bool)
    ensures
        b == v@.contains(r),
{
    let mut i: usize = 0;
    while i < v.len()
        invariant
            i <= v@.len(),
            forall|j: int| 0 <= j < i ==> v@[j] != r,
        decreases v@.len() - i,
    {
        if v[i] == r {
            return true;
        }
        i = i + 1;
    }
    false
}

} // verus!
