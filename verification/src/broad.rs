//! Broad phase: per-body swept-volume X-axis intervals with an
//! incremental single-body refresh, answering "which bodies' intervals
//! could overlap mine". Over-inclusion is fine (the narrow phase
//! re-verifies every candidate); omission of a truly overlapping interval
//! is not, and the completeness lemma below rules it out.
//!
//! An ordered-set index would keep the intervals twice, keyed by min and
//! by max, to range-query cheaply; with a linear-scan index a second
//! keying adds nothing, so one entry per live body is kept, at the body's
//! own index.

use vstd::prelude::*;
use crate::fixed::{fx_wf, fx_sub};
use crate::geometry::{Vec2, v2_wf};
use crate::object::{Object, objs_wf};
use crate::traversed::swept_inputs;

verus! {

/// One body's swept X-extent.
#[derive(Clone, Copy, PartialEq, Eq, Structural, Debug)]
pub struct BoundEntry {
    pub min_x: i64,
    pub max_x: i64,
    pub index: usize,
}

/// The entry's interval covers exactly the X-extent of the body's swept
/// vertex set for the horizon `t`.
pub open spec fn entry_bounds_ok(e: BoundEntry, o: Object, t: int) -> bool {
    &&& forall|j: int| 0 <= j < swept_inputs(o, t).len()
        ==> e.min_x <= (#[trigger] swept_inputs(o, t)[j]).x <= e.max_x
    &&& exists|j: int| 0 <= j < swept_inputs(o, t).len()
        && e.min_x == (#[trigger] swept_inputs(o, t)[j]).x
    &&& exists|j: int| 0 <= j < swept_inputs(o, t).len()
        && e.max_x == (#[trigger] swept_inputs(o, t)[j]).x
}

/// Candidate test the query answers: one of `e`'s interval ends falls
/// inside the query entry `q`'s interval.
pub open spec fn cand(e: BoundEntry, q: BoundEntry) -> bool {
    (q.min_x <= e.min_x <= q.max_x) || (q.min_x <= e.max_x <= q.max_x)
}

/// The sweep-and-prune index: exactly one interval entry per live body,
/// stored at the body's own index.
pub struct BroadPhase {
    pub entries: Vec<BoundEntry>,
}

/// Structural invariant: one entry per live body, in place.
pub open spec fn bp_wf(bp: BroadPhase, n: nat) -> bool {
    &&& bp.entries@.len() == n
    &&& forall|i: int| 0 <= i < bp.entries@.len() ==> (#[trigger] bp.entries@[i]).index == i
}

/// All entries reflect the bodies' current swept extents.
pub open spec fn bp_fresh(bp: BroadPhase, objects: Seq<Object>, t: int) -> bool {
    forall|i: int| 0 <= i < bp.entries@.len()
        ==> entry_bounds_ok(#[trigger] bp.entries@[i], objects[i], t)
}

/// Compute one body's swept X-extent over the horizon `target`.
pub fn compute_bounds(objects: &Vec<Object>, i: usize, target: i64) -> (e: BoundEntry)
    requires
        objs_wf(objects@),
        i < objects@.len(),
        fx_wf(target),
    ensures
        e.index == i,
        e.min_x <= e.max_x,
        entry_bounds_ok(e, objects@[i as int], target as int),
{
    let o = &objects[i];
    let dt = fx_sub(target, o.cur_time);
    let fut = o.position.plus(o.velocity.scale(dt));
    let w1 = o.world_points_at(o.position);
    let w2 = o.world_points_at(fut);
    let ghost sw = swept_inputs(objects@[i as int], target as int);
    proof {
        assert(sw.len() == w1@.len() + w2@.len());
        assert(forall|j: int| 0 <= j < w1@.len() ==> sw[j].x == #[trigger] w1@[j].x);
        assert(forall|j: int| 0 <= j < w2@.len() ==> sw[w1@.len() + j].x == #[trigger] w2@[j].x);
    }
    let mut min_x = w1[0].x;
    let mut max_x = w1[0].x;
    proof {
        assert(min_x == sw[0].x);
    }
    let mut j: usize = 1;
    while j < w1.len()
        invariant
            1 <= j <= w1@.len(),
            sw.len() == w1@.len() + w2@.len(),
            forall|k: int| 0 <= k < w1@.len() ==> sw[k].x == (#[trigger] w1@[k]).x,
            forall|k: int| 0 <= k < j ==> min_x <= (#[trigger] sw[k]).x <= max_x,
            exists|k: int| 0 <= k < j && min_x == (#[trigger] sw[k]).x,
            exists|k: int| 0 <= k < j && max_x == (#[trigger] sw[k]).x,
        decreases w1@.len() - j,
    {
        let x = w1[j].x;
        proof {
            assert(x == sw[j as int].x);
        }
        if x < min_x {
            min_x = x;
        }
        if x > max_x {
            max_x = x;
        }
        j = j + 1;
    }
    let n1 = w1.len();
    let mut j2: usize = 0;
    while j2 < w2.len()
        invariant
            j2 <= w2@.len(),
            n1 == w1@.len(),
            sw.len() == w1@.len() + w2@.len(),
            forall|k: int| 0 <= k < w2@.len() ==> sw[n1 + k].x == (#[trigger] w2@[k]).x,
            forall|k: int| 0 <= k < n1 + j2 ==> min_x <= (#[trigger] sw[k]).x <= max_x,
            exists|k: int| 0 <= k < n1 + j2 && min_x == (#[trigger] sw[k]).x,
            exists|k: int| 0 <= k < n1 + j2 && max_x == (#[trigger] sw[k]).x,
        decreases w2@.len() - j2,
    {
        let x = w2[j2].x;
        proof {
            assert(x == sw[n1 + j2 as int].x);
        }
        if x < min_x {
            min_x = x;
        }
        if x > max_x {
            max_x = x;
        }
        j2 = j2 + 1;
    }
    BoundEntry { min_x, max_x, index: i }
}

impl BroadPhase {
    /// Populate the index from scratch: one entry per live body, each
    /// covering that body's swept X-extent over the horizon `target`.
    pub fn rebuild(objects: &Vec<Object>, target: i64) -> (bp: BroadPhase)
        requires
            objs_wf(objects@),
            fx_wf(target),
        ensures
            bp_wf(bp, objects@.len()),
            bp_fresh(bp, objects@, target as int),
    {
        let mut entries: Vec<BoundEntry> = Vec::new();
        let mut i: usize = 0;
        while i < objects.len()
            invariant
                i <= objects@.len(),
                entries@.len() == i,
                objs_wf(objects@),
                fx_wf(target),
                forall|k: int| 0 <= k < i ==> (#[trigger] entries@[k]).index == k,
                forall|k: int| 0 <= k < i ==> entry_bounds_ok(
                    #[trigger] entries@[k],
                    objects@[k],
                    target as int,
                ),
            decreases objects@.len() - i,
        {
            let e = compute_bounds(objects, i, target);
            entries.push(e);
            i = i + 1;
        }
        BroadPhase { entries }
    }

    /// Refresh exactly one body's entry; every other entry is untouched.
    pub fn update(&mut self, objects: &Vec<Object>, i: usize, target: i64)
        requires
            objs_wf(objects@),
            i < objects@.len(),
            fx_wf(target),
            old(self).entries@.len() == objects@.len(),
        ensures
            final(self).entries@.len() == old(self).entries@.len(),
            forall|j: int| 0 <= j < old(self).entries@.len() && j != i
                ==> final(self).entries@[j] == old(self).entries@[j],
            final(self).entries@[i as int].index == i,
            entry_bounds_ok(final(self).entries@[i as int], objects@[i as int], target as int),
    {
        let e = compute_bounds(objects, i, target);
        self.entries[i] = e;
    }

    /// All bodies whose interval has an end inside body `i`'s interval.
    /// The result never misses a candidate end in range, and holds nothing
    /// but bodies whose end is in range (it may include `i` itself).
    pub fn query_overlaps(&self, i: usize) -> (c: Vec<usize>)
        requires
            i < self.entries@.len(),
        ensures
            forall|k: int| 0 <= k < c@.len() ==> (#[trigger] c@[k]) < self.entries@.len()
                && cand(self.entries@[c@[k] as int], self.entries@[i as int]),
            forall|j: int| 0 <= j < self.entries@.len() && cand(
                #[trigger] self.entries@[j],
                self.entries@[i as int],
            ) ==> c@.contains(j as usize),
    {
        let q = self.entries[i];
        let mut c: Vec<usize> = Vec::new();
        let mut j: usize = 0;
        while j < self.entries.len()
            invariant
                j <= self.entries@.len(),
                i < self.entries@.len(),
                q == self.entries@[i as int],
                forall|k: int| 0 <= k < c@.len() ==> (#[trigger] c@[k]) < self.entries@.len()
                    && cand(self.entries@[c@[k] as int], self.entries@[i as int]),
                forall|j2: int| 0 <= j2 < j && cand(
                    #[trigger] self.entries@[j2],
                    self.entries@[i as int],
                ) ==> c@.contains(j2 as usize),
            decreases self.entries@.len() - j,
        {
            let e = self.entries[j];
            let ghost c0 = c@;
            if (q.min_x <= e.min_x && e.min_x <= q.max_x) || (q.min_x <= e.max_x && e.max_x
                <= q.max_x) {
                c.push(j);
            }
            proof {
                assert forall|j2: int| 0 <= j2 < j + 1 && cand(
                    #[trigger] self.entries@[j2],
                    self.entries@[i as int],
                ) implies c@.contains(j2 as usize) by {
                    if j2 == j {
                        assert(c@[c@.len() - 1] == j2 as usize);
                    } else {
                        let k = choose|k: int| 0 <= k < c0.len() && c0[k] == j2 as usize;
                        assert(c@[k] == j2 as usize);
                    }
                }
            }
            j = j + 1;
        }
        c
    }
}

/// One body's swept extent determines its entry: two entries that both
/// bound and attain the same body's swept set are equal.
pub proof fn lemma_extent_unique(e1: BoundEntry, e2: BoundEntry, o: Object, t: int)
    requires
        entry_bounds_ok(e1, o, t),
        entry_bounds_ok(e2, o, t),
        e1.index == e2.index,
    ensures
        e1 == e2,
{
    let s = swept_inputs(o, t);
    let w1 = choose|j: int| 0 <= j < s.len() && e1.min_x == (#[trigger] s[j]).x;
    let w2 = choose|j: int| 0 <= j < s.len() && e2.min_x == (#[trigger] s[j]).x;
    assert(e2.min_x <= s[w1].x && e1.min_x <= s[w2].x);
    let v1 = choose|j: int| 0 <= j < s.len() && e1.max_x == (#[trigger] s[j]).x;
    let v2 = choose|j: int| 0 <= j < s.len() && e2.max_x == (#[trigger] s[j]).x;
    assert(s[v1].x <= e2.max_x && s[v2].x <= e1.max_x);
}

/// Broad-phase completeness: when two bodies' swept X-intervals truly
/// overlap, at least one of the two queries proposes the other body; no
/// truly overlapping pair is missed by querying around both bodies.
pub proof fn lemma_query_no_false_negative(a: BoundEntry, b: BoundEntry)
    requires
        a.min_x <= a.max_x,
        b.min_x <= b.max_x,
        a.min_x <= b.max_x,
        b.min_x <= a.max_x,
    ensures
        cand(a, b) || cand(b, a),
{
}

} // verus!
