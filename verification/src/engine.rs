//! Run accounting of the transfer engine: the shared running maximum that
//! workers advance, the commit decision that closes a run, the per-step
//! decisions of dispatcher and workers under cancellation, and the laws that
//! hold of a whole run — schedule independence of the running maximum, a
//! never-decreasing watermark, idempotence, and the cancellation bound.

use vstd::prelude::*;

use crate::scan::{spec_scan, Candidate, lemma_sort_membership, lemma_candidates_membership, spec_candidates};
use vstd::seq_lib::group_to_multiset_ensures;
use vstd::seq_lib::seq_to_set_is_finite;
use vstd::set::group_set_axioms;
use vstd::set_lib::lemma_len_subset;

verus! {

/// Number of concurrent copy workers a run starts.
pub const WORKER_COUNT: usize = 4;

/// Capacity of the bounded dispatch queue; a full queue blocks the
/// dispatcher (backpressure), it never grows past this.
pub const QUEUE_CAPACITY: usize = 32;

/// The larger of two identifiers.
pub open spec fn spec_max(a: u32, b: u32) -> u32 {
    if b > a {
        b
    } else {
        a
    }
}

/// Running maximum after the copies in `ids` have succeeded, in that order,
/// starting from `start`.
pub open spec fn fold_max(start: u32, ids: Seq<u32>) -> u32
    decreases ids.len(),
{
    if ids.len() == 0 {
        start
    } else {
        spec_max(fold_max(start, ids.drop_last()), ids.last())
    }
}

/// The commit decision: a new watermark is written only when the running
/// maximum advanced strictly past the watermark loaded at run start.
pub open spec fn spec_commit(running_max: u32, last_id: u32) -> Option<u32> {
    if running_max > last_id {
        Some(running_max)
    } else {
        None
    }
}

/// The watermark persisted after a run that loaded `last_id` and copied
/// `copied`: the committed value, or the old watermark when no commit
/// happens.
pub open spec fn spec_final_watermark(last_id: u32, copied: Seq<u32>) -> u32 {
    match spec_commit(fold_max(last_id, copied), last_id) {
        Some(v) => v,
        None => last_id,
    }
}

/// Identifiers of a candidate list.
pub open spec fn ids_of(s: Seq<(u32, Seq<char>)>) -> Seq<u32> {
    s.map_values(|p: (u32, Seq<char>)| p.0)
}

/// Advance the shared running maximum by one successful copy. Called by a
/// worker, under the run's single mutual-exclusion guard.
pub fn update_running_max(current: u32, id: u32) -> (r: u32)
    ensures
        r == spec_max(current, id),
        r >= current,
        r >= id,
{
    if id > current {
        id
    } else {
        current
    }
}

/// Fold a whole run's successful copies into the running maximum, in
/// completion order.
pub fn tally_copied(start: u32, copied: &Vec<u32>) -> (r: u32)
    ensures
        r == fold_max(start, copied@),
{
    let mut acc: u32 = start;
    let mut k: usize = 0;
    proof {
        assert(copied@.subrange(0, 0) =~= Seq::<u32>::empty());
    }
    while k < copied.len()
        invariant
            0 <= k <= copied@.len(),
            acc == fold_max(start, copied@.subrange(0, k as int)),
        decreases copied@.len() - k,
    {
        proof {
            let ext = copied@.subrange(0, k as int + 1);
            assert(ext.drop_last() =~= copied@.subrange(0, k as int));
            assert(ext.last() == copied@[k as int]);
        }
        acc = update_running_max(acc, copied[k]);
        k = k + 1;
    }
    proof {
        assert(copied@.subrange(0, copied@.len() as int) =~= copied@);
    }
    acc
}

/// The commit step's decision: `Some` of the value to persist when the
/// running maximum advanced past the loaded watermark, `None` when nothing
/// is written.
pub fn commit_value(running_max: u32, last_id: u32) -> (r: Option<u32>)
    ensures
        r == spec_commit(running_max, last_id),
        r is Some ==> r->Some_0 > last_id,
{
    if running_max > last_id {
        Some(running_max)
    } else {
        None
    }
}

/// What a worker does with what the queue handed it.
pub enum WorkerAction {
    /// Copy this candidate, then return to the queue.
    Process(Candidate),
    /// Terminate: the queue is closed and drained, or cancellation was
    /// observed (the received candidate is dropped, not requeued).
    Halt,
}

/// A worker's decision on one receive: process the received candidate unless
/// the cancellation flag was observed set; terminate on a closed, drained
/// queue.
pub fn worker_step(cancelled: bool, received: Option<Candidate>) -> (r: WorkerAction)
    ensures
        (match received {
            Some(c) => if cancelled {
                r is Halt
            } else {
                r == WorkerAction::Process(c)
            },
            None => r is Halt,
        }),
{
    match received {
        Some(c) => {
            if cancelled {
                WorkerAction::Halt
            } else {
                WorkerAction::Process(c)
            }
        },
        None => WorkerAction::Halt,
    }
}

/// The dispatcher's decision before each push: keep dispatching exactly
/// while cancellation has not been observed.
pub fn dispatch_continue(cancelled: bool) -> (r: bool)
    ensures
        r == !cancelled,
{
    !cancelled
}

/// The running maximum is the maximum: it never falls below its start, it
/// dominates every successful copy, and it is the start or one of the copied
/// identifiers. A full run therefore ends at `max(start, max of the copied
/// identifiers)`.
pub proof fn lemma_fold_max_bounds(start: u32, ids: Seq<u32>)
    ensures
        fold_max(start, ids) >= start,
        forall|k: int| 0 <= k < ids.len() ==> ids[k] <= fold_max(start, ids),
        fold_max(start, ids) == start || ids.contains(fold_max(start, ids)),
    decreases ids.len(),
{
    if ids.len() == 0 {
    } else {
        lemma_fold_max_bounds(start, ids.drop_last());
        let f = fold_max(start, ids);
        let fp = fold_max(start, ids.drop_last());
        assert forall|k: int| 0 <= k < ids.len() implies ids[k] <= f by {
            if k < ids.len() - 1 {
                assert(ids.drop_last()[k] == ids[k]);
            }
        }
        if f == ids.last() {
            assert(ids.contains(f)) by {
                assert(ids[ids.len() - 1] == f);
            }
        } else {
            assert(f == fp);
            if fp != start {
                let k = choose|k: int| 0 <= k < ids.drop_last().len() && ids.drop_last()[k] == fp;
                assert(ids[k] == fp);
            }
        }
    }
}

/// Schedule independence of the running maximum: two runs that copy the same
/// identifiers — in whatever completion order the worker threads produced —
/// end with the same running maximum. No interleaving loses an update.
pub proof fn lemma_fold_max_schedule_independent(start: u32, a: Seq<u32>, b: Seq<u32>)
    requires
        a.to_multiset() == b.to_multiset(),
    ensures
        fold_max(start, a) == fold_max(start, b),
{
    broadcast use group_to_multiset_ensures;

    lemma_fold_max_bounds(start, a);
    lemma_fold_max_bounds(start, b);
    let fa = fold_max(start, a);
    let fb = fold_max(start, b);
    assert(fa <= fb) by {
        if fa != start {
            assert(a.contains(fa));
            assert(a.to_multiset().count(fa) > 0);
            assert(b.to_multiset().count(fa) > 0);
            assert(b.contains(fa));
            let k = choose|k: int| 0 <= k < b.len() && b[k] == fa;
        }
    }
    assert(fb <= fa) by {
        if fb != start {
            assert(b.contains(fb));
            assert(b.to_multiset().count(fb) > 0);
            assert(a.to_multiset().count(fb) > 0);
            assert(a.contains(fb));
            let k = choose|k: int| 0 <= k < a.len() && a[k] == fb;
        }
    }
}

/// The watermark never decreases, and a commit always carries a value
/// strictly above the loaded watermark: the persisted watermark after any
/// run is exactly the final running maximum, which is at least the loaded
/// value.
pub proof fn lemma_watermark_monotone(last_id: u32, copied: Seq<u32>)
    ensures
        spec_final_watermark(last_id, copied) == fold_max(last_id, copied),
        spec_final_watermark(last_id, copied) >= last_id,
        spec_commit(fold_max(last_id, copied), last_id) is Some ==> spec_commit(
            fold_max(last_id, copied),
            last_id,
        )->Some_0 > last_id,
{
    lemma_fold_max_bounds(last_id, copied);
}

/// A run that copies every scanned candidate commits `max(W, max candidate
/// id)`: the final watermark dominates the loaded one and every copied
/// identifier, and is the loaded watermark or one of them.
pub proof fn lemma_full_run_watermark(last_id: u32, copied: Seq<u32>)
    ensures
        spec_final_watermark(last_id, copied) == fold_max(last_id, copied),
        spec_final_watermark(last_id, copied) >= last_id,
        forall|k: int| 0 <= k < copied.len() ==> copied[k] <= spec_final_watermark(last_id, copied),
        spec_final_watermark(last_id, copied) == last_id || copied.contains(
            spec_final_watermark(last_id, copied),
        ),
{
    lemma_fold_max_bounds(last_id, copied);
}

/// Idempotence: after a run that copied every candidate the scan offered, an
/// immediate second run over the same listing finds no candidate, commits
/// nothing, and leaves the watermark unchanged.
pub proof fn lemma_second_run_no_change(names: Seq<Seq<char>>, ext: Seq<char>, w: u32)
    ensures
        ({
            let w2 = spec_final_watermark(w, ids_of(spec_scan(names, ext, w)));
            &&& spec_scan(names, ext, w2).len() == 0
            &&& spec_commit(fold_max(w2, ids_of(spec_scan(names, ext, w2))), w2) is None
            &&& spec_final_watermark(w2, ids_of(spec_scan(names, ext, w2))) == w2
        }),
{
    let s1 = spec_scan(names, ext, w);
    let ids1 = ids_of(s1);
    lemma_fold_max_bounds(w, ids1);
    let w2 = spec_final_watermark(w, ids1);
    lemma_watermark_monotone(w, ids1);
    assert(w2 == fold_max(w, ids1));
    let s2 = spec_scan(names, ext, w2);
    if s2.len() > 0 {
        let p = s2[0];
        assert(s2.contains(p));
        lemma_sort_membership(spec_candidates(names, ext, w2), p);
        lemma_candidates_membership(names, ext, w2, p);
        let i = choose|i: int|
            0 <= i < names.len() && names[i] == p.1 && crate::names::spec_candidate_id(p.1, ext)
                == Some(p.0) && p.0 > w2;
        assert(p.0 > w);
        lemma_candidates_membership(names, ext, w, p);
        assert(spec_candidates(names, ext, w).contains(p));
        lemma_sort_membership(spec_candidates(names, ext, w), p);
        assert(s1.contains(p));
        let j = choose|j: int| 0 <= j < s1.len() && s1[j] == p;
        assert(ids1[j] == p.0);
        assert(p.0 <= w2);
        assert(false);
    }
    assert(ids_of(s2).len() == 0);
}

/// A concurrent run that copies every scanned candidate — in whatever
/// completion order the worker threads produced — ends with the running
/// maximum at the true maximum of the candidates' identifiers (or the loaded
/// watermark, when that is larger), and persists exactly that.
pub proof fn lemma_concurrent_run_correct(
    names: Seq<Seq<char>>,
    ext: Seq<char>,
    w: u32,
    completed: Seq<u32>,
)
    requires
        completed.to_multiset() == ids_of(spec_scan(names, ext, w)).to_multiset(),
    ensures
        fold_max(w, completed) == fold_max(w, ids_of(spec_scan(names, ext, w))),
        spec_final_watermark(w, completed) == fold_max(w, ids_of(spec_scan(names, ext, w))),
        spec_final_watermark(w, completed) >= w,
        forall|k: int| 0 <= k < completed.len() ==> completed[k] <= spec_final_watermark(
            w,
            completed,
        ),
{
    lemma_fold_max_schedule_independent(w, completed, ids_of(spec_scan(names, ext, w)));
    lemma_full_run_watermark(w, completed);
}

/// Cancellation bound: when only a part of the dispatched candidates was
/// copied, the running maximum stays within what was dispatched, and a
/// commit, if any happens, carries the largest successfully copied
/// identifier; without a commit the watermark stays put.
///
/// Known consistency gap, accepted by design: completion order is not
/// dispatch order, so the committed value can exceed the identifier of a
/// dispatched candidate whose copy never finished — later runs then never
/// re-offer that file. Committing the running maximum rather than the
/// highest contiguous prefix of completed identifiers accepts this.
pub proof fn lemma_cancellation_commit(w: u32, copied: Seq<u32>, dispatched: Seq<u32>)
    requires
        forall|k: int| 0 <= k < copied.len() ==> dispatched.contains(copied[k]),
    ensures
        fold_max(w, copied) <= fold_max(w, dispatched),
        (match spec_commit(fold_max(w, copied), w) {
            Some(v) => copied.contains(v) && forall|k: int|
                0 <= k < copied.len() ==> copied[k] <= v,
            None => spec_final_watermark(w, copied) == w,
        }),
{
    lemma_fold_max_bounds(w, copied);
    lemma_fold_max_bounds(w, dispatched);
    let f = fold_max(w, copied);
    if f != w {
        assert(copied.contains(f));
        let k = choose|k: int| 0 <= k < copied.len() && copied[k] == f;
        assert(dispatched.contains(f));
        let t = choose|t: int| 0 <= t < dispatched.len() && dispatched[t] == f;
    }
}

/// A worker consumes each candidate at most once: distinct successful copies
/// cannot outnumber the candidates dispatched before cancellation struck.
pub proof fn lemma_copies_bounded_by_dispatch(copied: Seq<u32>, dispatched: Seq<u32>)
    requires
        copied.no_duplicates(),
        forall|k: int| 0 <= k < copied.len() ==> dispatched.contains(copied[k]),
    ensures
        copied.len() <= dispatched.len(),
{
    broadcast use seq_to_set_is_finite, group_set_axioms;

    copied.unique_seq_to_set();
    dispatched.lemma_cardinality_of_set();
    assert(copied.to_set().subset_of(dispatched.to_set())) by {
        assert forall|x: u32| copied.to_set().contains(x) implies dispatched.to_set().contains(
            x,
        ) by {
            let k = choose|k: int| 0 <= k < copied.len() && copied[k] == x;
        }
    }
    lemma_len_subset(copied.to_set(), dispatched.to_set());
}

} // verus!
