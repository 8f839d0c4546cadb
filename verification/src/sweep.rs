//! The sweep, taken one timeout entry at a time.
//!
//! A sweep removes entries from the root of the timeout heap for as long as
//! the root has run out of time. This module says what holds between two such
//! removals, and proves that a sweep which stops at the first entry with time
//! left has done all that the model asks of a sweep.

use crate::model::{expired, QueueState};
use crate::timeout_heap::TimeoutEntry;
use vstd::multiset::{group_multiset_axioms, Multiset};
use vstd::prelude::*;

verus! {

/// `root` is an entry of `heap` that is no later than any other.
pub open spec fn is_root(heap: Multiset<TimeoutEntry>, root: TimeoutEntry) -> bool {
    &&& heap.count(root) > 0
    &&& forall|other: TimeoutEntry| #[trigger] heap.count(other) > 0 ==> root.no_later_than(other)
}

/// A sweep at `now` that began in `start` has so far removed the entries
/// `taken` and requeued the jobs `ids`, and the broker holds `here`.
///
/// The entries removed so far had all run out of time and were no later than
/// any entry still in the heap. A job has left the pending table exactly when
/// its entry is among them, and then its id is in `ids`, which lists the jobs
/// in the order of their entries.
pub open spec fn sweeping(
    start: QueueState,
    now: u128,
    taken: Multiset<TimeoutEntry>,
    ids: Seq<u64>,
    here: QueueState,
) -> bool {
    &&& here.next_id == start.next_id
    &&& start.timeouts == here.timeouts.add(taken)
    &&& here.ready == start.ready + start.requeued_jobs(ids)
    &&& forall|e: TimeoutEntry| #[trigger] taken.count(e) > 0 ==> expired(e.sent, now)
    &&& forall|early: TimeoutEntry, late: TimeoutEntry|
        #![trigger taken.count(early), here.timeouts.count(late)]
        taken.count(early) > 0 && here.timeouts.count(late) > 0 ==> early.no_later_than(late)
    &&& forall|id: u64| #[trigger]
        here.pending.contains_key(id) <==> start.pending.contains_key(id) && taken.count(
            start.entry_of(id),
        ) == 0
    &&& forall|id: u64| #[trigger]
        here.pending.contains_key(id) ==> here.pending[id] == start.pending[id]
    &&& forall|i: int|
        0 <= i < ids.len() ==> start.pending.contains_key(#[trigger] ids[i]) && taken.count(
            start.entry_of(ids[i]),
        ) > 0
    &&& forall|id: u64|
        start.pending.contains_key(id) && taken.count(#[trigger] start.entry_of(id)) > 0
            ==> ids.contains(id)
    &&& forall|i: int, j: int|
        0 <= i < j < ids.len() ==> (#[trigger] ids[i]) != (#[trigger] ids[j]) && start.entry_of(
            ids[i],
        ).no_later_than(start.entry_of(ids[j]))
}

/// The broker after the sweep has removed `root` and found its job pending:
/// the job stands at the back of the ready queue.
pub open spec fn after_requeue(here: QueueState, root: TimeoutEntry) -> QueueState {
    QueueState {
        ready: here.ready.push(here.requeued_job(root.id)),
        pending: here.pending.remove(root.id),
        timeouts: here.timeouts.remove(root),
        next_id: here.next_id,
    }
}

/// The broker after the sweep has removed `root` and found no pending job for
/// it: only the entry is gone.
pub open spec fn after_discard(here: QueueState, root: TimeoutEntry) -> QueueState {
    QueueState {
        ready: here.ready,
        pending: here.pending,
        timeouts: here.timeouts.remove(root),
        next_id: here.next_id,
    }
}

/// A sweep begins with nothing removed and nothing requeued.
pub proof fn lemma_sweep_begins(start: QueueState, now: u128)
    ensures
        sweeping(start, now, Multiset::empty(), Seq::empty(), start),
{
    broadcast use group_multiset_axioms;
    assert(start.timeouts =~= start.timeouts.add(Multiset::empty()));
    assert(start.ready =~= start.ready + start.requeued_jobs(Seq::empty()));
}

/// The root of the heap belongs to the job it names, if that job is still
/// pending: the entry is no stale one.
pub proof fn lemma_root_of_pending_job(
    start: QueueState,
    now: u128,
    taken: Multiset<TimeoutEntry>,
    ids: Seq<u64>,
    here: QueueState,
    root: TimeoutEntry,
)
    requires
        start.valid(),
        sweeping(start, now, taken, ids, here),
        here.timeouts.count(root) > 0,
        here.pending.contains_key(root.id),
    ensures
        root == start.entry_of(root.id),
        here.requeued_job(root.id) == start.requeued_job(root.id),
{
    broadcast use group_multiset_axioms;
    assert(start.pending_job_ok(root.id));
    assert(start.timeouts.count(root) > 0);
    assert(start.timeouts.count(start.entry_of(root.id)) > 0);
}

/// Removing an overdue root whose job is pending, and requeueing the job, is
/// one more stretch of the sweep.
pub proof fn lemma_sweep_requeues(
    start: QueueState,
    now: u128,
    taken: Multiset<TimeoutEntry>,
    ids: Seq<u64>,
    here: QueueState,
    root: TimeoutEntry,
)
    requires
        start.valid(),
        sweeping(start, now, taken, ids, here),
        is_root(here.timeouts, root),
        expired(root.sent, now),
        here.pending.contains_key(root.id),
    ensures
        sweeping(start, now, taken.insert(root), ids.push(root.id), after_requeue(here, root)),
{
    broadcast use group_multiset_axioms;
    lemma_root_of_pending_job(start, now, taken, ids, here, root);
    let next = after_requeue(here, root);
    let more = taken.insert(root);
    let listed = ids.push(root.id);
    assert(start.timeouts =~= next.timeouts.add(more));
    assert(start.requeued_jobs(listed) =~= start.requeued_jobs(ids).push(
        start.requeued_job(root.id),
    ));
    assert(next.ready =~= start.ready + start.requeued_jobs(listed));
    assert forall|id: u64| #[trigger]
        next.pending.contains_key(id) <==> start.pending.contains_key(id) && more.count(
            start.entry_of(id),
        ) == 0 by {
        assert(here.pending.contains_key(id) <==> start.pending.contains_key(id) && taken.count(
            start.entry_of(id),
        ) == 0);
        if id != root.id {
            assert(start.entry_of(id) != root);
        }
    }
    assert forall|id: u64| #[trigger] next.pending.contains_key(id) implies next.pending[id]
        == start.pending[id] by {
        assert(here.pending.contains_key(id));
    }
    assert forall|i: int| 0 <= i < listed.len() implies start.pending.contains_key(
        #[trigger] listed[i],
    ) && more.count(start.entry_of(listed[i])) > 0 by {
        if i < ids.len() {
            assert(start.pending.contains_key(ids[i]));
        }
    }
    assert forall|id: u64|
        start.pending.contains_key(id) && more.count(#[trigger] start.entry_of(id))
            > 0 implies listed.contains(id) by {
        if id == root.id {
            assert(listed[listed.len() - 1] == id);
        } else {
            assert(start.entry_of(id) != root);
            assert(ids.contains(id));
            let i = choose|i: int| 0 <= i < ids.len() && ids[i] == id;
            assert(listed[i] == id);
        }
    }
    assert forall|i: int, j: int| 0 <= i < j < listed.len() implies (#[trigger] listed[i]) != (
    #[trigger] listed[j]) && start.entry_of(listed[i]).no_later_than(
        start.entry_of(listed[j]),
    ) by {
        if j < ids.len() {
            assert(ids[i] != ids[j]);
        } else {
            assert(start.pending.contains_key(ids[i]));
            assert(taken.count(start.entry_of(ids[i])) > 0);
            assert(here.timeouts.count(root) > 0);
        }
    }
}

/// Removing an overdue root whose job is no longer pending is one more
/// stretch of the sweep: such an entry is stale, and names no job that the
/// sweep began with.
pub proof fn lemma_sweep_discards(
    start: QueueState,
    now: u128,
    taken: Multiset<TimeoutEntry>,
    ids: Seq<u64>,
    here: QueueState,
    root: TimeoutEntry,
)
    requires
        start.valid(),
        sweeping(start, now, taken, ids, here),
        is_root(here.timeouts, root),
        expired(root.sent, now),
        !here.pending.contains_key(root.id),
    ensures
        !start.pending.contains_key(root.id),
        sweeping(start, now, taken.insert(root), ids, after_discard(here, root)),
{
    broadcast use group_multiset_axioms;
    let next = after_discard(here, root);
    let more = taken.insert(root);
    assert(start.timeouts.count(root) > 0);
    if start.pending.contains_key(root.id) {
        assert(start.pending_job_ok(root.id));
        assert(start.timeouts.count(start.entry_of(root.id)) > 0);
        assert(start.entry_of(root.id) == root);
        assert(taken.count(root) > 0);
        assert(start.timeouts.count(root) >= 2);
    }
    assert(start.timeouts =~= next.timeouts.add(more));
    assert forall|id: u64| #[trigger]
        next.pending.contains_key(id) <==> start.pending.contains_key(id) && more.count(
            start.entry_of(id),
        ) == 0 by {
        assert(here.pending.contains_key(id) <==> start.pending.contains_key(id) && taken.count(
            start.entry_of(id),
        ) == 0);
    }
    assert forall|i: int| 0 <= i < ids.len() implies start.pending.contains_key(
        #[trigger] ids[i],
    ) && more.count(start.entry_of(ids[i])) > 0 by {
        assert(start.pending.contains_key(ids[i]));
    }
    assert forall|id: u64|
        start.pending.contains_key(id) && more.count(#[trigger] start.entry_of(id))
            > 0 implies ids.contains(id) by {
        assert(start.entry_of(id) != root);
    }
}

/// When the root of the heap has time left, so has every entry.
pub proof fn lemma_root_has_time_left(heap: Multiset<TimeoutEntry>, root: TimeoutEntry, now: u128)
    requires
        is_root(heap, root),
        !expired(root.sent, now),
    ensures
        forall|e: TimeoutEntry| #[trigger] heap.count(e) > 0 ==> !expired(e.sent, now),
{
    assert forall|e: TimeoutEntry| #[trigger] heap.count(e) > 0 implies !expired(e.sent, now) by {
        assert(root.no_later_than(e));
    }
}

/// A sweep that stops when no entry in the heap has run out of time has
/// requeued the overdue jobs in their order, and has left the broker as the
/// model says.
pub proof fn lemma_sweep_ends(
    start: QueueState,
    now: u128,
    taken: Multiset<TimeoutEntry>,
    ids: Seq<u64>,
    here: QueueState,
)
    requires
        start.valid(),
        sweeping(start, now, taken, ids, here),
        forall|e: TimeoutEntry| #[trigger] here.timeouts.count(e) > 0 ==> !expired(e.sent, now),
    ensures
        start.requeue_order(now, ids),
        here == start.sweep(now, ids),
{
    broadcast use group_multiset_axioms;
    let after = start.sweep(now, ids);
    assert forall|i: int| 0 <= i < ids.len() implies start.is_overdue(#[trigger] ids[i], now) by {
        assert(taken.count(start.entry_of(ids[i])) > 0);
    }
    assert forall|id: u64| #[trigger] start.is_overdue(id, now) implies ids.contains(id) by {
        assert(start.pending_job_ok(id));
        assert(start.timeouts.count(start.entry_of(id)) > 0);
        assert(here.timeouts.count(start.entry_of(id)) == 0);
    }
    assert(here.timeouts =~= after.timeouts);
    assert forall|id: u64| here.pending.contains_key(id) <==> after.pending.contains_key(id) by {
        if start.pending.contains_key(id) {
            assert(start.pending_job_ok(id));
            if taken.count(start.entry_of(id)) == 0 {
                assert(here.timeouts.count(start.entry_of(id)) > 0);
            }
        }
    }
    assert(here.pending =~= after.pending);
}

/// A heap that is not empty has a root.
pub proof fn lemma_root_exists(heap: Multiset<TimeoutEntry>) -> (root: TimeoutEntry)
    requires
        heap.len() > 0,
    ensures
        is_root(heap, root),
    decreases heap.len(),
{
    broadcast use group_multiset_axioms;
    let any = heap.choose();
    let rest = heap.remove(any);
    if rest.len() == 0 {
        assert forall|other: TimeoutEntry| #[trigger] heap.count(other) > 0 implies any.no_later_than(
            other,
        ) by {
            vstd::multiset::axiom_count_le_len(rest, other);
        }
        any
    } else {
        let least = lemma_root_exists(rest);
        let root = if any.no_later_than(least) {
            any
        } else {
            least
        };
        assert forall|other: TimeoutEntry| #[trigger] heap.count(other) > 0 implies root.no_later_than(
            other,
        ) by {
            if other != any {
                assert(rest.count(other) > 0);
            }
        }
        root
    }
}

/// A sweep under way can be brought to its end: the jobs requeued so far are
/// the front of a full listing of the overdue jobs in their order.
pub proof fn lemma_sweep_completes(
    start: QueueState,
    now: u128,
    taken: Multiset<TimeoutEntry>,
    ids: Seq<u64>,
    here: QueueState,
) -> (all: Seq<u64>)
    requires
        start.valid(),
        sweeping(start, now, taken, ids, here),
    ensures
        start.requeue_order(now, all),
    decreases here.timeouts.len(),
{
    broadcast use group_multiset_axioms;
    if here.timeouts.len() == 0 {
        assert forall|e: TimeoutEntry| #[trigger] here.timeouts.count(e) > 0 implies !expired(
            e.sent,
            now,
        ) by {
            vstd::multiset::axiom_count_le_len(here.timeouts, e);
        }
        lemma_sweep_ends(start, now, taken, ids, here);
        ids
    } else {
        let root = lemma_root_exists(here.timeouts);
        if !expired(root.sent, now) {
            lemma_root_has_time_left(here.timeouts, root, now);
            lemma_sweep_ends(start, now, taken, ids, here);
            ids
        } else if here.pending.contains_key(root.id) {
            lemma_sweep_requeues(start, now, taken, ids, here, root);
            lemma_sweep_completes(
                start,
                now,
                taken.insert(root),
                ids.push(root.id),
                after_requeue(here, root),
            )
        } else {
            lemma_sweep_discards(start, now, taken, ids, here, root);
            lemma_sweep_completes(start, now, taken.insert(root), ids, after_discard(here, root))
        }
    }
}

} // verus!
