use vstd::prelude::*;

use crate::queue::{Queue, QueueView};
use crate::task::{
    count_running, lemma_count_running_push, lemma_count_running_update, pending_task, Completion,
    Task, TaskState,
};

verus! {

/// The tasks of `s`, with those at positions `lo .. lo + k` started.
pub open spec fn start_range(s: Seq<Task>, lo: int, k: int) -> Seq<Task> {
    Seq::new(s.len(), |i: int| if lo <= i < lo + k { s[i].started() } else { s[i] })
}

/// Starting `k` tasks that were not running adds `k` to the running count.
pub proof fn lemma_count_running_start_range(s: Seq<Task>, lo: int, k: int)
    requires
        0 <= lo,
        0 <= k,
        lo + k <= s.len(),
        forall|i: int| lo <= i < lo + k ==> !(#[trigger] s[i]).is_running(),
    ensures
        count_running(start_range(s, lo, k)) == count_running(s) + k,
    decreases k,
{
    if k == 0 {
        assert(start_range(s, lo, k) =~= s);
    } else {
        lemma_count_running_start_range(s, lo, k - 1);
        let prev = start_range(s, lo, k - 1);
        assert(start_range(s, lo, k) =~= prev.update(lo + k - 1, s[lo + k - 1].started()));
        lemma_count_running_update(prev, lo + k - 1, s[lo + k - 1].started());
    }
}

impl QueueView {
    /// One move of the engine: a submission while the ledger has room, an
    /// admission pass, or an accepted completion token.
    pub open spec fn step(self, next: QueueView) -> bool {
        ||| self.tasks.len() < usize::MAX && exists|d: usize| next == #[trigger] self.submit(d)
        ||| next == self.after_admission()
        ||| exists|c: Completion| #[trigger] self.accepts(c) && next == self.complete(c)
    }
}

/// Every move of the engine keeps the queue well formed, so in every state
/// reached from a new queue the number of running tasks stays between zero and
/// the capacity, and the position of the next task to admit never moves back
/// and never passes the end of the ledger.
pub proof fn lemma_step_keeps_bounds(a: QueueView, b: QueueView)
    requires
        a.wf(),
        a.step(b),
    ensures
        b.wf(),
        0 <= b.running <= b.capacity,
        b.capacity == a.capacity,
        a.next <= b.next <= b.tasks.len(),
{
    if a.tasks.len() < usize::MAX && exists|d: usize| b == #[trigger] a.submit(d) {
        let d = choose|d: usize| b == #[trigger] a.submit(d);
        lemma_count_running_push(a.tasks, pending_task(a.tasks.len(), d));
    } else if b == a.after_admission() {
        let k = a.admission_count() as int;
        assert(b.tasks =~= start_range(a.tasks, a.next as int, k));
        lemma_count_running_start_range(a.tasks, a.next as int, k);
    } else {
        let c = choose|c: Completion| #[trigger] a.accepts(c) && b == a.complete(c);
        let i = c.index as int;
        lemma_count_running_update(a.tasks, i, a.tasks[i].finished(c.outcome));
        assert(i < a.next);
    }
}

/// Admission is first in, first out: whenever a task has left `Pending`,
/// every task submitted before it has too.
pub proof fn lemma_admission_in_order(q: QueueView, i: int, j: int)
    requires
        q.wf(),
        0 <= i < j < q.tasks.len(),
        q.tasks[j].state != TaskState::Pending,
    ensures
        q.tasks[i].state != TaskState::Pending,
{
    assert(j < q.next);
}

/// Two snapshots of the same queue, with no change in between, are equal.
pub proof fn lemma_snapshot_repeatable(q: &Queue, first: Vec<Task>, second: Vec<Task>)
    requires
        first@ == q@.tasks,
        second@ == q@.tasks,
    ensures
        first@ == second@,
{
}

} // verus!
