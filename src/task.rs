use vstd::prelude::*;

verus! {

/// Lifecycle of a task: it only ever moves forward, from `Pending` to
/// `Running` to one of the two terminal states.
#[derive(Clone, Copy, Debug, PartialEq, Eq, Structural)]
pub enum TaskState {
    Pending,
    Running,
    Completed,
    Failed,
}

/// A unit of work held in the ledger.
#[derive(Clone, Copy, Debug)]
pub struct Task {
    /// Position in the ledger, assigned on submission.
    pub id: usize,
    /// The cost supplied on submission.
    pub duration: usize,
    pub state: TaskState,
    /// Absent until the task has completed.
    pub result: Option<usize>,
}

/// What a worker reports once it is done with a task.
#[derive(Clone, Copy, Debug, PartialEq, Eq, Structural)]
pub enum Outcome {
    /// The compute step returned this value.
    Done(usize),
    /// The compute step did not finish normally.
    Failed,
}

/// A completion token: the ledger position of a finished task and how it ended.
#[derive(Clone, Copy, Debug, PartialEq, Eq, Structural)]
pub struct Completion {
    pub index: usize,
    pub outcome: Outcome,
}

/// A freshly submitted task at ledger position `id`.
pub open spec fn pending_task(id: nat, duration: usize) -> Task {
    Task { id: id as usize, duration, state: TaskState::Pending, result: None }
}

impl Task {
    /// The task once admitted.
    pub open spec fn started(self) -> Task {
        Task { state: TaskState::Running, ..self }
    }

    /// The task once its worker has reported `outcome`.
    pub open spec fn finished(self, outcome: Outcome) -> Task {
        match outcome {
            Outcome::Done(v) => Task { state: TaskState::Completed, result: Some(v), ..self },
            Outcome::Failed => Task { state: TaskState::Failed, result: None, ..self },
        }
    }

    pub open spec fn is_running(self) -> bool {
        self.state == TaskState::Running
    }

    /// The deterministic compute step: its outcome is the task's duration.
    pub fn compute(&self) -> (r: u64)
        ensures
            r == self.duration,
    {
        self.duration as u64
    }
}

/// Number of tasks of `s` that are running.
pub open spec fn count_running(s: Seq<Task>) -> nat
    decreases s.len(),
{
    if s.len() == 0 {
        0
    } else {
        count_running(s.drop_last()) + if s.last().is_running() {
            1nat
        } else {
            0nat
        }
    }
}

/// Replacing one task changes the running count by the change in that task alone.
pub proof fn lemma_count_running_update(s: Seq<Task>, i: int, t: Task)
    requires
        0 <= i < s.len(),
    ensures
        count_running(s.update(i, t)) + (if s[i].is_running() { 1int } else { 0int })
            == count_running(s) + (if t.is_running() { 1int } else { 0int }),
    decreases s.len(),
{
    let u = s.update(i, t);
    if i == s.len() - 1 {
        assert(u.drop_last() =~= s.drop_last());
    } else {
        assert(u.drop_last() =~= s.drop_last().update(i, t));
        lemma_count_running_update(s.drop_last(), i, t);
    }
}

/// Appending a task that is not running leaves the running count as it was.
pub proof fn lemma_count_running_push(s: Seq<Task>, t: Task)
    requires
        !t.is_running(),
    ensures
        count_running(s.push(t)) == count_running(s),
{
    assert(s.push(t).drop_last() =~= s);
}

} // verus!
