use vstd::prelude::*;

use crate::task::{
    count_running, lemma_count_running_push, lemma_count_running_update, pending_task, Completion,
    Outcome, Task, TaskState,
};

verus! {

/// Abstract state of a queue.
pub struct QueueView {
    /// Largest number of tasks allowed to run at once.
    pub capacity: nat,
    /// Number of tasks currently running.
    pub running: nat,
    /// Ledger position of the next task to admit.
    pub next: nat,
    /// The ledger, in submission order.
    pub tasks: Seq<Task>,
}

impl QueueView {
    /// The queue's invariant: at most `capacity` tasks run and `running`
    /// counts them; ids are ledger positions; the tasks before `next` have
    /// been admitted and those from `next` on are pending; a task holds a
    /// result exactly when it has completed.
    pub open spec fn wf(self) -> bool {
        &&& self.capacity <= u8::MAX
        &&& self.running <= self.capacity
        &&& self.next <= self.tasks.len() <= usize::MAX
        &&& self.running == count_running(self.tasks)
        &&& forall|i: int| 0 <= i < self.tasks.len() ==> (#[trigger] self.tasks[i]).id == i
        &&& forall|i: int|
            0 <= i < self.next ==> (#[trigger] self.tasks[i]).state != TaskState::Pending
        &&& forall|i: int|
            self.next <= i < self.tasks.len() ==> (#[trigger] self.tasks[i]).state
                == TaskState::Pending
        &&& forall|i: int|
            0 <= i < self.tasks.len() ==> ((#[trigger] self.tasks[i]).state == TaskState::Completed
                <==> self.tasks[i].result is Some)
    }

    /// The state after a task of the given duration is submitted.
    pub open spec fn submit(self, duration: usize) -> QueueView {
        QueueView { tasks: self.tasks.push(pending_task(self.tasks.len(), duration)), ..self }
    }

    /// How many tasks one admission pass starts: as many as there are free
    /// slots, but no more than are waiting.
    pub open spec fn admission_count(self) -> nat {
        let free = (self.capacity - self.running) as nat;
        let waiting = (self.tasks.len() - self.next) as nat;
        if free <= waiting {
            free
        } else {
            waiting
        }
    }

    /// The state after one admission pass.
    pub open spec fn after_admission(self) -> QueueView {
        let k = self.admission_count();
        QueueView {
            running: self.running + k,
            next: self.next + k,
            tasks: Seq::new(
                self.tasks.len(),
                |i: int|
                    if self.next <= i < self.next + k {
                        self.tasks[i].started()
                    } else {
                        self.tasks[i]
                    },
            ),
            ..self
        }
    }

    /// A token is accepted when it names a task that is running.
    pub open spec fn accepts(self, c: Completion) -> bool {
        c.index < self.tasks.len() && self.tasks[c.index as int].is_running()
    }

    /// The state after an accepted token.
    pub open spec fn complete(self, c: Completion) -> QueueView {
        QueueView {
            running: (self.running - 1) as nat,
            tasks: self.tasks.update(c.index as int, self.tasks[c.index as int].finished(c.outcome)),
            ..self
        }
    }

    /// The state after a batch of tokens, each applied in turn; a token that
    /// is not accepted changes nothing.
    pub open spec fn complete_all(self, cs: Seq<Completion>) -> QueueView
        decreases cs.len(),
    {
        if cs.len() == 0 {
            self
        } else {
            let q = self.complete_all(cs.drop_last());
            if q.accepts(cs.last()) {
                q.complete(cs.last())
            } else {
                q
            }
        }
    }

    /// Number of tokens of a batch that were accepted.
    pub open spec fn accepted_count(self, cs: Seq<Completion>) -> nat
        decreases cs.len(),
    {
        if cs.len() == 0 {
            0
        } else {
            self.accepted_count(cs.drop_last()) + if self.complete_all(cs.drop_last()).accepts(
                cs.last(),
            ) {
                1nat
            } else {
                0nat
            }
        }
    }
}

/// Why a completion token was refused.
#[derive(Clone, Copy, Debug, PartialEq, Eq, Structural)]
pub enum CompletionError {
    /// No task stands at that ledger position.
    UnknownTask,
    /// The task there is not running: it is still waiting or already finished.
    NotRunning,
}

/// The ledger together with the admission counters.
pub struct Queue {
    max_concurrent_tasks: u8,
    current_number_tasks: u8,
    index: usize,
    tasks: Vec<Task>,
}

impl View for Queue {
    type V = QueueView;

    closed spec fn view(&self) -> QueueView {
        QueueView {
            capacity: self.max_concurrent_tasks as nat,
            running: self.current_number_tasks as nat,
            next: self.index as nat,
            tasks: self.tasks@,
        }
    }
}

impl Queue {
    /// See [`QueueView::wf`].
    pub open spec fn wf(&self) -> bool {
        self@.wf()
    }

    /// An empty queue that runs at most `capacity` tasks at once.
    pub fn with_capacity(capacity: u8) -> (q: Queue)
        ensures
            q.wf(),
            q@.capacity == capacity,
            q@.running == 0,
            q@.next == 0,
            q@.tasks == Seq::<Task>::empty(),
    {
        let q = Queue {
            max_concurrent_tasks: capacity,
            current_number_tasks: 0,
            index: 0,
            tasks: Vec::new(),
        };
        assert(count_running(q.tasks@) == 0);
        q
    }

    /// A queue of capacity two that already holds two pending tasks, of
    /// durations 3 and 1.
    pub fn new() -> (q: Queue)
        ensures
            q.wf(),
            q@.capacity == 2,
            q@.running == 0,
            q@.next == 0,
            q@.tasks == seq![pending_task(0, 3), pending_task(1, 1)],
    {
        let mut q = Queue::with_capacity(2);
        q.enqueue(Task { id: 0, duration: 3, state: TaskState::Pending, result: None });
        q.enqueue(Task { id: 1, duration: 1, state: TaskState::Pending, result: None });
        assert(q@.tasks =~= seq![pending_task(0, 3), pending_task(1, 1)]);
        q
    }

    /// Appends a task to the ledger. Only the duration of `task` is taken: the
    /// stored task gets the next ledger position as its id, is pending and has
    /// no result. Returns the stored task.
    pub fn enqueue(&mut self, task: Task) -> (r: Task)
        requires
            old(self).wf(),
            old(self)@.tasks.len() < usize::MAX,
        ensures
            final(self).wf(),
            r == pending_task(old(self)@.tasks.len(), task.duration),
            final(self)@ == old(self)@.submit(task.duration),
    {
        let stored = Task {
            id: self.tasks.len(),
            duration: task.duration,
            state: TaskState::Pending,
            result: None,
        };
        proof {
            lemma_count_running_push(self.tasks@, stored);
        }
        self.tasks.push(stored);
        stored
    }

    /// Applies one completion token: the named task takes its terminal state
    /// and result, and its slot is freed.
    pub fn complete(&mut self, token: Completion) -> (r: Result<(), CompletionError>)
        requires
            old(self).wf(),
        ensures
            final(self).wf(),
            r is Ok <==> old(self)@.accepts(token),
            r is Ok ==> final(self)@ == old(self)@.complete(token),
            r is Ok ==> final(self)@.running + 1 == old(self)@.running,
            r is Err ==> final(self)@ == old(self)@,
            r == Err::<(), CompletionError>(CompletionError::UnknownTask) <==> token.index
                >= old(self)@.tasks.len(),
    {
        if token.index >= self.tasks.len() {
            return Err(CompletionError::UnknownTask);
        }
        let t = self.tasks[token.index];
        if t.state != TaskState::Running {
            return Err(CompletionError::NotRunning);
        }
        let done = match token.outcome {
            Outcome::Done(v) => Task { state: TaskState::Completed, result: Some(v), ..t },
            Outcome::Failed => Task { state: TaskState::Failed, result: None, ..t },
        };
        proof {
            lemma_count_running_update(self.tasks@, token.index as int, done);
        }
        self.tasks.set(token.index, done);
        self.current_number_tasks = self.current_number_tasks - 1;
        proof {
            assert(self@.tasks =~= old(self)@.complete(token).tasks);
        }
        Ok(())
    }

    /// Applies a batch of completion tokens in order and returns how many were
    /// accepted; `running` drops by exactly that number.
    pub fn on_completion(&mut self, tokens: &Vec<Completion>) -> (n: usize)
        requires
            old(self).wf(),
        ensures
            final(self).wf(),
            final(self)@ == old(self)@.complete_all(tokens@),
            n == old(self)@.accepted_count(tokens@),
            final(self)@.running + n == old(self)@.running,
    {
        let mut n: usize = 0;
        let mut i: usize = 0;
        while i < tokens.len()
            invariant
                i <= tokens.len(),
                self.wf(),
                self@ == old(self)@.complete_all(tokens@.take(i as int)),
                n == old(self)@.accepted_count(tokens@.take(i as int)),
                self@.running + n == old(self)@.running,
            decreases tokens.len() - i,
        {
            let c = tokens[i];
            let r = self.complete(c);
            proof {
                assert(tokens@.take(i + 1).drop_last() =~= tokens@.take(i as int));
            }
            if r.is_ok() {
                n = n + 1;
            }
            i = i + 1;
        }
        proof {
            assert(tokens@.take(i as int) =~= tokens@);
        }
        n
    }

    /// A point-in-time copy of the ledger, in submission order.
    pub fn snapshot(&self) -> (r: Vec<Task>)
        ensures
            r@ == self@.tasks,
    {
        self.tasks.clone()
    }

    /// Largest number of tasks allowed to run at once.
    pub fn capacity(&self) -> (r: u8)
        ensures
            r == self@.capacity,
    {
        self.max_concurrent_tasks
    }

    /// Number of tasks currently running.
    pub fn running(&self) -> (r: u8)
        ensures
            r == self@.running,
    {
        self.current_number_tasks
    }

    /// Ledger position of the next task to admit.
    pub fn next_index(&self) -> (r: usize)
        ensures
            r == self@.next,
    {
        self.index
    }

    /// Number of tasks in the ledger.
    pub fn len(&self) -> (r: usize)
        ensures
            r == self@.tasks.len(),
    {
        self.tasks.len()
    }

    /// The task at ledger position `i`, if there is one.
    pub fn task(&self, i: usize) -> (r: Option<Task>)
        ensures
            i < self@.tasks.len() ==> r == Some(self@.tasks[i as int]),
            i >= self@.tasks.len() ==> r is None,
    {
        if i < self.tasks.len() {
            Some(self.tasks[i])
        } else {
            None
        }
    }
}

/// One admission pass: starts pending tasks in ledger order while a slot is
/// free, and returns the ledger positions of the tasks it started, in order.
pub fn process(queue: &mut Queue) -> (started: Vec<usize>)
    requires
        old(queue).wf(),
    ensures
        final(queue).wf(),
        final(queue)@ == old(queue)@.after_admission(),
        started@.len() == old(queue)@.admission_count(),
        forall|j: int|
            0 <= j < started@.len() ==> #[trigger] started@[j] == old(queue)@.next + j,
{
    let ghost q0 = queue@;
    let mut started: Vec<usize> = Vec::new();
    while queue.current_number_tasks < queue.max_concurrent_tasks && queue.index < queue.tasks.len()
        invariant
            queue.wf(),
            q0.wf(),
            queue@.capacity == q0.capacity,
            q0.next <= queue@.next,
            queue@.next - q0.next <= q0.admission_count(),
            queue@.running == q0.running + (queue@.next - q0.next),
            queue@.tasks.len() == q0.tasks.len(),
            forall|i: int|
                0 <= i < q0.tasks.len() ==> #[trigger] queue@.tasks[i] == if q0.next <= i
                    < queue@.next {
                    q0.tasks[i].started()
                } else {
                    q0.tasks[i]
                },
            started@.len() == queue@.next - q0.next,
            forall|j: int| 0 <= j < started@.len() ==> #[trigger] started@[j] == q0.next + j,
        decreases queue.tasks.len() - queue.index,
    {
        let i = queue.index;
        let t = queue.tasks[i];
        let s = Task { state: TaskState::Running, ..t };
        proof {
            lemma_count_running_update(queue.tasks@, i as int, s);
        }
        queue.tasks.set(i, s);
        queue.current_number_tasks = queue.current_number_tasks + 1;
        queue.index = i + 1;
        started.push(i);
    }
    proof {
        assert(queue@.tasks =~= q0.after_admission().tasks);
    }
    started
}

/// Submits a task: see [`Queue::enqueue`].
pub fn create_task(queue: &mut Queue, task: Task) -> (r: Task)
    requires
        old(queue).wf(),
        old(queue)@.tasks.len() < usize::MAX,
    ensures
        final(queue).wf(),
        r == pending_task(old(queue)@.tasks.len(), task.duration),
        final(queue)@ == old(queue)@.submit(task.duration),
{
    queue.enqueue(task)
}

} // verus!
