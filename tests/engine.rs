use task_queue::queue::{create_task, process, CompletionError, Queue};
use task_queue::simulation::simulate;
use task_queue::task::{Completion, Outcome, Task, TaskState};

fn input(duration: usize) -> Task {
    Task { id: 0, duration, state: TaskState::Pending, result: None }
}

fn done(index: usize, value: usize) -> Completion {
    Completion { index, outcome: Outcome::Done(value) }
}

#[test]
fn new_queue_holds_two_pending_tasks() {
    let q = Queue::new();
    assert_eq!(q.capacity(), 2);
    assert_eq!(q.running(), 0);
    assert_eq!(q.next_index(), 0);
    let tasks = q.snapshot();
    assert_eq!(tasks.len(), 2);
    assert_eq!((tasks[0].id, tasks[0].duration), (0, 3));
    assert_eq!((tasks[1].id, tasks[1].duration), (1, 1));
    assert!(tasks.iter().all(|t| t.state == TaskState::Pending && t.result.is_none()));
}

#[test]
fn enqueue_assigns_sequential_ids_and_resets_state() {
    let mut q = Queue::with_capacity(1);
    let a = q.enqueue(Task { id: 9, duration: 4, state: TaskState::Completed, result: Some(7) });
    let b = create_task(&mut q, input(5));
    assert_eq!((a.id, a.duration, a.state, a.result), (0, 4, TaskState::Pending, None));
    assert_eq!((b.id, b.duration, b.state, b.result), (1, 5, TaskState::Pending, None));
    assert_eq!(q.len(), 2);
}

#[test]
fn process_admits_in_order_up_to_capacity() {
    let mut q = Queue::with_capacity(2);
    for d in [3, 1, 2] {
        create_task(&mut q, input(d));
    }
    assert_eq!(process(&mut q), vec![0, 1]);
    assert_eq!(q.running(), 2);
    assert_eq!(q.next_index(), 2);
    assert_eq!(q.task(2).unwrap().state, TaskState::Pending);
    assert_eq!(process(&mut q), Vec::<usize>::new());
}

#[test]
fn scenario_two_slots_three_tasks() {
    let mut q = Queue::with_capacity(2);
    for d in [3, 1, 2] {
        create_task(&mut q, input(d));
    }
    assert_eq!(process(&mut q), vec![0, 1]);
    // task 1 finishes first and frees the slot that task 2 takes
    assert_eq!(q.complete(done(1, 1)), Ok(()));
    assert_eq!(q.running(), 1);
    assert_eq!(process(&mut q), vec![2]);
    assert_eq!(q.task(0).unwrap().state, TaskState::Running);
    assert_eq!(simulate(2, &vec![3, 1, 2]), vec![Some(3), Some(1), Some(3)]);
}

#[test]
fn zero_capacity_never_admits() {
    let mut q = Queue::with_capacity(0);
    create_task(&mut q, input(1));
    create_task(&mut q, input(2));
    assert_eq!(process(&mut q), Vec::<usize>::new());
    assert_eq!(process(&mut q), Vec::<usize>::new());
    assert_eq!(q.running(), 0);
    assert!(q.snapshot().iter().all(|t| t.state == TaskState::Pending));
    assert_eq!(simulate(0, &vec![1, 2]), vec![None, None]);
}

#[test]
fn failed_worker_frees_its_slot() {
    let mut q = Queue::with_capacity(1);
    create_task(&mut q, input(1));
    create_task(&mut q, input(2));
    assert_eq!(process(&mut q), vec![0]);
    assert_eq!(q.complete(Completion { index: 0, outcome: Outcome::Failed }), Ok(()));
    assert_eq!(q.running(), 0);
    let t = q.task(0).unwrap();
    assert_eq!((t.state, t.result), (TaskState::Failed, None));
    assert_eq!(process(&mut q), vec![1]);
}

#[test]
fn busy_slots_leave_new_task_pending() {
    let mut q = Queue::with_capacity(1);
    create_task(&mut q, input(5));
    assert_eq!(process(&mut q), vec![0]);
    create_task(&mut q, input(1));
    create_task(&mut q, input(1));
    assert_eq!(process(&mut q), Vec::<usize>::new());
    assert_eq!(q.task(1).unwrap().state, TaskState::Pending);
    assert_eq!(q.complete(done(0, 5)), Ok(()));
    assert_eq!(process(&mut q), vec![1]);
    assert_eq!(q.task(2).unwrap().state, TaskState::Pending);
}

#[test]
fn completion_records_result() {
    let mut q = Queue::with_capacity(1);
    create_task(&mut q, input(4));
    process(&mut q);
    let t = q.task(0).unwrap();
    assert_eq!(t.compute(), 4);
    assert_eq!(q.complete(done(0, 4)), Ok(()));
    let t = q.task(0).unwrap();
    assert_eq!((t.state, t.result), (TaskState::Completed, Some(4)));
}

#[test]
fn completion_errors() {
    let mut q = Queue::with_capacity(1);
    create_task(&mut q, input(1));
    create_task(&mut q, input(1));
    assert_eq!(q.complete(done(5, 0)), Err(CompletionError::UnknownTask));
    assert_eq!(q.complete(done(0, 0)), Err(CompletionError::NotRunning));
    process(&mut q);
    assert_eq!(q.complete(done(0, 0)), Ok(()));
    assert_eq!(q.complete(done(0, 0)), Err(CompletionError::NotRunning));
    assert_eq!(q.running(), 0);
}

#[test]
fn batch_completion_counts_accepted_tokens() {
    let mut q = Queue::with_capacity(3);
    for d in [1, 1, 1, 1] {
        create_task(&mut q, input(d));
    }
    assert_eq!(process(&mut q), vec![0, 1, 2]);
    let tokens = vec![done(0, 1), done(2, 1), done(0, 1), done(9, 1)];
    assert_eq!(q.on_completion(&tokens), 2);
    assert_eq!(q.running(), 1);
    assert_eq!(process(&mut q), vec![3]);
    assert_eq!(q.running(), 2);
}

#[test]
fn snapshot_is_repeatable() {
    let mut q = Queue::new();
    process(&mut q);
    let a = q.snapshot();
    let b = q.snapshot();
    assert_eq!(a.len(), b.len());
    for (x, y) in a.iter().zip(b.iter()) {
        assert_eq!((x.id, x.duration, x.state, x.result), (y.id, y.duration, y.state, y.result));
    }
}

#[test]
fn running_never_exceeds_capacity() {
    let mut q = Queue::with_capacity(2);
    for d in 0..6 {
        create_task(&mut q, input(d));
    }
    let mut last_next = 0;
    for round in 0..6 {
        let started = process(&mut q);
        assert!(q.running() <= q.capacity());
        assert!(q.next_index() >= last_next && q.next_index() <= q.len());
        last_next = q.next_index();
        if let Some(&i) = started.first() {
            q.complete(done(i, round)).unwrap();
        }
    }
}

#[test]
fn simulate_matches_greedy_servers() {
    assert_eq!(simulate(1, &vec![2, 3, 1]), vec![Some(2), Some(5), Some(6)]);
    assert_eq!(simulate(3, &vec![4, 4]), vec![Some(4), Some(4)]);
    assert_eq!(simulate(2, &vec![5, 1, 1, 1, 4]), vec![Some(5), Some(1), Some(2), Some(3), Some(7)]);
    assert_eq!(simulate(2, &vec![0, 0, 3]), vec![Some(0), Some(0), Some(3)]);
    assert_eq!(simulate(2, &vec![]), Vec::<Option<usize>>::new());
}
