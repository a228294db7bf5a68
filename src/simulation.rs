use vstd::multiset::Multiset;
use vstd::prelude::*;

use crate::queue::{process, Queue};
use crate::task::{count_running, Completion, Outcome, Task, TaskState};
use crate::theorems::start_range;

verus! {

/// `n` copies of `v`.
pub open spec fn copies(v: int, n: nat) -> Multiset<int>
    decreases n,
{
    if n == 0 {
        Multiset::empty()
    } else {
        copies(v, (n - 1) as nat).insert(v)
    }
}

/// `m` is a smallest element of `ms`.
pub open spec fn is_least(ms: Multiset<int>, m: int) -> bool {
    ms.contains(m) && forall|x: int| #[trigger] ms.contains(x) ==> m <= x
}

/// The smallest element of a non-empty multiset.
pub open spec fn least(ms: Multiset<int>) -> int {
    choose|m: int| is_least(ms, m)
}

/// Reference model of `c` servers fed in FIFO order: the times at which the
/// servers become free once the first `k` tasks have been given out, each to
/// a server that frees earliest. All tasks arrive at time zero.
pub open spec fn server_free_times(c: nat, ds: Seq<usize>, k: nat) -> Multiset<int>
    decreases k,
{
    if k == 0 {
        copies(0, c)
    } else {
        let f = server_free_times(c, ds, (k - 1) as nat);
        let m = least(f);
        f.remove(m).insert(m + ds[k - 1])
    }
}

/// In the reference model, the time at which task `k` finishes.
pub open spec fn completion_time(c: nat, ds: Seq<usize>, k: nat) -> int {
    least(server_free_times(c, ds, k)) + ds[k as int]
}

/// Sum of the first `k` durations.
pub open spec fn prefix_sum(ds: Seq<usize>, k: nat) -> int
    decreases k,
{
    if k == 0 {
        0
    } else {
        prefix_sum(ds, (k - 1) as nat) + ds[k - 1]
    }
}

/// Finish times of the running tasks of `tasks`, where `fin[i]` is the finish
/// time of task `i`.
pub open spec fn busy(tasks: Seq<Task>, fin: Seq<usize>) -> Multiset<int>
    decreases tasks.len(),
{
    if tasks.len() == 0 {
        Multiset::empty()
    } else {
        let rest = busy(tasks.drop_last(), fin);
        if tasks.last().is_running() {
            rest.insert(fin[tasks.len() - 1] as int)
        } else {
            rest
        }
    }
}

/// Runs the engine on `durations` in simulated time, every task submitted at
/// time zero: admission passes alternate with the completion of a task that
/// finishes earliest. Returns, for each task, the time at which it finishes,
/// or `None` for a task that is never admitted. The finish times are those of
/// the reference model of `capacity` servers fed in FIFO order.
pub fn simulate(capacity: u8, durations: &Vec<usize>) -> (r: Vec<Option<usize>>)
    requires
        prefix_sum(durations@, durations@.len() as nat) <= usize::MAX,
    ensures
        r@.len() == durations@.len(),
        capacity == 0 ==> forall|i: int| 0 <= i < r@.len() ==> r@[i] is None,
        capacity > 0 ==> forall|i: int|
            0 <= i < r@.len() ==> (#[trigger] r@[i]) is Some && r@[i].unwrap() as int
                == completion_time(capacity as nat, durations@, i as nat),
{
    let ghost ds = durations@;
    let ghost c = capacity as nat;
    let n = durations.len();
    let mut q = Queue::with_capacity(capacity);
    let mut fin: Vec<usize> = Vec::new();
    let mut i: usize = 0;
    while i < n
        invariant
            ds == durations@,
            c == capacity as nat,
            prefix_sum(ds, n as nat) <= usize::MAX,
            n == ds.len(),
            i <= n,
            q.wf(),
            q@.capacity == capacity,
            q@.running == 0,
            q@.next == 0,
            q@.tasks.len() == i,
            fin@.len() == i,
            forall|j: int| 0 <= j < i ==> (#[trigger] q@.tasks[j]).duration == ds[j],
        decreases n - i,
    {
        q.enqueue(Task { id: i, duration: durations[i], state: TaskState::Pending, result: None });
        fin.push(0);
        i = i + 1;
    }
    proof {
        assert forall|x: int| busy(q@.tasks, fin@).count(x) == 0 by {
            lemma_busy_contains(q@.tasks, fin@, x);
            assert forall|y: int| 0 <= y < q@.tasks.len() implies !(
            #[trigger] q@.tasks[y]).is_running() by {
                assert(q@.tasks[y].state == TaskState::Pending);
            }
        }
        assert(busy(q@.tasks, fin@) =~= Multiset::empty());
        assert(busy(q@.tasks, fin@).add(copies(0, c)) =~= copies(0, c));
    }
    let mut now: usize = 0;
    loop
        invariant
            ds == durations@,
            c == capacity as nat,
            prefix_sum(ds, n as nat) <= usize::MAX,
            n == ds.len(),
            q.wf(),
            q@.capacity == capacity,
            q@.tasks.len() == n,
            fin@.len() == n,
            capacity == 0 ==> q@.next == 0,
            forall|j: int| 0 <= j < n ==> (#[trigger] q@.tasks[j]).duration == ds[j],
            forall|j: int| 0 <= j < n && (#[trigger] q@.tasks[j]).is_running() ==> now <= fin@[j],
            forall|j: int|
                0 <= j < q@.next ==> (#[trigger] fin@[j]) as int == completion_time(
                    c,
                    ds,
                    j as nat,
                ) && fin@[j] <= prefix_sum(ds, (j + 1) as nat),
            now <= prefix_sum(ds, q@.next),
            q@.next < n ==> server_free_times(c, ds, q@.next) == busy(q@.tasks, fin@).add(
                copies(now as int, (c - q@.running) as nat),
            ),
        ensures
            q@.tasks.len() == n,
            fin@.len() == n,
            capacity == 0 ==> q@.next == 0,
            capacity > 0 ==> q@.next == n,
            forall|j: int|
                0 <= j < q@.next ==> (#[trigger] fin@[j]) as int == completion_time(
                    c,
                    ds,
                    j as nat,
                ),
        decreases 2 * (n - q@.next) + q@.running,
    {
        let ghost q0 = q@;
        let ghost fin0 = fin@;
        let ghost lo = q0.next as int;
        let ghost free = (c - q0.running) as nat;
        let started = process(&mut q);
        assert(q@.tasks =~= start_range(q0.tasks, lo, q0.admission_count() as int));
        assert(start_range(q0.tasks, lo, 0) =~= q0.tasks);
        let mut j: usize = 0;
        while j < started.len()
            invariant
                ds == durations@,
                c == capacity as nat,
                n == ds.len(),
                q0.wf(),
                q0.tasks.len() == n,
                q0.capacity == capacity,
                lo == q0.next,
                free == (c - q0.running) as nat,
                q@ == q0.after_admission(),
                started@.len() == q0.admission_count(),
                forall|x: int| 0 <= x < started@.len() ==> #[trigger] started@[x] == lo + x,
                forall|x: int| 0 <= x < n ==> (#[trigger] q0.tasks[x]).duration == ds[x],
                j <= started.len(),
                fin@.len() == n,
                fin0.len() == n,
                forall|x: int| 0 <= x < n && !(lo <= x < lo + j) ==> #[trigger] fin@[x] == fin0[x],
                forall|x: int|
                    0 <= x < n && (#[trigger] start_range(q0.tasks, lo, j as int)[x]).is_running()
                        ==> now <= fin@[x],
                forall|x: int|
                    0 <= x < lo + j ==> (#[trigger] fin@[x]) as int == completion_time(
                        c,
                        ds,
                        x as nat,
                    ) && fin@[x] <= prefix_sum(ds, (x + 1) as nat),
                forall|x: int|
                    0 <= x < n && (#[trigger] q0.tasks[x]).is_running() ==> now <= fin0[x],
                forall|x: int|
                    0 <= x < lo ==> (#[trigger] fin0[x]) as int == completion_time(
                        c,
                        ds,
                        x as nat,
                    ) && fin0[x] <= prefix_sum(ds, (x + 1) as nat),
                now <= prefix_sum(ds, lo as nat),
                prefix_sum(ds, n as nat) <= usize::MAX,
                lo < n ==> server_free_times(c, ds, (lo + j) as nat) == busy(
                    start_range(q0.tasks, lo, j as int),
                    fin@,
                ).add(copies(now as int, (free - j) as nat)),
            decreases started.len() - j,
        {
            let idx = started[j];
            let d = durations[idx];
            proof {
                lemma_prefix_sum_monotone(ds, lo as nat, idx as nat);
                lemma_prefix_sum_monotone(ds, (idx + 1) as nat, n as nat);
            }
            let ghost fin_before = fin@;
            let ghost sr = start_range(q0.tasks, lo, j as int);
            let ghost f = server_free_times(c, ds, idx as nat);
            fin.set(idx, now + d);
            proof {
                let fb = busy(sr, fin_before);
                let rest = copies(now as int, (free - j - 1) as nat);
                assert(copies(now as int, (free - j) as nat) == rest.insert(now as int));
                assert forall|x: int| #[trigger] f.contains(x) implies now <= x by {
                    lemma_busy_contains(sr, fin_before, x);
                    lemma_copies_contains(now as int, (free - j) as nat, x);
                }
                lemma_copies_contains(now as int, (free - j) as nat, now as int);
                assert(is_least(f, now as int));
                lemma_least_unique(f, now as int);
                assert(sr[idx as int] == q0.tasks[idx as int]);
                lemma_busy_fin_update(sr, fin_before, idx as int, (now + d) as usize);
                let sr2 = start_range(q0.tasks, lo, j + 1);
                assert(sr2 =~= sr.update(idx as int, sr[idx as int].started()));
                lemma_busy_update(sr, fin@, idx as int, sr[idx as int].started());
                assert(server_free_times(c, ds, (idx + 1) as nat) == f.remove(now as int).insert(
                    now + d,
                ));
                assert(busy(sr2, fin@).add(rest) =~= f.remove(now as int).insert(now + d));
                assert forall|x: int|
                    0 <= x < n && (#[trigger] sr2[x]).is_running() implies now <= fin@[x] by {
                    if x != idx {
                        assert(sr2[x] == sr[x]);
                    }
                }
            }
            j = j + 1;
        }
        proof {
            assert(start_range(q0.tasks, lo, j as int) =~= q@.tasks);
            if q@.next < n {
                assert(q@.running == c);
                assert(busy(q@.tasks, fin@).add(copies(now as int, 0)) =~= busy(q@.tasks, fin@));
            }
        }
        if q.running() == 0 {
            break;
        }
        let ts = q.snapshot();
        let mut found = false;
        let mut best_i: usize = 0;
        let mut best: usize = 0;
        let mut k: usize = 0;
        while k < n
            invariant
                ts@ == q@.tasks,
                ts@.len() == n,
                fin@.len() == n,
                k <= n,
                found ==> best_i < k && ts@[best_i as int].is_running() && fin@[best_i as int]
                    == best,
                found ==> forall|x: int|
                    0 <= x < k && (#[trigger] ts@[x]).is_running() ==> best <= fin@[x],
                !found ==> forall|x: int| 0 <= x < k ==> !(#[trigger] ts@[x]).is_running(),
            decreases n - k,
        {
            if ts[k].state == TaskState::Running && (!found || fin[k] < best) {
                found = true;
                best_i = k;
                best = fin[k];
            }
            k = k + 1;
        }
        proof {
            lemma_some_running(q@.tasks);
            let b = busy(q@.tasks, fin@);
            assert forall|x: int| #[trigger] b.contains(x) implies best <= x by {
                lemma_busy_contains(q@.tasks, fin@, x);
            }
            lemma_busy_contains(q@.tasks, fin@, best as int);
            assert(is_least(b, best as int));
            lemma_least_unique(b, best as int);
            lemma_busy_update(
                q@.tasks,
                fin@,
                best_i as int,
                q@.tasks[best_i as int].finished(Outcome::Done(ts@[best_i as int].duration)),
            );
            assert(copies(best as int, 0) =~= Multiset::empty());
            assert(copies(best as int, 1) =~= Multiset::empty().insert(best as int));
            assert(b.remove(best as int).add(copies(best as int, 1)) =~= b);
            assert(best_i < q@.next);
            lemma_prefix_sum_monotone(ds, (best_i + 1) as nat, q@.next);
        }
        let _ = q.complete(Completion { index: best_i, outcome: Outcome::Done(ts[best_i].duration) });
        now = best;
    }
    let mut out: Vec<Option<usize>> = Vec::new();
    let mut i: usize = 0;
    while i < n
        invariant
            ds == durations@,
            c == capacity as nat,
            i <= n,
            n == ds.len(),
            fin@.len() == n,
            capacity == 0 ==> q@.next == 0,
            capacity > 0 ==> q@.next == n,
            forall|j: int|
                0 <= j < q@.next ==> (#[trigger] fin@[j]) as int == completion_time(
                    c,
                    ds,
                    j as nat,
                ),
            out@.len() == i,
            forall|x: int|
                0 <= x < i ==> (#[trigger] out@[x]) == if x < q@.next {
                    Some(fin@[x])
                } else {
                    None
                },
        decreases n - i,
    {
        if i < q.next_index() {
            out.push(Some(fin[i]));
        } else {
            out.push(None);
        }
        i = i + 1;
    }
    out
}

proof fn lemma_copies_contains(v: int, n: nat, x: int)
    ensures
        copies(v, n).contains(x) <==> (n > 0 && x == v),
    decreases n,
{
    if n > 0 {
        lemma_copies_contains(v, (n - 1) as nat, x);
    }
}

proof fn lemma_least_unique(ms: Multiset<int>, m: int)
    requires
        is_least(ms, m),
    ensures
        least(ms) == m,
{
    let l = least(ms);
    assert(is_least(ms, l));
    assert(m <= l && l <= m);
}

proof fn lemma_prefix_sum_monotone(ds: Seq<usize>, j: nat, k: nat)
    requires
        j <= k <= ds.len(),
    ensures
        prefix_sum(ds, j) <= prefix_sum(ds, k),
    decreases k - j,
{
    if j < k {
        lemma_prefix_sum_monotone(ds, j, (k - 1) as nat);
    }
}

proof fn lemma_busy_contains(tasks: Seq<Task>, fin: Seq<usize>, x: int)
    ensures
        busy(tasks, fin).contains(x) <==> exists|i: int|
            0 <= i < tasks.len() && (#[trigger] tasks[i]).is_running() && fin[i] == x,
    decreases tasks.len(),
{
    if tasks.len() > 0 {
        let rest = tasks.drop_last();
        lemma_busy_contains(rest, fin, x);
        if busy(tasks, fin).contains(x) {
            if !busy(rest, fin).contains(x) {
                assert(tasks[tasks.len() - 1].is_running());
            } else {
                let i = choose|i: int|
                    0 <= i < rest.len() && (#[trigger] rest[i]).is_running() && fin[i] == x;
                assert(tasks[i] == rest[i]);
            }
        }
        if exists|i: int| 0 <= i < tasks.len() && (#[trigger] tasks[i]).is_running() && fin[i] == x {
            let i = choose|i: int|
                0 <= i < tasks.len() && (#[trigger] tasks[i]).is_running() && fin[i] == x;
            if i < rest.len() {
                assert(rest[i] == tasks[i]);
            }
        }
    }
}

proof fn lemma_busy_fin_update(tasks: Seq<Task>, fin: Seq<usize>, i: int, v: usize)
    requires
        0 <= i < tasks.len() <= fin.len(),
        !tasks[i].is_running(),
    ensures
        busy(tasks, fin.update(i, v)) == busy(tasks, fin),
    decreases tasks.len(),
{
    if i < tasks.len() - 1 {
        lemma_busy_fin_update(tasks.drop_last(), fin, i, v);
    }
    lemma_busy_fin_frame(tasks.drop_last(), fin, fin.update(i, v), i);
}

/// `busy` reads `fin` only at positions below the length of `tasks`, other than `skip`
/// where the task is not running.
proof fn lemma_busy_fin_frame(tasks: Seq<Task>, fin: Seq<usize>, fin2: Seq<usize>, skip: int)
    requires
        tasks.len() <= fin.len(),
        fin.len() == fin2.len(),
        forall|j: int| 0 <= j < tasks.len() && j != skip ==> fin[j] == fin2[j],
        0 <= skip < tasks.len() ==> !tasks[skip].is_running(),
    ensures
        busy(tasks, fin) == busy(tasks, fin2),
    decreases tasks.len(),
{
    if tasks.len() > 0 {
        lemma_busy_fin_frame(tasks.drop_last(), fin, fin2, skip);
    }
}

proof fn lemma_busy_update(tasks: Seq<Task>, fin: Seq<usize>, i: int, t: Task)
    requires
        0 <= i < tasks.len() <= fin.len(),
    ensures
        tasks[i].is_running() && !t.is_running() ==> busy(tasks.update(i, t), fin) == busy(
            tasks,
            fin,
        ).remove(fin[i] as int),
        !tasks[i].is_running() && t.is_running() ==> busy(tasks.update(i, t), fin) == busy(
            tasks,
            fin,
        ).insert(fin[i] as int),
    decreases tasks.len(),
{
    let u = tasks.update(i, t);
    if i == tasks.len() - 1 {
        assert(u.drop_last() =~= tasks.drop_last());
        if tasks[i].is_running() && !t.is_running() {
            assert(busy(tasks, fin).remove(fin[i] as int) =~= busy(tasks.drop_last(), fin));
        }
    } else {
        assert(u.drop_last() =~= tasks.drop_last().update(i, t));
        lemma_busy_update(tasks.drop_last(), fin, i, t);
        if tasks[i].is_running() && !t.is_running() {
            lemma_busy_contains(tasks.drop_last(), fin, fin[i] as int);
            assert(tasks.drop_last()[i] == tasks[i]);
            if tasks.last().is_running() {
                assert(busy(u, fin) =~= busy(tasks, fin).remove(fin[i] as int));
            }
        }
        if !tasks[i].is_running() && t.is_running() {
            if tasks.last().is_running() {
                assert(busy(u, fin) =~= busy(tasks, fin).insert(fin[i] as int));
            }
        }
    }
}

proof fn lemma_some_running(s: Seq<Task>)
    requires
        count_running(s) > 0,
    ensures
        exists|i: int| 0 <= i < s.len() && (#[trigger] s[i]).is_running(),
    decreases s.len(),
{
    if !s.last().is_running() {
        lemma_some_running(s.drop_last());
        let i = choose|i: int| 0 <= i < s.drop_last().len() && (#[trigger] s.drop_last()[i]).is_running();
        assert(s[i] == s.drop_last()[i]);
    } else {
        assert(s[s.len() - 1].is_running());
    }
}

} // verus!
