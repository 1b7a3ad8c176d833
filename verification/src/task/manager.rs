//! The ready queue.
use vstd::prelude::*;
use std::collections::VecDeque;

verus! {

/// The queue of the tasks that are ready to run, first in, first out.
pub struct TaskManager {
    ready_queue: VecDeque<usize>,
}

impl View for TaskManager {
    type V = Seq<usize>;

    closed spec fn view(&self) -> Seq<usize> {
        self.ready_queue@
    }
}

/// The task that runs, and the queue, after the running task `cur` has
/// given way with the queue `queue` waiting: `cur` goes to the tail and the
/// head runs.
pub open spec fn yield_step(cur: usize, queue: Seq<usize>) -> (usize, Seq<usize>) {
    (queue.push(cur)[0], queue.push(cur).drop_first())
}

/// The task that runs, and the queue, after `k` tasks in a row have given way.
pub open spec fn yield_steps(cur: usize, queue: Seq<usize>, k: nat) -> (usize, Seq<usize>)
    decreases k,
{
    if k == 0 {
        (cur, queue)
    } else {
        let prev = yield_steps(cur, queue, (k - 1) as nat);
        yield_step(prev.0, prev.1)
    }
}

/// After `k` tasks in a row have given way, `k` at most the length of the
/// queue, the task that runs is the one that stood at place `k - 1` of the
/// queue, and the queue is its rest followed by those that ran.
pub proof fn lemma_yield_steps(cur: usize, queue: Seq<usize>, k: nat)
    requires
        k <= queue.len(),
    ensures
        k > 0 ==> yield_steps(cur, queue, k).0 == queue[k - 1],
        yield_steps(cur, queue, k).1 == queue.skip(k as int).add(
            seq![cur].add(queue.take(k as int - 1)),
        ) || k == 0,
    decreases k,
{
    if k > 0 {
        lemma_yield_steps(cur, queue, (k - 1) as nat);
        let prev = yield_steps(cur, queue, (k - 1) as nat);
        if k == 1 {
            assert(queue.push(cur).drop_first() =~= queue.skip(1).add(
                seq![cur].add(queue.take(0)),
            ));
        } else {
            let q1 = queue.skip(k as int - 1).add(seq![cur].add(queue.take(k as int - 2)));
            assert(prev.1 == q1);
            assert(prev.0 == queue[k - 2]);
            assert(q1.push(prev.0).drop_first() =~= queue.skip(k as int).add(
                seq![cur].add(queue.take(k as int - 1)),
            ));
            assert(q1.push(prev.0)[0] == queue[k - 1]);
        }
    }
}

/// First in, first out is fair: when the running task and the tasks of
/// the queue give way one after the other, each of them runs once before
/// any runs a second time, in the order of the queue, and after all of them
/// the first runs again with the queue as it was.
pub proof fn lemma_round_robin(cur: usize, queue: Seq<usize>)
    ensures
        forall|k: nat| 0 < k <= queue.len() ==> (#[trigger] yield_steps(cur, queue, k)).0 == queue[k - 1],
        yield_steps(cur, queue, (queue.len() + 1) as nat) == (cur, queue),
{
    assert forall|k: nat| 0 < k <= queue.len() implies (#[trigger] yield_steps(cur, queue, k)).0
        == queue[k - 1] by {
        lemma_yield_steps(cur, queue, k);
    }
    let n = queue.len();
    lemma_yield_steps(cur, queue, n);
    let prev = yield_steps(cur, queue, n);
    if n == 0 {
        assert(queue.push(cur).drop_first() =~= queue);
    } else {
        let q1 = queue.skip(n as int).add(seq![cur].add(queue.take(n as int - 1)));
        assert(prev.1 == q1);
        assert(q1.push(prev.0).drop_first() =~= queue);
        assert(q1.push(prev.0)[0] == cur);
    }
}

impl TaskManager {
    /// An empty queue.
    pub fn new() -> (m: TaskManager)
        ensures
            m@ == Seq::<usize>::empty(),
    {
        TaskManager { ready_queue: VecDeque::new() }
    }

    /// Appends the task `pid` to the tail.
    pub fn add(&mut self, pid: usize)
        ensures
            final(self)@ == old(self)@.push(pid),
    {
        self.ready_queue.push_back(pid);
    }

    /// Removes the task at the head; `None` when the queue is empty.
    pub fn fetch(&mut self) -> (r: Option<usize>)
        ensures
            match r {
                None => old(self)@.len() == 0 && final(self)@ == old(self)@,
                Some(pid) => old(self)@.len() > 0 && pid == old(self)@[0] && final(self)@ == old(
                    self,
                )@.drop_first(),
            },
    {
        let r = self.ready_queue.pop_front();
        proof {
            if r is Some {
                assert(self@ =~= old(self)@.drop_first());
            }
        }
        r
    }

    /// Number of tasks that wait.
    pub fn len(&self) -> (n: usize)
        ensures
            n == self@.len(),
    {
        self.ready_queue.len()
    }
}

} // verus!
