use vstd::prelude::*;

verus! {

/// A task waiting in a queue.
#[derive(Debug, Clone, Copy, PartialEq, Eq, Structural)]
pub struct WaitQueueNode {
    pub task: u32,
}

/// Tasks, by pid, waiting for something, in the order they came; the list is made on first use.
pub struct WaitQueue {
    pub queue: Option<Vec<WaitQueueNode>>,
}

impl WaitQueue {
    pub open spec fn waiters(&self) -> Seq<u32> {
        match self.queue {
            Some(q) => q@.map_values(|n: WaitQueueNode| n.task),
            None => Seq::empty(),
        }
    }

    pub fn new() -> (r: Self)
        ensures
            r.queue is None,
            r.waiters().len() == 0,
    {
        Self { queue: None }
    }

    /// Puts task `pid` at the back; the caller then blocks it and yields.
    pub fn enqueue(&mut self, pid: u32)
        ensures
            final(self).waiters() == old(self).waiters().push(pid),
            final(self).queue is Some,
    {
        if self.queue.is_none() {
            self.queue = Some(Vec::new());
        }
        match &mut self.queue {
            Some(q) => {
                let ghost before = q@;
                q.push(WaitQueueNode { task: pid });
                assert(q@.map_values(|n: WaitQueueNode| n.task) =~= before.map_values(|n: WaitQueueNode| n.task).push(pid));
            },
            None => {},
        }
    }

    /// Takes the task at the front, which the caller then makes runnable.
    pub fn unblock_front(&mut self) -> (r: Option<u32>)
        ensures
            old(self).waiters().len() == 0 ==> r is None && final(self).waiters() == old(self).waiters(),
            old(self).waiters().len() > 0 ==> r == Some(old(self).waiters()[0]) && final(self).waiters()
                == old(self).waiters().drop_first(),
    {
        match &mut self.queue {
            Some(q) => {
                if q.len() == 0 {
                    return None;
                }
                let ghost before = q@;
                let node = q.remove(0);
                assert(q@.map_values(|n: WaitQueueNode| n.task) =~= before.map_values(|n: WaitQueueNode| n.task).drop_first());
                Some(node.task)
            },
            None => None,
        }
    }

    /// Takes every waiting task, front first; the caller makes them runnable.
    pub fn unblock_all(&mut self) -> (r: Vec<u32>)
        ensures
            r@ == old(self).waiters(),
            final(self).waiters().len() == 0,
    {
        let mut r: Vec<u32> = Vec::new();
        match &mut self.queue {
            Some(q) => {
                let ghost all = q@.map_values(|n: WaitQueueNode| n.task);
                let mut i: usize = 0;
                while i < q.len()
                    invariant
                        i <= q@.len(),
                        all == q@.map_values(|n: WaitQueueNode| n.task),
                        r@ == all.subrange(0, i as int),
                    decreases q@.len() - i,
                {
                    r.push(q[i].task);
                    i += 1;
                    assert(r@ =~= all.subrange(0, i as int));
                }
                q.clear();
                assert(r@ =~= all);
                assert(q@.map_values(|n: WaitQueueNode| n.task) =~= Seq::<u32>::empty());
            },
            None => {},
        }
        r
    }
}

} // verus!

verus! {

use crate::sched::scheduler::{state_is, Sched};
use crate::sched::task::TaskState;

impl WaitQueue {
    /// Queues the task that runs on the core here and blocks the task picked last; the
    /// caller then yields the core.
    pub fn block_this_task(&mut self, sched: &mut Sched)
        requires
            old(sched).wf(),
            old(sched).scheduled is Some,
            old(sched).staging is Some,
        ensures
            final(self).waiters() == old(self).waiters().push(old(sched).scheduled->Some_0),
            final(sched).wf(),
            final(sched).staging is None,
            final(sched).blocked_queue@ == old(sched).blocked_queue@.push(old(sched).staging->Some_0),
            state_is(final(sched).tasks@, old(sched).staging->Some_0, TaskState::Blocked),
            final(sched).run_queue@ == old(sched).run_queue@,
            final(sched).kill_queue@ == old(sched).kill_queue@,
            final(sched).scheduled == old(sched).scheduled,
    {
        let this_task = match sched.local_task() {
            Some(pid) => pid,
            None => 0,
        };
        self.enqueue(this_task);
        sched.block_this_task();
    }
}

} // verus!
