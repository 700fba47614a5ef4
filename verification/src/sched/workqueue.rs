use vstd::prelude::*;
use crate::sched::scheduler::{has_task, Sched};
use crate::sched::task::{stack_top_of, KernelTaskStack};
use crate::sched::wait_queue::WaitQueue;

verus! {

/// A function to run later, named by its handler in the caller's table, with its argument.
#[derive(Debug, Clone, Copy, PartialEq, Eq, Structural)]
pub struct WorkqueuEntry {
    pub function: usize,
    pub arg: Option<usize>,
}

/// Work that a worker task runs in the order it came.
pub struct Workqueue {
    pub queue: Vec<WorkqueuEntry>,
    pub waiter: WaitQueue,
}

impl Workqueue {
    /// An empty queue and its worker: a kernel task running `worker_fn` with the queue's
    /// handle `handle`, through `wrapper` on `stack`, added to `sched`. Returns the queue and
    /// the worker's pid.
    pub fn create_workqueue(sched: &mut Sched, wrapper: u64, worker_fn: u64, handle: u64, stack: KernelTaskStack) -> (r: (Self, u32))
        requires
            old(sched).wf(),
            !has_task(old(sched).tasks@, old(sched).next_pid),
            stack_top_of(stack.addr) <= u64::MAX,
            stack_top_of(stack.addr) % 16 == 0,
        ensures
            final(sched).wf(),
            r.0.queue@.len() == 0,
            r.0.waiter.waiters().len() == 0,
            r.1 == old(sched).next_pid,
            final(sched).run_queue@ == old(sched).run_queue@.push(r.1),
    {
        let queue = Workqueue { queue: Vec::new(), waiter: WaitQueue::new() };
        let pid = sched.task_from_fn(wrapper, worker_fn, handle, stack);
        (queue, pid)
    }

    /// Queues `function` with `arg` and wakes the worker if it sleeps; returns the pid to
    /// make runnable.
    pub fn enqueue_work(&mut self, function: usize, arg: Option<usize>) -> (r: Option<u32>)
        ensures
            final(self).queue@ == old(self).queue@.push(WorkqueuEntry { function, arg }),
            old(self).waiter.waiters().len() == 0 ==> r is None,
            old(self).waiter.waiters().len() > 0 ==> r == Some(old(self).waiter.waiters()[0]),
    {
        self.queue.push(WorkqueuEntry { function, arg });
        self.waiter.unblock_front()
    }

    /// One step of the worker task `pid`: the work to run next, or, when there is none, the
    /// worker queued to sleep until work comes.
    pub fn next_work(&mut self, pid: u32) -> (r: Option<WorkqueuEntry>)
        ensures
            old(self).queue@.len() > 0 ==> r == Some(old(self).queue@[0]) && final(self).queue@
                == old(self).queue@.drop_first() && final(self).waiter.waiters() == old(self).waiter.waiters(),
            old(self).queue@.len() == 0 ==> r is None && final(self).queue@.len() == 0
                && final(self).waiter.waiters() == old(self).waiter.waiters().push(pid),
    {
        if self.queue.len() == 0 {
            self.waiter.enqueue(pid);
            return None;
        }
        let item = self.queue.remove(0);
        Some(item)
    }
}

} // verus!
