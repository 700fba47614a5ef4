use vstd::prelude::*;
use crate::sched::wait_queue::WaitQueue;

verus! {

/// A lock that puts the tasks that find it taken to sleep.
pub struct Mutex<T> {
    pub inner: T,
    /// Whether the lock is held.
    pub available: bool,
    pub wait_queue: WaitQueue,
}

impl<T> Mutex<T> {
    pub fn new(inner: T) -> (r: Self)
        ensures
            r.inner == inner,
            !r.available,
            r.wait_queue.waiters().len() == 0,
    {
        Mutex { inner, available: false, wait_queue: WaitQueue::new() }
    }

    /// Takes the lock for task `pid` if it is free. Otherwise queues `pid` to sleep until the
    /// holder lets go, after which the task tries again.
    pub fn lock(&mut self, pid: u32) -> (r: Option<MutexGuard<'_, T>>)
        ensures
            !old(self).available ==> (r matches Some(g) && g.mutex.available && g.mutex.inner == old(self).inner
                && g.mutex.wait_queue.waiters() == old(self).wait_queue.waiters()),
            old(self).available ==> r is None && final(self).available && final(self).inner == old(self).inner
                && final(self).wait_queue.waiters() == old(self).wait_queue.waiters().push(pid),
    {
        if !self.available {
            self.available = true;
            Some(MutexGuard { mutex: self })
        } else {
            self.wait_queue.enqueue(pid);
            None
        }
    }
}

/// The held lock of a `Mutex`, giving access to its value.
pub struct MutexGuard<'a, T> {
    pub mutex: &'a mut Mutex<T>,
}

impl<'a, T> MutexGuard<'a, T> {
    pub fn get(&self) -> (r: &T)
        ensures
            *r == old(self.mutex).inner,
    {
        &self.mutex.inner
    }

    /// Replaces the value under the lock.
    pub fn set(&mut self, value: T)
        ensures
            final(self).mutex.inner == value,
            final(self).mutex.available == old(self).mutex.available,
            final(self).mutex.wait_queue.waiters() == old(self).mutex.wait_queue.waiters(),
    {
        self.mutex.inner = value;
    }

    /// Lets go of the lock and wakes the first task waiting for it, whose pid it returns for
    /// the scheduler.
    pub fn unlock(self) -> (r: Option<u32>)
        ensures
            old(self.mutex).wait_queue.waiters().len() == 0 ==> r is None,
            old(self.mutex).wait_queue.waiters().len() > 0 ==> r == Some(old(self.mutex).wait_queue.waiters()[0]),
    {
        self.mutex.available = false;
        self.mutex.wait_queue.unblock_front()
    }
}

} // verus!
