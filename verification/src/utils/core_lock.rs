use vstd::prelude::*;

verus! {

/// Lock for state that only the boot core touches.
pub struct CoreLock<T> {
    pub inner: T,
}

/// Exclusive access to the value of a `CoreLock` while it is held.
pub struct CoreLockGuard<'a, T> {
    pub value: &'a mut T,
}

impl<T> CoreLock<T> {
    pub fn new(inner: T) -> (r: Self)
        ensures
            r.inner == inner,
    {
        Self { inner }
    }

    /// Takes the lock; only core 0 may do so.
    pub fn lock(&mut self, cpu: usize) -> (r: &mut T)
        requires
            cpu == 0,
        ensures
            *r == old(self).inner,
            final(self).inner == *final(r),
    {
        &mut self.inner
    }
}

/// A value made on first use.
pub struct LazyCoreLock<T> {
    pub inner: Option<T>,
}

impl<T> LazyCoreLock<T> {
    pub fn new() -> (r: Self)
        ensures
            r.inner is None,
    {
        Self { inner: None }
    }

    /// The value; `init` makes it on first use.
    pub fn get(&mut self, init: T) -> (r: &T)
        ensures
            old(self).inner is Some ==> final(self).inner == old(self).inner,
            old(self).inner is None ==> final(self).inner == Some(init),
            final(self).inner == Some(*r),
    {
        if self.inner.is_none() {
            self.inner = Some(init);
        }
        match &self.inner {
            Some(v) => v,
            None => {
                vstd::pervasive::unreached()
            },
        }
    }
}

} // verus!
