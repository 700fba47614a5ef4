use vstd::prelude::*;

verus! {

/// Lock that gives exclusive access to its value.
pub struct SpinLock<T> {
    pub inner: T,
}

/// Exclusive access to the value of a `SpinLock` while it is held.
pub struct SpinLockGuard<'a, T> {
    pub value: &'a mut T,
}

impl<T> SpinLock<T> {
    pub fn new(inner: T) -> (r: Self)
        ensures
            r.inner == inner,
    {
        Self { inner }
    }

    /// Takes the lock and hands out its value.
    pub fn lock(&mut self) -> (r: &mut T)
        ensures
            *r == old(self).inner,
            final(self).inner == *final(r),
    {
        &mut self.inner
    }

    /// Gives back the value.
    pub fn into_inner(self) -> (r: T)
        ensures
            r == self.inner,
    {
        self.inner
    }
}

/// A value that is set once and read after that.
pub struct OnceSpinLock<T> {
    pub inner: Option<T>,
}

impl<T> OnceSpinLock<T> {
    pub fn new() -> (r: Self)
        ensures
            r.inner is None,
    {
        Self { inner: None }
    }

    pub fn get(&self) -> (r: Option<&T>)
        ensures
            match r {
                Some(v) => self.inner == Some(*v),
                None => self.inner is None,
            },
    {
        match &self.inner {
            Some(v) => Some(v),
            None => None,
        }
    }

    /// Sets the value if none was set; hands `value` back otherwise.
    pub fn set(&mut self, value: T) -> (r: Result<(), T>)
        ensures
            old(self).inner is None ==> r is Ok && final(self).inner == Some(value),
            old(self).inner is Some ==> r == Err::<(), T>(value) && final(self).inner == old(self).inner,
    {
        if self.inner.is_none() {
            self.inner = Some(value);
            Ok(())
        } else {
            Err(value)
        }
    }
}

} // verus!
