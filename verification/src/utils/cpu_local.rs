use vstd::prelude::*;

verus! {

/// Number of cores the kernel supports.
pub const MAX_CPUS: usize = 8;

/// One value per core.
pub struct CpuLocal<T> {
    pub inner: Vec<T>,
}

impl<T> CpuLocal<T> {
    pub fn new(inner: Vec<T>) -> (r: Self)
        requires
            inner@.len() == MAX_CPUS,
        ensures
            r.inner@ == inner@,
    {
        Self { inner }
    }

    /// The value of the core numbered `cpu`, the core this code runs on.
    pub fn local(&self, cpu: usize) -> (r: &T)
        requires
            cpu < self.inner@.len(),
        ensures
            *r == self.inner@[cpu as int],
    {
        &self.inner[cpu]
    }

    pub fn get(&self, cpu: usize) -> (r: &T)
        requires
            cpu < self.inner@.len(),
        ensures
            *r == self.inner@[cpu as int],
    {
        &self.inner[cpu]
    }

    /// The values of all cores, by core number.
    pub fn iter(&self) -> (r: &[T])
        ensures
            r@ == self.inner@,
    {
        self.inner.as_slice()
    }
}

} // verus!
