use vstd::prelude::*;

verus! {

/// The shared part of an `Arc`: a count of owners and the value.
pub struct ArcInner<T> {
    pub count: usize,
    pub inner: T,
}

impl<T> ArcInner<T> {
    /// The value.
    pub fn as_raw(&self) -> (r: &T)
        ensures
            *r == self.inner,
    {
        &self.inner
    }
}

/// Shared ownership of a value.
#[derive(Clone)]
pub struct Arc<T> {
    pub inner: std::sync::Arc<T>,
}

impl<T> Arc<T> {
    pub open spec fn view(&self) -> T {
        *self.inner
    }

    pub fn new(value: T) -> (r: Self)
        ensures
            r@ == value,
    {
        Arc { inner: std::sync::Arc::new(value) }
    }

    /// A second owner of the same value.
    pub fn share(&self) -> (r: Self)
        ensures
            r@ == self@,
    {
        Arc { inner: self.inner.clone() }
    }

    /// The value.
    pub fn get(&self) -> (r: &T)
        ensures
            *r == self@,
    {
        &*self.inner
    }
}

/// The single owner of a value that may later be shared.
pub struct UniqueArc<T> {
    pub inner: Box<T>,
}

impl<T> UniqueArc<T> {
    pub open spec fn view(&self) -> T {
        *self.inner
    }

    pub fn new(inner: T) -> (r: Self)
        ensures
            r@ == inner,
    {
        UniqueArc { inner: Box::new(inner) }
    }

    /// The value, for change.
    pub fn as_mut(&mut self) -> (r: &mut T)
        ensures
            *r == old(self)@,
            final(self)@ == *final(r),
    {
        &mut *self.inner
    }

    /// Gives up unique ownership.
    pub fn into_arc(self) -> (r: Arc<T>)
        ensures
            r@ == self@,
    {
        Arc::new(*self.inner)
    }
}

/// An owner of a value that is linked into list number `N`.
pub struct ListArc<T, const N: usize> {
    pub inner: Arc<T>,
}

impl<T, const N: usize> ListArc<T, N> {
    pub open spec fn view(&self) -> T {
        self.inner@
    }

    pub fn from_unique(value: UniqueArc<T>) -> (r: Self)
        ensures
            r@ == value@,
    {
        ListArc { inner: value.into_arc() }
    }

    /// A plain owner of the same value.
    pub fn clone_arc(&self) -> (r: Arc<T>)
        ensures
            r@ == self@,
    {
        self.inner.share()
    }
}

} // verus!
