use vstd::prelude::*;

verus! {

/// Fixed capacity ring buffer of `N` slots holding up to `N` elements, whose positions run
/// modulo `N + 1`: position `N` has no slot, so a push or a pop there cannot be made.
pub struct Deque<T, const N: usize> {
    pub buffer: Vec<Option<T>>,
    pub start: usize,
    pub end: usize,
}

/// Slot index `i` places after `base` in a ring of `cap` slots.
pub open spec fn ring_index(base: int, i: int, cap: int) -> int {
    if base + i < cap {
        base + i
    } else {
        base + i - cap
    }
}

impl<T, const N: usize> Deque<T, N> {
    pub open spec fn cap() -> int {
        N + 1
    }

    /// Number of elements held.
    pub open spec fn count(&self) -> int {
        if self.end >= self.start {
            self.end - self.start
        } else {
            self.end + Self::cap() - self.start
        }
    }

    pub open spec fn wf(&self) -> bool {
        &&& N <= usize::MAX / 2
        &&& self.buffer@.len() == N
        &&& self.start < Self::cap()
        &&& self.end < Self::cap()
        &&& forall|i: int| 0 <= i < self.count() ==> ring_index(self.start as int, i, Self::cap()) < N
            && (#[trigger] self.buffer@[ring_index(self.start as int, i, Self::cap())]) is Some
    }

    /// The held elements, oldest first.
    pub open spec fn view(&self) -> Seq<T> {
        Seq::new(self.count() as nat, |i: int| self.buffer@[ring_index(self.start as int, i, Self::cap())]->Some_0)
    }

    pub fn new() -> (r: Self)
        requires
            N <= usize::MAX / 2,
        ensures
            r.wf(),
            r@ == Seq::<T>::empty(),
    {
        let mut buffer: Vec<Option<T>> = Vec::new();
        let mut i: usize = 0;
        while i < N
            invariant
                i <= N,
                N <= usize::MAX / 2,
                buffer@.len() == i,
            decreases N - i,
        {
            buffer.push(None);
            i += 1;
        }
        let r = Self { buffer, start: 0, end: 0 };
        assert(r@ =~= Seq::<T>::empty());
        r
    }

    pub fn is_empty(&self) -> (r: bool)
        requires
            self.wf(),
        ensures
            r == (self@.len() == 0),
    {
        self.start == self.end
    }

    pub fn is_full(&self) -> (r: bool)
        requires
            self.wf(),
        ensures
            r == (self@.len() == N),
    {
        let next = if self.end + 1 == N + 1 { 0 } else { self.end + 1 };
        self.start == next
    }

    /// `(start + end) mod (N + 1)`, the quantity that this ring buffer reports as its length.
    pub fn len(&self) -> (r: usize)
        requires
            self.wf(),
        ensures
            r == (self.start + self.end) % (N as int + 1),
            self.start == 0 ==> r == self@.len(),
    {
        let s = self.start + self.end;
        let m = N + 1;
        proof {
            assert(0 <= s < 2 * m ==> s as int % m as int == if s < m { s as int } else { s - m })
                by (nonlinear_arith)
                requires
                    m > 0,
            ;
        }
        if s >= m { s - m } else { s }
    }

    /// Room left: how many more elements fit.
    pub fn free(&self) -> (r: usize)
        requires
            self.wf(),
        ensures
            r == N - self@.len(),
    {
        if self.end >= self.start {
            N - (self.end - self.start)
        } else {
            N - (self.end + (N + 1) - self.start)
        }
    }

    /// The element `i` places from the oldest.
    pub fn get(&self, i: usize) -> (r: &T)
        requires
            self.wf(),
            i < self@.len(),
        ensures
            *r == self@[i as int],
    {
        let at = if self.start + i >= N + 1 { self.start + i - (N + 1) } else { self.start + i };
        assert(at == ring_index(self.start as int, i as int, Self::cap()));
        assert(self.buffer@[at as int] is Some);
        match &self.buffer[at] {
            Some(v) => v,
            None => {
                proof {
                    assert(false);
                }
                vstd::pervasive::unreached()
            },
        }
    }

    /// Appends `value` at the back, in the slot at position `end`.
    pub fn push(&mut self, value: T)
        requires
            old(self).wf(),
            old(self)@.len() < N,
            old(self).end < N,
        ensures
            final(self).wf(),
            final(self)@ == old(self)@.push(value),
            final(self).start == old(self).start,
            final(self).end == if old(self).end + 1 == N + 1 { 0 } else { old(self).end + 1 },
    {
        let index = self.end;
        self.buffer.set(index, Some(value));
        self.end = if self.end + 1 == N + 1 { 0 } else { self.end + 1 };
        proof {
            let cap = Self::cap();
            assert forall|i: int| 0 <= i < self.count() implies ring_index(self.start as int, i, cap) < N
                && (#[trigger] self.buffer@[ring_index(self.start as int, i, cap)]) is Some by {
                if i < old(self).count() {
                    assert(ring_index(self.start as int, i, cap) < N);
                    assert(old(self).buffer@[ring_index(self.start as int, i, cap)] is Some);
                }
            }
            assert(self@ =~= old(self)@.push(value));
        }
    }

    /// Drops the oldest element, from the slot at position `start`.
    pub fn pop(&mut self)
        requires
            old(self).wf(),
            old(self)@.len() > 0,
            old(self).start < N,
        ensures
            final(self).wf(),
            final(self)@ == old(self)@.drop_first(),
            final(self).end == old(self).end,
            final(self).start == if old(self).start + 1 == N + 1 { 0 } else { old(self).start + 1 },
    {
        let index = self.start;
        self.buffer.set(index, None);
        self.start = if self.start + 1 == N + 1 { 0 } else { self.start + 1 };
        proof {
            let cap = Self::cap();
            assert forall|i: int| 0 <= i < self.count() implies ring_index(self.start as int, i, cap) < N
                && (#[trigger] self.buffer@[ring_index(self.start as int, i, cap)]) is Some by {
                assert(ring_index(old(self).start as int, i + 1, cap) < N);
                assert(old(self).buffer@[ring_index(old(self).start as int, i + 1, cap)] is Some);
            }
            assert forall|i: int| 0 <= i < self.count() implies self@[i] == old(self)@.drop_first()[i] by {
                assert(ring_index(self.start as int, i, cap) == ring_index(old(self).start as int, i + 1, cap));
            }
            assert(self@ =~= old(self)@.drop_first());
        }
    }

    /// Forgets the `count` oldest elements.
    pub fn pop_many(&mut self, count: usize)
        requires
            old(self).wf(),
            count <= old(self)@.len(),
        ensures
            final(self).wf(),
            final(self)@ == old(self)@.skip(count as int),
            final(self).end == old(self).end,
            final(self).start == if old(self).start + count >= N + 1 {
                old(self).start + count - (N + 1)
            } else {
                old(self).start + count
            },
    {
        let s = self.start + count;
        self.start = if s >= N + 1 { s - (N + 1) } else { s };
        proof {
            let cap = Self::cap();
            assert forall|i: int| 0 <= i < self.count() implies ring_index(self.start as int, i, cap) < N
                && (#[trigger] self.buffer@[ring_index(self.start as int, i, cap)]) is Some by {
                assert(ring_index(self.start as int, i, cap) == ring_index(old(self).start as int, i + count, cap));
                assert(ring_index(old(self).start as int, i + count, cap) < N);
                assert(old(self).buffer@[ring_index(old(self).start as int, i + count, cap)] is Some);
            }
            assert forall|i: int| 0 <= i < self.count() implies self@[i] == old(self)@.skip(count as int)[i] by {
                assert(ring_index(self.start as int, i, cap) == ring_index(old(self).start as int, i + count, cap));
            }
            assert(self@ =~= old(self)@.skip(count as int));
        }
    }
}

impl<T: Copy, const N: usize> Deque<T, N> {
    /// The stored elements as two runs, as many as `len` reports: those from the oldest to
    /// the end of the buffer, then those that wrapped around to its start.
    pub fn as_slices(&self) -> (r: (Vec<T>, Vec<T>))
        requires
            self.wf(),
            (self.start + self.end) % (N as int + 1) <= self@.len(),
        ensures
            r.0@ + r.1@ == self@.subrange(0, (self.start + self.end) % (N as int + 1)),
            r.0@.len() == vstd::math::min((self.start + self.end) % (N as int + 1), N + 1 - self.start),
    {
        let len = self.len();
        self.slices_with_count(len)
    }

    /// The `count` oldest elements as two runs: those up to the end of the buffer, then those
    /// that wrapped around to its start.
    pub fn slices_with_count(&self, count: usize) -> (r: (Vec<T>, Vec<T>))
        requires
            self.wf(),
            count <= self@.len(),
        ensures
            r.0@ + r.1@ == self@.subrange(0, count as int),
            r.0@.len() == vstd::math::min(count as int, N + 1 - self.start),
    {
        let mut first: Vec<T> = Vec::new();
        let mut second: Vec<T> = Vec::new();
        let mut i: usize = 0;
        while i < count
            invariant
                self.wf(),
                count <= self@.len(),
                i <= count,
                first@ + second@ == self@.subrange(0, i as int),
                first@.len() == if i < N + 1 - self.start { i as int } else { N + 1 - self.start },
                second@.len() == i - first@.len(),
            decreases count - i,
        {
            let v = *self.get(i);
            let ghost before = first@ + second@;
            if i < N + 1 - self.start {
                assert(second@.len() == 0);
                assert(first@ + second@ =~= first@);
                first.push(v);
            } else {
                second.push(v);
            }
            assert(before =~= self@.subrange(0, i as int));
            i += 1;
            assert(first@ + second@ =~= self@.subrange(0, i as int));
        }
        (first, second)
    }
}

} // verus!
