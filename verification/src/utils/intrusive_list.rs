use vstd::prelude::*;

verus! {

/// Membership of a node in a list.
pub struct ListLinks {
    pub linked: bool,
}

impl ListLinks {
    pub fn new() -> (r: Self)
        ensures
            !r.linked,
    {
        ListLinks { linked: false }
    }

    pub fn is_linked(&self) -> (r: bool)
        ensures
            r == self.linked,
    {
        self.linked
    }
}

/// A doubly linked list whose elements live in the slots of an arena. Slot 0 is the sentinel:
/// the list runs from it along `next` back to it, and along `prev` the other way round. The
/// slots of removed elements are kept for later ones.
pub struct List<T> {
    /// The element in each slot; none in the sentinel and in free slots.
    pub values: Vec<Option<T>>,
    /// The slot after each slot.
    pub next: Vec<usize>,
    /// The slot before each slot.
    pub prev: Vec<usize>,
    /// Slots free for later elements.
    pub free: Vec<usize>,
    /// Number of elements.
    pub count: usize,
    /// The slots of the elements, front to back.
    pub order: Ghost<Seq<usize>>,
}

impl<T> List<T> {
    /// The slot at position `i` of the ring: the sentinel before the first element and after
    /// the last.
    pub open spec fn ring(&self, i: int) -> usize {
        if 0 <= i < self.order@.len() {
            self.order@[i]
        } else {
            0usize
        }
    }

    /// The links run through the elements' slots in order, both ways, and every element's
    /// slot holds it; free slots are distinct and empty.
    pub open spec fn wf(&self) -> bool {
        let n = self.values@.len();
        let ord = self.order@;
        &&& n >= 1
        &&& self.next@.len() == n
        &&& self.prev@.len() == n
        &&& self.values@[0] is None
        &&& self.count == ord.len()
        &&& forall|i: int| 0 <= i < ord.len() ==> 1 <= #[trigger] ord[i] < n
        &&& forall|i: int| 0 <= i < ord.len() ==> (#[trigger] self.values@[ord[i] as int]) is Some
        &&& forall|i: int, j: int| 0 <= i < j < ord.len() ==> #[trigger] ord[i] != #[trigger] ord[j]
        &&& forall|i: int| -1 <= i < ord.len() ==> #[trigger] self.next@[self.ring(i) as int] == self.ring(i + 1)
        &&& forall|i: int| 0 <= i <= ord.len() ==> #[trigger] self.prev@[self.ring(i) as int] == self.ring(i - 1)
        &&& forall|k: int| 0 <= k < self.free@.len() ==> 1 <= #[trigger] self.free@[k] < n
        &&& forall|k: int| 0 <= k < self.free@.len() ==> (#[trigger] self.values@[self.free@[k] as int]) is None
        &&& forall|k: int, l: int| 0 <= k < l < self.free@.len() ==> #[trigger] self.free@[k] != #[trigger] self.free@[l]
    }

    /// The elements, front to back.
    pub open spec fn view(&self) -> Seq<T> {
        self.order@.map_values(|s: usize| self.values@[s as int]->Some_0)
    }

    /// Distinct positions of the ring hold distinct slots, but for the sentinel at both ends.
    proof fn lemma_ring_distinct(&self, i: int, j: int)
        requires
            self.wf(),
            -1 <= i < j <= self.order@.len(),
            !(i == -1 && j == self.order@.len()),
        ensures
            self.ring(i) != self.ring(j),
    {
        if 0 <= i && j < self.order@.len() {
            assert(self.order@[i] != self.order@[j]);
        } else if i == -1 {
            assert(1 <= self.order@[j]);
        } else {
            assert(1 <= self.order@[i]);
        }
    }

    pub fn new() -> (r: Self)
        ensures
            r.wf(),
            r@ == Seq::<T>::empty(),
    {
        let r = List { values: vec![None], next: vec![0], prev: vec![0], free: Vec::new(), count: 0, order: Ghost(Seq::empty()) };
        proof {
            assert(r.ring(-1) == 0 && r.ring(0) == 0);
            assert(r@ =~= Seq::<T>::empty());
        }
        r
    }

    /// A slot holding `item`, outside the ring: a free one, or a new one.
    fn take_slot(&mut self, item: T) -> (s: usize)
        requires
            old(self).wf(),
            old(self).values@.len() < usize::MAX,
        ensures
            final(self).wf(),
            final(self).order@ == old(self).order@,
            final(self).count == old(self).count,
            old(self).values@.len() <= final(self).values@.len() <= old(self).values@.len() + 1,
            1 <= s < final(self).values@.len(),
            final(self).values@[s as int] == Some(item),
            forall|i: int| 0 <= i < old(self).order@.len() ==> #[trigger] old(self).order@[i] != s,
            forall|j: int| 0 <= j < old(self).values@.len() && j != s ==> #[trigger] final(self).values@[j] == old(self).values@[j],
            forall|j: int| 0 <= j < old(self).values@.len() ==> #[trigger] final(self).next@[j] == old(self).next@[j],
            forall|j: int| 0 <= j < old(self).values@.len() ==> #[trigger] final(self).prev@[j] == old(self).prev@[j],
    {
        match self.free.pop() {
            Some(s) => {
                proof {
                    let k = old(self).free@.len() - 1;
                    assert(old(self).free@[k] == s);
                    assert forall|i: int| 0 <= i < old(self).order@.len() implies #[trigger] old(self).order@[i] != s by {
                        assert(old(self).values@[old(self).order@[i] as int] is Some);
                    }
                    assert forall|k2: int| 0 <= k2 < self.free@.len() implies #[trigger] self.free@[k2] != s by {
                        assert(old(self).free@[k2] == self.free@[k2]);
                    }
                }
                self.values.set(s, Some(item));
                proof {
                    assert forall|i: int| -1 <= i < self.order@.len() implies #[trigger] self.next@[self.ring(i) as int]
                        == self.ring(i + 1) by {
                        assert(old(self).next@[old(self).ring(i) as int] == old(self).ring(i + 1));
                    }
                    assert forall|i: int| 0 <= i <= self.order@.len() implies #[trigger] self.prev@[self.ring(i) as int]
                        == self.ring(i - 1) by {
                        assert(old(self).prev@[old(self).ring(i) as int] == old(self).ring(i - 1));
                    }
                    assert forall|k2: int| 0 <= k2 < self.free@.len() implies (#[trigger] self.values@[self.free@[k2] as int])
                        is None by {
                        assert(old(self).free@[k2] == self.free@[k2]);
                    }
                    assert forall|k2: int, l: int| 0 <= k2 < l < self.free@.len() implies #[trigger] self.free@[k2]
                        != #[trigger] self.free@[l] by {
                        assert(old(self).free@[k2] == self.free@[k2] && old(self).free@[l] == self.free@[l]);
                    }
                }
                s
            },
            None => {
                let s = self.values.len();
                self.values.push(Some(item));
                self.next.push(0);
                self.prev.push(0);
                proof {
                    assert forall|i: int| -1 <= i < self.order@.len() implies #[trigger] self.next@[self.ring(i) as int]
                        == self.ring(i + 1) by {
                        assert(old(self).next@[old(self).ring(i) as int] == old(self).ring(i + 1));
                    }
                    assert forall|i: int| 0 <= i <= self.order@.len() implies #[trigger] self.prev@[self.ring(i) as int]
                        == self.ring(i - 1) by {
                        assert(old(self).prev@[old(self).ring(i) as int] == old(self).ring(i - 1));
                    }
                }
                s
            },
        }
    }

    /// Takes the element out of slot `s` and frees the slot.
    fn release_slot(&mut self, s: usize) -> (r: T)
        requires
            1 <= s < old(self).values@.len(),
            old(self).values@[s as int] is Some,
            forall|k: int| 0 <= k < old(self).free@.len() ==> 1 <= #[trigger] old(self).free@[k] < old(self).values@.len(),
            forall|k: int| 0 <= k < old(self).free@.len() ==> (#[trigger] old(self).values@[old(self).free@[k] as int]) is None,
            forall|k: int, l: int| 0 <= k < l < old(self).free@.len() ==> #[trigger] old(self).free@[k] != #[trigger] old(self).free@[l],
        ensures
            r == old(self).values@[s as int]->Some_0,
            final(self).values@ == old(self).values@.update(s as int, None),
            final(self).free@ == old(self).free@.push(s),
            final(self).next == old(self).next,
            final(self).prev == old(self).prev,
            final(self).count == old(self).count,
            final(self).order == old(self).order,
            forall|k: int| 0 <= k < final(self).free@.len() ==> 1 <= #[trigger] final(self).free@[k] < final(self).values@.len(),
            forall|k: int| 0 <= k < final(self).free@.len() ==> (#[trigger] final(self).values@[final(self).free@[k] as int]) is None,
            forall|k: int, l: int| 0 <= k < l < final(self).free@.len() ==> #[trigger] final(self).free@[k] != #[trigger] final(self).free@[l],
    {
        let mut taken: Option<T> = None;
        self.values.set_and_swap(s, &mut taken);
        self.free.push(s);
        proof {
            assert forall|k: int| 0 <= k < old(self).free@.len() implies #[trigger] old(self).free@[k] != s by {}
            assert forall|k: int, l: int| 0 <= k < l < self.free@.len() implies #[trigger] self.free@[k] != #[trigger] self.free@[l] by {
                if l == old(self).free@.len() {
                    assert(old(self).free@[k] != s);
                } else {
                    assert(old(self).free@[k] != old(self).free@[l]);
                }
            }
            assert forall|k: int| 0 <= k < self.free@.len() implies (#[trigger] self.values@[self.free@[k] as int]) is None by {
                if k < old(self).free@.len() {
                    assert(self.free@[k] == old(self).free@[k]);
                }
            }
        }
        match taken {
            Some(v) => v,
            None => vstd::pervasive::unreached(),
        }
    }

    pub fn push_front(&mut self, item: T)
        requires
            old(self).wf(),
            old(self).values@.len() < usize::MAX,
            old(self)@.len() < usize::MAX,
        ensures
            final(self).wf(),
            final(self)@ == seq![item] + old(self)@,
    {
        let ghost o = old(self).order@;
        let s = self.take_slot(item);
        let ghost t = *self;
        let first = self.next[0];
        proof {
            assert(t.next@[t.ring(-1) as int] == t.ring(0));
        }
        self.next.set(s, first);
        self.prev.set(s, 0);
        self.prev.set(first, s);
        self.next.set(0, s);
        self.count = self.count + 1;
        proof {
            self.order@ = seq![s] + o;
            assert forall|i: int| 0 <= i < self.order@.len() implies 1 <= #[trigger] self.order@[i] < self.values@.len() by {
                if i > 0 {
                    assert(self.order@[i] == o[i - 1]);
                }
            }
            assert forall|i: int| 0 <= i < self.order@.len() implies (#[trigger] self.values@[self.order@[i] as int]) is Some by {
                if i > 0 {
                    assert(self.order@[i] == o[i - 1]);
                    assert(t.values@[o[i - 1] as int] is Some);
                }
            }
            assert forall|i: int, j: int| 0 <= i < j < self.order@.len() implies #[trigger] self.order@[i] != #[trigger] self.order@[j] by {
                if i > 0 {
                    assert(o[i - 1] != o[j - 1]);
                } else {
                    assert(o[j - 1] != s);
                }
            }
            assert forall|i: int| -1 <= i < self.order@.len() implies #[trigger] self.next@[self.ring(i) as int] == self.ring(i + 1) by {
                if i >= 1 {
                    assert(self.ring(i) == t.ring(i - 1));
                    assert(t.next@[t.ring(i - 1) as int] == t.ring(i));
                    assert(t.ring(i - 1) != s);
                }
            }
            assert forall|i: int| 0 <= i <= self.order@.len() implies #[trigger] self.prev@[self.ring(i) as int] == self.ring(i - 1) by {
                if i >= 2 {
                    assert(self.ring(i) == t.ring(i - 1));
                    assert(t.prev@[t.ring(i - 1) as int] == t.ring(i - 2));
                    assert(t.ring(i - 1) != s);
                    t.lemma_ring_distinct(0, i - 1);
                    if i - 1 == o.len() {
                        assert(t.ring(0) != 0);
                    }
                }
            }
            assert(self@ =~= seq![item] + old(self)@) by {
                assert forall|i: int| 0 <= i < o.len() implies #[trigger] self.values@[o[i] as int] == old(self).values@[o[i] as int] by {
                    assert(o[i] != s);
                }
            }
        }
    }

    pub fn push_back(&mut self, item: T)
        requires
            old(self).wf(),
            old(self).values@.len() < usize::MAX,
            old(self)@.len() < usize::MAX,
        ensures
            final(self).wf(),
            final(self)@ == old(self)@.push(item),
    {
        let ghost o = old(self).order@;
        let s = self.take_slot(item);
        let ghost t = *self;
        let last = self.prev[0];
        proof {
            assert(t.prev@[t.ring(o.len() as int) as int] == t.ring(o.len() - 1));
        }
        self.prev.set(s, last);
        self.next.set(s, 0);
        self.next.set(last, s);
        self.prev.set(0, s);
        self.count = self.count + 1;
        proof {
            self.order@ = o.push(s);
            let n = o.len() as int;
            assert forall|i: int| 0 <= i < self.order@.len() implies 1 <= #[trigger] self.order@[i] < self.values@.len() by {
                if i < n {
                    assert(self.order@[i] == o[i]);
                }
            }
            assert forall|i: int| 0 <= i < self.order@.len() implies (#[trigger] self.values@[self.order@[i] as int]) is Some by {
                if i < n {
                    assert(self.order@[i] == o[i]);
                    assert(t.values@[o[i] as int] is Some);
                }
            }
            assert forall|i: int, j: int| 0 <= i < j < self.order@.len() implies #[trigger] self.order@[i] != #[trigger] self.order@[j] by {
                if j < n {
                    assert(o[i] != o[j]);
                } else {
                    assert(o[i] != s);
                }
            }
            assert forall|i: int| -1 <= i < self.order@.len() implies #[trigger] self.next@[self.ring(i) as int] == self.ring(i + 1) by {
                if i < n - 1 {
                    assert(self.ring(i) == t.ring(i));
                    assert(self.ring(i + 1) == t.ring(i + 1));
                    assert(t.next@[t.ring(i) as int] == t.ring(i + 1));
                    t.lemma_ring_distinct(i, n - 1);
                    if i >= 0 {
                        assert(t.ring(i) != s);
                    }
                }
            }
            assert forall|i: int| 0 <= i <= self.order@.len() implies #[trigger] self.prev@[self.ring(i) as int] == self.ring(i - 1) by {
                if i < n {
                    assert(self.ring(i) == t.ring(i));
                    assert(self.ring(i - 1) == t.ring(i - 1));
                    assert(t.prev@[t.ring(i) as int] == t.ring(i - 1));
                    assert(t.ring(i) != s);
                    assert(t.ring(i) != 0);
                }
            }
            assert(self@ =~= old(self)@.push(item)) by {
                assert forall|i: int| 0 <= i < o.len() implies #[trigger] self.values@[o[i] as int] == old(self).values@[o[i] as int] by {
                    assert(o[i] != s);
                }
            }
        }
    }

    /// Takes the first element out; `None` when the list is empty.
    pub fn remove_front(&mut self) -> (r: Option<T>)
        requires
            old(self).wf(),
        ensures
            final(self).wf(),
            old(self)@.len() == 0 ==> r is None && final(self)@ == old(self)@,
            old(self)@.len() > 0 ==> r == Some(old(self)@[0]) && final(self)@ == old(self)@.drop_first(),
    {
        let ghost o = old(self).order@;
        let ghost t = *self;
        let first = self.next[0];
        proof {
            assert(t.next@[t.ring(-1) as int] == t.ring(0));
        }
        if first == 0 {
            proof {
                if o.len() > 0 {
                    assert(1 <= o[0]);
                }
            }
            return None;
        }
        let second = self.next[first];
        proof {
            assert(t.next@[t.ring(0) as int] == t.ring(1));
        }
        self.next.set(0, second);
        self.prev.set(second, 0);
        let v = self.release_slot(first);
        self.count = self.count - 1;
        proof {
            self.order@ = o.drop_first();
            let n = o.len() as int;
            assert forall|i: int| 0 <= i < self.order@.len() implies (#[trigger] self.values@[self.order@[i] as int]) is Some by {
                assert(self.order@[i] == o[i + 1]);
                assert(o[i + 1] != first);
                assert(t.values@[o[i + 1] as int] is Some);
            }
            assert forall|i: int, j: int| 0 <= i < j < self.order@.len() implies #[trigger] self.order@[i] != #[trigger] self.order@[j] by {
                assert(o[i + 1] != o[j + 1]);
            }
            assert forall|i: int| 0 <= i < self.order@.len() implies 1 <= #[trigger] self.order@[i] < self.values@.len() by {
                assert(self.order@[i] == o[i + 1]);
            }
            assert forall|i: int| -1 <= i < self.order@.len() implies #[trigger] self.next@[self.ring(i) as int] == self.ring(i + 1) by {
                if i >= 0 {
                    assert(self.ring(i) == t.ring(i + 1));
                    assert(self.ring(i + 1) == t.ring(i + 2));
                    assert(t.next@[t.ring(i + 1) as int] == t.ring(i + 2));
                    assert(t.ring(i + 1) != 0);
                    t.lemma_ring_distinct(0, i + 1);
                }
            }
            assert forall|i: int| 0 <= i <= self.order@.len() implies #[trigger] self.prev@[self.ring(i) as int] == self.ring(i - 1) by {
                assert(self.ring(i) == t.ring(i + 1));
                if i >= 1 {
                    assert(self.ring(i - 1) == t.ring(i));
                    assert(t.prev@[t.ring(i + 1) as int] == t.ring(i));
                    t.lemma_ring_distinct(1, i + 1);
                    if i + 1 < n {
                        assert(t.ring(i + 1) != first) by {
                            t.lemma_ring_distinct(0, i + 1);
                        }
                    }
                }
            }
            assert(self@ =~= old(self)@.drop_first()) by {
                assert forall|i: int| 0 <= i < self.order@.len() implies #[trigger] self.values@[self.order@[i] as int] == old(self).values@[self.order@[i] as int] by {
                    assert(o[i + 1] != first);
                }
            }
        }
        Some(v)
    }

    /// Takes the last element out; `None` when the list is empty.
    pub fn remove_back(&mut self) -> (r: Option<T>)
        requires
            old(self).wf(),
        ensures
            final(self).wf(),
            old(self)@.len() == 0 ==> r is None && final(self)@ == old(self)@,
            old(self)@.len() > 0 ==> r == Some(old(self)@.last()) && final(self)@ == old(self)@.drop_last(),
    {
        let ghost o = old(self).order@;
        let ghost t = *self;
        let ghost n = o.len() as int;
        let last = self.prev[0];
        proof {
            assert(t.prev@[t.ring(n) as int] == t.ring(n - 1));
        }
        if last == 0 {
            proof {
                if n > 0 {
                    assert(1 <= o[n - 1]);
                }
            }
            return None;
        }
        let before = self.prev[last];
        proof {
            assert(t.prev@[t.ring(n - 1) as int] == t.ring(n - 2));
        }
        self.prev.set(0, before);
        self.next.set(before, 0);
        let v = self.release_slot(last);
        self.count = self.count - 1;
        proof {
            self.order@ = o.drop_last();
            assert forall|i: int| 0 <= i < self.order@.len() implies (#[trigger] self.values@[self.order@[i] as int]) is Some by {
                assert(self.order@[i] == o[i]);
                assert(o[i] != last);
                assert(t.values@[o[i] as int] is Some);
            }
            assert forall|i: int, j: int| 0 <= i < j < self.order@.len() implies #[trigger] self.order@[i] != #[trigger] self.order@[j] by {
                assert(o[i] != o[j]);
            }
            assert forall|i: int| 0 <= i < self.order@.len() implies 1 <= #[trigger] self.order@[i] < self.values@.len() by {
                assert(self.order@[i] == o[i]);
            }
            assert forall|i: int| -1 <= i < self.order@.len() implies #[trigger] self.next@[self.ring(i) as int] == self.ring(i + 1) by {
                assert(self.ring(i) == t.ring(i));
                if i < n - 2 {
                    assert(self.ring(i + 1) == t.ring(i + 1));
                    assert(t.next@[t.ring(i) as int] == t.ring(i + 1));
                    t.lemma_ring_distinct(i, n - 2);
                }
            }
            assert forall|i: int| 0 <= i <= self.order@.len() implies #[trigger] self.prev@[self.ring(i) as int] == self.ring(i - 1) by {
                if i < n - 1 {
                    assert(self.ring(i) == t.ring(i));
                    assert(self.ring(i - 1) == t.ring(i - 1));
                    assert(t.prev@[t.ring(i) as int] == t.ring(i - 1));
                    assert(t.ring(i) != 0);
                    t.lemma_ring_distinct(i, n - 1);
                }
            }
            assert(self@ =~= old(self)@.drop_last()) by {
                assert forall|i: int| 0 <= i < self.order@.len() implies #[trigger] self.values@[self.order@[i] as int] == old(self).values@[self.order@[i] as int] by {
                    assert(o[i] != last);
                }
            }
        }
        Some(v)
    }

    pub fn is_empty(&self) -> (r: bool)
        requires
            self.wf(),
        ensures
            r == (self@.len() == 0),
    {
        self.count == 0
    }

    pub fn len(&self) -> (r: usize)
        requires
            self.wf(),
        ensures
            r == self@.len(),
    {
        self.count
    }

    /// The slot of the element at position `index`, found by walking from the front.
    fn slot_of(&self, index: usize) -> (s: usize)
        requires
            self.wf(),
            index < self@.len(),
        ensures
            s == self.order@[index as int],
    {
        let mut cur = self.next[0];
        let mut k: usize = 0;
        proof {
            assert(self.next@[self.ring(-1) as int] == self.ring(0));
        }
        while k < index
            invariant
                self.wf(),
                k <= index < self.order@.len(),
                cur == self.order@[k as int],
            decreases index - k,
        {
            proof {
                assert(self.next@[self.ring(k as int) as int] == self.ring(k + 1));
            }
            cur = self.next[cur];
            k = k + 1;
        }
        cur
    }

    /// The element at position `index`.
    pub fn get(&self, index: usize) -> (r: &T)
        requires
            self.wf(),
            index < self@.len(),
        ensures
            *r == self@[index as int],
    {
        let s = self.slot_of(index);
        proof {
            assert(self.values@[self.order@[index as int] as int] is Some);
        }
        match &self.values[s] {
            Some(v) => v,
            None => vstd::pervasive::unreached(),
        }
    }

    /// Removes the element at position `index`.
    pub fn remove_at(&mut self, index: usize) -> (r: T)
        requires
            old(self).wf(),
            index < old(self)@.len(),
        ensures
            final(self).wf(),
            r == old(self)@[index as int],
            final(self)@ == old(self)@.remove(index as int),
    {
        let ghost o = old(self).order@;
        let ghost t = *self;
        let ghost n = o.len() as int;
        let ghost x = index as int;
        let s = self.slot_of(index);
        let p = self.prev[s];
        let nx = self.next[s];
        proof {
            assert(t.prev@[t.ring(x) as int] == t.ring(x - 1));
            assert(t.next@[t.ring(x) as int] == t.ring(x + 1));
            if !(x == 0 && x + 1 == n) {
                t.lemma_ring_distinct(x - 1, x + 1);
            }
        }
        self.next.set(p, nx);
        self.prev.set(nx, p);
        let v = self.release_slot(s);
        self.count = self.count - 1;
        proof {
            self.order@ = o.remove(x);
            assert forall|i: int| 0 <= i < self.order@.len() implies (#[trigger] self.values@[self.order@[i] as int]) is Some by {
                let oi = if i < x { i } else { i + 1 };
                assert(self.order@[i] == o[oi]);
                assert(o[oi] != s);
                assert(t.values@[o[oi] as int] is Some);
            }
            assert forall|i: int, j: int| 0 <= i < j < self.order@.len() implies #[trigger] self.order@[i] != #[trigger] self.order@[j] by {
                let oi = if i < x { i } else { i + 1 };
                let oj = if j < x { j } else { j + 1 };
                assert(o[oi] != o[oj]);
            }
            assert forall|i: int| 0 <= i < self.order@.len() implies 1 <= #[trigger] self.order@[i] < self.values@.len() by {
                let oi = if i < x { i } else { i + 1 };
                assert(self.order@[i] == o[oi]);
            }
            assert forall|i: int| -1 <= i < self.order@.len() implies #[trigger] self.next@[self.ring(i) as int] == self.ring(i + 1) by {
                let oi = if i < x { i } else { i + 1 };
                let oi1 = if i + 1 < x { i + 1 } else { i + 2 };
                assert(self.ring(i) == t.ring(oi));
                assert(self.ring(i + 1) == t.ring(oi1));
                if i == x - 1 {
                } else {
                    assert(t.next@[t.ring(oi) as int] == t.ring(oi + 1));
                    assert(oi1 == oi + 1);
                    if oi < x - 1 {
                        t.lemma_ring_distinct(oi, x - 1);
                    } else {
                        t.lemma_ring_distinct(x - 1, oi);
                        t.lemma_ring_distinct(x, oi);
                    }
                }
            }
            assert forall|i: int| 0 <= i <= self.order@.len() implies #[trigger] self.prev@[self.ring(i) as int] == self.ring(i - 1) by {
                let oi = if i < x { i } else { i + 1 };
                let oim = if i - 1 < x { i - 1 } else { i };
                assert(self.ring(i) == t.ring(oi));
                assert(self.ring(i - 1) == t.ring(oim));
                if i == x {
                } else {
                    assert(t.prev@[t.ring(oi) as int] == t.ring(oi - 1));
                    assert(oim == oi - 1);
                    if oi < x + 1 {
                        t.lemma_ring_distinct(oi, x + 1);
                        t.lemma_ring_distinct(oi, x);
                    } else {
                        t.lemma_ring_distinct(x + 1, oi);
                    }
                }
            }
            assert(self@ =~= old(self)@.remove(x)) by {
                assert forall|i: int| 0 <= i < self.order@.len() implies #[trigger] self.values@[self.order@[i] as int] == old(self).values@[self.order@[i] as int] by {
                    let oi = if i < x { i } else { i + 1 };
                    assert(self.order@[i] == o[oi]);
                    assert(o[oi] != s);
                }
            }
        }
        v
    }

    /// A cursor at the front of the list.
    pub fn iter(&self) -> (r: ListCursor<'_, T>)
        ensures
            r.index == 0,
            r.list == self,
    {
        ListCursor { list: self, index: 0 }
    }
}

/// Position in a list, moving from front to back.
pub struct ListCursor<'a, T> {
    pub list: &'a List<T>,
    pub index: usize,
}

impl<'a, T> ListCursor<'a, T> {
    /// The element under the cursor, if it is not past the end.
    pub fn get(&self) -> (r: Option<&'a T>)
        requires
            self.list.wf(),
        ensures
            self.index < self.list@.len() ==> r == Some(&self.list@[self.index as int]),
            self.index >= self.list@.len() ==> r is None,
    {
        if self.index < self.list.len() {
            Some(self.list.get(self.index))
        } else {
            None
        }
    }

    /// Moves to the next element.
    pub fn next(&mut self)
        requires
            old(self).list.wf(),
        ensures
            final(self).list == old(self).list,
            old(self).index < old(self).list@.len() ==> final(self).index == old(self).index + 1,
            old(self).index >= old(self).list@.len() ==> final(self).index == old(self).index,
    {
        if self.index < self.list.len() {
            self.index = self.index + 1;
        }
    }
}

} // verus!
