use vstd::prelude::*;
use crate::utils::spin_lock::SpinLock;

verus! {

broadcast use vstd::seq_lib::group_to_multiset_ensures;

/// The arithmetic of the generic timer: the hardware counts ticks at a frequency that
/// the caller reads, the kernel speaks in microseconds.
pub struct ArmTimer {}

impl ArmTimer {
    /// Ticks to program as a relative timeout of `micros` at `freq` ticks per second.
    pub fn wait_for_ticks(micros: u64, freq: u64) -> (r: u64)
        requires
            micros * freq <= u64::MAX,
        ensures
            r == micros * freq / 1_000_000int,
    {
        (micros * freq) / 1_000_000
    }

    /// Counter value to program as an absolute deadline of `micros` at `freq` ticks per
    /// second; the result is cut to its low 64 bits.
    pub fn wait_until_ticks(micros: u64, freq: u64) -> (r: u64)
        ensures
            r == (micros * freq / 1_000_000int) as u64,
    {
        proof {
            vstd::arithmetic::mul::lemma_mul_upper_bound(micros as int, u64::MAX as int, freq as int, u64::MAX as int);
        }
        let ticks: u128 = ((micros as u128) * (freq as u128)) / 1_000_000;
        ticks as u64
    }

    /// Microseconds since the counter started, from counter value `time` at `freq` ticks
    /// per second; the result is cut to its low 64 bits.
    pub fn now_from(time: u64, freq: u64) -> (r: u64)
        requires
            freq > 0,
        ensures
            r == (time * 1_000_000 / (freq as int)) as u64,
    {
        let micros: u128 = ((time as u128) * 1_000_000) / (freq as u128);
        micros as u64
    }
}

/// Items that a `TimerMinHeap` orders by a point in time.
pub trait Deadline {
    spec fn time_key(&self) -> u64;

    fn deadline(&self) -> (r: u64)
        ensures
            r == self.time_key(),
    ;
}

/// Whether every item of `s` is due no earlier than its parent in the implicit binary tree.
pub open spec fn heap_ordered<T: Deadline>(s: Seq<T>) -> bool {
    forall|i: int| 0 < i < s.len() ==> s[(i - 1) / 2].time_key() <= #[trigger] s[i].time_key()
}

/// `heap_ordered`, except possibly between `x` and its parent.
pub open spec fn heap_ordered_except<T: Deadline>(s: Seq<T>, x: int) -> bool {
    forall|i: int| 0 < i < s.len() && i != x ==> s[(i - 1) / 2].time_key() <= #[trigger] s[i].time_key()
}

/// The children of `x` are due no earlier than the parent of `x`.
pub open spec fn children_after_grandparent<T: Deadline>(s: Seq<T>, x: int) -> bool {
    forall|i: int| 0 < i < s.len() && (i - 1) / 2 == x ==> s[(x - 1) / 2].time_key() <= #[trigger] s[i].time_key()
}

/// In a heap-ordered sequence the first item is due no later than any other.
pub proof fn lemma_heap_first_is_min<T: Deadline>(s: Seq<T>, j: int)
    requires
        heap_ordered(s),
        0 <= j < s.len(),
    ensures
        s[0].time_key() <= s[j].time_key(),
    decreases j,
{
    if j > 0 {
        lemma_heap_first_is_min(s, (j - 1) / 2);
    }
}

/// `s` with the items at `i` and `j` exchanged.
pub open spec fn swapped<T>(s: Seq<T>, i: int, j: int) -> Seq<T> {
    s.update(i, s[j]).update(j, s[i])
}

/// What sinking the item at `index` makes of `s`: it trades places with its left child if
/// that one is due earlier, then with its right child if that one is due earlier than what
/// now stands in its place, and goes on from the child it last traded with; it stops when
/// it traded with neither, or when the children's positions no longer fit a machine word.
pub open spec fn sink<T: Deadline>(s: Seq<T>, index: int) -> Seq<T>
    decreases s.len() - index,
{
    if index < 0 || index >= s.len() || index >= (usize::MAX - 2) / 2 {
        s
    } else {
        let l = 2 * index + 1;
        let r = 2 * index + 2;
        let to_left = l < s.len() && s[index].time_key() > s[l].time_key();
        let s1 = if to_left { swapped(s, index, l) } else { s };
        let to_right = r < s.len() && s1[index].time_key() > s1[r].time_key();
        let s2 = if to_right { swapped(s1, index, r) } else { s1 };
        let next = if to_right { r } else if to_left { l } else { index };
        if next == index {
            s2
        } else {
            sink(s2, next)
        }
    }
}

/// What taking out the first item leaves of `s`: the last item moved in its place, then sunk.
pub open spec fn after_pop<T: Deadline>(s: Seq<T>) -> Seq<T> {
    sink(s.update(0, s.last()).drop_last(), 0)
}

/// What moving the item at `index` up makes of `s`: at each step it trades places with its
/// parent when the parent is due later, and the walk goes on from the parent's position,
/// traded or not, up to the first item.
pub open spec fn swim<T: Deadline>(s: Seq<T>, index: int) -> Seq<T>
    decreases index,
{
    if index <= 0 || index >= s.len() {
        s
    } else {
        let p = (index - 1) / 2;
        let s1 = if s[p].time_key() > s[index].time_key() {
            swapped(s, p, index)
        } else {
            s
        };
        swim(s1, p)
    }
}

/// What adding `v` makes of `s`: `v` goes last, then moves up.
pub open spec fn after_push<T: Deadline>(s: Seq<T>, v: T) -> Seq<T> {
    swim(s.push(v), s.len() as int)
}

/// Swimming up an item due before every other item brings it to the front.
proof fn lemma_swim_earliest_to_front<T: Deadline>(t: Seq<T>, index: int, v: T)
    requires
        0 <= index < t.len(),
        t[index] == v,
        forall|j: int| 0 <= j < t.len() && j != index ==> v.time_key() < #[trigger] t[j].time_key(),
    ensures
        swim(t, index)[0] == v,
    decreases index,
{
    if index > 0 {
        let p = (index - 1) / 2;
        assert(v.time_key() < t[p].time_key());
        let s1 = swapped(t, p, index);
        assert forall|j: int| 0 <= j < s1.len() && j != p implies v.time_key() < #[trigger] s1[j].time_key() by {
            if j == index {
                assert(s1[j] == t[p]);
            } else {
                assert(s1[j] == t[j]);
            }
        }
        lemma_swim_earliest_to_front(s1, p, v);
    }
}

/// Pushing onto a heap an item due before every item it holds, or onto an empty heap, makes
/// that item the first: what `peek` gives next.
pub proof fn lemma_push_earliest_is_first<T: Deadline>(s: Seq<T>, v: T)
    requires
        heap_ordered(s),
        s.len() == 0 || v.time_key() < s[0].time_key(),
    ensures
        after_push(s, v)[0] == v,
{
    let t = s.push(v);
    assert forall|j: int| 0 <= j < t.len() && j != s.len() implies v.time_key() < #[trigger] t[j].time_key() by {
        lemma_heap_first_is_min(s, j);
        assert(t[j] == s[j]);
    }
    lemma_swim_earliest_to_front(t, s.len() as int, v);
}

/// What a heap holds after `items` are pushed onto an empty heap, in order.
pub open spec fn pushed_all<T: Deadline>(items: Seq<T>) -> Seq<T>
    decreases items.len(),
{
    if items.len() == 0 {
        Seq::empty()
    } else {
        after_push(pushed_all(items.drop_last()), items.last())
    }
}

/// Exchanging two items keeps the items.
proof fn lemma_swapped_multiset<T>(s: Seq<T>, i: int, j: int)
    requires
        0 <= i < s.len(),
        0 <= j < s.len(),
    ensures
        swapped(s, i, j).to_multiset() == s.to_multiset(),
        swapped(s, i, j).len() == s.len(),
{
    broadcast use vstd::multiset::group_multiset_axioms;
    let t = s.update(i, s[j]);
    assert(s.contains(s[i]));
    assert(t.to_multiset() == s.to_multiset().insert(s[j]).remove(s[i]));
    assert(t.contains(t[j]));
    assert(t.update(j, s[i]).to_multiset() == t.to_multiset().insert(s[i]).remove(t[j]));
    if i == j {
        assert(t.update(j, s[i]) =~= s);
    } else {
        assert(s.to_multiset().insert(s[j]).remove(s[i]).insert(s[i]).remove(s[j]) =~= s.to_multiset());
    }
}

/// Moving an item up keeps the items, and makes a heap of a sequence that is heap-ordered
/// but for that item and its parent, when the item's children are due no earlier than its
/// parent.
proof fn lemma_swim<T: Deadline>(s: Seq<T>, index: int)
    requires
        0 <= index < s.len(),
        heap_ordered_except(s, index),
        index > 0 ==> children_after_grandparent(s, index),
    ensures
        heap_ordered(swim(s, index)),
        swim(s, index).to_multiset() == s.to_multiset(),
        swim(s, index).len() == s.len(),
    decreases index,
{
    if index > 0 {
        let parent = (index - 1) / 2;
        if s[parent].time_key() > s[index].time_key() {
            let t = swapped(s, parent, index);
            lemma_swapped_multiset(s, parent, index);
            assert forall|i: int| 0 < i < t.len() && i != parent implies t[(i - 1) / 2].time_key()
                <= #[trigger] t[i].time_key() by {
                if i != index && (i - 1) / 2 != index && (i - 1) / 2 != parent {
                    assert(s[(i - 1) / 2].time_key() <= s[i].time_key());
                } else if (i - 1) / 2 == index {
                    assert(s[(index - 1) / 2].time_key() <= s[i].time_key());
                } else if (i - 1) / 2 == parent && i != index {
                    assert(s[parent].time_key() <= s[i].time_key());
                }
            }
            if parent > 0 {
                assert forall|i: int| 0 < i < t.len() && (i - 1) / 2 == parent implies t[(parent - 1) / 2].time_key()
                    <= #[trigger] t[i].time_key() by {
                    assert(s[(parent - 1) / 2].time_key() <= s[parent].time_key());
                    if i != index {
                        assert(s[parent].time_key() <= s[i].time_key());
                    }
                }
            }
            lemma_swim(t, parent);
        } else {
            assert forall|i: int| 0 < i < s.len() && i != parent implies s[(i - 1) / 2].time_key()
                <= #[trigger] s[i].time_key() by {
                if i == index {
                }
            }
            if parent > 0 {
                assert forall|i: int| 0 < i < s.len() && (i - 1) / 2 == parent implies s[(parent - 1) / 2].time_key()
                    <= #[trigger] s[i].time_key() by {
                    assert(s[(parent - 1) / 2].time_key() <= s[parent].time_key());
                    if i != index {
                        assert(s[parent].time_key() <= s[i].time_key());
                    }
                }
            }
            lemma_swim(s, parent);
        }
    } else {
        assert forall|i: int| 0 < i < s.len() implies s[(i - 1) / 2].time_key() <= #[trigger] s[i].time_key() by {
            assert(i != index);
        }
    }
}

/// Moving an item up keeps the number of items.
proof fn lemma_swim_len<T: Deadline>(s: Seq<T>, index: int)
    ensures
        swim(s, index).len() == s.len(),
    decreases index,
{
    if 0 < index < s.len() {
        let p = (index - 1) / 2;
        if s[p].time_key() > s[index].time_key() {
            lemma_swim_len(swapped(s, p, index), p);
        } else {
            lemma_swim_len(s, p);
        }
    }
}

/// Moving an item up keeps the items.
proof fn lemma_swim_multiset<T: Deadline>(s: Seq<T>, index: int)
    ensures
        swim(s, index).to_multiset() == s.to_multiset(),
    decreases index,
{
    if 0 < index < s.len() {
        let p = (index - 1) / 2;
        if s[p].time_key() > s[index].time_key() {
            lemma_swapped_multiset(s, p, index);
            lemma_swim_multiset(swapped(s, p, index), p);
        } else {
            lemma_swim_multiset(s, p);
        }
    }
}

/// Adding an item to a heap keeps it a heap, with the item added.
pub proof fn lemma_push_keeps_heap<T: Deadline>(s: Seq<T>, v: T)
    requires
        heap_ordered(s),
    ensures
        heap_ordered(after_push(s, v)),
        after_push(s, v).to_multiset() == s.to_multiset().insert(v),
        after_push(s, v).len() == s.len() + 1,
{
    let t = s.push(v);
    let n = s.len() as int;
    assert forall|i: int| 0 < i < t.len() && i != n implies t[(i - 1) / 2].time_key() <= #[trigger] t[i].time_key() by {
        assert(s[(i - 1) / 2].time_key() <= s[i].time_key());
    }
    if n > 0 {
        assert forall|i: int| 0 < i < t.len() && (i - 1) / 2 == n implies t[(n - 1) / 2].time_key() <= #[trigger] t[i].time_key() by {
        }
    }
    lemma_swim(t, n);
}

/// A heap that only ever had items pushed onto it, starting empty, is heap-ordered, holds
/// exactly the items pushed, and its first item is due no later than any of them.
pub proof fn lemma_pushes_keep_heap<T: Deadline>(items: Seq<T>)
    ensures
        heap_ordered(pushed_all(items)),
        pushed_all(items).to_multiset() == items.to_multiset(),
        pushed_all(items).len() == items.len(),
        forall|j: int| 0 <= j < items.len() ==> pushed_all(items)[0].time_key() <= #[trigger] items[j].time_key(),
    decreases items.len(),
{
    broadcast use vstd::multiset::group_multiset_axioms;
    if items.len() > 0 {
        let rest = items.drop_last();
        lemma_pushes_keep_heap(rest);
        lemma_push_keeps_heap(pushed_all(rest), items.last());
        assert(items =~= rest.push(items.last()));
        let h = pushed_all(items);
        assert forall|j: int| 0 <= j < items.len() implies h[0].time_key() <= #[trigger] items[j].time_key() by {
            assert(items.to_multiset().count(items[j]) > 0);
            assert(h.to_multiset().count(items[j]) > 0);
            assert(h.contains(items[j]));
            let k = choose|k: int| 0 <= k < h.len() && h[k] == items[j];
            lemma_heap_first_is_min(h, k);
        }
    }
}

/// Exchanges the items at `i` and `j`.
fn swap_items<T>(v: &mut Vec<T>, i: usize, j: usize)
    requires
        i < j < old(v)@.len(),
    ensures
        final(v)@ == old(v)@.update(i as int, old(v)@[j as int]).update(j as int, old(v)@[i as int]),
        final(v)@.to_multiset() == old(v)@.to_multiset(),
{
    let ghost s = v@;
    let (upper, lower) = v.as_mut_slice().split_at_mut(j);
    core::mem::swap(&mut upper[i], &mut lower[0]);
    proof {
        broadcast use vstd::multiset::group_multiset_axioms;
        let t = s.update(i as int, s[j as int]);
        assert(v@ == t.update(j as int, s[i as int]));
        assert(s.contains(s[i as int]));
        assert(t.to_multiset() == s.to_multiset().insert(s[j as int]).remove(s[i as int]));
        assert(t.update(j as int, s[i as int]).to_multiset() == t.to_multiset().insert(s[i as int]).remove(s[j as int]));
        assert(s.to_multiset().insert(s[j as int]).remove(s[i as int]).insert(s[i as int]).remove(s[j as int]) =~= s.to_multiset());
    }
}

/// A binary min-heap of items ordered by when they are due.
pub struct TimerMinHeap<T: Deadline> {
    pub inner: Vec<T>,
}

impl<T: Deadline> TimerMinHeap<T> {
    pub open spec fn view(&self) -> Seq<T> {
        self.inner@
    }

    pub fn new() -> (r: Self)
        ensures
            r@.len() == 0,
            heap_ordered(r@),
    {
        Self { inner: Vec::new() }
    }

    /// Adds `value` and moves it up past every parent due later than it.
    pub fn push(&mut self, value: T)
        ensures
            final(self)@ == after_push(old(self)@, value),
            final(self)@.len() == old(self)@.len() + 1,
            final(self)@.to_multiset() == old(self)@.to_multiset().insert(value),
            heap_ordered(old(self)@) ==> heap_ordered(final(self)@),
    {
        let mut index = self.inner.len();
        self.inner.push(value);
        proof {
            if heap_ordered(old(self)@) {
                lemma_push_keeps_heap(old(self)@, value);
            }
        }
        while index > 0
            invariant
                index < self.inner@.len(),
                self.inner@.len() == old(self)@.len() + 1,
                swim(self.inner@, index as int) == after_push(old(self)@, value),
            decreases index,
        {
            let parent = (index - 1) / 2;
            if self.inner[parent].deadline() > self.inner[index].deadline() {
                swap_items(&mut self.inner, parent, index);
            }
            index = parent;
        }
        proof {
            lemma_swim_len(old(self)@.push(value), old(self)@.len() as int);
            lemma_swim_multiset(old(self)@.push(value), old(self)@.len() as int);
        }
    }

    /// The first item, which in a heap-ordered heap is due no later than any other.
    pub fn peek(&self) -> (r: Option<&T>)
        ensures
            self@.len() == 0 ==> r is None,
            self@.len() > 0 ==> r == Some(&self@[0]),
            self@.len() > 0 && heap_ordered(self@) ==> forall|j: int| 0 <= j < self@.len()
                ==> self@[0].time_key() <= #[trigger] self@[j].time_key(),
    {
        proof {
            if self@.len() > 0 && heap_ordered(self@) {
                assert forall|j: int| 0 <= j < self@.len() implies self@[0].time_key()
                    <= #[trigger] self@[j].time_key() by {
                    lemma_heap_first_is_min(self@, j);
                }
            }
        }
        if self.inner.len() > 0 {
            Some(&self.inner[0])
        } else {
            None
        }
    }

    /// Takes out the first item, moves the last one in its place and lets it sink: at each
    /// step it trades places with the left child if that one is due earlier, and then with
    /// the right child if that one is due earlier than what now stands in its place.
    pub fn pop(&mut self) -> (r: T)
        requires
            old(self)@.len() > 0,
        ensures
            r == old(self)@[0],
            final(self)@ == after_pop(old(self)@),
            final(self)@.len() == old(self)@.len() - 1,
            final(self)@.to_multiset().insert(r) == old(self)@.to_multiset(),
            heap_ordered(old(self)@) ==> forall|j: int| 0 <= j < old(self)@.len()
                ==> r.time_key() <= #[trigger] old(self)@[j].time_key(),
    {
        proof {
            broadcast use vstd::multiset::group_multiset_axioms;
            let s = old(self)@;
            if heap_ordered(s) {
                assert forall|j: int| 0 <= j < s.len() implies s[0].time_key() <= #[trigger] s[j].time_key() by {
                    lemma_heap_first_is_min(s, j);
                }
            }
            assert(s.update(0, s.last()).drop_last() =~= s.update(0, s.last()).remove(s.len() - 1));
            assert(s.update(0, s.last()).to_multiset() == s.to_multiset().insert(s.last()).remove(s[0]));
            assert(s.to_multiset().count(s[0]) > 0);
        }
        let ret = self.inner.swap_remove(0);
        proof {
            broadcast use vstd::multiset::group_multiset_axioms;
            let s = old(self)@;
            let u = s.update(0, s.last());
            assert(u.to_multiset().count(u[u.len() - 1]) > 0);
            assert(self.inner@.to_multiset() == u.to_multiset().remove(s.last()));
            assert(self.inner@.to_multiset().insert(ret) =~= s.to_multiset());
        }
        let len = self.len();
        let mut index: usize = 0;
        proof {
            let s = old(self)@;
            assert(self.inner@ =~= s.update(0, s.last()).drop_last());
        }
        while index < len
            invariant
                len == self.inner@.len(),
                self.inner@.len() == old(self)@.len() - 1,
                self.inner@.to_multiset().insert(ret) == old(self)@.to_multiset(),
                sink(self.inner@, index as int) == after_pop(old(self)@),
            ensures
                self.inner@ == after_pop(old(self)@),
                self.inner@.len() == old(self)@.len() - 1,
                self.inner@.to_multiset().insert(ret) == old(self)@.to_multiset(),
            decreases len - index,
        {
            if index >= (usize::MAX - 2) / 2 {
                break;
            }
            proof {
                assert(0 <= index < self.inner@.len());
            }
            let ghost before = self.inner@;
            let left_child = 2 * index + 1;
            let right_child = 2 * index + 2;
            let mut next_index = index;
            if left_child < len && self.inner[index].deadline() > self.inner[left_child].deadline() {
                swap_items(&mut self.inner, index, left_child);
                next_index = left_child;
            }
            if right_child < len && self.inner[index].deadline() > self.inner[right_child].deadline() {
                swap_items(&mut self.inner, index, right_child);
                next_index = right_child;
            }
            proof {
                let l = 2 * index + 1;
                let r = 2 * index + 2;
                let to_left = l < before.len() && before[index as int].time_key() > before[l].time_key();
                let s1 = if to_left { swapped(before, index as int, l) } else { before };
                assert(to_left ==> s1 =~= before.update(index as int, before[l]).update(l, before[index as int]));
                let to_right = r < s1.len() && s1[index as int].time_key() > s1[r].time_key();
                let s2 = if to_right { swapped(s1, index as int, r) } else { s1 };
                assert(to_right ==> s2 =~= s1.update(index as int, s1[r]).update(r, s1[index as int]));
                assert(self.inner@ == s2);
            }
            if next_index == index {
                break;
            } else {
                index = next_index;
            }
        }
        ret
    }

    pub fn len(&self) -> (r: usize)
        ensures
            r == self@.len(),
    {
        self.inner.len()
    }

    pub fn is_empty(&self) -> (r: bool)
        ensures
            r == (self@.len() == 0),
    {
        self.len() == 0
    }
}

/// A callback due at `target_time`: `func` names the handler in the caller's table, `data`
/// is the argument handed to it.
pub struct TimerItem {
    pub target_time: u64,
    pub func: usize,
    pub data: Option<usize>,
}

impl Deadline for TimerItem {
    open spec fn time_key(&self) -> u64 {
        self.target_time
    }

    fn deadline(&self) -> (r: u64) {
        self.target_time
    }
}

impl TimerItem {
    pub fn new(target_time: u64, func: usize, data: Option<usize>) -> (r: Self)
        ensures
            r.target_time == target_time,
            r.func == func,
            r.data == data,
    {
        TimerItem { target_time, func, data }
    }

    /// The handler to run and the argument to run it with.
    pub fn dispatch(&self) -> (r: (usize, Option<usize>))
        ensures
            r == (self.func, self.data),
    {
        (self.func, self.data)
    }
}

/// What to do with the timer after the queue changed.
#[derive(Debug, Clone, Copy, PartialEq, Eq, Structural)]
pub enum TimerProgram {
    /// Enable the timer and let it fire at this many microseconds.
    Arm(u64),
    /// Nothing is queued: disable the timer.
    Disarm,
}

/// Callbacks of one CPU, ordered by when they are due.
pub struct TimerQueue {
    pub heap: SpinLock<TimerMinHeap<TimerItem>>,
}

impl TimerQueue {
    pub open spec fn view(&self) -> Seq<TimerItem> {
        self.heap.inner@
    }

    pub open spec fn wf(&self) -> bool {
        heap_ordered(self@)
    }

    pub fn new() -> (r: Self)
        ensures
            r.wf(),
            r@.len() == 0,
    {
        Self { heap: SpinLock::new(TimerMinHeap::new()) }
    }

    /// Queues `func` with `data` to run `delay_us` after `now`, and says how to program the
    /// timer for the earliest item.
    pub fn enqueue(&mut self, now: u64, delay_us: u64, func: usize, data: Option<usize>) -> (r: TimerProgram)
        requires
            now + delay_us <= u64::MAX,
        ensures
            old(self).wf() ==> final(self).wf(),
            final(self)@.len() == old(self)@.len() + 1,
            final(self)@.to_multiset() == old(self)@.to_multiset().insert(
                TimerItem { target_time: (now + delay_us) as u64, func, data },
            ),
            r == TimerProgram::Arm(final(self)@[0].target_time),
            old(self).wf() ==> forall|j: int| 0 <= j < final(self)@.len() ==> final(self)@[0].target_time
                <= #[trigger] final(self)@[j].target_time,
    {
        let target_time = now + delay_us;
        let queue = self.heap.lock();
        queue.push(TimerItem { target_time, func, data });
        self.wait_for_next()
    }

    /// How to program the timer: for the earliest item, or off when nothing is queued.
    pub fn wait_for_next(&self) -> (r: TimerProgram)
        ensures
            self@.len() == 0 ==> r == TimerProgram::Disarm,
            self@.len() > 0 ==> r == TimerProgram::Arm(self@[0].target_time),
            self@.len() > 0 && self.wf() ==> forall|j: int| 0 <= j < self@.len() ==> self@[0].target_time
                <= #[trigger] self@[j].target_time,
    {
        let front = self.heap.inner.peek();
        proof {
            if self@.len() > 0 && self.wf() {
                assert forall|j: int| 0 <= j < self@.len() implies self@[0].target_time <= #[trigger] self@[j].target_time by {
                    assert(self@[0].time_key() <= self@[j].time_key());
                }
            }
        }
        match front {
            Some(front) => TimerProgram::Arm(front.target_time),
            None => TimerProgram::Disarm,
        }
    }

    /// Takes out the earliest item, if any.
    pub fn pop(&mut self) -> (r: Option<TimerItem>)
        ensures
            old(self)@.len() == 0 ==> r is None && final(self)@ == old(self)@,
            old(self)@.len() > 0 ==> r == Some(old(self)@[0]) && final(self)@ == after_pop(old(self)@)
                && final(self)@.to_multiset().insert(old(self)@[0]) == old(self)@.to_multiset()
                && final(self)@.len() == old(self)@.len() - 1,
            old(self).wf() ==> (r matches Some(item) ==> forall|j: int| 0 <= j < old(self)@.len()
                ==> item.target_time <= #[trigger] old(self)@[j].target_time),
    {
        let queue = self.heap.lock();
        if !queue.is_empty() {
            let item = queue.pop();
            proof {
                if old(self).wf() {
                    assert forall|j: int| 0 <= j < old(self)@.len() implies item.target_time
                        <= #[trigger] old(self)@[j].target_time by {
                        assert(item.time_key() <= old(self)@[j].time_key());
                    }
                }
            }
            Some(item)
        } else {
            None
        }
    }
}

/// Queues a wake-up of wait queue `wait_queue` by handler `func` `delay_us` after `now`; the
/// caller then blocks on that queue.
pub fn us_sleep(queue: &mut TimerQueue, now: u64, delay_us: u64, func: usize, wait_queue: usize) -> (r: TimerProgram)
    requires
        now + delay_us <= u64::MAX,
    ensures
        old(queue).wf() ==> final(queue).wf(),
        final(queue)@.to_multiset() == old(queue)@.to_multiset().insert(
            TimerItem { target_time: (now + delay_us) as u64, func, data: Some(wait_queue) },
        ),
        r == TimerProgram::Arm(final(queue)@[0].target_time),
{
    queue.enqueue(now, delay_us, func, Some(wait_queue))
}

/// `us_sleep` for `delay_ms` milliseconds.
pub fn ms_sleep(queue: &mut TimerQueue, now: u64, delay_ms: u64, func: usize, wait_queue: usize) -> (r: TimerProgram)
    requires
        delay_ms * 1000 <= u64::MAX,
        now + delay_ms * 1000 <= u64::MAX,
    ensures
        old(queue).wf() ==> final(queue).wf(),
        final(queue)@.to_multiset() == old(queue)@.to_multiset().insert(
            TimerItem { target_time: (now + delay_ms * 1000) as u64, func, data: Some(wait_queue) },
        ),
        r == TimerProgram::Arm(final(queue)@[0].target_time),
{
    us_sleep(queue, now, delay_ms * 1_000, func, wait_queue)
}

} // verus!
