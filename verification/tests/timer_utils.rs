use lib::timer::{ArmTimer, TimerItem, TimerMinHeap, TimerProgram, TimerQueue, ms_sleep, us_sleep};
use lib::utils::deque::Deque;
use lib::utils::intrusive_list::List;
use lib::utils::intrusive_rbtree::RbTree;
use lib::utils::string::{KString, bytes_equal, bytes_starts_with};

#[test]
fn timer_tick_conversions() {
    assert_eq!(ArmTimer::now_from(62_500_000, 62_500_000), 1_000_000);
    assert_eq!(ArmTimer::now_from(625, 62_500_000), 10);
}

#[test]
fn heap_pop_gives_earliest_after_ordered_pushes() {
    let mut h: TimerMinHeap<TimerItem> = TimerMinHeap::new();
    for t in [50u64, 10, 40, 20, 30] {
        h.push(TimerItem::new(t, 0, None));
    }
    assert_eq!(h.len(), 5);
    assert_eq!(h.peek().unwrap().target_time, 10);
    assert_eq!(h.pop().target_time, 10);
    assert_eq!(h.pop().target_time, 20);
    assert_eq!(h.len(), 3);
}

#[test]
fn heap_pop_sinks_left_then_right() {
    // The sinking step compares the right child with what the left swap left behind, so the
    // heap order can break; this sequence shows it.
    let mut h: TimerMinHeap<TimerItem> = TimerMinHeap::new();
    for t in [11u64, 2, 14, 16, 3, 5, 16, 12, 11] {
        h.push(TimerItem::new(t, 0, None));
    }
    let mut out = Vec::new();
    while !h.is_empty() {
        out.push(h.pop().target_time);
    }
    assert_eq!(out.len(), 9);
    assert_eq!(&out[..4], &[2, 3, 5, 11]);
    let mut sorted = out.clone();
    sorted.sort();
    assert_eq!(sorted, vec![2, 3, 5, 11, 11, 12, 14, 16, 16]);
}

#[test]
fn heap_of_pushes_keeps_its_earliest_first() {
    let mut h: TimerMinHeap<TimerItem> = TimerMinHeap::new();
    for t in [11u64, 2, 14, 16, 3, 5, 16, 12, 11] {
        h.push(TimerItem::new(t, 0, None));
        // Every state reached by pushes alone has its earliest item first.
        let earliest = h.inner.iter().map(|i| i.target_time).min().unwrap();
        assert_eq!(h.peek().unwrap().target_time, earliest);
    }
    let order: Vec<u64> = h.inner.iter().map(|i| i.target_time).collect();
    assert_eq!(order, vec![2, 3, 5, 11, 11, 14, 16, 16, 12]);
}

#[test]
fn timer_queue_arms_for_earliest() {
    let mut q = TimerQueue::new();
    assert_eq!(q.wait_for_next(), TimerProgram::Disarm);
    assert_eq!(q.enqueue(100, 50, 7, Some(1)), TimerProgram::Arm(150));
    assert_eq!(q.enqueue(100, 10, 8, None), TimerProgram::Arm(110));
    let first = q.pop().unwrap();
    assert_eq!(first.target_time, 110);
    assert_eq!(first.dispatch(), (8, None));
}

#[test]
fn sleeps_queue_wakeups() {
    let mut q = TimerQueue::new();
    assert_eq!(us_sleep(&mut q, 1000, 5, 3, 9), TimerProgram::Arm(1005));
    let mut q2 = TimerQueue::new();
    assert_eq!(ms_sleep(&mut q2, 1000, 2, 3, 9), TimerProgram::Arm(3000));
}

#[test]
fn deque_fills_its_slots() {
    let mut d: Deque<u32, 3> = Deque::new();
    assert!(d.is_empty());
    d.push(1);
    d.push(2);
    let (a, _) = d.as_slices();
    assert_eq!(a, vec![1, 2]);
    let (c, _) = d.slices_with_count(1);
    assert_eq!(c, vec![1]);
    d.push(3);
    assert!(d.is_full());
    assert_eq!(d.len(), 3);
    assert_eq!(d.end, 3);
    d.pop();
    // `len` reports (start + end) mod (N + 1): here (1 + 3) mod 4.
    assert_eq!(d.len(), 0);
    let (a, b) = d.as_slices();
    assert!(a.is_empty());
    assert!(b.is_empty());
    assert_eq!(d.free(), 1);
    assert_eq!(*d.get(0), 2);
    assert_eq!(*d.get(1), 3);
    d.pop_many(2);
    assert!(d.is_empty());
    assert_eq!(d.start, 3);
    assert_eq!(d.end, 3);
}

#[test]
fn list_keeps_order() {
    let mut l: List<u32> = List::new();
    l.push_back(2);
    l.push_front(1);
    l.push_back(3);
    assert_eq!(l.len(), 3);
    assert_eq!(*l.get(1), 2);
    assert_eq!(l.remove_at(1), 2);
    assert_eq!(l.remove_front(), Some(1));
    assert_eq!(l.remove_back(), Some(3));
    assert!(l.is_empty());
}

#[test]
fn rbtree_finds_and_removes() {
    let mut t: RbTree<&str> = RbTree::new();
    t.insert(5, "five");
    t.insert(1, "one");
    t.insert(9, "nine");
    assert_eq!(t.len(), 3);
    assert_eq!(t.find(1), Some(&"one"));
    assert_eq!(t.find(2), None);
    assert_eq!(t.remove_key(5), Some("five"));
    assert_eq!(t.find(5), None);
    assert_eq!(t.len(), 2);
}

#[test]
fn strings_compare_bytes() {
    let s = KString::from_bytes(b"hello");
    assert_eq!(s.len(), 5);
    assert!(s.eq_bytes(b"hello"));
    assert!(!s.eq_bytes(b"hell"));
    assert!(bytes_equal(b"ab", b"ab"));
    assert!(!bytes_equal(b"ab", b"ac"));
    assert!(bytes_starts_with(b"/dev/tty", b"/dev"));
    assert!(!bytes_starts_with(b"/d", b"/dev"));
}


#[test]
fn pushing_an_earlier_item_makes_it_first() {
    let mut h: TimerMinHeap<TimerItem> = TimerMinHeap::new();
    h.push(TimerItem::new(40, 1, None));
    assert_eq!(h.peek().unwrap().func, 1);
    for t in [30u64, 50, 20, 35] {
        h.push(TimerItem::new(t, 0, None));
    }
    h.push(TimerItem::new(7, 2, None));
    assert_eq!(h.peek().unwrap().target_time, 7);
    assert_eq!(h.peek().unwrap().func, 2);
}

#[test]
fn list_reuses_the_slots_of_removed_elements() {
    let mut l: List<u32> = List::new();
    for v in 0..4u32 {
        l.push_back(v);
    }
    assert_eq!(l.remove_front(), Some(0));
    assert_eq!(l.remove_at(1), 2);
    let slots = l.values.len();
    l.push_front(9);
    l.push_back(8);
    assert_eq!(l.values.len(), slots);
    let mut seen = Vec::new();
    let mut c = l.iter();
    while let Some(v) = c.get() {
        seen.push(*v);
        c.next();
    }
    assert_eq!(seen, vec![9, 1, 3, 8]);
    assert_eq!(l.remove_back(), Some(8));
    assert_eq!(l.len(), 3);
    let mut empty: List<u32> = List::new();
    assert_eq!(empty.remove_front(), None);
    assert_eq!(empty.remove_back(), None);
}
