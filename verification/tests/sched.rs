use lib::sched::mutex::Mutex;
use lib::sched::scheduler::{cpu_current_task, init_scheduler, Sched};
use lib::sched::task::{KernelTaskStack, TaskState};
use lib::sched::wait_queue::WaitQueue;
use lib::sched::workqueue::{Workqueue, WorkqueuEntry};

const WRAPPER: u64 = 0x1000;

fn stack(n: u64) -> KernelTaskStack {
    KernelTaskStack::new_zeroed(0x10_0000 * n)
}

fn state_of(s: &Sched, pid: u32) -> TaskState {
    s.tasks.iter().find(|t| t.pid == pid).unwrap().state
}

#[test]
fn scheduler_starts_with_idle_and_killer() {
    let s = init_scheduler(WRAPPER, 0x2000, stack(1), 0x3000, stack(2));
    assert_eq!(s.idle_task, Some(1));
    assert_eq!(s.run_queue, vec![2]);
    assert_eq!(s.tasks.len(), 2);
    assert_eq!(s.next_pid, 3);
    assert_eq!(cpu_current_task(&s), None);
}

#[test]
fn tasks_run_round_robin() {
    let mut s = init_scheduler(WRAPPER, 0x2000, stack(1), 0x3000, stack(2));
    let p3 = s.task_from_fn(WRAPPER, 0x4000, 7, stack(3));
    assert_eq!(p3, 3);
    let regs = s.next_task().unwrap();
    assert_eq!(regs.elr, WRAPPER);
    assert_eq!(regs.gprs[0], 0x3000);
    assert_eq!(s.local_task(), Some(2));
    assert_eq!(state_of(&s, 2), TaskState::Running);
    let regs = s.next_task().unwrap();
    assert_eq!(regs.gprs[0], 0x4000);
    assert_eq!(regs.gprs[1], 7);
    assert_eq!(s.local_task(), Some(3));
    assert_eq!(state_of(&s, 2), TaskState::Runnable);
    assert_eq!(s.run_queue, vec![2]);
    s.next_task();
    assert_eq!(s.local_task(), Some(2));
    assert_eq!(s.run_queue, vec![3]);
}

#[test]
fn blocked_task_waits_until_unblocked() {
    let mut s = init_scheduler(WRAPPER, 0x2000, stack(1), 0x3000, stack(2));
    s.next_task();
    assert_eq!(s.staging, Some(2));
    s.block_this_task();
    assert_eq!(state_of(&s, 2), TaskState::Blocked);
    assert_eq!(s.blocked_queue, vec![2]);
    // Nothing else can run: the idle task does.
    let regs = s.next_task().unwrap();
    assert_eq!(regs.gprs[0], 0x2000);
    assert_eq!(s.local_task(), Some(1));
    assert_eq!(state_of(&s, 1), TaskState::Running);
    // The idle task picked again while it runs ends up marked runnable.
    s.next_task();
    assert_eq!(state_of(&s, 1), TaskState::Runnable);
    s.unblock_task(2);
    assert!(s.blocked_queue.is_empty());
    assert_eq!(s.run_queue, vec![2]);
    assert_eq!(state_of(&s, 2), TaskState::Runnable);
    s.next_task();
    assert_eq!(s.local_task(), Some(2));
}

#[test]
fn ended_task_without_parent_is_killed() {
    let mut s = init_scheduler(WRAPPER, 0x2000, stack(1), 0x3000, stack(2));
    s.next_task();
    let woken = s.end_task(5);
    assert!(woken.is_empty());
    assert_eq!(state_of(&s, 2), TaskState::Done(5));
    assert_eq!(s.kill_queue, vec![2]);
    assert_eq!(s.staging, None);
    s.flush_kill_queue();
    assert!(s.kill_queue.is_empty());
    // Ending with nothing picked does nothing.
    assert!(s.end_task(1).is_empty());
}

#[test]
fn saved_registers_go_to_the_running_task() {
    let mut s = init_scheduler(WRAPPER, 0x2000, stack(1), 0x3000, stack(2));
    let mut regs = s.next_task().unwrap();
    regs.elr = 0xdead;
    s.save_register_state_to_task(&regs);
    let t = s.tasks.iter().find(|t| t.pid == 2).unwrap();
    assert_eq!(t.registers.elr, 0xdead);
}

#[test]
fn pids_count_up() {
    let mut s = Sched::new();
    assert_eq!(s.next_pid(), 1);
    assert_eq!(s.next_pid(), 2);
    assert_eq!(s.next_pid, 3);
}

#[test]
fn wait_queue_is_first_in_first_out() {
    let mut q = WaitQueue::new();
    assert_eq!(q.unblock_front(), None);
    q.enqueue(4);
    q.enqueue(5);
    q.enqueue(6);
    assert_eq!(q.unblock_front(), Some(4));
    assert_eq!(q.unblock_all(), vec![5, 6]);
    assert_eq!(q.unblock_front(), None);
}

#[test]
fn mutex_queues_the_second_taker() {
    let mut m = Mutex::new(10u32);
    {
        let mut g = m.lock(1).unwrap();
        assert_eq!(*g.get(), 10);
        g.set(11);
        assert_eq!(g.unlock(), None);
    }
    assert!(!m.available);
    {
        let g = m.lock(1).unwrap();
        drop(g);
    }
    // The lock stays taken until unlocked: another task queues.
    assert!(m.available);
    assert!(m.lock(2).is_none());
    assert!(m.lock(3).is_none());
    assert_eq!(m.inner, 11);
    let g = m.lock(4);
    assert!(g.is_none());
    m.available = false;
    let g = m.lock(1).unwrap();
    assert_eq!(g.unlock(), Some(2));
}

#[test]
fn work_runs_in_order_and_wakes_the_worker() {
    let mut s = Sched::new();
    let (mut wq, worker) = Workqueue::create_workqueue(&mut s, WRAPPER, 0x5000, 0x77, stack(4));
    assert_eq!(worker, 1);
    assert_eq!(s.run_queue, vec![1]);
    assert_eq!(wq.next_work(worker), None);
    assert_eq!(wq.enqueue_work(10, Some(1)), Some(worker));
    assert_eq!(wq.enqueue_work(11, None), None);
    assert_eq!(wq.next_work(worker), Some(WorkqueuEntry { function: 10, arg: Some(1) }));
    assert_eq!(wq.next_work(worker), Some(WorkqueuEntry { function: 11, arg: None }));
    assert_eq!(wq.next_work(worker), None);
}

#[test]
fn waiting_queues_the_running_task_and_blocks_it() {
    let mut s = init_scheduler(WRAPPER, 0x2000, stack(1), 0x3000, stack(2));
    s.next_task();
    assert_eq!(s.local_task(), Some(2));
    let mut q = WaitQueue::new();
    q.block_this_task(&mut s);
    assert_eq!(q.unblock_front(), Some(2));
    assert_eq!(s.blocked_queue, vec![2]);
    assert!(s.staging.is_none());
    let t = s.tasks.iter().find(|t| t.pid == 2).unwrap();
    assert_eq!(t.state, TaskState::Blocked);
}

#[test]
fn switching_tasks_makes_the_previous_one_runnable() {
    let mut s = init_scheduler(WRAPPER, 0x2000, stack(1), 0x3000, stack(2));
    let pid = s.task_from_fn(WRAPPER, 0x4000, 0, stack(3));
    s.next_task();
    assert_eq!(s.local_task(), Some(2));
    s.next_task();
    assert_eq!(s.local_task(), Some(pid));
    let t = s.tasks.iter().find(|t| t.pid == 2).unwrap();
    assert_eq!(t.state, TaskState::Runnable);
    let t = s.tasks.iter().find(|t| t.pid == pid).unwrap();
    assert_eq!(t.state, TaskState::Running);
}
