use vstd::prelude::*;
use crate::elf::parser::Segment;
use crate::interrupts::irq_handler::ExceptionRegisters;
use crate::sched::task::{segment_fits, stack_top_of, KernelTaskStack, Process, Task, TaskState};

verus! {

/// Whether a task with pid `pid` is among `tasks`.
pub open spec fn has_task(tasks: Seq<Task>, pid: u32) -> bool {
    exists|i: int| 0 <= i < tasks.len() && #[trigger] tasks[i].pid == pid
}

/// Whether the task with pid `pid` is in state `state`.
pub open spec fn state_is(tasks: Seq<Task>, pid: u32, state: TaskState) -> bool {
    forall|i: int| 0 <= i < tasks.len() && #[trigger] tasks[i].pid == pid ==> tasks[i].state == state
}

/// The registers of the task with pid `pid`.
pub open spec fn registers_of(tasks: Seq<Task>, pid: u32) -> ExceptionRegisters {
    tasks[choose|i: int| 0 <= i < tasks.len() && #[trigger] tasks[i].pid == pid].registers
}

/// The state of task `t` once `next` is picked to run after `previous`: the picked task
/// runs, the one before becomes runnable unless it is done, and every other keeps its state.
pub open spec fn switched_state(t: Task, previous: Option<u32>, next: u32) -> TaskState {
    if t.pid == next {
        TaskState::Running
    } else if previous == Some(t.pid) && !(t.state is Done) {
        TaskState::Runnable
    } else {
        t.state
    }
}

/// Whether no two tasks share a pid.
pub open spec fn pids_unique(tasks: Seq<Task>) -> bool {
    forall|i: int, j: int| 0 <= i < j < tasks.len() ==> #[trigger] tasks[i].pid != #[trigger] tasks[j].pid
}

/// Decides which task runs on the core, and keeps the tasks that wait to run, that are
/// blocked, and that are done and have no parent to collect them. Every task lives in
/// `tasks`; the queues hold pids.
pub struct Sched {
    pub tasks: Vec<Task>,
    /// Tasks that are available to run, front first.
    pub run_queue: Vec<u32>,
    /// Tasks that are blocked.
    pub blocked_queue: Vec<u32>,
    /// Tasks to be killed on the next tick.
    pub kill_queue: Vec<u32>,
    /// The task that runs when no other can.
    pub idle_task: Option<u32>,
    /// The task picked last, until it blocks, ends or goes back to the run queue.
    pub staging: Option<u32>,
    /// The task running on the core.
    pub scheduled: Option<u32>,
    /// The pid the next task gets.
    pub next_pid: u32,
}

impl Sched {
    pub open spec fn wf(&self) -> bool {
        &&& pids_unique(self.tasks@)
        &&& forall|k: int| 0 <= k < self.run_queue@.len() ==> has_task(self.tasks@, #[trigger] self.run_queue@[k])
        &&& forall|k: int| 0 <= k < self.blocked_queue@.len() ==> has_task(self.tasks@, #[trigger] self.blocked_queue@[k])
        &&& forall|k: int| 0 <= k < self.kill_queue@.len() ==> has_task(self.tasks@, #[trigger] self.kill_queue@[k])
        &&& (self.idle_task matches Some(p) ==> has_task(self.tasks@, p))
        &&& (self.staging matches Some(p) ==> has_task(self.tasks@, p))
        &&& (self.scheduled matches Some(p) ==> has_task(self.tasks@, p))
    }

    /// No tasks; the first pid handed out is 1.
    pub fn new() -> (r: Self)
        ensures
            r.wf(),
            r.tasks@.len() == 0,
            r.run_queue@.len() == 0,
            r.blocked_queue@.len() == 0,
            r.kill_queue@.len() == 0,
            r.idle_task is None,
            r.staging is None,
            r.scheduled is None,
            r.next_pid == 1,
    {
        Sched {
            tasks: Vec::new(),
            run_queue: Vec::new(),
            blocked_queue: Vec::new(),
            kill_queue: Vec::new(),
            idle_task: None,
            staging: None,
            scheduled: None,
            next_pid: 1,
        }
    }

    /// Position of the task with pid `pid`.
    fn index_of(&self, pid: u32) -> (r: Option<usize>)
        ensures
            r is None <==> !has_task(self.tasks@, pid),
            r matches Some(i) ==> i < self.tasks@.len() && self.tasks@[i as int].pid == pid,
    {
        let mut i: usize = 0;
        while i < self.tasks.len()
            invariant
                i <= self.tasks@.len(),
                forall|k: int| 0 <= k < i ==> #[trigger] self.tasks@[k].pid != pid,
            decreases self.tasks@.len() - i,
        {
            if self.tasks[i].pid == pid {
                return Some(i);
            }
            i += 1;
        }
        None
    }

    /// A fresh pid; the counter wraps as the atomic one does.
    pub fn next_pid(&mut self) -> (r: u32)
        ensures
            r == old(self).next_pid,
            final(self).next_pid == old(self).next_pid.wrapping_add(1),
            final(self).tasks@ == old(self).tasks@,
            final(self).run_queue@ == old(self).run_queue@,
            final(self).blocked_queue@ == old(self).blocked_queue@,
            final(self).kill_queue@ == old(self).kill_queue@,
            final(self).idle_task == old(self).idle_task,
            final(self).staging == old(self).staging,
            final(self).scheduled == old(self).scheduled,
    {
        let pid = self.next_pid;
        self.next_pid = self.next_pid.wrapping_add(1);
        pid
    }

    /// The task running on the core.
    pub fn local_task(&self) -> (r: Option<u32>)
        ensures
            r == self.scheduled,
    {
        self.scheduled
    }

    /// Adds `task` to the tasks and to the back of the run queue.
    pub fn append_task(&mut self, task: Task)
        requires
            old(self).wf(),
            !has_task(old(self).tasks@, task.pid),
        ensures
            final(self).wf(),
            final(self).tasks@ == old(self).tasks@.push(task),
            final(self).run_queue@ == old(self).run_queue@.push(task.pid),
            final(self).blocked_queue@ == old(self).blocked_queue@,
            final(self).kill_queue@ == old(self).kill_queue@,
            final(self).idle_task == old(self).idle_task,
            final(self).staging == old(self).staging,
            final(self).scheduled == old(self).scheduled,
            final(self).next_pid == old(self).next_pid,
    {
        let pid = task.pid;
        let ghost before = self.tasks@;
        self.tasks.push(task);
        self.run_queue.push(pid);
        proof {
            self.lemma_push_keeps(before, pid);
        }
    }

    proof fn lemma_push_keeps(&self, before: Seq<Task>, pid: u32)
        requires
            self.tasks@.len() == before.len() + 1,
            self.tasks@.last().pid == pid,
            forall|i: int| 0 <= i < before.len() ==> self.tasks@[i] == before[i],
            pids_unique(before),
            !has_task(before, pid),
            forall|k: int| 0 <= k < self.run_queue@.len() ==> has_task(before, #[trigger] self.run_queue@[k]) || self.run_queue@[k] == pid,
            forall|k: int| 0 <= k < self.blocked_queue@.len() ==> has_task(before, #[trigger] self.blocked_queue@[k]),
            forall|k: int| 0 <= k < self.kill_queue@.len() ==> has_task(before, #[trigger] self.kill_queue@[k]),
            self.idle_task matches Some(p) ==> has_task(before, p) || p == pid,
            self.staging matches Some(p) ==> has_task(before, p),
            self.scheduled matches Some(p) ==> has_task(before, p),
        ensures
            self.wf(),
    {
        let t = self.tasks@;
        assert forall|p: u32| has_task(before, p) implies has_task(t, p) by {
            let i = choose|i: int| 0 <= i < before.len() && #[trigger] before[i].pid == p;
            assert(t[i].pid == p);
        }
        assert(has_task(t, pid)) by {
            assert(t[t.len() - 1].pid == pid);
        }
        assert forall|i: int, j: int| 0 <= i < j < t.len() implies #[trigger] t[i].pid != #[trigger] t[j].pid by {
            if j == t.len() - 1 {
                assert(before[i].pid == t[i].pid);
            } else {
                assert(before[i].pid != before[j].pid);
            }
        }
    }

    /// Blocks the task picked last: it leaves the core for the blocked queue.
    pub fn block_this_task(&mut self)
        requires
            old(self).wf(),
            old(self).staging is Some,
        ensures
            final(self).wf(),
            final(self).staging is None,
            final(self).blocked_queue@ == old(self).blocked_queue@.push(old(self).staging->Some_0),
            state_is(final(self).tasks@, old(self).staging->Some_0, TaskState::Blocked),
            final(self).run_queue@ == old(self).run_queue@,
            final(self).kill_queue@ == old(self).kill_queue@,
            final(self).scheduled == old(self).scheduled,
            final(self).idle_task == old(self).idle_task,
    {
        let pid = match self.staging {
            Some(p) => p,
            None => 0,
        };
        self.staging = None;
        match self.index_of(pid) {
            Some(i) => {
                self.set_state(i, TaskState::Blocked);
            },
            None => {},
        }
        self.blocked_queue.push(pid);
    }

    /// Gives task `i` state `state`; everything else stays.
    fn set_state(&mut self, i: usize, state: TaskState)
        requires
            old(self).wf(),
            i < old(self).tasks@.len(),
        ensures
            final(self).wf(),
            final(self).tasks@.len() == old(self).tasks@.len(),
            final(self).tasks@[i as int].state == state,
            final(self).tasks@[i as int].pid == old(self).tasks@[i as int].pid,
            final(self).tasks@[i as int].registers == old(self).tasks@[i as int].registers,
            final(self).tasks@[i as int].parent_pid == old(self).tasks@[i as int].parent_pid,
            final(self).tasks@[i as int].children@ == old(self).tasks@[i as int].children@,
            forall|k: int| 0 <= k < old(self).tasks@.len() && k != i ==> #[trigger] final(self).tasks@[k] == old(self).tasks@[k],
            final(self).run_queue@ == old(self).run_queue@,
            final(self).blocked_queue@ == old(self).blocked_queue@,
            final(self).kill_queue@ == old(self).kill_queue@,
            final(self).idle_task == old(self).idle_task,
            final(self).staging == old(self).staging,
            final(self).scheduled == old(self).scheduled,
            final(self).next_pid == old(self).next_pid,
    {
        let ghost before = self.tasks@;
        match state {
            TaskState::Running => self.tasks[i].mark_running(),
            TaskState::Runnable => self.tasks[i].mark_runnable(),
            TaskState::Blocked => self.tasks[i].mark_blocked(),
            TaskState::Done(code) => {
                let _ = self.tasks[i].mark_done(code);
            },
        }
        proof {
            self.lemma_same_pids(before);
        }
    }

    proof fn lemma_same_pids(&self, before: Seq<Task>)
        requires
            self.tasks@.len() == before.len(),
            forall|k: int| 0 <= k < before.len() ==> #[trigger] self.tasks@[k].pid == before[k].pid,
            pids_unique(before),
            forall|k: int| 0 <= k < self.run_queue@.len() ==> has_task(before, #[trigger] self.run_queue@[k]),
            forall|k: int| 0 <= k < self.blocked_queue@.len() ==> has_task(before, #[trigger] self.blocked_queue@[k]),
            forall|k: int| 0 <= k < self.kill_queue@.len() ==> has_task(before, #[trigger] self.kill_queue@[k]),
            self.idle_task matches Some(p) ==> has_task(before, p),
            self.staging matches Some(p) ==> has_task(before, p),
            self.scheduled matches Some(p) ==> has_task(before, p),
        ensures
            self.wf(),
    {
        let t = self.tasks@;
        assert forall|p: u32| has_task(before, p) implies has_task(t, p) by {
            let i = choose|i: int| 0 <= i < before.len() && #[trigger] before[i].pid == p;
            assert(t[i].pid == p);
        }
        assert forall|i: int, j: int| 0 <= i < j < t.len() implies #[trigger] t[i].pid != #[trigger] t[j].pid by {
            assert(before[i].pid != before[j].pid);
        }
    }

    /// Makes blocked task `pid` runnable: it leaves the blocked queue for the back of the run
    /// queue.
    pub fn unblock_task(&mut self, pid: u32)
        requires
            old(self).wf(),
            old(self).blocked_queue@.contains(pid),
        ensures
            final(self).wf(),
            final(self).run_queue@ == old(self).run_queue@.push(pid),
            exists|k: int| 0 <= k < old(self).blocked_queue@.len() && old(self).blocked_queue@[k] == pid
                && final(self).blocked_queue@ == old(self).blocked_queue@.remove(k),
            state_is(final(self).tasks@, pid, TaskState::Runnable),
            final(self).kill_queue@ == old(self).kill_queue@,
            final(self).staging == old(self).staging,
            final(self).scheduled == old(self).scheduled,
            final(self).idle_task == old(self).idle_task,
    {
        let mut k: usize = 0;
        while k < self.blocked_queue.len() && self.blocked_queue[k] != pid
            invariant
                k <= self.blocked_queue@.len(),
                self.blocked_queue@ == old(self).blocked_queue@,
                forall|j: int| 0 <= j < k ==> self.blocked_queue@[j] != pid,
            decreases self.blocked_queue@.len() - k,
        {
            k += 1;
        }
        if k == self.blocked_queue.len() {
            proof {
                let w = choose|j: int| 0 <= j < old(self).blocked_queue@.len() && old(self).blocked_queue@[j] == pid;
                assert(old(self).blocked_queue@[w] == pid);
            }
        }
        let ghost kk = k as int;
        self.blocked_queue.remove(k);
        proof {
            assert forall|j: int| 0 <= j < self.blocked_queue@.len() implies has_task(self.tasks@, #[trigger] self.blocked_queue@[j]) by {
                if j < kk {
                    assert(self.blocked_queue@[j] == old(self).blocked_queue@[j]);
                } else {
                    assert(self.blocked_queue@[j] == old(self).blocked_queue@[j + 1]);
                }
            }
            assert(has_task(self.tasks@, old(self).blocked_queue@[kk]));
        }
        let i = match self.index_of(pid) {
            Some(i) => i,
            None => {
                proof {
                    assert(false);
                }
                0
            },
        };
        self.set_state(i, TaskState::Runnable);
        self.run_queue.push(pid);
        proof {
            assert forall|j: int| 0 <= j < self.tasks@.len() && #[trigger] self.tasks@[j].pid == pid implies self.tasks@[j].state
                == TaskState::Runnable by {
                if j != i {
                    assert(self.tasks@[j].pid != self.tasks@[i as int].pid);
                }
            }
            assert(has_task(self.tasks@, pid)) by {
                assert(self.tasks@[i as int].pid == pid);
            }
        }
    }

    /// Ends the task picked last with `code`: it becomes done, and when no parent will collect
    /// it, it goes to the kill queue. Returns the tasks that waited for it, which the caller
    /// makes runnable.
    pub fn end_task(&mut self, code: i32) -> (r: Vec<u32>)
        requires
            old(self).wf(),
        ensures
            final(self).wf(),
            final(self).staging is None,
            old(self).staging is None ==> r@.len() == 0 && final(self).kill_queue@ == old(self).kill_queue@,
            old(self).staging matches Some(p) ==> state_is(final(self).tasks@, p, TaskState::Done(code)),
            final(self).run_queue@ == old(self).run_queue@,
            final(self).blocked_queue@ == old(self).blocked_queue@,
            final(self).scheduled == old(self).scheduled,
            final(self).idle_task == old(self).idle_task,
    {
        let pid = match self.staging {
            Some(p) => p,
            None => return Vec::new(),
        };
        self.staging = None;
        let i = match self.index_of(pid) {
            Some(i) => i,
            None => return Vec::new(),
        };
        let ghost before = self.tasks@;
        let woken = self.tasks[i].mark_done(code);
        proof {
            self.lemma_same_pids(before);
            assert forall|j: int| 0 <= j < self.tasks@.len() && #[trigger] self.tasks@[j].pid == pid implies self.tasks@[j].state
                == TaskState::Done(code) by {
                if j != i {
                    assert(before[j].pid != before[i as int].pid);
                }
            }
        }
        if !self.tasks[i].has_parent() {
            self.kill_queue.push(pid);
            proof {
                assert(has_task(self.tasks@, pid)) by {
                    assert(self.tasks@[i as int].pid == pid);
                }
            }
        }
        woken
    }

    /// Adds a kernel task running `f` with `arg` through `wrapper` on `stack`, at the back of
    /// the run queue; returns its pid.
    pub fn task_from_fn(&mut self, wrapper: u64, f: u64, arg: u64, stack: KernelTaskStack) -> (r: u32)
        requires
            old(self).wf(),
            !has_task(old(self).tasks@, old(self).next_pid),
            stack_top_of(stack.addr) <= u64::MAX,
            stack_top_of(stack.addr) % 16 == 0,
        ensures
            final(self).wf(),
            r == old(self).next_pid,
            final(self).run_queue@ == old(self).run_queue@.push(r),
            final(self).tasks@.len() == old(self).tasks@.len() + 1,
            final(self).tasks@.last().pid == r,
            final(self).tasks@.last().state == TaskState::Runnable,
            final(self).tasks@.last().registers.elr == wrapper,
            final(self).next_pid == old(self).next_pid.wrapping_add(1),
            final(self).idle_task == old(self).idle_task,
            final(self).staging == old(self).staging,
            final(self).scheduled == old(self).scheduled,
    {
        let pid = self.next_pid();
        let task = Task::kernel_task_from_fn(pid, wrapper, f, arg, stack);
        self.append_task(task);
        pid
    }

    /// Adds a user task running the image with entry `entry` and `segments`, at the back of
    /// the run queue; returns its pid.
    pub fn load_program(&mut self, entry: u64, segments: Vec<Segment>, user_stack_addr: u64, kernel_stack_addr: u64) -> (r: u32)
        requires
            old(self).wf(),
            !has_task(old(self).tasks@, old(self).next_pid),
            forall|i: int| 0 <= i < segments@.len() ==> segment_fits(#[trigger] segments@[i]),
            stack_top_of(kernel_stack_addr) <= u64::MAX,
            stack_top_of(user_stack_addr) <= u64::MAX,
            stack_top_of(kernel_stack_addr) % 16 == 0,
        ensures
            final(self).wf(),
            r == old(self).next_pid,
            final(self).run_queue@ == old(self).run_queue@.push(r),
            final(self).tasks@.len() == old(self).tasks@.len() + 1,
            final(self).tasks@.last().pid == r,
            final(self).tasks@.last().process is User,
            final(self).tasks@.last().registers.elr == entry,
            final(self).next_pid == old(self).next_pid.wrapping_add(1),
            final(self).idle_task == old(self).idle_task,
            final(self).staging == old(self).staging,
            final(self).scheduled == old(self).scheduled,
    {
        let pid = self.next_pid();
        let task = Task::load_program(pid, entry, segments, user_stack_addr, kernel_stack_addr);
        self.append_task(task);
        pid
    }

    /// Makes a kernel task running `f` with `arg` through `wrapper` on `stack` the idle task.
    pub fn idle_task_from_fn(&mut self, wrapper: u64, f: u64, arg: u64, stack: KernelTaskStack) -> (r: u32)
        requires
            old(self).wf(),
            !has_task(old(self).tasks@, old(self).next_pid),
            stack_top_of(stack.addr) <= u64::MAX,
            stack_top_of(stack.addr) % 16 == 0,
        ensures
            final(self).wf(),
            r == old(self).next_pid,
            final(self).idle_task == Some(r),
            final(self).run_queue@ == old(self).run_queue@,
            final(self).tasks@.len() == old(self).tasks@.len() + 1,
            final(self).tasks@.last().pid == r,
            final(self).next_pid == old(self).next_pid.wrapping_add(1),
            final(self).staging == old(self).staging,
            final(self).scheduled == old(self).scheduled,
    {
        let pid = self.next_pid();
        let task = Task::kernel_task_from_fn(pid, wrapper, f, arg, stack);
        let ghost before = self.tasks@;
        self.tasks.push(task);
        self.idle_task = Some(pid);
        proof {
            self.lemma_push_keeps(before, pid);
        }
        pid
    }

    /// Saves the registers of the interrupted task into the running task.
    pub fn save_register_state_to_task(&mut self, state: &ExceptionRegisters)
        requires
            old(self).wf(),
        ensures
            final(self).wf(),
            final(self).scheduled == old(self).scheduled,
            final(self).run_queue@ == old(self).run_queue@,
            final(self).staging == old(self).staging,
            final(self).tasks@.len() == old(self).tasks@.len(),
            old(self).scheduled matches Some(p) ==> forall|i: int| 0 <= i < final(self).tasks@.len()
                && #[trigger] final(self).tasks@[i].pid == p ==> final(self).tasks@[i].registers == *state,
            old(self).scheduled is None ==> final(self).tasks@ == old(self).tasks@,
    {
        let pid = match self.scheduled {
            Some(p) => p,
            None => return,
        };
        let i = match self.index_of(pid) {
            Some(i) => i,
            None => return,
        };
        let ghost before = self.tasks@;
        self.tasks[i].registers = *state;
        proof {
            self.lemma_same_pids(before);
            assert forall|j: int| 0 <= j < self.tasks@.len() && #[trigger] self.tasks@[j].pid == pid implies self.tasks@[j].registers
                == *state by {
                if j != i {
                    assert(before[j].pid != before[i as int].pid);
                }
            }
        }
    }

    /// Picks the task to run next and returns its registers. The task picked last goes back
    /// to the run queue; the front of the run queue runs, and the task that ran before becomes
    /// runnable unless it is done. With nothing to run, the idle task runs.
    pub fn next_task(&mut self) -> (r: Option<ExceptionRegisters>)
        requires
            old(self).wf(),
            old(self).run_queue@.len() > 0 || old(self).staging is Some || old(self).idle_task is Some,
        ensures
            final(self).wf(),
            r is Some,
            ({
                let queue = match old(self).staging {
                    Some(p) => old(self).run_queue@.push(p),
                    None => old(self).run_queue@,
                };
                if queue.len() > 0 {
                    &&& final(self).run_queue@ == queue.drop_first()
                    &&& final(self).scheduled == Some(queue[0])
                    &&& final(self).staging == Some(queue[0])
                    &&& state_is(final(self).tasks@, queue[0], TaskState::Running)
                    &&& r == Some(registers_of(final(self).tasks@, queue[0]))
                    &&& final(self).tasks@.len() == old(self).tasks@.len()
                    &&& forall|k: int| 0 <= k < old(self).tasks@.len() ==> (#[trigger] final(self).tasks@[k]).state
                        == switched_state(old(self).tasks@[k], old(self).scheduled, queue[0])
                        && final(self).tasks@[k].pid == old(self).tasks@[k].pid
                } else {
                    &&& final(self).run_queue@.len() == 0
                    &&& final(self).scheduled == old(self).idle_task
                    &&& final(self).staging is None
                    &&& state_is(
                        final(self).tasks@,
                        old(self).idle_task->Some_0,
                        if old(self).scheduled == old(self).idle_task {
                            TaskState::Runnable
                        } else {
                            TaskState::Running
                        },
                    )
                    &&& (old(self).scheduled matches Some(p) ==> state_is(final(self).tasks@, p, TaskState::Runnable))
                    &&& r == Some(registers_of(final(self).tasks@, old(self).idle_task->Some_0))
                }
            }),
            final(self).blocked_queue@ == old(self).blocked_queue@,
            final(self).kill_queue@ == old(self).kill_queue@,
            final(self).idle_task == old(self).idle_task,
    {
        if let Some(staged) = self.staging {
            self.staging = None;
            self.run_queue.push(staged);
        }
        if self.run_queue.len() > 0 {
            let ghost q = self.run_queue@;
            let task = self.run_queue.remove(0);
            proof {
                assert(has_task(self.tasks@, q[0]));
                assert forall|k: int| 0 <= k < self.run_queue@.len() implies has_task(self.tasks@, #[trigger] self.run_queue@[k]) by {
                    assert(self.run_queue@[k] == q[k + 1]);
                }
            }
            let ghost w = choose|w: int| 0 <= w < self.tasks@.len() && #[trigger] self.tasks@[w].pid == task;
            let ghost start = self.tasks@;
            if let Some(previous) = self.scheduled {
                if let Some(j) = self.index_of(previous) {
                    proof {
                        self.lemma_unique_index(j as int, previous);
                    }
                    if !self.tasks[j].is_done() {
                        self.set_state(j, TaskState::Runnable);
                    }
                } else {
                    assert forall|k: int| 0 <= k < self.tasks@.len() implies (#[trigger] self.tasks@[k]).pid != previous by {
                        if self.tasks@[k].pid == previous {
                            assert(has_task(self.tasks@, previous));
                        }
                    }
                }
            }
            assert forall|k: int| 0 <= k < start.len() && (#[trigger] start[k]).pid != task implies self.tasks@[k].state
                == switched_state(start[k], old(self).scheduled, task) && self.tasks@[k].pid == start[k].pid by {}
            assert(self.tasks@[w].pid == task);
            let i = match self.index_of(task) {
                Some(i) => i,
                None => {
                    proof {
                        assert(false);
                    }
                    0
                },
            };
            let ghost mid = self.tasks@;
            self.set_state(i, TaskState::Running);
            self.scheduled = Some(task);
            self.staging = Some(task);
            proof {
                self.lemma_unique_index(i as int, task);
                assert forall|k: int| 0 <= k < old(self).tasks@.len() implies (#[trigger] self.tasks@[k]).state
                    == switched_state(old(self).tasks@[k], old(self).scheduled, task)
                    && self.tasks@[k].pid == old(self).tasks@[k].pid by {
                    if k != i {
                        assert(self.tasks@[k] == mid[k]);
                    }
                }
            }
            Some(self.tasks[i].registers)
        } else {
            let idle = match self.idle_task {
                Some(p) => p,
                None => {
                    proof {
                        assert(false);
                    }
                    0
                },
            };
            let i = match self.index_of(idle) {
                Some(i) => i,
                None => {
                    proof {
                        assert(false);
                    }
                    0
                },
            };
            self.set_state(i, TaskState::Running);
            if let Some(previous) = self.scheduled {
                if let Some(j) = self.index_of(previous) {
                    self.set_state(j, TaskState::Runnable);
                }
            }
            self.scheduled = Some(idle);
            proof {
                self.lemma_unique_index(i as int, idle);
            }
            Some(self.tasks[i].registers)
        }
    }

    /// The task at position `i` is the only one with its pid.
    proof fn lemma_unique_index(&self, i: int, pid: u32)
        requires
            pids_unique(self.tasks@),
            0 <= i < self.tasks@.len(),
            self.tasks@[i].pid == pid,
        ensures
            registers_of(self.tasks@, pid) == self.tasks@[i].registers,
            forall|j: int| 0 <= j < self.tasks@.len() && #[trigger] self.tasks@[j].pid == pid ==> j == i,
    {
        assert forall|j: int| 0 <= j < self.tasks@.len() && #[trigger] self.tasks@[j].pid == pid implies j == i by {
            if j < i {
                assert(self.tasks@[j].pid != self.tasks@[i].pid);
            } else if j > i {
                assert(self.tasks@[i].pid != self.tasks@[j].pid);
            }
        }
        let c = choose|j: int| 0 <= j < self.tasks@.len() && #[trigger] self.tasks@[j].pid == pid;
        assert(c == i);
    }

    /// Kills the children of every task in the kill queue and empties it.
    pub fn flush_kill_queue(&mut self)
        requires
            old(self).wf(),
        ensures
            final(self).wf(),
            final(self).kill_queue@.len() == 0,
            final(self).run_queue@ == old(self).run_queue@,
            final(self).blocked_queue@ == old(self).blocked_queue@,
            final(self).scheduled == old(self).scheduled,
            final(self).staging == old(self).staging,
            final(self).tasks@.len() == old(self).tasks@.len(),
            forall|k: int, i: int| 0 <= k < old(self).kill_queue@.len() && 0 <= i < final(self).tasks@.len()
                && #[trigger] final(self).tasks@[i].pid == #[trigger] old(self).kill_queue@[k] ==> final(self).tasks@[i].children@.len() == 0,
    {
        let ghost killed = self.kill_queue@;
        while self.kill_queue.len() > 0
            invariant
                self.wf(),
                self.run_queue@ == old(self).run_queue@,
                self.blocked_queue@ == old(self).blocked_queue@,
                self.scheduled == old(self).scheduled,
                self.staging == old(self).staging,
                self.tasks@.len() == old(self).tasks@.len(),
                killed == old(self).kill_queue@,
                self.kill_queue@.len() <= killed.len(),
                self.kill_queue@ == killed.skip(killed.len() - self.kill_queue@.len()),
                forall|k: int, i: int| 0 <= k < killed.len() - self.kill_queue@.len() && 0 <= i < self.tasks@.len()
                    && #[trigger] self.tasks@[i].pid == #[trigger] killed[k] ==> self.tasks@[i].children@.len() == 0,
            decreases self.kill_queue@.len(),
        {
            let pid = self.kill_queue[0];
            let ghost done_before = killed.len() - self.kill_queue@.len();
            assert(has_task(self.tasks@, self.kill_queue@[0]));
            if let Some(i) = self.index_of(pid) {
                let ghost before = self.tasks@;
                self.tasks[i].kill_children();
                proof {
                    self.lemma_same_pids(before);
                    assert forall|k: int, j: int| 0 <= k < done_before + 1 && 0 <= j < self.tasks@.len()
                        && #[trigger] self.tasks@[j].pid == #[trigger] killed[k] implies self.tasks@[j].children@.len() == 0 by {
                        if j != i {
                            assert(self.tasks@[j] == before[j]);
                        }
                    }
                }
            }
            let ghost q = self.kill_queue@;
            self.kill_queue.remove(0);
            proof {
                assert(self.kill_queue@ =~= killed.skip(killed.len() - self.kill_queue@.len()));
                assert forall|k: int| 0 <= k < self.kill_queue@.len() implies has_task(self.tasks@, #[trigger] self.kill_queue@[k]) by {
                    assert(self.kill_queue@[k] == q[k + 1]);
                }
            }
        }
    }
}

/// The task running on the core.
pub fn cpu_current_task(sched: &Sched) -> (r: Option<u32>)
    ensures
        r == sched.scheduled,
{
    sched.local_task()
}

/// Makes a kernel task running `idle_fn` through `wrapper` on `idle_stack` the idle task.
pub fn create_local_idle_task(sched: &mut Sched, wrapper: u64, idle_fn: u64, idle_stack: KernelTaskStack) -> (r: u32)
    requires
        old(sched).wf(),
        !has_task(old(sched).tasks@, old(sched).next_pid),
        stack_top_of(idle_stack.addr) <= u64::MAX,
        stack_top_of(idle_stack.addr) % 16 == 0,
    ensures
        final(sched).wf(),
        final(sched).idle_task == Some(r),
        r == old(sched).next_pid,
        final(sched).run_queue@ == old(sched).run_queue@,
        final(sched).tasks@.len() == old(sched).tasks@.len() + 1,
        final(sched).tasks@.last().pid == r,
        final(sched).next_pid == old(sched).next_pid.wrapping_add(1),
        final(sched).staging == old(sched).staging,
        final(sched).scheduled == old(sched).scheduled,
{
    sched.idle_task_from_fn(wrapper, idle_fn, 0, idle_stack)
}

/// A scheduler with an idle task running `idle_fn` and one task running `kill_fn`, which
/// flushes the kill queue; both start through `wrapper`.
pub fn init_scheduler(
    wrapper: u64,
    idle_fn: u64,
    idle_stack: KernelTaskStack,
    kill_fn: u64,
    kill_stack: KernelTaskStack,
) -> (r: Sched)
    requires
        stack_top_of(idle_stack.addr) <= u64::MAX,
        stack_top_of(idle_stack.addr) % 16 == 0,
        stack_top_of(kill_stack.addr) <= u64::MAX,
        stack_top_of(kill_stack.addr) % 16 == 0,
    ensures
        r.wf(),
        r.idle_task == Some(1u32),
        r.run_queue@ == seq![2u32],
        r.tasks@.len() == 2,
        r.next_pid == 3,
        r.staging is None,
        r.scheduled is None,
{
    let mut sched = Sched::new();
    let idle = create_local_idle_task(&mut sched, wrapper, idle_fn, idle_stack);
    assert(!has_task(sched.tasks@, 2u32)) by {
        assert(sched.tasks@.len() == 1);
        assert(sched.tasks@[0].pid == 1);
    }
    let _ = sched.task_from_fn(wrapper, kill_fn, 0, kill_stack);
    sched
}

} // verus!
