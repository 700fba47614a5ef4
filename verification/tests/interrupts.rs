use lib::interrupts::irq_handler::ExceptionRegisters;
use lib::interrupts::sexc_handler::{
    cancel_user_copy, cancels_user_copy, classify_abort, copy_from_user, copy_to_user,
    create_sexc_table, exception_cause, exception_class, kernel_panic_report, unhandled_action, user_strnlen, PerCpuLock, SexcHandler, UnhandledAction,
    UserInput,
};
use lib::interrupts::syscalls::{parse_argv, syscall_for, validate_user_address_range, Syscall};
use lib::subsystem::page::fault::PageFaultType;
use lib::utils::cpu_local::MAX_CPUS;

#[test]
fn user_range_stops_below_the_limit() {
    assert!(validate_user_address_range(0x1000, 0x1000));
    assert!(validate_user_address_range(0, 0x7ffffffffe));
    assert!(!validate_user_address_range(0, 0x7fffffffff));
    assert!(!validate_user_address_range(0x7fffffffff, 0));
    assert!(!validate_user_address_range(0x1000, u64::MAX));
}

#[test]
fn syscall_numbers() {
    let table = [
        (0, Syscall::Write),
        (1, Syscall::Read),
        (8, Syscall::Open),
        (11, Syscall::Close),
        (14, Syscall::Dup2),
        (17, Syscall::Nanosleep),
        (20, Syscall::Fork),
        (22, Syscall::Exec),
        (27, Syscall::Waitpid),
        (33, Syscall::Sbrk),
        (40, Syscall::Pipe),
        (50, Syscall::Exit),
    ];
    for (num, call) in table {
        assert_eq!(syscall_for(num), Some(call));
    }
    assert_eq!(syscall_for(2), None);
    assert_eq!(syscall_for(99), None);
    assert_eq!(syscall_for(100), None);
}

fn word(bytes: &[u8], at: usize) -> u64 {
    let mut w = [0u8; 8];
    w.copy_from_slice(&bytes[at..at + 8]);
    u64::from_le_bytes(w)
}

#[test]
fn argv_block_layout() {
    let argv = vec![Some(b"ls".to_vec()), Some(b"-l".to_vec()), Some(b"unused".to_vec())];
    let block = parse_argv(2, &argv).unwrap();
    // Count, two offsets, then "ls\0-l\0", padded to 32 bytes.
    assert_eq!(block.len(), 32);
    assert_eq!(word(&block, 0), 2);
    assert_eq!(word(&block, 8), 24);
    assert_eq!(word(&block, 16), 27);
    assert_eq!(&block[24..30], b"ls\0-l\0");
    assert_eq!(&block[30..32], &[0, 0]);
}

#[test]
fn argv_block_of_no_arguments() {
    let block = parse_argv(0, &vec![]).unwrap();
    assert_eq!(block.len(), 16);
    assert_eq!(word(&block, 0), 0);
    assert_eq!(word(&block, 8), 0);
}

#[test]
fn argv_with_unreadable_string_fails() {
    let argv = vec![Some(b"a".to_vec()), None];
    assert_eq!(parse_argv(2, &argv), Err(()));
    // Strings past argc are not read.
    assert!(parse_argv(1, &argv).is_ok());
}

#[test]
fn exception_table_routes_user_exceptions() {
    let table = create_sexc_table();
    assert_eq!(table.0.len(), 64);
    assert_eq!(table.0[0x15], SexcHandler::Syscall);
    assert_eq!(table.0[0x20], SexcHandler::UserInstructionFault);
    assert_eq!(table.0[0x24], SexcHandler::UserDataFault);
    assert_eq!(table.0[0x25], SexcHandler::Default);
    assert_eq!(table.0[0], SexcHandler::Default);
}

#[test]
fn per_cpu_handler_is_replaced_on_one_cpu() {
    let tables = (0..MAX_CPUS).map(|_| create_sexc_table()).collect();
    let mut lock = PerCpuLock::new(tables);
    let old = lock.set(1, 0x25, SexcHandler::UserDataAccess);
    assert_eq!(old, SexcHandler::Default);
    assert_eq!(lock.dispatch(1, 0x25), SexcHandler::UserDataAccess);
    assert_eq!(lock.dispatch(0, 0x25), SexcHandler::Default);
    assert_eq!(lock.dispatch(0, 0x15), SexcHandler::Syscall);
}

#[test]
fn user_input_checks_the_range() {
    let input = UserInput::from_raw_parts(0x1000, 4, 8).unwrap();
    assert_eq!(input, UserInput { addr: 0x1000, len: 4, item_size: 8 });
    assert_eq!(input.len(), 4);
    assert!(!input.is_empty());
    let part = input.index(1, 3);
    assert_eq!(part, UserInput { addr: 0x1008, len: 2, item_size: 8 });
    assert!(UserInput::from_raw_parts(0x7ffffffff0, 2, 8).is_err());
    assert!(UserInput::from_raw_parts(0x1000, usize::MAX, 2).is_err());
}

#[test]
fn user_input_from_cstr_measures_the_string() {
    let s = UserInput::from_cstr(0x2000, 10, b"hello\0world").unwrap();
    assert_eq!(s, UserInput { addr: 0x2000, len: 5, item_size: 1 });
    let capped = UserInput::from_cstr(0x2000, 3, b"hello\0").unwrap();
    assert_eq!(capped.len, 3);
    assert!(UserInput::from_cstr(0x7fffffffff, 3, b"a\0").is_err());
    assert!(UserInput::from_cstr(0x7ffffffffd, 10, b"abc\0").is_err());
}

#[test]
fn strnlen_stops_at_zero_limit_or_fault() {
    assert_eq!(user_strnlen(b"abc\0def", 100), 3);
    assert_eq!(user_strnlen(b"abcdef", 4), 4);
    assert_eq!(user_strnlen(b"abc", 100), 3);
    assert_eq!(user_strnlen(b"", 100), 0);
    assert_eq!(user_strnlen(b"\0abc", 100), 0);
}

#[test]
fn copies_stop_where_memory_faults() {
    let mut dst = vec![9u8; 6];
    assert_eq!(copy_from_user(&mut dst, 4, b"ab"), 2);
    assert_eq!(dst, vec![b'a', b'b', 9, 9, 9, 9]);
    assert_eq!(copy_from_user(&mut dst, 3, b"xyzw"), 3);
    assert_eq!(dst, vec![b'x', b'y', b'z', 9, 9, 9]);

    let mut user = vec![0u8; 3];
    assert_eq!(copy_to_user(&mut user, b"hello"), 3);
    assert_eq!(user, b"hel".to_vec());
    let mut user = vec![7u8; 4];
    assert_eq!(copy_to_user(&mut user, b"hi"), 2);
    assert_eq!(user, vec![b'h', b'i', 7, 7]);
}

#[test]
fn aborts_are_classified_by_fault_status() {
    // Translation fault, level 1, taken from user code.
    assert_eq!(classify_abort(0x5, 0, true, true), Some(PageFaultType::Translation));
    // Permission fault, level 3.
    assert_eq!(classify_abort(0xf, 0, true, true), Some(PageFaultType::Permission));
    // Taken from the kernel: ignored unless the level does not matter.
    assert_eq!(classify_abort(0x5, 0x5, true, true), None);
    assert_eq!(classify_abort(0x5, 0x5, false, true), Some(PageFaultType::Translation));
    // No user task, or an alignment fault.
    assert_eq!(classify_abort(0x5, 0, true, false), None);
    assert_eq!(classify_abort(0x21, 0, true, true), None);
    // Bits above the syndrome are ignored.
    assert_eq!(classify_abort(0x9600_0007, 0, true, true), Some(PageFaultType::Translation));
}

#[test]
fn user_copy_faults() {
    assert!(cancels_user_copy(0x4));
    assert!(cancels_user_copy(0xd));
    assert!(!cancels_user_copy(0x10));
    assert!(!cancels_user_copy(0x0));
    let mut regs = ExceptionRegisters { gprs: [5; 32], elr: 0x4000, spsr: 3, sp_el0: 9, _pad: 0 };
    cancel_user_copy(&mut regs);
    assert_eq!(regs.gprs[0], 1);
    assert_eq!(regs.gprs[1], 5);
    assert_eq!(regs.elr, 0x4004);
    assert_eq!(regs.spsr, 3);
}

#[test]
fn exception_classes_and_causes() {
    assert_eq!(exception_class(0x5600_0000), 0x15);
    assert_eq!(exception_class(0x9200_0045), 0x24);
    assert_eq!(exception_class(u64::MAX), 0x3f);
    assert_eq!(exception_cause(0x15), Some("Trapped SVC\n"));
    assert_eq!(exception_cause(0x25), Some("EL1 Data Abort\n"));
    assert_eq!(exception_cause(0x1), Some("Trapped WF* Instruction\n"));
    assert_eq!(exception_cause(0x2), None);
}

fn expected_report(regs: &ExceptionRegisters, far: u64, elr: u64, esr: u64, cause: &str) -> String {
    let mut s = format!("EXCEPTION at 0x{:x}, FAR 0x{:x}, ESR 0x{:x} \n", elr, far, esr);
    for i in 0..31 {
        let shown = if i == 26 { 28 } else { i };
        s += &format!("x{}: {:x}\n", i, regs.gprs[shown]);
    }
    s += &format!("sp: {:x}\n", regs.gprs[31]);
    s += cause;
    s
}

#[test]
fn panic_report_lists_registers_and_cause() {
    let mut regs = ExceptionRegisters::zeroed();
    for i in 0..32 {
        regs.gprs[i] = (i as u64) * 0x1111 + 0xab00;
    }
    let report = kernel_panic_report(&regs, 0xdead_beef, 0xffff_ff80_0008_1234, 0x9600_0045, 0x25);
    let expected = expected_report(&regs, 0xdead_beef, 0xffff_ff80_0008_1234, 0x9600_0045, "EL1 Data Abort\n");
    assert_eq!(String::from_utf8(report).unwrap(), expected);
    // The line of x26 shows x28.
    assert!(expected.contains(&format!("x26: {:x}\n", regs.gprs[28])));
}

#[test]
fn panic_report_of_unnamed_class_gives_its_number() {
    let regs = ExceptionRegisters::zeroed();
    let report = kernel_panic_report(&regs, 0, 0, 0, 0x3c);
    let expected = expected_report(&regs, 0, 0, 0, "EC: 3c\n");
    assert_eq!(String::from_utf8(report).unwrap(), expected);
}

#[test]
fn unhandled_exceptions_end_user_tasks_or_panic() {
    assert_eq!(unhandled_action(0, true), UnhandledAction::AbortTask);
    assert_eq!(unhandled_action(0x3c0, true), UnhandledAction::AbortTask);
    assert_eq!(unhandled_action(0b0101, true), UnhandledAction::Panic);
    assert_eq!(unhandled_action(0, false), UnhandledAction::Panic);
}

use lib::interrupts::syscalls::{
    fail_syscall, route_syscall, sys_close, sys_dup2, sys_exit, sys_nanosleep, sys_sbrk, SyscallRoute, SYSCALL_FAILED,
};
use lib::sched::scheduler::init_scheduler;
use lib::sched::task::{KernelTaskStack, Process, Task, TaskFdTable, TaskState};
use lib::subsystem::page::meta::PageMeta;
use lib::timer::{TimerProgram, TimerQueue};

fn regs_with(x0: u64, x1: u64) -> ExceptionRegisters {
    let mut r = ExceptionRegisters::zeroed();
    r.gprs[0] = x0;
    r.gprs[1] = x1;
    r.elr = 0x4000;
    r
}

#[test]
fn syscall_routes() {
    assert_eq!(route_syscall(14), SyscallRoute::Handler(Syscall::Dup2));
    assert_eq!(route_syscall(2), SyscallRoute::NoHandler);
    assert_eq!(route_syscall(99), SyscallRoute::NoHandler);
    assert_eq!(route_syscall(100), SyscallRoute::OutOfTable);
    let mut r = regs_with(5, 6);
    fail_syscall(&mut r);
    assert_eq!(r.gprs[0], SYSCALL_FAILED);
    assert_eq!(r.gprs[1], 6);
}

#[test]
fn dup2_and_close_report_in_x0() {
    let mut fds = TaskFdTable::new();
    let fd = fds.add_file_fd(3);
    let mut r = regs_with(fd as u64, 2);
    sys_dup2(&mut r, &mut fds);
    assert_eq!(r.gprs[0], 0);
    assert!(fds.open_file(2).is_some());
    let mut r = regs_with(40, 2);
    sys_dup2(&mut r, &mut fds);
    assert_eq!(r.gprs[0], SYSCALL_FAILED);
    let mut r = regs_with(2, 0);
    sys_close(&mut r, &mut fds);
    assert_eq!(r.gprs[0], 0);
    assert!(fds.open_file(2).is_none());
    let mut r = regs_with(77, 0);
    sys_close(&mut r, &mut fds);
    assert_eq!(r.gprs[0], 0);
}

#[test]
fn sbrk_moves_the_heap_end() {
    let mut kernel = Task::kernel_task_from_fn(1, 0x1000, 0x2000, 0, KernelTaskStack::new_zeroed(0x10_0000));
    let mut metas: Vec<PageMeta> = vec![PageMeta::new_unused(), PageMeta::new_unused()];
    let mut r = regs_with(0x1000, 0);
    sys_sbrk(&mut r, &mut kernel, &mut metas);
    assert_eq!(r.gprs[0], 0);

    let mut user = Task::load_program(2, 0x40_0000, vec![], 0x20_0000, 0x30_0000);
    let mut r = regs_with(0x2000, 0);
    sys_sbrk(&mut r, &mut user, &mut metas);
    let end = r.gprs[0] as usize;
    // The page just below the end was touched, so it is valid and maps frame 1.
    match &mut user.process {
        Process::User(u) => u.page_table.pages = vec![(end - 0x1000, 1, true)],
        Process::Kernel(_) => panic!("not a user task"),
    }
    metas[1].inc_refcount();
    // Shrinking invalidates the pages past the new end and drops their frames' uses.
    let mut r = regs_with((-0x1000i64) as u64, 0);
    sys_sbrk(&mut r, &mut user, &mut metas);
    assert_eq!(r.gprs[0] as usize, end - 0x1000);
    match &user.process {
        Process::User(u) => assert!(u.page_table.pages.is_empty()),
        Process::Kernel(_) => panic!("not a user task"),
    }
    assert_eq!(metas[1].refcount, 0);
}

#[test]
fn nanosleep_queues_a_wakeup_in_microseconds() {
    let mut queue = TimerQueue::new();
    let mut r = regs_with(5_000_999, 0);
    let program = sys_nanosleep(&mut r, &mut queue, 100, 7, 8);
    assert_eq!(program, TimerProgram::Arm(5_100));
    assert_eq!(r.gprs[0], 0);
}

#[test]
fn exit_ends_the_task_and_runs_the_next() {
    let mut s = init_scheduler(0x1000, 0x2000, KernelTaskStack::new_zeroed(0x10_0000), 0x3000, KernelTaskStack::new_zeroed(0x20_0000));
    s.next_task();
    let r = regs_with(3, 0);
    let (next, woken) = sys_exit(&r, &mut s);
    assert!(woken.is_empty());
    // Only the idle task is left to run.
    assert_eq!(next.gprs[0], 0x2000);
    assert_eq!(s.local_task(), Some(1));
    // Switching to the idle task marks the task that ran before runnable, ended or not.
    let t = s.tasks.iter().find(|t| t.pid == 2).unwrap();
    assert_eq!(t.state, TaskState::Runnable);
    assert_eq!(s.kill_queue, vec![2]);
}
