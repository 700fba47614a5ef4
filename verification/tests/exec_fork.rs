use lib::interrupts::sexc_handler::UserInput;
use lib::elf::parser::{Segment, SegmentPermissions, SegmentType};
use lib::interrupts::irq_handler::ExceptionRegisters;
use lib::interrupts::sexc_handler::handle_data_access_fault;
use lib::subsystem::page::fault::PageFaultError;
use lib::interrupts::syscalls::{parse_argv, sys_exec, SYSCALL_FAILED};
use lib::memory::{PageAllocator, Pfn};
use lib::sched::task::{Process, Task, TaskFdInner, TaskFdTable, TaskState, DEFAULT_BASE_VMA, STACK_VIRTUAL_ADDR};
use lib::subsystem::page::meta::PageMeta;
use lib::subsystem::fs::inode::{FsError, InodeOperations};
use lib::subsystem::fs::tmpfs::InodeDirectory;
use lib::subsystem::pipe::{Pipe, PipeOutcome};
use lib::utils::deque::Deque;

fn zeroed_segment(vaddr: u64, memsz: u64) -> Segment {
    Segment {
        source: SegmentType::Zeroed,
        offset: 0,
        vaddr,
        memsz,
        filesz: 0,
        permissions: SegmentPermissions(5),
    }
}

fn null_segment() -> Segment {
    Segment {
        source: SegmentType::Null,
        offset: 0,
        vaddr: 0,
        memsz: 0,
        filesz: 0,
        permissions: SegmentPermissions(0),
    }
}

fn user_segments(t: &Task) -> Vec<(usize, usize)> {
    match &t.process {
        Process::User(u) => u.segments.iter().map(|s| (s.start_address(), s.end_address())).collect(),
        Process::Kernel(_) => panic!("not a user task"),
    }
}

#[test]
fn load_program_maps_each_loadable_segment_on_whole_pages() {
    let t = Task::load_program(3, 0x40_0000, vec![zeroed_segment(0x40_0800, 0x1000), null_segment()], 0x20_0000, 0x30_0000);
    assert_eq!(t.registers.elr, 0x40_0000);
    assert_eq!(t.registers.sp_el0, 0x81_0000);
    assert_eq!(t.registers.spsr, 0);
    assert_eq!(t.registers.gprs[31] % 16, 0);
    assert!(t.is_user_task());
    assert_eq!(t.parent(), 0);
    assert_eq!(user_segments(&t), vec![(0x40_0000, 0x40_2000)]);
}

#[test]
fn exec_replaces_segments_and_releases_the_old_pages() {
    let mut t = Task::load_program(3, 0x40_0000, vec![zeroed_segment(0x40_0000, 0x2000)], 0x20_0000, 0x30_0000);
    let args = parse_argv(0, &vec![]).unwrap();
    // Two pages of the old segment are mapped, and one page outside every area.
    set_pages(&mut t, vec![(0x40_0000, 1, true), (0x40_1000, 2, true), (0x90_0000, 3, true)]);
    let mut metas = used_metas(&[0, 1, 2, 1]);
    let regs = t.exec(0x50_0000, vec![zeroed_segment(0x60_0000, 0x10)], &args, 0x70_0000, &mut metas);
    assert_eq!(regs.elr, 0x50_0000);
    assert_eq!(regs.gprs[0], 0);
    let counts: Vec<u32> = metas.iter().map(|m| m.refcount).collect();
    assert_eq!(counts, vec![0, 0, 1, 1]);
    // The new tables map the sixteen frames of the stack at 0x70_0000.
    let expected: Vec<(usize, usize, bool)> = (0..16).map(|i| (STACK_VIRTUAL_ADDR + i * 0x1000, 0x700 + i, true)).collect();
    assert_eq!(pages_of(&t), expected);
    assert_eq!(user_segments(&t), vec![(0x60_0000, 0x60_1000)]);
    let _ = DEFAULT_BASE_VMA;
}

#[test]
fn exec_call_fails_on_a_missing_image_and_leaves_the_task() {
    let mut t = Task::load_program(3, 0x40_0000, vec![zeroed_segment(0x40_0000, 0x1000)], 0x20_0000, 0x30_0000);
    let mut regs = ExceptionRegisters::zeroed();
    regs.elr = 0x1234;
    set_pages(&mut t, vec![(0x40_0000, 1, true)]);
    let mut metas = used_metas(&[0, 1]);
    let r = sys_exec(&mut regs, &mut t, true, Err(FsError::NoExist), 0, true, 0, &vec![], 0x70_0000, &mut metas);
    assert!(!r);
    assert_eq!(pages_of(&t), vec![(0x40_0000, 1, true)]);
    assert_eq!(metas[1].refcount, 1);
    assert_eq!(regs.gprs[0], SYSCALL_FAILED);
    assert_eq!(regs.elr, 0x1234);
    assert_eq!(user_segments(&t), vec![(0x40_0000, 0x40_1000)]);

    let argv = vec![Some(b"a".to_vec()), None];
    let r = sys_exec(&mut regs, &mut t, true, Ok((0x50_0000, vec![])), 2, true, 2, &argv, 0x70_0000, &mut metas);
    assert!(!r);
    let r = sys_exec(&mut regs, &mut t, true, Ok((0x50_0000, vec![])), 2, true, 1, &argv, 0x70_0000, &mut metas);
    assert!(!r);
    assert_eq!(metas[1].refcount, 1);
}

#[test]
fn exec_call_starts_the_new_program_with_its_arguments() {
    let mut t = Task::load_program(3, 0x40_0000, vec![zeroed_segment(0x40_0000, 0x1000)], 0x20_0000, 0x30_0000);
    let mut regs = ExceptionRegisters::zeroed();
    let argv = vec![Some(b"ls".to_vec())];
    set_pages(&mut t, vec![(0x40_0000, 1, true)]);
    let mut metas = used_metas(&[0, 1]);
    let replaced = sys_exec(
        &mut regs,
        &mut t,
        true,
        Ok((0x50_0000, vec![zeroed_segment(0x60_0000, 0x10)])),
        1,
        true,
        1,
        &argv,
        0x70_0000,
        &mut metas,
    );
    assert!(replaced);
    assert_eq!(metas[1].refcount, 0);
    assert_eq!(pages_of(&t).len(), 16);
    assert_eq!(regs.elr, 0x50_0000);
    assert_eq!(regs.gprs[0], 1);
    // argc, one offset, "ls\0", padded to 32 bytes.
    assert_eq!(regs.sp_el0, 0x81_0000 - 32);
    assert_eq!(regs.gprs[1], 0x81_0000 - 32 + 8);
    assert_eq!(t.registers.elr, 0x50_0000);
    assert_eq!(user_segments(&t), vec![(0x60_0000, 0x60_1000)]);
}

#[test]
fn forked_process_copies_areas_and_descriptors() {
    let mut parent = Task::load_program(3, 0x40_0000, vec![zeroed_segment(0x40_0000, 0x1000)], 0x20_0000, 0x30_0000);
    if let Process::User(u) = &mut parent.process {
        u.fds.add_file_fd(9);
    }
    parent.registers.gprs[31] = parent.kernel_stack_top() - 0x40;
    // One valid page in the segment, one outside every area.
    set_pages(&mut parent, vec![(0x40_0000, 1, true), (0x90_0000, 2, true)]);
    let mut metas = used_metas(&[0, 1, 1]);
    let child = parent.fork_process(4, 0x50_0000, 0x60_0000, &mut metas);
    // The segment's page is shared read-only and its frame has one more user.
    assert_eq!(pages_of(&parent), vec![(0x40_0000, 1, false), (0x90_0000, 2, true)]);
    let child_pages = pages_of(&child);
    assert_eq!(child_pages.len(), 17);
    assert_eq!(child_pages[0], (0x40_0000, 1, false));
    assert_eq!(child_pages[1], (STACK_VIRTUAL_ADDR, 0x500, true));
    let counts: Vec<u32> = metas.iter().map(|m| m.refcount).collect();
    assert_eq!(counts, vec![0, 2, 1]);
    assert_eq!(child.parent(), 3);
    assert_eq!(child.state, TaskState::Runnable);
    assert_eq!(child.registers.gprs[0], 0);
    assert_eq!(child.registers.gprs[31], child.kernel_stack_top() - 0x40);
    assert_eq!(user_segments(&child), user_segments(&parent));
    match (&child.process, &parent.process) {
        (Process::User(c), Process::User(p)) => {
            assert_eq!(c.user_stack.addr, 0x50_0000);
            assert_eq!(c.kernel_stack.addr, 0x60_0000);
            assert_eq!(c.fds.open_file(11), p.fds.open_file(11));
            assert_eq!(c.user_heap.0.vma_area, p.user_heap.0.vma_area);
        },
        _ => panic!("both are user tasks"),
    }
    assert_eq!(parent.children, vec![4]);
}

#[test]
fn new_descriptor_names_the_file_at_offset_zero_and_keeps_the_others() {
    let mut t = TaskFdTable::new();
    let a = t.add_file_fd(5);
    let b = t.add_file_fd(6);
    assert_eq!((a, b), (11, 12));
    assert_eq!(t.open_file(a), Some(TaskFdInner::File { inode: 5, offset: 0 }));
    assert_eq!(t.open_file(b), Some(TaskFdInner::File { inode: 6, offset: 0 }));
    t.advance_offset(a, 3);
    assert_eq!(t.dup_fd(20, a as u32), Ok(()));
    assert_eq!(t.open_file(20), Some(TaskFdInner::File { inode: 5, offset: 3 }));
    assert_eq!(t.open_file(b), Some(TaskFdInner::File { inode: 6, offset: 0 }));
    assert_eq!(t.dup_fd(21, 99), Err(()));
    assert_eq!(t.fds.entries.len(), 3);
}

#[test]
fn empty_pipe_reads_leave_queue_and_buffer() {
    let mut p = Pipe::new();
    let mut buf = vec![7u8; 4];
    match p.read(&mut buf, 1) {
        PipeOutcome::Done { result, wake } => {
            assert_eq!(result, Err(FsError::EndOfFile));
            assert!(wake.is_empty());
        },
        PipeOutcome::Wait => panic!("no writer is left"),
    }
    assert_eq!(buf, vec![7u8; 4]);
    p.senders = 1;
    assert!(matches!(p.read(&mut buf, 2), PipeOutcome::Wait));
    assert_eq!(buf, vec![7u8; 4]);
    assert_eq!(p.tx_waiters.queue.as_ref().map(|q| q.len()), Some(1));
}

#[test]
fn directory_has_no_byte_contents() {
    let d = InodeDirectory::new();
    let mut buf = vec![1u8; 3];
    assert_eq!(d.read(0, &mut buf), Err(FsError::Unsupported));
    assert_eq!(buf, vec![1u8; 3]);
}

#[test]
fn reserving_pages_keeps_the_unused_word_bits() {
    let mut a = PageAllocator::new(vec![0b0000_0101u64 | 0xff00], 0);
    assert_eq!(a.reserve_pages(2), Some(Pfn(3)));
    assert_eq!(a.bitmask, vec![0b0001_1101u64 | 0xff00]);
}

#[test]
fn frame_address_sets_the_direct_map_bits() {
    assert_eq!(Pfn(3).as_ptr(), 0xffff_ff80_0000_3000);
}

#[test]
fn deque_length_from_the_start() {
    let mut d: Deque<u8, 4> = Deque::new();
    d.push(1);
    d.push(2);
    assert_eq!(d.len(), 2);
}

#[test]
fn user_range_copies_whole_items() {
    let range = UserInput { addr: 0x1000, len: 2, item_size: 8 };
    let readable: Vec<u8> = (1..=16).collect();
    let mut dst = vec![0u8; 16];
    assert_eq!(range.copy_to_slice(&mut dst, &readable), 2);
    assert_eq!(dst, readable);
    // A fault after 12 bytes leaves one whole item.
    let mut dst = vec![0u8; 16];
    assert_eq!(range.copy_to_slice(&mut dst, &readable[..12]), 1);
    assert_eq!(&dst[..12], &readable[..12]);
    assert_eq!(&dst[12..], &[0u8; 4]);
    let mut writable = vec![0u8; 10];
    assert_eq!(range.copy_from_slice(&mut writable, &readable), 1);
    assert_eq!(&writable[..], &readable[..10]);
}

#[test]
fn descriptor_reads_fail_on_unknown_descriptors_and_unsupported_objects() {
    let mut t = TaskFdTable::new();
    let fd = t.add_file_fd(4);
    let dir = InodeDirectory::new();
    let mut buf = vec![0u8; 4];
    assert_eq!(t.read(99, &dir, &mut buf), -1);
    assert_eq!(t.read(fd, &dir, &mut buf), -1);
    let mut dir = dir;
    assert_eq!(t.write(fd, &mut dir, b"ab"), -1);
    assert_eq!(t.open_file(fd), Some(TaskFdInner::File { inode: 4, offset: 0 }));
}

fn used_metas(counts: &[u32]) -> Vec<PageMeta> {
    counts
        .iter()
        .map(|&c| {
            let mut m = PageMeta::new_unused();
            for _ in 0..c {
                m.inc_refcount();
            }
            m
        })
        .collect()
}

fn set_pages(t: &mut Task, pages: Vec<(usize, usize, bool)>) {
    match &mut t.process {
        Process::User(u) => u.page_table.pages = pages,
        Process::Kernel(_) => panic!("not a user task"),
    }
}

fn pages_of(t: &Task) -> Vec<(usize, usize, bool)> {
    match &t.process {
        Process::User(u) => u.page_table.pages.clone(),
        Process::Kernel(_) => panic!("not a user task"),
    }
}

#[test]
fn data_abort_maps_a_fresh_page_of_the_segment() {
    let mut t = Task::load_program(3, 0x40_0000, vec![zeroed_segment(0x40_0000, 0x2000)], 0x20_0000, 0x30_0000);
    let mut pages = PageAllocator::new(vec![0b1u64], 0);
    let mut metas = used_metas(&[0, 0, 0, 0]);
    let mut frame = vec![7u8; 16];
    // A translation fault (fault status 4) from user code at 0x40_1234.
    let r = handle_data_access_fault(0x4, 0, 0x40_1234, true, &mut t, &mut pages, &mut metas, &mut frame, &[]);
    assert_eq!(r, Ok(Some(Pfn(1))));
    assert_eq!(frame, vec![0u8; 16]);
    assert_eq!(metas[1].refcount, 1);
    let mapped = pages_of(&t);
    assert_eq!(mapped.len(), 17);
    assert_eq!(mapped[16], (0x40_1000, 1, true));
    // An alignment fault (status 0x21) is not a page fault: nothing changes.
    let r = handle_data_access_fault(0x21, 0, 0x40_1234, true, &mut t, &mut pages, &mut metas, &mut frame, &[]);
    assert_eq!(r, Err(PageFaultError::Unhandled));
    assert_eq!(pages_of(&t).len(), 17);
    // A fault outside every area is left unhandled.
    let r = handle_data_access_fault(0x4, 0, 0x90_0000, true, &mut t, &mut pages, &mut metas, &mut frame, &[]);
    assert_eq!(r, Err(PageFaultError::Unhandled));
}

#[test]
fn tasks_bind_their_own_tables() {
    let user = Task::load_program(3, 0x40_0000, vec![], 0x20_0000, 0x30_0000);
    let tables = user.bind_pages().unwrap();
    assert_eq!(tables.pages.len(), 16);
    assert_eq!(tables.pages[0], (STACK_VIRTUAL_ADDR, 0x200, true));
    let kernel = Task::kernel_task_from_fn(1, 0x1000, 0x2000, 0, lib::sched::task::KernelTaskStack::new_zeroed(0x10_0000));
    assert!(kernel.bind_pages().is_none());
}

#[test]
fn descriptors_name_the_inodes_of_their_files() {
    let mut t = TaskFdTable::new();
    let file = t.add_file_fd(5);
    let anon = t.add_anon_file_fd(9);
    let fd = *t.fds.find(file).unwrap();
    assert_eq!(fd.inode(&t.files), Some(5));
    let fd = *t.fds.find(anon).unwrap();
    assert_eq!(fd.inode(&t.files), None);
}
