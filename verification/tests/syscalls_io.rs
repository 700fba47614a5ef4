use lib::interrupts::irq_handler::ExceptionRegisters;
use lib::interrupts::syscalls::{sys_fork, sys_open, sys_pipe, sys_read, sys_waitpid, sys_write, SYSCALL_FAILED};
use lib::sched::task::{KernelTaskStack, Task, TaskFdInner, TaskFdTable};
use lib::subsystem::fs::inode::{FsError, FsResult, InodeOperations};
use lib::subsystem::fs::mounts::MountTable;
use lib::subsystem::fs::tmpfs::TmpFs;
use lib::subsystem::page::meta::PageMeta;

/// An object that keeps what is written to it and reads back a fixed text.
struct Recorder {
    written: Vec<u8>,
    text: Vec<u8>,
}

impl InodeOperations for Recorder {
    fn read(&self, offset: u64, buffer: &mut Vec<u8>) -> FsResult<usize> {
        let start = (offset as usize).min(self.text.len());
        let n = (self.text.len() - start).min(buffer.len());
        buffer[..n].copy_from_slice(&self.text[start..start + n]);
        Ok(n)
    }

    fn write(&mut self, _offset: u64, buffer: &[u8]) -> FsResult<usize> {
        self.written.extend_from_slice(buffer);
        Ok(buffer.len())
    }
}

/// An object that refuses every access.
struct Refuser;

impl InodeOperations for Refuser {
    fn read(&self, _offset: u64, _buffer: &mut Vec<u8>) -> FsResult<usize> {
        Err(FsError::Unsupported)
    }

    fn write(&mut self, _offset: u64, _buffer: &[u8]) -> FsResult<usize> {
        Err(FsError::Unsupported)
    }
}

fn regs3(x0: u64, x1: u64, x2: u64) -> ExceptionRegisters {
    let mut r = ExceptionRegisters::zeroed();
    r.gprs[0] = x0;
    r.gprs[1] = x1;
    r.gprs[2] = x2;
    r
}

fn offset_of(t: &TaskFdTable, fd: usize) -> usize {
    match t.open_file(fd).unwrap() {
        TaskFdInner::File { offset, .. } => offset,
        TaskFdInner::AnonFile { offset, .. } => offset,
    }
}

#[test]
fn write_call_copies_the_readable_bytes_and_moves_the_offset() {
    let mut fds = TaskFdTable::new();
    let fd = fds.add_anon_file_fd(0);
    let mut target = Recorder { written: vec![], text: vec![] };
    // Five bytes asked for, four readable: the fault stops the copy after four.
    let mut r = regs3(fd as u64, 0x1000, 5);
    let n = sys_write(&mut r, &mut fds, &mut target, b"abcd");
    assert_eq!(n, 4);
    assert_eq!(r.gprs[0], 4);
    assert_eq!(target.written, b"abcd");
    assert_eq!(offset_of(&fds, fd), 4);
}

#[test]
fn write_call_fails_on_a_bad_range_descriptor_or_object() {
    let mut fds = TaskFdTable::new();
    let fd = fds.add_anon_file_fd(0);
    let mut target = Recorder { written: vec![], text: vec![] };
    let mut r = regs3(fd as u64, 0x7f_ffff_fff0, 0x100);
    assert_eq!(sys_write(&mut r, &mut fds, &mut target, b"xyz"), -1);
    assert_eq!(r.gprs[0], SYSCALL_FAILED);
    let mut r = regs3(99, 0x1000, 3);
    assert_eq!(sys_write(&mut r, &mut fds, &mut target, b"xyz"), -1);
    assert_eq!(r.gprs[0], SYSCALL_FAILED);
    assert!(target.written.is_empty());
    let mut r = regs3(fd as u64, 0x1000, 3);
    assert_eq!(sys_write(&mut r, &mut fds, &mut Refuser, b"xyz"), -1);
    assert_eq!(r.gprs[0], SYSCALL_FAILED);
    assert_eq!(offset_of(&fds, fd), 0);
}

#[test]
fn read_call_fills_the_writable_bytes() {
    let mut fds = TaskFdTable::new();
    let fd = fds.add_anon_file_fd(0);
    let target = Recorder { written: vec![], text: b"hello".to_vec() };
    let mut user = vec![0u8; 3];
    // Eight bytes asked for: the object gives five, three reach writable memory.
    let mut r = regs3(fd as u64, 0x2000, 8);
    assert_eq!(sys_read(&mut r, &mut fds, &target, &mut user), 5);
    assert_eq!(r.gprs[0], 3);
    assert_eq!(user, b"hel");
    assert_eq!(offset_of(&fds, fd), 5);
    let mut r = regs3(fd as u64, 0x2000, 8);
    let mut user = vec![7u8; 4];
    assert_eq!(sys_read(&mut r, &mut fds, &Refuser, &mut user), -1);
    assert_eq!(r.gprs[0], SYSCALL_FAILED);
    assert_eq!(user, vec![7u8; 4]);
}

#[test]
fn open_call_adds_a_descriptor_for_the_path() {
    let mut table = MountTable::new(TmpFs::new());
    assert_eq!(table.create(b"/a"), Ok(1));
    let mut fds = TaskFdTable::new();
    let mut r = regs3(0x3000, 0, 0);
    sys_open(&mut r, &mut fds, &table, b"/a\0junk");
    assert_eq!(r.gprs[0], 11);
    assert_eq!(fds.open_file(11), Some(TaskFdInner::File { inode: 1, offset: 0 }));
    let mut r = regs3(0x3000, 0, 0);
    sys_open(&mut r, &mut fds, &table, b"/b\0");
    assert_eq!(r.gprs[0], SYSCALL_FAILED);
    let mut r = regs3(0x3000, 0, 0);
    sys_open(&mut r, &mut fds, &table, &[b'/', 0xFF, 0]);
    assert_eq!(r.gprs[0], SYSCALL_FAILED);
    assert_eq!(fds.open_file(12), None);
}

#[test]
fn pipe_call_stores_two_descriptors() {
    let mut fds = TaskFdTable::new();
    let mut user = vec![0u8; 8];
    let mut r = regs3(0x4000, 0, 0);
    sys_pipe(&mut r, &mut fds, &mut user, 5);
    assert_eq!(r.gprs[0], 0);
    assert_eq!(user, vec![11, 0, 0, 0, 12, 0, 0, 0]);
    assert_eq!(fds.open_file(11), Some(TaskFdInner::AnonFile { inode_ops: 5, offset: 0 }));
    assert_eq!(fds.open_file(12), Some(TaskFdInner::AnonFile { inode_ops: 5, offset: 0 }));
    let mut r = regs3(0x7f_ffff_fffc, 0, 0);
    sys_pipe(&mut r, &mut fds, &mut user, 5);
    assert_eq!(r.gprs[0], SYSCALL_FAILED);
    assert_eq!(fds.open_file(13), None);
}

#[test]
fn fork_and_waitpid_calls_track_the_child() {
    let mut parent = Task::kernel_task_from_fn(1, 0x1000, 0x2000, 0, KernelTaskStack::new_zeroed(0x10_0000));
    parent.registers.gprs[31] = parent.kernel_stack_top() - 0x40;
    let mut metas: Vec<PageMeta> = vec![];
    let mut r = regs3(0, 0, 0);
    let child = sys_fork(&mut r, &mut parent, 7, 0x50_0000, 0x20_0000, &mut metas);
    assert_eq!(r.gprs[0], 7);
    assert_eq!(child.pid, 7);
    assert_eq!(child.parent_pid, 1);
    assert_eq!(child.registers.gprs[0], 0);
    let mut r = regs3(7, 0, 0);
    assert_eq!(sys_waitpid(&mut r, &parent), Some(7));
    assert_eq!(r.gprs[0], 0);
    let mut r = regs3(8, 0, 0);
    assert_eq!(sys_waitpid(&mut r, &parent), None);
    assert_eq!(r.gprs[0], SYSCALL_FAILED);
}
