use lib::sched::task::{TaskFdInner, TaskFdTable};

fn offset_of(t: &TaskFdTable, fd: usize) -> usize {
    match t.open_file(fd).unwrap() {
        TaskFdInner::File { offset, .. } => offset,
        TaskFdInner::AnonFile { offset, .. } => offset,
    }
}

#[test]
fn descriptors_start_at_eleven() {
    let mut t = TaskFdTable::new();
    assert_eq!(t.add_file_fd(5), 11);
    assert_eq!(t.add_anon_file_fd(9), 12);
    assert_eq!(t.open_file(11), Some(TaskFdInner::File { inode: 5, offset: 0 }));
    assert_eq!(t.open_file(12), Some(TaskFdInner::AnonFile { inode_ops: 9, offset: 0 }));
    assert_eq!(t.open_file(13), None);
}

#[test]
fn duplicated_descriptor_shares_the_offset() {
    let mut t = TaskFdTable::new();
    let fd = t.add_file_fd(5);
    assert_eq!(t.dup_fd(1, fd as u32), Ok(()));
    t.advance_offset(fd, 10);
    assert_eq!(offset_of(&t, 1), 10);
    t.advance_offset(1, 5);
    assert_eq!(offset_of(&t, fd), 15);
    assert_eq!(t.dup_fd(2, 99), Err(()));
}

#[test]
fn forked_table_copies_offsets_and_then_goes_its_own_way() {
    let mut t = TaskFdTable::new();
    let fd = t.add_file_fd(5);
    t.advance_offset(fd, 7);
    let mut child = t.fork();
    assert_eq!(offset_of(&child, fd), 7);
    child.advance_offset(fd, 3);
    assert_eq!(offset_of(&child, fd), 10);
    assert_eq!(offset_of(&t, fd), 7);
}

#[test]
fn closed_descriptor_is_gone() {
    let mut t = TaskFdTable::new();
    let fd = t.add_file_fd(5);
    t.close(fd);
    assert_eq!(t.open_file(fd), None);
}
