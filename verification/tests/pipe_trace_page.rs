use lib::subsystem::page::{ArmPageTableRoot, VmaDescriptor, KERNEL_START_VIRT_ADDR};
use lib::subsystem::fs::inode::FsError;
use lib::subsystem::page::{ArmDescriptorGroupManager, ArmPageDescriptor, PageLayer};
use lib::subsystem::page::meta::{PageFlags, PAGE_TYPE_ANON, PAGE_TYPE_KERNEL};
use lib::subsystem::pipe::{Pipe, PipeOutcome, PIPE_SIZE};
use lib::subsystem::trace::{Trace, TraceBuffer, decimal_digits};

fn done(o: PipeOutcome) -> (Result<usize, FsError>, Vec<u32>) {
    match o {
        PipeOutcome::Done { result, wake } => (result, wake),
        PipeOutcome::Wait => panic!("the operation waits"),
    }
}

#[test]
fn pipe_read_gives_back_what_was_written() {
    let (r, w, mut p) = Pipe::pipe(3);
    let (res, _) = done(w.write(&mut p, b"hello", 1));
    assert_eq!(res, Ok(5));
    let mut buf = vec![0u8; 3];
    let (res, _) = done(r.read(&mut p, &mut buf, 2));
    assert_eq!(res, Ok(3));
    assert_eq!(&buf, b"hel");
    let mut buf = vec![0u8; 8];
    let (res, _) = done(r.read(&mut p, &mut buf, 2));
    assert_eq!(res, Ok(2));
    assert_eq!(&buf[..2], b"lo");
}

#[test]
fn empty_pipe_waits_while_a_writer_is_open() {
    let (r, w, mut p) = Pipe::pipe(0);
    let mut buf = vec![0u8; 4];
    assert!(matches!(r.read(&mut p, &mut buf, 9), PipeOutcome::Wait));
    let (res, wake) = done(w.write(&mut p, b"x", 1));
    assert_eq!(res, Ok(1));
    assert_eq!(wake, vec![9]);
}

#[test]
fn empty_pipe_without_writers_is_at_end() {
    let (r, w, mut p) = Pipe::pipe(0);
    let _ = w.release(&mut p);
    let mut buf = vec![0u8; 4];
    let (res, _) = done(r.read(&mut p, &mut buf, 9));
    assert_eq!(res, Err(FsError::EndOfFile));
}

#[test]
fn full_pipe_without_readers_is_at_end() {
    let (r, w, mut p) = Pipe::pipe(0);
    let _ = r.release(&mut p);
    let data = vec![7u8; PIPE_SIZE];
    let (res, _) = done(w.write(&mut p, &data, 1));
    assert_eq!(res, Ok(PIPE_SIZE));
    let (res, _) = done(w.write(&mut p, b"y", 1));
    assert_eq!(res, Err(FsError::EndOfFile));
}

#[test]
fn decimal_digits_of_numbers() {
    assert_eq!(decimal_digits(0), b"0".to_vec());
    assert_eq!(decimal_digits(1234), b"1234".to_vec());
    assert_eq!(decimal_digits(u64::MAX), b"18446744073709551615".to_vec());
}

#[test]
fn trace_renders_records_as_lines() {
    let mut t = TraceBuffer::new();
    t.record(Trace::SchedEntry, 1_500_000, 7);
    t.record(Trace::SchedExit, 2_000_042, 12);
    let mut out = vec![0u8; 200];
    let n = t.read(0, &mut out).unwrap();
    let text = String::from_utf8(out[..n].to_vec()).unwrap();
    assert_eq!(text, "[1.500000] SchedEntry\t| pid: 7\n[2.000042] SchedExit\t| pid: 12\n");
    let mut out = vec![0u8; 4];
    assert_eq!(t.read(1, &mut out), Err(FsError::EndOfFile));
    assert_eq!(Trace::Eob.code(), 0);
}

#[test]
fn trace_read_stops_at_buffer_end() {
    let mut t = TraceBuffer::new();
    t.record(Trace::SchedEntry, 1_500_000, 7);
    let mut out = vec![0u8; 10];
    let n = t.read(0, &mut out).unwrap();
    assert!(n <= 10);
    assert_eq!(&out[..n], &b"[1.500000] SchedEntry\t| pid: 7\n"[..n]);
}

#[test]
fn descriptor_fields_read_back() {
    let mut d = ArmPageDescriptor::new();
    assert!(d.valid());
    assert_eq!(d.0, 1);
    d.set_valid(true);
    d.set_af(true);
    d.set_page_descriptor(true);
    d.set_phys_address(0x1234_5000);
    assert!(d.valid());
    assert!(d.af());
    assert!(d.is_page_descriptor());
    assert_eq!(d.get_phys_address(), 0x1234_5000);
    d.set_valid(false);
    assert!(!d.valid());
    assert_eq!(d.get_phys_address(), 0x1234_5000);
}

#[test]
fn descriptor_attr_group_is_cleared_by_set() {
    // Setting the attribute group clears the field and masks the shifted group with the
    // field's offset in place of its mask, so no bit of the group arrives.
    let mut d = ArmPageDescriptor::new();
    d.set_attr_group(3);
    assert_eq!(d.get_attr_group(), 0);
}

#[test]
fn page_layers_step_down() {
    assert_eq!(PageLayer::First.next_layer(), PageLayer::Second);
    assert!(PageLayer::Third.is_lowest_layer());
    assert_eq!(PageLayer::Third.get_region_size(), 4096);
}

#[test]
fn mapping_a_page_sets_its_descriptor() {
    let mut m = ArmDescriptorGroupManager::new(0, PageLayer::Third, 0x8000);
    m.map_page(5, 0x4_2000);
    assert!(m.is_lowest_layer());
    assert_eq!(m.find_subgroup(5), None);
}

#[test]
fn page_flags_lock_and_type() {
    let mut f = PageFlags(0);
    assert!(!f.is_used());
    assert_eq!(f.try_lock(), Ok(()));
    assert!(f.is_locked());
    assert_eq!(f.try_lock(), Err(()));
    f.set_page_type(PAGE_TYPE_KERNEL);
    assert_eq!(f.page_type(), PAGE_TYPE_KERNEL);
    assert!(f.is_used());
    f.set_page_type(PAGE_TYPE_ANON);
    assert_eq!(f.page_type(), PAGE_TYPE_ANON);
    f.unlock();
    assert!(!f.is_locked());
    f.set_head();
    assert!(f.is_head());
    f.clear_head();
    assert!(!f.is_head());
}

#[test]
fn finding_a_kernel_descriptor_splits_the_blocks_on_the_way() {
    let mut root = ArmPageTableRoot::create_kernel_root(0x1000);
    let addr = KERNEL_START_VIRT_ADDR + 2 * 0x4000_0000 + 3 * 0x20_0000 + 5 * 0x1000;
    assert_eq!(root.descriptor_for_vma(addr), VmaDescriptor::SplitRoot { index: 2 });
    assert_eq!(root.descriptor_for_vma_splitting(addr, 0x2000, 0x3000), (0, 0, 5));
    assert_eq!(root.root_group.children.len(), 1);
    assert_eq!(root.root_group.children[0].index, 2);
    assert_eq!(root.root_group.children[0].descriptors.addr, 0x2000);
    assert_eq!(root.root_group.children[0].children[0].index, 3);
    assert_eq!(root.root_group.children[0].children[0].descriptors.addr, 0x3000);
    assert_eq!(root.descriptor_for_vma(addr), VmaDescriptor::Found { second: 0, third: 0, index: 5 });
    // Once split, the same address is found without splitting again.
    assert_eq!(root.descriptor_for_vma_splitting(addr, 0x4000, 0x5000), (0, 0, 5));
    assert_eq!(root.root_group.children.len(), 1);
}
