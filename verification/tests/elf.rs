use lib::elf::parser::{ElfParser, ElfSource, Segment, SegmentPermissions, SegmentType};
use lib::elf::raw::{ElfHeader, ProgramHeader};
use lib::utils::arc::Arc;
use lib::sched::task::{Process, Task, STACK_VIRTUAL_ADDR};

fn put(b: &mut [u8], at: usize, bytes: &[u8]) {
    b[at..at + bytes.len()].copy_from_slice(bytes);
}

/// An image with two program headers: a loadable one with file bytes and a note.
fn image() -> Vec<u8> {
    let mut b = vec![0u8; 0x2000];
    put(&mut b, 0, &[0x7f, b'E', b'L', b'F', 2, 1, 1, 0, 0]);
    put(&mut b, 16, &2u16.to_le_bytes());
    put(&mut b, 18, &0xb7u16.to_le_bytes());
    put(&mut b, 20, &1u32.to_le_bytes());
    put(&mut b, 24, &0x40_1000u64.to_le_bytes());
    put(&mut b, 32, &64u64.to_le_bytes());
    put(&mut b, 52, &64u16.to_le_bytes());
    put(&mut b, 54, &56u16.to_le_bytes());
    put(&mut b, 56, &2u16.to_le_bytes());
    put(&mut b, 60, &0u16.to_le_bytes());
    // Program header 0: loadable, r-x, 0x20 file bytes at 0x1000, 0x3000 in memory.
    let ph = 64;
    put(&mut b, ph, &1u32.to_le_bytes());
    put(&mut b, ph + 4, &5u32.to_le_bytes());
    put(&mut b, ph + 8, &0x1000u64.to_le_bytes());
    put(&mut b, ph + 16, &0x40_1010u64.to_le_bytes());
    put(&mut b, ph + 24, &0x40_1010u64.to_le_bytes());
    put(&mut b, ph + 32, &0x20u64.to_le_bytes());
    put(&mut b, ph + 40, &0x3000u64.to_le_bytes());
    put(&mut b, ph + 48, &0x1000u64.to_le_bytes());
    // Program header 1: a note.
    let ph = 64 + 56;
    put(&mut b, ph, &4u32.to_le_bytes());
    for i in 0..0x20 {
        b[0x1000 + i] = i as u8 + 1;
    }
    b
}

#[test]
fn file_header_fields() {
    let b = image();
    let h = ElfHeader::parse(&b, 0);
    assert_eq!(h.ident.magic, [0x7f, b'E', b'L', b'F']);
    assert_eq!(h.ident.class, 2);
    assert_eq!(h.obj_type, 2);
    assert_eq!(h.machine, 0xb7);
    assert_eq!(h.entry, 0x40_1000);
    assert_eq!(h.phoff, 64);
    assert_eq!(h.phnum, 2);
}

#[test]
fn parser_reads_program_headers() {
    let parser = ElfParser::new(Arc::new(image()));
    assert_eq!(parser.entry_vma(), 0x40_1000);
    assert_eq!(parser.num_program_headers(), 2);
    assert_eq!(parser.num_segments(), 2);
    assert_eq!(parser.num_section_headers(), 0);
    let ph: ProgramHeader = parser.program_header(0);
    assert_eq!(ph.segment_type, 1);
    assert_eq!(ph.offset, 0x1000);
    assert_eq!(ph.filesz, 0x20);
    assert_eq!(ph.memsz, 0x3000);
}

#[test]
fn segments_by_type() {
    let parser = ElfParser::new(Arc::new(image()));
    let load = parser.segment(0);
    assert!(matches!(load.source, SegmentType::Loaded(_)));
    assert_eq!(load.virt_addr(), 0x40_1010);
    assert_eq!(load.mem_size(), 0x3000);
    assert_eq!(load.offset(), 0x10);
    // 0x10 bytes into the first page, 0x3000 bytes: four pages.
    assert_eq!(load.mem_page_count(), 4);
    assert!(load.permissions.read());
    assert!(!load.permissions.write());
    assert!(load.permissions.execute());
    let note = parser.segment(1);
    assert!(note.is_null());
}

#[test]
fn first_page_keeps_front_bytes_then_file_then_zeros() {
    let parser = ElfParser::new(Arc::new(image()));
    let load = parser.segment(0);
    let mut page = vec![0xaau8; 4096];
    load.read_page(0, &mut page);
    assert_eq!(&page[..0x10], &[0xaa; 0x10]);
    let expected: Vec<u8> = (1..=0x20).collect();
    assert_eq!(&page[0x10..0x30], expected.as_slice());
    assert!(page[0x30..].iter().all(|&x| x == 0));
    // A later page lies past the file bytes: all zero.
    let mut page = vec![0xaau8; 4096];
    load.read_page(4096, &mut page);
    assert!(page.iter().all(|&x| x == 0));
}

#[test]
fn zeroed_and_null_segments() {
    let zeroed = Segment {
        source: SegmentType::Zeroed,
        offset: 0,
        vaddr: 0x5000,
        memsz: 0,
        filesz: 0,
        permissions: SegmentPermissions::new(),
    };
    let mut page = vec![3u8; 16];
    zeroed.read_page(0, &mut page);
    assert_eq!(page, vec![0u8; 16]);
    let null = Segment { source: SegmentType::Null, ..zeroed };
    let mut page = vec![3u8; 16];
    null.read_page(0, &mut page);
    assert_eq!(page, vec![3u8; 16]);
    assert!(!SegmentPermissions::new().read());
    assert!(SegmentPermissions(0b110).write());
}

#[test]
fn vec_source_reads_at_offset() {
    let src: Vec<u8> = (0..10).collect();
    let mut buf = vec![0u8; 3];
    src.read(4, &mut buf);
    assert_eq!(buf, vec![4, 5, 6]);
}

#[test]
fn image_loads_as_a_task_with_its_loadable_segments() {
    let parser = ElfParser::new(Arc::new(image()));
    let segs = parser.segments();
    assert_eq!(segs.len(), 2);
    assert!(matches!(segs[0].source, SegmentType::Loaded(_)));
    assert!(segs[1].is_null());
    let task = Task::load_image(4, &parser, 0x70_0000, 0x30_0000);
    assert_eq!(task.registers.elr, 0x40_1000);
    match &task.process {
        Process::User(u) => {
            // Only the loadable segment is mapped, on whole pages from 0x40_1000.
            assert_eq!(u.segments.len(), 1);
            assert_eq!((u.segments[0].start_address(), u.segments[0].end_address()), (0x40_1000, 0x40_5000));
            // Its tables map the stack's sixteen frames.
            assert_eq!(u.page_table.pages.len(), 16);
            assert_eq!(u.page_table.pages[0], (STACK_VIRTUAL_ADDR, 0x700, true));
        },
        Process::Kernel(_) => panic!("not a user task"),
    }
}
