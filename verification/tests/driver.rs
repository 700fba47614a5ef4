use lib::arm_pl::{disable_earlyconsole, init_from_dtb_node, ArmPl};
use lib::driver::pl::{Pl, PL_IRQ};
use lib::driver::virtio::{VirtioBlkDriver, DESCRIPTOR_COUNT, NUM_DESCRIPTORS, VIRTIO_MAGIC};
use lib::driver::{driver_for, DeviceBus, Driver, DriverKind};
use lib::dtb::parser::{FdtNode, FdtProp};
use lib::interrupts::irq_handler::{IrqHandler, IrqTable};
use lib::subsystem::console::{ConsoleDriver, Console, ConsoleDeviceFile};
use lib::utils::mmio::{RegisterAccess, MMIO};

const KERNEL_MAP: u64 = 0xffff_ff80_0000_0000;

fn prop(name: &str, value: &[u8]) -> FdtProp {
    FdtProp { name: name.as_bytes().to_vec(), value: if value.is_empty() { None } else { Some(value.to_vec()) } }
}

fn reg(words: &[u64]) -> Vec<u8> {
    words.iter().flat_map(|w| w.to_be_bytes()).collect()
}

fn node(name: &str, props: Vec<FdtProp>, children: Vec<FdtNode>) -> FdtNode {
    FdtNode { name: Some(name.as_bytes().to_vec()), properties: props, children }
}

#[test]
fn drivers_by_compatible_string() {
    assert_eq!(driver_for(b"arm,pl011"), Some(DriverKind::Pl));
    assert_eq!(driver_for(b"virtio,mmio"), Some(DriverKind::VirtioBlk));
    assert_eq!(driver_for(b"arm,pl011x"), None);
    assert_eq!(Pl::compatible_string(), b"arm,pl011".to_vec());
    assert_eq!(VirtioBlkDriver::compatible_string(), b"virtio,mmio".to_vec());
}

#[test]
fn probing_reads_the_compatible_property() {
    let bus = DeviceBus::new();
    let uart = node("pl011@9000000", vec![prop("compatible", b"arm,pl011\0arm,primecell\0")], vec![]);
    assert_eq!(bus.try_probe_node(&uart, false), Some(DriverKind::Pl));
    assert_eq!(bus.try_probe_node(&uart, true), None);
    let other = node("rtc", vec![prop("compatible", b"arm,pl031\0")], vec![]);
    assert_eq!(bus.try_probe_node(&other, false), None);
    let bare = node("cpu", vec![], vec![]);
    assert_eq!(bus.try_probe_node(&bare, false), None);
}

#[test]
fn console_is_probed_first() {
    let bus = DeviceBus::new();
    let root = node(
        "",
        vec![],
        vec![
            node("virtio_mmio@a000000", vec![], vec![]),
            node("chosen", vec![prop("stdout-path", b"/pl011@9000000\0")], vec![]),
            node("pl011@9000000", vec![], vec![]),
        ],
    );
    assert_eq!(bus.walk_fdt_root(&root), Some(vec![2, 0, 1, 2]));
    let missing = node("", vec![], vec![node("chosen", vec![prop("stdout-path", b"/serial\0")], vec![])]);
    assert_eq!(bus.walk_fdt_root(&missing), Some(vec![0]));
    let no_chosen = node("", vec![], vec![node("pl011", vec![], vec![])]);
    assert_eq!(bus.walk_fdt_root(&no_chosen), None);
}

#[test]
fn device_bus_records_devices() {
    let mut bus = DeviceBus::new();
    bus.add_device(DriverKind::Pl, b"arm,pl011".to_vec());
    assert_eq!(bus.devices.len(), 1);
    assert_eq!(bus.devices[0].driver, DriverKind::Pl);
}

#[test]
fn uart_driver_maps_its_registers() {
    let uart = node("pl011", vec![prop("reg", &reg(&[0x900_0000, 0x1000]))], vec![]);
    let pl = Pl::new(&uart).unwrap();
    assert_eq!(pl.regs.base, 0x900_0000 | KERNEL_MAP);
    assert_eq!(pl.regs.size, 0x1000);
    let short = node("pl011", vec![prop("reg", &reg(&[0x900_0000]))], vec![]);
    assert!(Pl::new(&short).is_err());
    assert!(Pl::new(&node("pl011", vec![], vec![])).is_err());
}

#[test]
fn uart_setup_and_interrupts() {
    let uart = node("pl011", vec![prop("reg", &reg(&[0x900_0000, 0x1000]))], vec![]);
    let mut pl = Pl::new(&uart).unwrap();
    let mut irqs = IrqTable::new();
    let ops = pl.init(&mut irqs, 5, 6);
    assert_eq!(
        ops,
        vec![
            RegisterAccess::AndNot8 { offset: 0x30, bits: 1 },
            RegisterAccess::AndNot8 { offset: 0x28, bits: 1 << 4 },
            RegisterAccess::Or8 { offset: 0x28, bits: 1 << 4 },
            RegisterAccess::Or8 { offset: 0x30, bits: 1 },
            RegisterAccess::Or8 { offset: 0x38, bits: 1 << 4 },
        ]
    );
    assert_eq!(irqs.handler(PL_IRQ), Some(IrqHandler { callback: 5, data: Some(6) }));

    // A transmit interrupt with nobody waiting turns transmit interrupts off.
    let (ops, woken) = pl.irq_handler(1 << 5);
    assert_eq!(woken, None);
    assert_eq!(
        ops,
        vec![
            RegisterAccess::AndNot8 { offset: 0x38, bits: 1 << 5 },
            RegisterAccess::Write16 { offset: 0x44, value: 1 << 5 },
        ]
    );
    // With a writer waiting, it wakes the writer.
    pl.wait_queue.enqueue(9);
    let (ops, woken) = pl.irq_handler((1 << 5) | (1 << 4));
    assert_eq!(woken, Some(9));
    assert_eq!(
        ops,
        vec![
            RegisterAccess::DrainWhileClear16 { offset: 0x18, bits: 1 << 4, data: 0 },
            RegisterAccess::Write16 { offset: 0x44, value: (1 << 5) | (1 << 4) },
        ]
    );
}

#[test]
fn console_writes_each_byte_when_there_is_room() {
    let uart = node("pl011", vec![prop("reg", &reg(&[0x900_0000, 0x1000]))], vec![]);
    let pl = Pl::new(&uart).unwrap();
    let ops = pl.write_bytes(b"hi");
    assert_eq!(
        ops,
        vec![
            RegisterAccess::WaitClear16 { offset: 0x18, bits: 1 << 5 },
            RegisterAccess::Write8 { offset: 0, value: b'h' },
            RegisterAccess::WaitClear16 { offset: 0x18, bits: 1 << 5 },
            RegisterAccess::Write8 { offset: 0, value: b'i' },
        ]
    );
    let console = Console(pl);
    let (written, ops) = ConsoleDeviceFile.write(0, b"abc", &console);
    assert_eq!(written, Ok(3));
    assert_eq!(ops.len(), 6);
}

#[test]
fn virtio_identity_and_requests() {
    assert!(VirtioBlkDriver::check_identity(VIRTIO_MAGIC, 2, 2));
    assert!(!VirtioBlkDriver::check_identity(VIRTIO_MAGIC, 1, 2));
    assert!(!VirtioBlkDriver::check_identity(VIRTIO_MAGIC, 2, 1));
    assert!(!VirtioBlkDriver::check_identity(0, 2, 2));

    let addrs: Vec<u64> = (0..NUM_DESCRIPTORS as u64).map(|i| 0x1_0000_0000 + 0x1000 * i).collect();
    let mut d = VirtioBlkDriver::with_buffers(MMIO::new(0xa00_0000, 0x200), &addrs, 0x8000);
    assert_eq!(d.idx, 0);
    assert_eq!(d.descriptors[1].addr, 0x1000);
    assert_eq!(d.mmio.base, 0xa00_0000 | KERNEL_MAP);

    let (used, ops) = d.submit(7, Some(b"data"));
    assert_eq!(used, 0);
    assert_eq!(
        ops,
        vec![RegisterAccess::Write32 { offset: 0x30, value: 0 }, RegisterAccess::Write32 { offset: 0x50, value: 0 }]
    );
    assert_eq!(d.idx, 3);
    assert_eq!(d.queue.available.idx, 1);
    assert_eq!(d.queue.available.ring[0], 0);
    assert_eq!((d.descriptors[0].len, d.descriptors[0].flags, d.descriptors[0].next), (16, 1, 1));
    assert_eq!((d.descriptors[1].len, d.descriptors[1].flags, d.descriptors[1].next), (512, 1, 2));
    assert_eq!((d.descriptors[2].len, d.descriptors[2].flags), (1, 2));
    assert_eq!(&d.buffers[0][0..4], &1u32.to_le_bytes());
    assert_eq!(&d.buffers[0][8..16], &7u64.to_le_bytes());
    assert_eq!(&d.buffers[1][0..4], b"data");

    // A read: the data descriptor is written by the device.
    let (_, _) = d.submit(8, None);
    assert_eq!(d.descriptors[4].flags, 3);
    assert_eq!(&d.buffers[3][0..4], &0u32.to_le_bytes());
    d.buffers[4][0..3].copy_from_slice(b"xyz");
    let mut out = vec![0u8; 3];
    d.read_result(3, &mut out);
    assert_eq!(out, b"xyz".to_vec());
    assert!(DESCRIPTOR_COUNT > 6);
}

#[test]
fn virtio_driver_from_node() {
    let n = node("virtio_mmio@a000000", vec![prop("reg", &reg(&[0xa00_0000, 0x200]))], vec![]);
    let d = VirtioBlkDriver::new(&n).unwrap();
    assert_eq!(d.mmio.base, 0xa00_0000 | KERNEL_MAP);
    assert_eq!(d.mmio.size, 0x200);
    assert!(VirtioBlkDriver::new(&node("x", vec![], vec![])).is_err());
}

#[test]
fn early_console_takes_the_last_reg() {
    let n = node("pl011", vec![prop("reg", &reg(&[0x900_0000, 0x1000]))], vec![]);
    let pl = init_from_dtb_node(&n).unwrap();
    assert_eq!(pl.ptr, Some(0x900_0000 | KERNEL_MAP));
    assert_eq!(pl.early_putchar('A'), Some(b'A'));
    assert_eq!(pl.early_printk_str("ok\n"), b"ok\n".to_vec());
    let two = node("pl011", vec![prop("reg", &reg(&[1, 2])), prop("reg", &reg(&[0x2000]))], vec![]);
    assert_eq!(init_from_dtb_node(&two).unwrap().ptr, Some(0x2000 | KERNEL_MAP));
    let none = node("pl011", vec![prop("clocks", &[1, 2, 3, 4])], vec![]);
    assert_eq!(init_from_dtb_node(&none).unwrap().ptr, None);
    let bad = node("pl011", vec![prop("reg", &[1, 2, 3, 4])], vec![]);
    assert!(init_from_dtb_node(&bad).is_none());
    let mut console = ArmPl { ptr: Some(5) };
    disable_earlyconsole(&mut console);
    assert_eq!(console.ptr, None);
    assert_eq!(console.early_putchar('A'), None);
    assert!(console.early_printk_str("x").is_empty());
}

#[test]
fn virtio_init_sequence_programs_queue_zero() {
    let addrs: Vec<u64> = (0..NUM_DESCRIPTORS as u64).map(|i| 0x1000 * i).collect();
    let d = VirtioBlkDriver::with_buffers(MMIO::new(0xa00_0000, 0x200), &addrs, 0x1_0000_8000);
    let ops = d.init_sequence(0x1_2345_6000);
    assert_eq!(ops.len(), 17);
    assert_eq!(ops[1], RegisterAccess::Write32 { offset: 0x70, value: 3 });
    assert_eq!(ops[3], RegisterAccess::Read32 { offset: 0x10 });
    assert_eq!(ops[7], RegisterAccess::Expect32 { offset: 0x70, value: 0xb });
    assert_eq!(ops[9], RegisterAccess::Write32 { offset: 0x38, value: DESCRIPTOR_COUNT as u32 });
    assert_eq!(ops[10], RegisterAccess::Write64 { offset: 0x80, value: 0x2345_6000 });
    assert_eq!(ops[11], RegisterAccess::Write64 { offset: 0x90, value: 0x8000 });
    // 16 entries: the available ring takes 36 bytes, so the used ring follows at 0x24.
    assert_eq!(ops[12], RegisterAccess::Write64 { offset: 0xa0, value: 0x8024 });
    assert_eq!(ops[16], RegisterAccess::Expect32 { offset: 0x70, value: 0xf });
}

#[test]
fn virtio_irq_is_a_shared_interrupt_past_the_private_ones() {
    let gic_node = node("intc", vec![prop("reg", &reg(&[0x800_0000, 0x1_0000, 0x80a_0000, 0xf6_0000]))], vec![]);
    let gic = lib::interrupts::gic::Gic::from_node(&gic_node).unwrap();
    let mut irqs = IrqTable::new();
    let mut interrupts = Vec::new();
    interrupts.extend_from_slice(&0u32.to_be_bytes());
    interrupts.extend_from_slice(&16u32.to_be_bytes());
    interrupts.extend_from_slice(&1u32.to_be_bytes());
    let dev = node("virtio_mmio@a000000", vec![prop("interrupts", &interrupts)], vec![]);
    let ops = VirtioBlkDriver::init_irq(&mut irqs, &gic, &dev, 4, 5).unwrap();
    assert_eq!(irqs.handler(48), Some(IrqHandler { callback: 4, data: Some(5) }));
    assert_eq!(
        ops,
        vec![
            RegisterAccess::Or32 { offset: 0xc0c, bits: 0b10 },
            RegisterAccess::Or32 { offset: 0x104, bits: 1 << 16 },
            RegisterAccess::Or32 { offset: 0x84, bits: 1 << 16 },
            RegisterAccess::Write8 { offset: 0x430, value: 0x80 },
        ]
    );
    let short = node("virtio_mmio@a000000", vec![prop("interrupts", &0u32.to_be_bytes())], vec![]);
    assert!(VirtioBlkDriver::init_irq(&mut irqs, &gic, &short, 4, 5).is_none());
}
