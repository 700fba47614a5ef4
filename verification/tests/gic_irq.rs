use lib::dtb::parser::{FdtNode, FdtProp};
use lib::interrupts::gic::{gicd_icfgr, gicd_igroupr, gicd_ipriority, gicd_isenabler, Gic};
use lib::interrupts::irq_handler::{can_block, ExceptionRegisters, IrqHandler, IrqTable, ReturnExceptionRegs, NUM_IRQS};
use lib::utils::cpu_local::MAX_CPUS;
use lib::utils::mmio::RegisterAccess;

const KERNEL_MAP: u64 = 0xffff_ff80_0000_0000;

fn gic_node(reg: &[u64]) -> FdtNode {
    let mut value = Vec::new();
    for w in reg {
        value.extend_from_slice(&w.to_be_bytes());
    }
    FdtNode {
        name: Some(b"intc@8000000".to_vec()),
        properties: vec![FdtProp { name: b"reg".to_vec(), value: Some(value) }],
        children: vec![],
    }
}

#[test]
fn gic_maps_distributor_and_redistributors() {
    let gic = Gic::from_node(&gic_node(&[0x800_0000, 0x1_0000, 0x80a_0000, 0xf6_0000])).unwrap();
    assert_eq!(gic.distributor.distributor_base.base, 0x800_0000 | KERNEL_MAP);
    assert_eq!(gic.distributor.distributor_base.size, 0x1_0000);
    assert_eq!(gic.redistributors.len(), MAX_CPUS);
    for (cpu, r) in gic.redistributors.iter().enumerate() {
        assert_eq!(r.redistributor_base.base, (0x80a_0000 + 0x2_0000 * cpu as u64) | KERNEL_MAP);
        assert_eq!(r.redistributor_base.size, 0xf6_0000);
    }
}

#[test]
fn gic_needs_a_full_reg_property() {
    assert!(Gic::from_node(&gic_node(&[0x800_0000, 0x1_0000, 0x80a_0000])).is_none());
    let mut node = gic_node(&[1, 2, 3, 4]);
    node.properties[0].name = b"ranges".to_vec();
    assert!(Gic::from_node(&node).is_none());
    assert!(Gic::from_node(&gic_node(&[1, 2, u64::MAX - 0x1000, 4])).is_none());
}

#[test]
fn distributor_register_offsets() {
    assert_eq!(gicd_igroupr(1), 0x84);
    assert_eq!(gicd_isenabler(2), 0x108);
    assert_eq!(gicd_ipriority(0), 0x400);
    assert_eq!(gicd_icfgr(3), 0xc0c);
}

#[test]
fn shared_interrupt_register_accesses() {
    let gic = Gic::from_node(&gic_node(&[0x800_0000, 0x1_0000, 0x80a_0000, 0xf6_0000])).unwrap();
    assert_eq!(
        gic.enable_spi(33),
        vec![
            RegisterAccess::Or32 { offset: 0x104, bits: 1 << 1 },
            RegisterAccess::Or32 { offset: 0x84, bits: 1 << 1 },
            RegisterAccess::Write8 { offset: 0x421, value: 0x80 },
        ]
    );
    assert_eq!(gic.configure_spi(33, 0b10), vec![RegisterAccess::Or32 { offset: 0xc08, bits: 0b10 << 2 }]);
    assert_eq!(gic.configure_spi(33, 0b111), vec![RegisterAccess::Or32 { offset: 0xc08, bits: 0b11 << 2 }]);
    assert_eq!(
        gic.disable_spi(40),
        vec![
            RegisterAccess::WaitClear32 { offset: 0, bits: 1 << 31 },
            RegisterAccess::Or32 { offset: 0x184, bits: 1 << 8 },
            RegisterAccess::WaitClear32 { offset: 0, bits: 1 << 31 },
        ]
    );
    assert_eq!(
        gic.distributor.init(),
        vec![
            RegisterAccess::WaitClear32 { offset: 0, bits: 1 << 31 },
            RegisterAccess::Write32 { offset: 0, value: 0b10110 },
            RegisterAccess::WaitClear32 { offset: 0, bits: 1 << 31 },
        ]
    );
}

#[test]
fn private_interrupt_register_accesses() {
    let gic = Gic::from_node(&gic_node(&[0x800_0000, 0x1_0000, 0x80a_0000, 0xf6_0000])).unwrap();
    let wake = [
        RegisterAccess::Write32 { offset: 0x14, value: !0b10 },
        RegisterAccess::WaitClear32 { offset: 0x14, bits: 0b100 },
    ];
    let mut enable = wake.to_vec();
    enable.push(RegisterAccess::Write32 { offset: 0x10100, value: 1 << 30 });
    enable.push(RegisterAccess::Or32 { offset: 0x10080, bits: 1 << 30 });
    assert_eq!(gic.enable_local_ppi(1, 30), enable);
    let mut disable = wake.to_vec();
    disable.push(RegisterAccess::Write32 { offset: 0x10180, value: 1 << 30 });
    assert_eq!(gic.disable_local_ppi(0, 30), disable);
}

#[test]
fn irq_table_registration() {
    let mut table = IrqTable::new();
    assert_eq!(table.irqs.len(), NUM_IRQS);
    assert_eq!(table.handler(33), None);
    table.register_interrupt(33, 7, Some(99));
    assert_eq!(table.handler(33), Some(IrqHandler { callback: 7, data: Some(99) }));
    assert_eq!(table.handler(34), None);
    table.register_interrupt(33, 8, None);
    assert_eq!(table.handler(33), Some(IrqHandler { callback: 8, data: None }));
}

#[test]
fn return_registers_are_taken_once() {
    let mut ret = ReturnExceptionRegs::new();
    assert!(ret.take().is_none());
    let mut regs = ExceptionRegisters::zeroed();
    regs.elr = 0x1234;
    regs.gprs[3] = 3;
    ret.put(&regs);
    let taken = ret.take().unwrap();
    assert_eq!(taken.elr, 0x1234);
    assert_eq!(taken.gprs[3], 3);
    assert!(ret.take().is_none());
    assert!(can_block(false));
    assert!(!can_block(true));
}
