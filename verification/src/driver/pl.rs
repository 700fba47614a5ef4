use vstd::prelude::*;
use crate::driver::{pl011_compatible, reg_name, reg_window, Driver};
use crate::dtb::parser::{find_prop_spec, lemma_find_prop_from_bounds, FdtNode};
use crate::interrupts::irq_handler::IrqTable;
use crate::sched::wait_queue::WaitQueue;
use crate::subsystem::console::ConsoleDriver;
use crate::utils::mmio::{RegisterAccess, MMIO};

verus! {

pub const UARTDR: usize = 0x0;
pub const UARTFR: usize = 0x18;
pub const UARTLCR_H: usize = 0x28;
pub const UARTCR: usize = 0x30;
pub const UARTIMSC: usize = 0x38;
pub const UARTMIS: usize = 0x40;
pub const UARTICR: usize = 0x44;

/// Interrupt line of the UART.
pub const PL_IRQ: u64 = 33;

/// A PL011 UART.
pub struct Pl {
    pub regs: MMIO,
    pub wait_queue: WaitQueue,
}

impl Pl {
    /// Switches the FIFOs on: UART off, FIFOs off and on again, UART on.
    pub fn setup_fifo(&self) -> (r: Vec<RegisterAccess>)
        ensures
            r@ == seq![
                RegisterAccess::AndNot8 { offset: UARTCR, bits: 1u8 },
                RegisterAccess::AndNot8 { offset: UARTLCR_H, bits: 1u8 << 4u8 },
                RegisterAccess::Or8 { offset: UARTLCR_H, bits: 1u8 << 4u8 },
                RegisterAccess::Or8 { offset: UARTCR, bits: 1u8 },
            ],
    {
        let mut r: Vec<RegisterAccess> = Vec::new();
        r.push(RegisterAccess::AndNot8 { offset: UARTCR, bits: 1u8 });
        r.push(RegisterAccess::AndNot8 { offset: UARTLCR_H, bits: 1u8 << 4u8 });
        r.push(RegisterAccess::Or8 { offset: UARTLCR_H, bits: 1u8 << 4u8 });
        r.push(RegisterAccess::Or8 { offset: UARTCR, bits: 1u8 });
        r
    }

    pub fn enable_tx_irq(&self) -> (r: Vec<RegisterAccess>)
        ensures
            r@ == seq![RegisterAccess::Or8 { offset: UARTIMSC, bits: 1u8 << 5u8 }],
    {
        let mut r: Vec<RegisterAccess> = Vec::new();
        r.push(RegisterAccess::Or8 { offset: UARTIMSC, bits: 1u8 << 5u8 });
        r
    }

    pub fn enable_rx_irq(&self) -> (r: Vec<RegisterAccess>)
        ensures
            r@ == seq![RegisterAccess::Or8 { offset: UARTIMSC, bits: 1u8 << 4u8 }],
    {
        let mut r: Vec<RegisterAccess> = Vec::new();
        r.push(RegisterAccess::Or8 { offset: UARTIMSC, bits: 1u8 << 4u8 });
        r
    }

    pub fn disable_tx_irq(&self) -> (r: Vec<RegisterAccess>)
        ensures
            r@ == seq![RegisterAccess::AndNot8 { offset: UARTIMSC, bits: 1u8 << 5u8 }],
    {
        let mut r: Vec<RegisterAccess> = Vec::new();
        r.push(RegisterAccess::AndNot8 { offset: UARTIMSC, bits: 1u8 << 5u8 });
        r
    }

    /// Sets the UART up: FIFOs on, its interrupt registered with handler `handler` and this
    /// driver's data `data`, receive interrupts on. The caller enables the interrupt at the
    /// controller, turns the early console off and makes this UART the console.
    pub fn init(&self, irq_table: &mut IrqTable, handler: usize, data: usize) -> (r: Vec<RegisterAccess>)
        requires
            PL_IRQ < old(irq_table).irqs@.len(),
        ensures
            r@ == seq![
                RegisterAccess::AndNot8 { offset: UARTCR, bits: 1u8 },
                RegisterAccess::AndNot8 { offset: UARTLCR_H, bits: 1u8 << 4u8 },
                RegisterAccess::Or8 { offset: UARTLCR_H, bits: 1u8 << 4u8 },
                RegisterAccess::Or8 { offset: UARTCR, bits: 1u8 },
                RegisterAccess::Or8 { offset: UARTIMSC, bits: 1u8 << 4u8 },
            ],
            final(irq_table).irqs@ == old(irq_table).irqs@.update(
                PL_IRQ as int,
                Some(crate::interrupts::irq_handler::IrqHandler { callback: handler, data: Some(data) }),
            ),
    {
        let mut r = self.setup_fifo();
        irq_table.register_interrupt(PL_IRQ, handler, Some(data));
        let mut rx = self.enable_rx_irq();
        r.append(&mut rx);
        r
    }

    /// What the interrupt handler does for masked status `status`: a transmit interrupt wakes
    /// the first waiting writer, or turns transmit interrupts off when none waits; a receive
    /// interrupt drains the receive FIFO; then the handled interrupts are cleared. Returns the
    /// accesses and the pid to make runnable.
    pub fn irq_handler(&mut self, status: u16) -> (r: (Vec<RegisterAccess>, Option<u32>))
        ensures
            (status & (1u16 << 5u16)) != 0 && old(self).wait_queue.waiters().len() > 0 ==> r.1 == Some(
                old(self).wait_queue.waiters()[0],
            ),
            !((status & (1u16 << 5u16)) != 0 && old(self).wait_queue.waiters().len() > 0) ==> r.1 is None,
            r.0@ == (if (status & (1u16 << 5u16)) != 0 && old(self).wait_queue.waiters().len() == 0 {
                seq![RegisterAccess::AndNot8 { offset: UARTIMSC, bits: 1u8 << 5u8 }]
            } else {
                Seq::empty()
            }) + (if (status & (1u16 << 4u16)) != 0 {
                seq![RegisterAccess::DrainWhileClear16 { offset: UARTFR, bits: 1u16 << 4u16, data: UARTDR }]
            } else {
                Seq::empty()
            }) + seq![RegisterAccess::Write16 { offset: UARTICR, value: status }],
            (status & (1u16 << 5u16)) != 0 ==> final(self).wait_queue.waiters() == (if old(self).wait_queue.waiters().len()
                > 0 {
                old(self).wait_queue.waiters().drop_first()
            } else {
                old(self).wait_queue.waiters()
            }),
            (status & (1u16 << 5u16)) == 0 ==> final(self).wait_queue.waiters() == old(self).wait_queue.waiters(),
            final(self).regs == old(self).regs,
    {
        let mut ops: Vec<RegisterAccess> = Vec::new();
        let mut woken: Option<u32> = None;
        if status & (1u16 << 5u16) != 0 {
            let front = self.wait_queue.unblock_front();
            match front {
                Some(pid) => {
                    woken = Some(pid);
                },
                None => {
                    let mut off = self.disable_tx_irq();
                    ops.append(&mut off);
                },
            }
        }
        if status & (1u16 << 4u16) != 0 {
            ops.push(RegisterAccess::DrainWhileClear16 { offset: UARTFR, bits: 1u16 << 4u16, data: UARTDR });
        }
        ops.push(RegisterAccess::Write16 { offset: UARTICR, value: status });
        proof {
            let tx_part = if (status & (1u16 << 5u16)) != 0 && old(self).wait_queue.waiters().len() == 0 {
                seq![RegisterAccess::AndNot8 { offset: UARTIMSC, bits: 1u8 << 5u8 }]
            } else {
                Seq::<RegisterAccess>::empty()
            };
            let rx_part = if (status & (1u16 << 4u16)) != 0 {
                seq![RegisterAccess::DrainWhileClear16 { offset: UARTFR, bits: 1u16 << 4u16, data: UARTDR }]
            } else {
                Seq::<RegisterAccess>::empty()
            };
            assert(ops@ =~= tx_part + rx_part + seq![RegisterAccess::Write16 { offset: UARTICR, value: status }]);
        }
        (ops, woken)
    }
}

impl Driver for Pl {
    open spec fn compatible_spec() -> Seq<u8> {
        pl011_compatible()
    }

    fn compatible_string() -> (r: Vec<u8>) {
        let mut r: Vec<u8> = Vec::new();
        r.push(0x61); r.push(0x72); r.push(0x6d); r.push(0x2c); r.push(0x70);
        r.push(0x6c); r.push(0x30); r.push(0x31); r.push(0x31);
        assert(r@ =~= pl011_compatible());
        r
    }

    /// The UART at the window that the first two words of the node's `reg` property give.
    /// Fails where the node lacks them.
    fn new(node: &FdtNode) -> (r: Result<Self, ()>)
        ensures
            match reg_window(*node) {
                None => r is Err,
                Some((addr, size)) => r matches Ok(d) && d.regs.base == (addr as u64 | 0xffff_ff80_0000_0000u64)
                    && d.regs.size == size as usize,
            },
    {
        let reg_key: [u8; 3] = [0x72, 0x65, 0x67];
        assert(reg_key@ =~= reg_name());
        let prop = match node.find_prop_by_name(&reg_key) {
            Some(p) => p,
            None => return Err(()),
        };
        proof {
            lemma_find_prop_from_bounds(node.properties@, reg_name(), 0);
        }
        let len = match &prop.value {
            Some(v) => v.len(),
            None => return Err(()),
        };
        if len < 16 {
            return Err(());
        }
        let addr = match prop.read_u64(0) {
            Some(a) => a,
            None => return Err(()),
        };
        let size = match prop.read_u64(1) {
            Some(s) => s,
            None => return Err(()),
        };
        Ok(Pl { regs: MMIO::new(addr, size as usize), wait_queue: WaitQueue::new() })
    }
}

impl ConsoleDriver for Pl {
    /// Each byte goes out once the transmit FIFO has room.
    fn write_bytes(&self, buf: &[u8]) -> (r: Vec<RegisterAccess>)
        ensures
            r@.len() == 2 * buf@.len(),
            forall|k: int| 0 <= k < buf@.len() ==> r@[2 * k] == (RegisterAccess::WaitClear16 {
                offset: UARTFR,
                bits: 1u16 << 5u16,
            }) && r@[2 * k + 1] == (RegisterAccess::Write8 { offset: UARTDR, value: buf@[k] }),
    {
        let mut r: Vec<RegisterAccess> = Vec::new();
        let mut i: usize = 0;
        while i < buf.len()
            invariant
                i <= buf@.len(),
                r@.len() == 2 * i,
                forall|k: int| 0 <= k < i ==> r@[2 * k] == (RegisterAccess::WaitClear16 { offset: UARTFR, bits: 1u16 << 5u16 })
                    && r@[2 * k + 1] == (RegisterAccess::Write8 { offset: UARTDR, value: buf@[k] }),
            decreases buf@.len() - i,
        {
            r.push(RegisterAccess::WaitClear16 { offset: UARTFR, bits: 1u16 << 5u16 });
            r.push(RegisterAccess::Write8 { offset: UARTDR, value: buf[i] });
            i += 1;
        }
        r
    }
}

} // verus!
