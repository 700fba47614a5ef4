use vstd::prelude::*;
use crate::bytes::{u32_le_bytes, u64_le_bytes, u32_to_le_bytes, u64_to_le_bytes, copy_into};
use crate::driver::{reg_name, reg_window, virtio_mmio_compatible, Driver};
use crate::dtb::parser::{find_prop_spec, lemma_find_prop_from_bounds, FdtNode};
use crate::bytes::be_u32;
use crate::interrupts::gic::Gic;
use crate::interrupts::irq_handler::{IrqHandler, IrqTable, NUM_IRQS};
use crate::sched::wait_queue::WaitQueue;
use crate::utils::mmio::{RegisterAccess, MMIO};

verus! {

/// Bytes of each request buffer.
pub const DESCRIPTOR_BLOCK_SIZE: usize = 600;
/// Descriptors and buffers the driver keeps.
pub const NUM_DESCRIPTORS: usize = 48;
/// Entries of the queue.
pub const DESCRIPTOR_COUNT: usize = 16;

/// A descriptor of the queue: a buffer, its length, flags and the next descriptor.
#[derive(Debug, Clone, Copy, PartialEq, Eq, Structural)]
pub struct VirtqDescriptor {
    pub addr: u64,
    pub len: u32,
    pub flags: u16,
    pub next: u16,
}

/// The ring of descriptor chains offered to the device, living at `at`.
pub struct VirtqAvailable {
    pub flags: u16,
    pub idx: u16,
    pub ring: Vec<u16>,
    pub at: u64,
}

impl VirtqAvailable {
    pub fn addr(&self) -> (r: u64)
        ensures
            r == self.at,
    {
        self.at
    }

    /// An all-zero ring of `n` entries at `at`.
    pub fn zeroed(n: usize, at: u64) -> (r: Self)
        ensures
            r.flags == 0,
            r.idx == 0,
            r.ring@ == Seq::new(n as nat, |_i: int| 0u16),
            r.at == at,
    {
        let mut ring: Vec<u16> = Vec::new();
        let mut i: usize = 0;
        while i < n
            invariant
                i <= n,
                ring@ == Seq::new(i as nat, |_i: int| 0u16),
            decreases n - i,
        {
            ring.push(0);
            i += 1;
            assert(ring@ =~= Seq::new(i as nat, |_i: int| 0u16));
        }
        VirtqAvailable { flags: 0, idx: 0, ring, at }
    }
}

/// An entry of the used ring: the chain the device finished and the bytes it wrote.
#[derive(Debug, Clone, Copy, PartialEq, Eq, Structural)]
pub struct VirtqUsedElem {
    pub id: u32,
    pub len: u32,
}

/// The ring of chains the device handed back, living at `at`.
pub struct VirtqUsed {
    pub flags: u16,
    pub idx: u16,
    pub ring: Vec<VirtqUsedElem>,
    pub at: u64,
}

impl VirtqUsed {
    pub fn addr(&self) -> (r: u64)
        ensures
            r == self.at,
    {
        self.at
    }

    /// An all-zero ring of `n` entries at `at`.
    pub fn zeroed(n: usize, at: u64) -> (r: Self)
        ensures
            r.flags == 0,
            r.idx == 0,
            r.ring@.len() == n,
            forall|i: int| 0 <= i < n ==> #[trigger] r.ring@[i] == (VirtqUsedElem { id: 0, len: 0 }),
            r.at == at,
    {
        let mut ring: Vec<VirtqUsedElem> = Vec::new();
        let mut i: usize = 0;
        while i < n
            invariant
                i <= n,
                ring@.len() == i,
                forall|k: int| 0 <= k < i ==> #[trigger] ring@[k] == (VirtqUsedElem { id: 0, len: 0 }),
            decreases n - i,
        {
            ring.push(VirtqUsedElem { id: 0, len: 0 });
            i += 1;
        }
        VirtqUsed { flags: 0, idx: 0, ring, at }
    }
}

/// A queue: its available ring, and its used ring laid out right after it at a multiple of four.
pub struct Virtq {
    pub available: VirtqAvailable,
    pub used: VirtqUsed,
}

impl Virtq {
    /// An all-zero queue of `n` entries whose available ring lives at `at`.
    pub fn zeroed(n: usize, at: u64) -> (r: Self)
        requires
            at + 4 + 2 * n + 3 <= u64::MAX,
        ensures
            r.available.ring@.len() == n,
            r.used.ring@.len() == n,
            r.available.idx == 0,
            r.used.idx == 0,
            r.available.at == at,
            r.used.at == at + (4 + 2 * n + 3) / 4 * 4,
    {
        let available_size: u64 = 4 + 2 * n as u64;
        let used_at = at + (available_size + 3) / 4 * 4;
        Virtq { available: VirtqAvailable::zeroed(n, at), used: VirtqUsed::zeroed(n, used_at) }
    }
}

/// A block device behind a virtio MMIO window.
pub struct VirtioBlkDriver {
    pub mmio: MMIO,
    pub queue: Virtq,
    pub descriptors: Vec<VirtqDescriptor>,
    pub buffers: Vec<Vec<u8>>,
    /// The descriptor the next request starts with.
    pub idx: usize,
    pub wait_queue: WaitQueue,
}

/// `interrupts`
pub open spec fn interrupts_name() -> Seq<u8> {
    seq![0x69u8, 0x6e, 0x74, 0x65, 0x72, 0x72, 0x75, 0x70, 0x74, 0x73]
}

/// Magic value at offset 0 of a virtio MMIO window: `virt`.
pub const VIRTIO_MAGIC: u32 = 0x74726976;

/// What a request leaves for the device: descriptors, buffers and the offered ring.
pub open spec fn request_ok(d: VirtioBlkDriver) -> bool {
    &&& d.descriptors@.len() == NUM_DESCRIPTORS
    &&& d.buffers@.len() == NUM_DESCRIPTORS
    &&& forall|i: int| 0 <= i < NUM_DESCRIPTORS ==> (#[trigger] d.buffers@[i])@.len() == DESCRIPTOR_BLOCK_SIZE
    &&& d.idx < DESCRIPTOR_COUNT
    &&& d.queue.available.ring@.len() == DESCRIPTOR_COUNT
}

impl VirtioBlkDriver {
    /// Whether the identification registers name a block device of the modern interface.
    pub fn check_identity(magic: u32, version: u32, device_type: u32) -> (r: bool)
        ensures
            r == (magic == VIRTIO_MAGIC && device_type == 2 && version == 2),
    {
        if magic != VIRTIO_MAGIC {
            return false;
        }
        if device_type != 0x2 {
            return false;
        }
        if version != 0x2 {
            return false;
        }
        true
    }

    /// A driver for the window `mmio`, with descriptors whose buffers live at `buffer_addrs`
    /// and a queue at `queue_at`.
    pub fn with_buffers(mmio: MMIO, buffer_addrs: &Vec<u64>, queue_at: u64) -> (r: Self)
        requires
            buffer_addrs@.len() == NUM_DESCRIPTORS,
            queue_at + 4 + 2 * DESCRIPTOR_COUNT + 3 <= u64::MAX,
        ensures
            request_ok(r),
            r.mmio == mmio,
            r.idx == 0,
            forall|i: int| 0 <= i < NUM_DESCRIPTORS ==> (#[trigger] r.descriptors@[i]).addr == buffer_addrs@[i] & 0xffffffff
                && r.descriptors@[i].len == DESCRIPTOR_BLOCK_SIZE,
    {
        let mut descriptors: Vec<VirtqDescriptor> = Vec::new();
        let mut buffers: Vec<Vec<u8>> = Vec::new();
        let mut i: usize = 0;
        while i < NUM_DESCRIPTORS
            invariant
                i <= NUM_DESCRIPTORS,
                buffer_addrs@.len() == NUM_DESCRIPTORS,
                descriptors@.len() == i,
                buffers@.len() == i,
                forall|k: int| 0 <= k < i ==> (#[trigger] buffers@[k])@.len() == DESCRIPTOR_BLOCK_SIZE,
                forall|k: int| 0 <= k < i ==> (#[trigger] descriptors@[k]).addr == buffer_addrs@[k] & 0xffffffff
                    && descriptors@[k].len == DESCRIPTOR_BLOCK_SIZE,
            decreases NUM_DESCRIPTORS - i,
        {
            let mut buf: Vec<u8> = Vec::new();
            let mut j: usize = 0;
            while j < DESCRIPTOR_BLOCK_SIZE
                invariant
                    j <= DESCRIPTOR_BLOCK_SIZE,
                    buf@.len() == j,
                decreases DESCRIPTOR_BLOCK_SIZE - j,
            {
                buf.push(0);
                j += 1;
            }
            buffers.push(buf);
            descriptors.push(VirtqDescriptor {
                addr: buffer_addrs[i] & 0xffffffff,
                len: DESCRIPTOR_BLOCK_SIZE as u32,
                flags: 0,
                next: 0,
            });
            i += 1;
        }
        VirtioBlkDriver {
            mmio,
            queue: Virtq::zeroed(DESCRIPTOR_COUNT, queue_at),
            descriptors,
            buffers,
            idx: 0,
            wait_queue: WaitQueue::new(),
        }
    }

    /// Offers a request for `sector`: a header descriptor, a data descriptor that the device
    /// reads from when `write` holds the bytes to write and writes to otherwise, and a status
    /// descriptor, chained from the current one on. Returns the used index to wait past and
    /// the accesses that notify the device.
    pub fn submit(&mut self, sector: u64, write: Option<&[u8]>) -> (r: (u16, Vec<RegisterAccess>))
        requires
            request_ok(*old(self)),
            old(self).queue.available.idx < DESCRIPTOR_COUNT,
            write matches Some(b) ==> b@.len() <= 512,
        ensures
            request_ok(*final(self)),
            r.0 == old(self).queue.used.idx,
            final(self).idx == (old(self).idx + 3) % DESCRIPTOR_COUNT as int,
            final(self).queue.available.idx == old(self).queue.available.idx + 1,
            final(self).queue.available.ring@ == old(self).queue.available.ring@.update(
                old(self).queue.available.idx as int,
                old(self).idx as u16,
            ),
            final(self).descriptors@[old(self).idx as int].len == 16,
            final(self).descriptors@[old(self).idx as int].flags == 1,
            final(self).descriptors@[old(self).idx as int].next == (old(self).idx + 1) % DESCRIPTOR_COUNT as int,
            final(self).descriptors@[(old(self).idx + 1) % DESCRIPTOR_COUNT as int].len == 512,
            final(self).descriptors@[(old(self).idx + 1) % DESCRIPTOR_COUNT as int].flags == (if write is Some { 1u16 } else { 3u16 }),
            final(self).descriptors@[(old(self).idx + 1) % DESCRIPTOR_COUNT as int].next == (old(self).idx + 2) % DESCRIPTOR_COUNT as int,
            final(self).descriptors@[(old(self).idx + 2) % DESCRIPTOR_COUNT as int].flags == 2,
            final(self).descriptors@[(old(self).idx + 2) % DESCRIPTOR_COUNT as int].len == 1,
            final(self).buffers@[old(self).idx as int]@.subrange(0, 4) == u32_le_bytes(if write is Some { 1u32 } else { 0u32 }),
            final(self).buffers@[old(self).idx as int]@.subrange(8, 16) == u64_le_bytes(sector),
            write matches Some(b) ==> final(self).buffers@[(old(self).idx + 1) % DESCRIPTOR_COUNT as int]@.subrange(0, b@.len() as int) == b@,
            r.1@ == seq![
                RegisterAccess::Write32 { offset: 0x30, value: 0 },
                RegisterAccess::Write32 { offset: 0x50, value: 0 },
            ],
    {
        let info_idx = self.idx;
        let data_idx = (self.idx + 1) % DESCRIPTOR_COUNT;
        let status_idx = (self.idx + 2) % DESCRIPTOR_COUNT;
        let mut d = self.descriptors[info_idx];
        d.len = 16;
        d.flags = 0x1;
        d.next = data_idx as u16;
        self.descriptors.set(info_idx, d);
        let mut d = self.descriptors[data_idx];
        d.len = 512;
        assert(0x2u16 | 0x1u16 == 3u16) by (bit_vector);
        d.flags = if write.is_some() { 0x1 } else { 0x2 | 0x1 };
        d.next = status_idx as u16;
        self.descriptors.set(data_idx, d);
        let mut d = self.descriptors[status_idx];
        d.flags = 0x2;
        d.len = 1;
        self.descriptors.set(status_idx, d);

        let mut header = self.buffers.remove(info_idx);
        let kind = u32_to_le_bytes(if write.is_some() { 0x1u32 } else { 0x0u32 });
        copy_into(&mut header, 0, kind.as_slice(), 0, 4);
        let sector_bytes = u64_to_le_bytes(sector);
        copy_into(&mut header, 8, sector_bytes.as_slice(), 0, 8);
        self.buffers.insert(info_idx, header);
        proof {
            let h = self.buffers@[info_idx as int]@;
            assert(h.subrange(0, 4) =~= kind@);
            assert(h.subrange(8, 16) =~= sector_bytes@);
        }
        let ghost header_now = self.buffers@[info_idx as int];
        match write {
            Some(bytes) => {
                let _n = bytes.len();
                let mut data = self.buffers.remove(data_idx);
                copy_into(&mut data, 0, bytes, 0, bytes.len());
                self.buffers.insert(data_idx, data);
                assert(self.buffers@[data_idx as int]@.subrange(0, bytes@.len() as int) =~= bytes@);
                assert(self.buffers@[info_idx as int] == header_now);
            },
            None => {},
        }
        self.idx = (self.idx + 3) % DESCRIPTOR_COUNT;
        let next_queue_entry = self.queue.available.idx;
        self.queue.available.ring.set(next_queue_entry as usize, info_idx as u16);
        self.queue.available.idx = self.queue.available.idx + 1;
        let used_idx = self.queue.used.idx;
        let mut ops: Vec<RegisterAccess> = Vec::new();
        ops.push(RegisterAccess::Write32 { offset: 0x30, value: 0 });
        ops.push(RegisterAccess::Write32 { offset: 0x50, value: 0 });
        proof {
            assert forall|i: int| 0 <= i < NUM_DESCRIPTORS implies (#[trigger] self.buffers@[i])@.len() == DESCRIPTOR_BLOCK_SIZE by {
            }
        }
        (used_idx, ops)
    }

    /// The bytes a finished read left in the data buffer of the request that started at
    /// descriptor `info_idx`.
    pub fn read_result(&self, info_idx: usize, bytes: &mut Vec<u8>)
        requires
            request_ok(*self),
            info_idx < DESCRIPTOR_COUNT,
            old(bytes)@.len() <= 512,
        ensures
            final(bytes)@ == self.buffers@[(info_idx + 1) % DESCRIPTOR_COUNT as int]@.subrange(0, old(bytes)@.len() as int),
    {
        let data_idx = (info_idx + 1) % DESCRIPTOR_COUNT;
        let n = bytes.len();
        copy_into(bytes, 0, self.buffers[data_idx].as_slice(), 0, n);
        assert(bytes@ =~= self.buffers@[data_idx as int]@.subrange(0, n as int));
    }
}

impl VirtioBlkDriver {
    /// The accesses that bring the device up: reset status, acknowledge and driver bits, no
    /// features, features accepted and checked, then queue 0 with its size and the addresses
    /// of its descriptor table (at `descriptors_at`) and rings, marked ready, and finally the
    /// status with the driver ready, checked.
    pub fn init_sequence(&self, descriptors_at: u64) -> (r: Vec<RegisterAccess>)
        ensures
            r@ == seq![
                RegisterAccess::Write32 { offset: 0x70, value: 0x1 },
                RegisterAccess::Write32 { offset: 0x70, value: 0x3 },
                RegisterAccess::Write32 { offset: 0x14, value: 0 },
                RegisterAccess::Read32 { offset: 0x10 },
                RegisterAccess::Write32 { offset: 0x24, value: 0 },
                RegisterAccess::Write32 { offset: 0x20, value: 0 },
                RegisterAccess::Write32 { offset: 0x70, value: 0xb },
                RegisterAccess::Expect32 { offset: 0x70, value: 0xb },
                RegisterAccess::Write32 { offset: 0x30, value: 0 },
                RegisterAccess::Write32 { offset: 0x38, value: DESCRIPTOR_COUNT as u32 },
                RegisterAccess::Write64 { offset: 0x80, value: descriptors_at & 0xffff_ffff },
                RegisterAccess::Write64 { offset: 0x90, value: self.queue.available.at & 0xffff_ffff },
                RegisterAccess::Write64 { offset: 0xa0, value: self.queue.used.at & 0xffff_ffff },
                RegisterAccess::Write32 { offset: 0x44, value: 1 },
                RegisterAccess::Write32 { offset: 0x30, value: 0 },
                RegisterAccess::Write32 { offset: 0x70, value: 0xf },
                RegisterAccess::Expect32 { offset: 0x70, value: 0xf },
            ],
    {
        let mut r: Vec<RegisterAccess> = Vec::new();
        r.push(RegisterAccess::Write32 { offset: 0x70, value: 0x1 });
        r.push(RegisterAccess::Write32 { offset: 0x70, value: 0x2 | 0x1 });
        r.push(RegisterAccess::Write32 { offset: 0x14, value: 0 });
        r.push(RegisterAccess::Read32 { offset: 0x10 });
        r.push(RegisterAccess::Write32 { offset: 0x24, value: 0 });
        r.push(RegisterAccess::Write32 { offset: 0x20, value: 0 });
        r.push(RegisterAccess::Write32 { offset: 0x70, value: 0x8 | 0x2 | 0x1 });
        r.push(RegisterAccess::Expect32 { offset: 0x70, value: 0x8 | 0x2 | 0x1 });
        r.push(RegisterAccess::Write32 { offset: 0x30, value: 0x0 });
        r.push(RegisterAccess::Write32 { offset: 0x38, value: DESCRIPTOR_COUNT as u32 });
        r.push(RegisterAccess::Write64 { offset: 0x80, value: descriptors_at & 0xffff_ffff });
        r.push(RegisterAccess::Write64 { offset: 0x90, value: self.queue.available.addr() & 0xffff_ffff });
        r.push(RegisterAccess::Write64 { offset: 0xa0, value: self.queue.used.addr() & 0xffff_ffff });
        r.push(RegisterAccess::Write32 { offset: 0x44, value: 1 });
        r.push(RegisterAccess::Write32 { offset: 0x30, value: 0x0 });
        r.push(RegisterAccess::Write32 { offset: 0x70, value: 0xf });
        r.push(RegisterAccess::Expect32 { offset: 0x70, value: 0xf });
        assert(0x2u32 | 0x1u32 == 0x3u32 && 0x8u32 | 0x2u32 | 0x1u32 == 0xbu32) by (bit_vector);
        r
    }

    /// Sets up the device's interrupt: the second word of the node's `interrupts` property,
    /// past the 32 private interrupts, gets handler `handler` with data `data` and is
    /// configured edge triggered and enabled at `gic`. `None` where the node lacks that word
    /// or the interrupt is past the table.
    pub fn init_irq(irq_table: &mut IrqTable, gic: &Gic, node: &FdtNode, handler: usize, data: usize) -> (r: Option<
        Vec<RegisterAccess>,
    >)
        requires
            old(irq_table).irqs@.len() == NUM_IRQS,
        ensures
            final(irq_table).irqs@.len() == NUM_IRQS,
            match find_prop_spec(node.properties@, interrupts_name()) {
                None => r is None && final(irq_table).irqs@ == old(irq_table).irqs@,
                Some(i) => match node.properties@[i].value {
                    None => r is None && final(irq_table).irqs@ == old(irq_table).irqs@,
                    Some(v) => {
                        let irq = be_u32(v@, 4) + 32;
                        if v@.len() < 8 || irq >= NUM_IRQS {
                            r is None && final(irq_table).irqs@ == old(irq_table).irqs@
                        } else {
                            &&& final(irq_table).irqs@ == old(irq_table).irqs@.update(
                                irq,
                                Some(IrqHandler { callback: handler, data: Some(data) }),
                            )
                            &&& r matches Some(ops) && ops@ == seq![
                                RegisterAccess::Or32 {
                                    offset: (0xC00 + 4 * (irq / 16)) as usize,
                                    bits: (0b10u32 & 0x3) << ((irq % 16) * 2) as u32,
                                },
                                RegisterAccess::Or32 { offset: (0x100 + 4 * (irq / 32)) as usize, bits: 1u32 << (irq % 32) as u32 },
                                RegisterAccess::Or32 { offset: (0x080 + 4 * (irq / 32)) as usize, bits: 1u32 << (irq % 32) as u32 },
                                RegisterAccess::Write8 { offset: (0x400 + irq) as usize, value: 0x80u8 },
                            ]
                        }
                    },
                },
            },
    {
        let key: [u8; 10] = [0x69, 0x6e, 0x74, 0x65, 0x72, 0x72, 0x75, 0x70, 0x74, 0x73];
        assert(key@ =~= interrupts_name());
        let prop = match node.find_prop_by_name(&key) {
            Some(p) => p,
            None => return None,
        };
        proof {
            lemma_find_prop_from_bounds(node.properties@, interrupts_name(), 0);
        }
        let len = match &prop.value {
            Some(v) => v.len(),
            None => return None,
        };
        if len < 8 {
            return None;
        }
        let irqn = match prop.read_u32(1) {
            Some(n) => n,
            None => return None,
        };
        if irqn as usize >= NUM_IRQS - 32 {
            return None;
        }
        let irq = irqn as usize + 32;
        irq_table.register_interrupt(irq as u64, handler, Some(data));
        let mut ops = gic.configure_spi(irq, 0b10);
        let mut enable = gic.enable_spi(irq);
        ops.append(&mut enable);
        Some(ops)
    }
}

impl Driver for VirtioBlkDriver {
    open spec fn compatible_spec() -> Seq<u8> {
        virtio_mmio_compatible()
    }

    fn compatible_string() -> (r: Vec<u8>) {
        let mut r: Vec<u8> = Vec::new();
        r.push(0x76); r.push(0x69); r.push(0x72); r.push(0x74); r.push(0x69); r.push(0x6f);
        r.push(0x2c); r.push(0x6d); r.push(0x6d); r.push(0x69); r.push(0x6f);
        assert(r@ =~= virtio_mmio_compatible());
        r
    }

    /// The driver for the window that the first two words of the node's `reg` property give,
    /// its descriptors not yet pointing at buffers. Fails where the node lacks them.
    fn new(node: &FdtNode) -> (r: Result<Self, ()>)
        ensures
            match reg_window(*node) {
                None => r is Err,
                Some((addr, size)) => r matches Ok(d) && d.mmio.base == (addr as u64 | 0xffff_ff80_0000_0000u64)
                    && d.mmio.size == size as usize,
            },
    {
        let reg_key: [u8; 3] = [0x72, 0x65, 0x67];
        assert(reg_key@ =~= reg_name());
        let prop = match node.find_prop_by_name(&reg_key) {
            Some(p) => p,
            None => return Err(()),
        };
        proof {
            lemma_find_prop_from_bounds(node.properties@, reg_name(), 0);
        }
        let len = match &prop.value {
            Some(v) => v.len(),
            None => return Err(()),
        };
        if len < 16 {
            return Err(());
        }
        let addr = match prop.read_u64(0) {
            Some(a) => a,
            None => return Err(()),
        };
        let size = match prop.read_u64(1) {
            Some(s) => s,
            None => return Err(()),
        };
        let mut addrs: Vec<u64> = Vec::new();
        let mut i: usize = 0;
        while i < NUM_DESCRIPTORS
            invariant
                i <= NUM_DESCRIPTORS,
                addrs@.len() == i,
            decreases NUM_DESCRIPTORS - i,
        {
            addrs.push(0);
            i += 1;
        }
        Ok(VirtioBlkDriver::with_buffers(MMIO::new(addr, size as usize), &addrs, 0))
    }
}

} // verus!
