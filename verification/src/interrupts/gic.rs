use vstd::prelude::*;
use crate::bytes::be_u32;
use crate::dtb::parser::{find_prop_spec, lemma_find_prop_from_bounds, FdtNode};
use crate::utils::cpu_local::MAX_CPUS;
use crate::utils::mmio::{RegisterAccess, MMIO};

verus! {

/// Distributor control register.
pub const GICD_CTRL: usize = 0;
/// Redistributor wake register.
pub const GICR_WAKER: usize = 0x14;
/// Interrupt group register 0 of a redistributor's SGI and PPI frame.
pub const GICR_IGROUPR0: usize = 0x80;
/// Interrupt set-enable register 0 of a redistributor's SGI and PPI frame.
pub const GICR_ISENABLER0: usize = 0x100;
/// Interrupt clear-enable register 0 of a redistributor's SGI and PPI frame.
pub const GICR_ICENABLER0: usize = 0x180;
/// Offset of the SGI and PPI frame in a redistributor.
pub const GICR_SGI_FRAME: usize = 0x10000;
/// Distance between the redistributors of consecutive cores.
pub const GICR_STRIDE: u64 = 0x20000;

/// Interrupt group registers.
pub fn gicd_igroupr(n: usize) -> (r: usize)
    requires
        0x080 + 0x4 * n <= usize::MAX,
    ensures
        r == 0x080 + 0x4 * n,
{
    0x080 + 0x4 * n
}

/// Interrupt set-enable registers.
pub fn gicd_isenabler(n: usize) -> (r: usize)
    requires
        0x100 + 0x4 * n <= usize::MAX,
    ensures
        r == 0x100 + 0x4 * n,
{
    0x100 + 0x4 * n
}

/// Interrupt clear-enable registers.
pub fn gicd_icenabler(n: usize) -> (r: usize)
    requires
        0x180 + 0x4 * n <= usize::MAX,
    ensures
        r == 0x180 + 0x4 * n,
{
    0x180 + 0x4 * n
}

/// Interrupt priority registers.
pub fn gicd_ipriority(n: usize) -> (r: usize)
    requires
        0x400 + 0x4 * n <= usize::MAX,
    ensures
        r == 0x400 + 0x4 * n,
{
    0x400 + 0x4 * n
}

/// Interrupt configuration registers.
pub fn gicd_icfgr(n: usize) -> (r: usize)
    requires
        0xC00 + 0x4 * n <= usize::MAX,
    ensures
        r == 0xC00 + 0x4 * n,
{
    0xC00 + 0x4 * n
}

/// The distributor, shared by all cores.
pub struct GicDistributor {
    pub distributor_base: MMIO,
}

/// The redistributor of one core.
pub struct GicRedistributor {
    pub redistributor_base: MMIO,
}

impl GicRedistributor {
    /// Wakes the redistributor and waits until it is awake.
    pub fn wakeup(&self) -> (r: Vec<RegisterAccess>)
        ensures
            r@ == seq![
                RegisterAccess::Write32 { offset: GICR_WAKER, value: !(1u32 << 1u32) },
                RegisterAccess::WaitClear32 { offset: GICR_WAKER, bits: 1u32 << 2u32 },
            ],
    {
        let mut r: Vec<RegisterAccess> = Vec::new();
        r.push(RegisterAccess::Write32 { offset: GICR_WAKER, value: !(1u32 << 1u32) });
        r.push(RegisterAccess::WaitClear32 { offset: GICR_WAKER, bits: 1u32 << 2u32 });
        r
    }

    /// Enables private interrupt `irqn` and puts it in group 1.
    pub fn enable_ppi(&self, irqn: usize) -> (r: Vec<RegisterAccess>)
        requires
            irqn < 32,
        ensures
            r@ == seq![
                RegisterAccess::Write32 { offset: GICR_WAKER, value: !(1u32 << 1u32) },
                RegisterAccess::WaitClear32 { offset: GICR_WAKER, bits: 1u32 << 2u32 },
                RegisterAccess::Write32 { offset: (GICR_SGI_FRAME + GICR_ISENABLER0) as usize, value: 1u32 << irqn as u32 },
                RegisterAccess::Or32 { offset: (GICR_SGI_FRAME + GICR_IGROUPR0) as usize, bits: 1u32 << irqn as u32 },
            ],
    {
        let mut r = self.wakeup();
        r.push(RegisterAccess::Write32 { offset: (GICR_SGI_FRAME + GICR_ISENABLER0) as usize, value: 1u32 << irqn as u32 });
        r.push(RegisterAccess::Or32 { offset: (GICR_SGI_FRAME + GICR_IGROUPR0) as usize, bits: 1u32 << irqn as u32 });
        r
    }

    /// Disables private interrupt `irqn`.
    pub fn disable_ppi(&self, irqn: usize) -> (r: Vec<RegisterAccess>)
        requires
            irqn < 32,
        ensures
            r@ == seq![
                RegisterAccess::Write32 { offset: GICR_WAKER, value: !(1u32 << 1u32) },
                RegisterAccess::WaitClear32 { offset: GICR_WAKER, bits: 1u32 << 2u32 },
                RegisterAccess::Write32 { offset: (GICR_SGI_FRAME + GICR_ICENABLER0) as usize, value: 1u32 << irqn as u32 },
            ],
    {
        let mut r = self.wakeup();
        r.push(RegisterAccess::Write32 { offset: (GICR_SGI_FRAME + GICR_ICENABLER0) as usize, value: 1u32 << irqn as u32 });
        r
    }
}

impl GicDistributor {
    /// Waits for pending writes, enables both groups with affinity routing, and waits again.
    pub fn init(&self) -> (r: Vec<RegisterAccess>)
        ensures
            r@ == seq![
                RegisterAccess::WaitClear32 { offset: GICD_CTRL, bits: 1u32 << 31u32 },
                RegisterAccess::Write32 { offset: GICD_CTRL, value: (1u32 << 1u32) | (1u32 << 2u32) | (1u32 << 4u32) },
                RegisterAccess::WaitClear32 { offset: GICD_CTRL, bits: 1u32 << 31u32 },
            ],
    {
        let mut r: Vec<RegisterAccess> = Vec::new();
        r.push(RegisterAccess::WaitClear32 { offset: GICD_CTRL, bits: 1u32 << 31u32 });
        r.push(RegisterAccess::Write32 { offset: GICD_CTRL, value: (1u32 << 1u32) | (1u32 << 2u32) | (1u32 << 4u32) });
        r.push(RegisterAccess::WaitClear32 { offset: GICD_CTRL, bits: 1u32 << 31u32 });
        r
    }

    /// Enables shared interrupt `irqn`, puts it in group 1 and gives it priority 0x80.
    pub fn enable_spi(&self, irqn: usize) -> (r: Vec<RegisterAccess>)
        requires
            irqn + 0x400 <= usize::MAX,
        ensures
            r@ == seq![
                RegisterAccess::Or32 { offset: (0x100 + 4 * (irqn / 32)) as usize, bits: 1u32 << (irqn % 32) as u32 },
                RegisterAccess::Or32 { offset: (0x080 + 4 * (irqn / 32)) as usize, bits: 1u32 << (irqn % 32) as u32 },
                RegisterAccess::Write8 { offset: (0x400 + irqn) as usize, value: 0x80u8 },
            ],
    {
        let index = irqn / 32;
        let offset = irqn % 32;
        let mut r: Vec<RegisterAccess> = Vec::new();
        r.push(RegisterAccess::Or32 { offset: gicd_isenabler(index), bits: 1u32 << offset as u32 });
        r.push(RegisterAccess::Or32 { offset: gicd_igroupr(index), bits: 1u32 << offset as u32 });
        r.push(RegisterAccess::Write8 { offset: gicd_ipriority(0) + irqn, value: 0x80 });
        r
    }

    /// Sets the two configuration bits of shared interrupt `irqn` that `config` has.
    pub fn configure_spi(&self, irqn: usize, config: u32) -> (r: Vec<RegisterAccess>)
        ensures
            r@ == seq![
                RegisterAccess::Or32 {
                    offset: (0xC00 + 4 * (irqn / 16)) as usize,
                    bits: (config & 0x3) << ((irqn % 16) * 2) as u32,
                },
            ],
    {
        let index = irqn / 16;
        let offset = (irqn % 16) * 2;
        let mut r: Vec<RegisterAccess> = Vec::new();
        r.push(RegisterAccess::Or32 { offset: gicd_icfgr(index), bits: (config & 0x3) << offset as u32 });
        r
    }

    /// Disables shared interrupt `irqn`, waiting for pending writes before and after.
    pub fn disable_spi(&self, irqn: usize) -> (r: Vec<RegisterAccess>)
        ensures
            r@ == seq![
                RegisterAccess::WaitClear32 { offset: GICD_CTRL, bits: 1u32 << 31u32 },
                RegisterAccess::Or32 { offset: (0x180 + 4 * (irqn / 32)) as usize, bits: 1u32 << (irqn % 32) as u32 },
                RegisterAccess::WaitClear32 { offset: GICD_CTRL, bits: 1u32 << 31u32 },
            ],
    {
        let index = irqn / 32;
        let offset = irqn % 32;
        let mut r: Vec<RegisterAccess> = Vec::new();
        r.push(RegisterAccess::WaitClear32 { offset: GICD_CTRL, bits: 1u32 << 31u32 });
        r.push(RegisterAccess::Or32 { offset: gicd_icenabler(index), bits: 1u32 << offset as u32 });
        r.push(RegisterAccess::WaitClear32 { offset: GICD_CTRL, bits: 1u32 << 31u32 });
        r
    }
}

/// Big endian double word `k` of a `reg` value.
pub open spec fn reg_cell(v: Seq<u8>, k: int) -> int {
    be_u32(v, 8 * k) * 0x1_0000_0000 + be_u32(v, 8 * k + 4)
}

/// Whether `g` maps the distributor at `dist` of `dist_size` bytes and, for each core, a
/// redistributor of `redist_size` bytes, the first at `redist`, the others a stride apart.
pub open spec fn gic_mapped(g: Gic, dist: int, dist_size: int, redist: int, redist_size: int) -> bool {
    &&& g.distributor.distributor_base.base == (dist as u64 | 0xffff_ff80_0000_0000u64)
    &&& g.distributor.distributor_base.size == dist_size as usize
    &&& g.redistributors@.len() == MAX_CPUS
    &&& forall|c: int| 0 <= c < MAX_CPUS ==> {
        &&& (#[trigger] g.redistributors@[c]).redistributor_base.base == ((redist + GICR_STRIDE * c) as u64
            | 0xffff_ff80_0000_0000u64)
        &&& g.redistributors@[c].redistributor_base.size == redist_size as usize
    }
}

/// The interrupt controller: its distributor and one redistributor per core.
pub struct Gic {
    pub distributor: GicDistributor,
    pub redistributors: Vec<GicRedistributor>,
}

impl Gic {
    /// The controller that a device tree node describes: its `reg` property gives base and
    /// size of the distributor, then those of the first core's redistributor; the others
    /// follow at a fixed stride. `None` where the node lacks them. The caller then runs the
    /// distributor's `init`.
    pub fn from_node(node: &FdtNode) -> (r: Option<Self>)
        ensures
            match find_prop_spec(node.properties@, seq![0x72u8, 0x65, 0x67]) {
                None => r is None,
                Some(i) => match node.properties@[i].value {
                    None => r is None,
                    Some(v) => {
                        let redist = reg_cell(v@, 2);
                        if v@.len() < 32 || redist + GICR_STRIDE * (MAX_CPUS - 1) > u64::MAX {
                            r is None
                        } else {
                            r matches Some(g) && gic_mapped(g, reg_cell(v@, 0), reg_cell(v@, 1), redist, reg_cell(v@, 3))
                        }
                    },
                },
            },
    {
        let reg_name: [u8; 3] = [0x72, 0x65, 0x67];
        assert(reg_name@ =~= seq![0x72u8, 0x65, 0x67]);
        let prop = match node.find_prop_by_name(&reg_name) {
            Some(p) => p,
            None => return None,
        };
        let value_len = match &prop.value {
            Some(v) => v.len(),
            None => return None,
        };
        if value_len < 32 {
            return None;
        }
        let distributor_base = match prop.read_u64(0) {
            Some(v) => v,
            None => return None,
        };
        let distributor_size = match prop.read_u64(1) {
            Some(v) => v,
            None => return None,
        };
        let redistributor_base = match prop.read_u64(2) {
            Some(v) => v,
            None => return None,
        };
        let redistributor_size = match prop.read_u64(3) {
            Some(v) => v,
            None => return None,
        };
        proof {
            lemma_find_prop_from_bounds(node.properties@, seq![0x72u8, 0x65, 0x67], 0);
            let v = prop.value->Some_0@;
            assert(distributor_base == reg_cell(v, 0));
            assert(distributor_size == reg_cell(v, 1));
            assert(redistributor_base == reg_cell(v, 2));
            assert(redistributor_size == reg_cell(v, 3));
        }
        let distributor = GicDistributor { distributor_base: MMIO::new(distributor_base, distributor_size as usize) };
        if redistributor_base.checked_add(GICR_STRIDE * (MAX_CPUS as u64 - 1)).is_none() {
            return None;
        }
        let mut redistributors: Vec<GicRedistributor> = Vec::new();
        let mut cpu_id: usize = 0;
        while cpu_id < MAX_CPUS
            invariant
                cpu_id <= MAX_CPUS,
                redistributor_base + GICR_STRIDE * (MAX_CPUS - 1) <= u64::MAX,
                redistributors@.len() == cpu_id,
                forall|c: int| 0 <= c < cpu_id ==> {
                    &&& (#[trigger] redistributors@[c]).redistributor_base.base == ((redistributor_base
                        + GICR_STRIDE * c) as u64 | 0xffff_ff80_0000_0000u64)
                    &&& redistributors@[c].redistributor_base.size == redistributor_size as usize
                },
            decreases MAX_CPUS - cpu_id,
        {
            let base = redistributor_base + GICR_STRIDE * cpu_id as u64;
            redistributors.push(GicRedistributor { redistributor_base: MMIO::new(base, redistributor_size as usize) });
            cpu_id += 1;
        }
        Some(Gic { distributor, redistributors })
    }

    pub fn enable_local_ppi(&self, cpu: usize, irqn: usize) -> (r: Vec<RegisterAccess>)
        requires
            cpu < self.redistributors@.len(),
            irqn < 32,
        ensures
            r@.len() == 4,
            r@[2] == (RegisterAccess::Write32 { offset: (GICR_SGI_FRAME + GICR_ISENABLER0) as usize, value: 1u32 << irqn as u32 }),
            r@[3] == (RegisterAccess::Or32 { offset: (GICR_SGI_FRAME + GICR_IGROUPR0) as usize, bits: 1u32 << irqn as u32 }),
    {
        self.redistributors[cpu].enable_ppi(irqn)
    }

    pub fn disable_local_ppi(&self, cpu: usize, irqn: usize) -> (r: Vec<RegisterAccess>)
        requires
            cpu < self.redistributors@.len(),
            irqn < 32,
        ensures
            r@.len() == 3,
            r@[2] == (RegisterAccess::Write32 { offset: (GICR_SGI_FRAME + GICR_ICENABLER0) as usize, value: 1u32 << irqn as u32 }),
    {
        self.redistributors[cpu].disable_ppi(irqn)
    }

    pub fn enable_spi(&self, irqn: usize) -> (r: Vec<RegisterAccess>)
        requires
            irqn + 0x400 <= usize::MAX,
        ensures
            r@ == seq![
                RegisterAccess::Or32 { offset: (0x100 + 4 * (irqn / 32)) as usize, bits: 1u32 << (irqn % 32) as u32 },
                RegisterAccess::Or32 { offset: (0x080 + 4 * (irqn / 32)) as usize, bits: 1u32 << (irqn % 32) as u32 },
                RegisterAccess::Write8 { offset: (0x400 + irqn) as usize, value: 0x80u8 },
            ],
    {
        self.distributor.enable_spi(irqn)
    }

    pub fn configure_spi(&self, irqn: usize, config: u32) -> (r: Vec<RegisterAccess>)
        ensures
            r@ == seq![
                RegisterAccess::Or32 {
                    offset: (0xC00 + 4 * (irqn / 16)) as usize,
                    bits: (config & 0x3) << ((irqn % 16) * 2) as u32,
                },
            ],
    {
        self.distributor.configure_spi(irqn, config)
    }

    pub fn disable_spi(&self, irqn: usize) -> (r: Vec<RegisterAccess>)
        ensures
            r@ == seq![
                RegisterAccess::WaitClear32 { offset: GICD_CTRL, bits: 1u32 << 31u32 },
                RegisterAccess::Or32 { offset: (0x180 + 4 * (irqn / 32)) as usize, bits: 1u32 << (irqn % 32) as u32 },
                RegisterAccess::WaitClear32 { offset: GICD_CTRL, bits: 1u32 << 31u32 },
            ],
    {
        self.distributor.disable_spi(irqn)
    }
}

} // verus!
