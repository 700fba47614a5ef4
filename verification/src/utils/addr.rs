use vstd::prelude::*;

verus! {

/// Mask of the bits of a kernel address that form its physical part.
pub const PHYS_ADDR_MASK: u64 = 0x7f_ffff_ffff;

/// A physical memory address.
pub struct PhysAddr(pub u64);

impl PhysAddr {
    pub fn get(&self) -> (r: u64)
        ensures
            r == self.0,
    {
        self.0
    }

    pub fn from_raw_addr(address: u64) -> (r: Self)
        ensures
            r.0 == address,
    {
        PhysAddr(address)
    }

    /// The physical address behind a kernel virtual address: its bits under the mask.
    pub fn from_virt(address: u64) -> (r: Self)
        ensures
            r.0 == address & PHYS_ADDR_MASK,
            r.0 <= PHYS_ADDR_MASK,
    {
        let r = address & PHYS_ADDR_MASK;
        assert(address & 0x7f_ffff_ffffu64 <= 0x7f_ffff_ffffu64) by (bit_vector);
        PhysAddr(r)
    }
}

} // verus!
