use vstd::prelude::*;

verus! {

/// A device register window at a kernel virtual address.
pub struct MMIO {
    pub base: u64,
    pub size: usize,
}

impl MMIO {
    /// The window of `size` bytes at physical address `physical_base`, seen through the kernel map.
    pub fn new(physical_base: u64, size: usize) -> (r: Self)
        ensures
            r.base == physical_base | 0xffff_ff80_0000_0000u64,
            r.size == size,
    {
        Self { base: physical_base | 0xffff_ff80_0000_0000u64, size }
    }
}


/// One access to a register of a device window, at a byte offset.
#[derive(Debug, Clone, Copy, PartialEq, Eq, Structural)]
pub enum RegisterAccess {
    /// Store a 32-bit value.
    Write32 { offset: usize, value: u32 },
    /// Read a 32-bit register and store it back with `bits` set.
    Or32 { offset: usize, bits: u32 },
    /// Store a byte.
    Write8 { offset: usize, value: u8 },
    /// Read a 32-bit register until `bits` are all clear.
    WaitClear32 { offset: usize, bits: u32 },
    /// Read a 16-bit register until `bits` are all clear.
    WaitClear16 { offset: usize, bits: u16 },
    /// Read a byte register and store it back with `bits` set.
    Or8 { offset: usize, bits: u8 },
    /// Read a byte register and store it back with `bits` cleared.
    AndNot8 { offset: usize, bits: u8 },
    /// Store a 16-bit value.
    Write16 { offset: usize, value: u16 },
    /// While a 16-bit register has `bits` all clear, read and drop the byte at `data`.
    DrainWhileClear16 { offset: usize, bits: u16, data: usize },
    /// Store a 64-bit value.
    Write64 { offset: usize, value: u64 },
    /// Read a 32-bit register and drop what it holds.
    Read32 { offset: usize },
    /// Read a 32-bit register, which must hold `value`: the kernel stops when it does not.
    Expect32 { offset: usize, value: u32 },
}

} // verus!
