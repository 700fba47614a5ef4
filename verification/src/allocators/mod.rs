pub mod bump;
pub mod ll;

use vstd::prelude::*;

verus! {

/// `addr` rounded up to a multiple of `align`, a power of two: the bits below `align` of
/// `addr + align - 1` cleared.
pub fn align_up(addr: usize, align: usize) -> (r: usize)
    requires
        align > 0,
        addr + align <= usize::MAX,
    ensures
        r == (addr + align - 1) as usize & !((align - 1) as usize),
{
    (addr + align - 1) & !(align - 1)
}

/// For an alignment of 16, `align_up` gives the least multiple of 16 not below `addr`.
pub proof fn lemma_align_up_16(addr: usize)
    requires
        addr + 16 <= usize::MAX,
    ensures
        ((addr + 15) as usize & !15usize) as int == (addr + 15) / 16 * 16,
        ((addr + 15) as usize & !15usize) >= addr,
        ((addr + 15) as usize & !15usize) < addr + 16,
        ((addr + 15) as usize & !15usize) % 16 == 0,
{
    let a = (addr + 15) as usize;
    assert(a & !15usize == a - a % 16) by (bit_vector);
}

/// Moves `inner` into a box.
pub fn kbox<T>(inner: T) -> (r: Box<T>)
    ensures
        *r == inner,
{
    Box::new(inner)
}

/// An empty vector.
pub fn kvec<T>() -> (r: Vec<T>)
    ensures
        r@.len() == 0,
{
    Vec::new()
}

} // verus!
