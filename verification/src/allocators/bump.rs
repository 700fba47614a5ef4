use vstd::prelude::*;

verus! {

/// Hands out memory from `current` up to `end` and never takes it back.
pub struct BumpAllocator {
    pub current: u64,
    pub end: u64,
}

/// `addr` rounded up to a multiple of `align`.
pub open spec fn round_up(addr: int, align: int) -> int {
    if addr % align == 0 {
        addr
    } else {
        addr + (align - addr % align)
    }
}

impl BumpAllocator {
    pub fn new(start: u64, end: u64) -> (r: Self)
        ensures
            r.current == start,
            r.end == end,
    {
        Self { current: start, end }
    }

    /// `size` bytes aligned to `align` from the next free byte on; fails when they would
    /// pass the end, taking nothing.
    pub fn allocate(&mut self, size: u64, align: u64) -> (r: Result<u64, ()>)
        requires
            align > 0,
            round_up(old(self).current as int, align as int) + size <= u64::MAX,
        ensures
            ({
                let start = round_up(old(self).current as int, align as int);
                &&& start + size <= old(self).end ==> r == Ok::<u64, ()>(start as u64) && final(self).current == start + size
                    && final(self).end == old(self).end
                &&& start + size > old(self).end ==> r is Err && *final(self) == *old(self)
            }),
    {
        let offset = if self.current % align == 0 { 0 } else { align - self.current % align };
        let start_addr = self.current + offset;
        let end_addr = start_addr + size;
        if end_addr > self.end {
            return Err(());
        }
        self.current = end_addr;
        Ok(start_addr)
    }

    /// Nothing is given back: only the whole allocator can be cleared.
    pub fn deallocate(&mut self, ptr: u64, size: u64)
        ensures
            *final(self) == *old(self),
    {
        let _ = ptr;
        let _ = size;
    }
}

} // verus!
