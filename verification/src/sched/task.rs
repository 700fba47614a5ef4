use vstd::prelude::*;
use crate::bytes::{le_u64, read_le_u64, u64_le_bytes, u64_to_le_bytes, copy_into};
use crate::elf::parser::{ElfParser, Segment};
use crate::elf::raw::{ProgramHeader, PROGRAM_HEADER_SIZE};
use crate::interrupts::irq_handler::ExceptionRegisters;
use crate::memory::{PageAllocator, Pfn, PAGE_SIZE};
use crate::sched::lazy_buffer::{
    area_end, fault_action, fault_ready, fault_resolved, free_pages_ready, pages_up_to, LazyFaultAction, LazyPageBuffer,
    LazyPageBufferSource, LazyPageZeroedSource,
};
use crate::sched::user_pages::{
    frames_known, lemma_shared_same, pages_outside, protected, range_pages, release_ready, released_metas, same_mappings,
    shared_metas, shared_pages, UserPageTable,
};
use crate::sched::wait_queue::WaitQueue;
use crate::subsystem::page::fault::{PageFaultError, PageFaultType};
use crate::subsystem::page::meta::{clamp_count, PageMeta, VmaAllocatedArea};
use crate::utils::addr::PhysAddr;
use crate::utils::intrusive_rbtree::{has_key, RbTree};

verus! {

pub const STACK_SIZE: usize = 4096 * 16;

/// Virtual address at which user stacks are mapped.
pub const STACK_VIRTUAL_ADDR: usize = 0x800000;

/// Where the user heap of a fresh program starts.
pub const DEFAULT_BASE_VMA: usize = 0x800_0000;

/// Bytes of a fresh stack at kernel virtual address `addr`: all zero.
fn zeroed_stack() -> (r: Vec<u8>)
    ensures
        r@ == Seq::new(STACK_SIZE as nat, |_i: int| 0u8),
{
    let mut bytes: Vec<u8> = Vec::new();
    let mut i: usize = 0;
    while i < STACK_SIZE
        invariant
            i <= STACK_SIZE,
            bytes@ == Seq::new(i as nat, |_i: int| 0u8),
        decreases STACK_SIZE - i,
    {
        bytes.push(0u8);
        i += 1;
        assert(bytes@ =~= Seq::new(i as nat, |_i: int| 0u8));
    }
    bytes
}

/// A copy of a stack's bytes.
fn copy_stack(src: &Vec<u8>) -> (r: Vec<u8>)
    ensures
        r@ == src@,
{
    let mut bytes: Vec<u8> = Vec::new();
    let mut i: usize = 0;
    while i < src.len()
        invariant
            i <= src@.len(),
            bytes@ == src@.subrange(0, i as int),
        decreases src@.len() - i,
    {
        bytes.push(src[i]);
        i += 1;
        assert(bytes@ =~= src@.subrange(0, i as int));
    }
    assert(bytes@ =~= src@);
    bytes
}

/// The kernel stack of a task: its bytes and the kernel virtual address they live at.
pub struct KernelTaskStack {
    pub bytes: Vec<u8>,
    pub addr: u64,
}

impl KernelTaskStack {
    /// A zeroed stack at `addr`.
    pub fn new_zeroed(addr: u64) -> (r: Self)
        ensures
            r.addr == addr,
            r.bytes@ == Seq::new(STACK_SIZE as nat, |_i: int| 0u8),
    {
        KernelTaskStack { bytes: zeroed_stack(), addr }
    }

    /// A copy of this stack, living at `addr`.
    pub fn clone_box(&self, addr: u64) -> (r: Self)
        ensures
            r.addr == addr,
            r.bytes@ == self.bytes@,
    {
        KernelTaskStack { bytes: copy_stack(&self.bytes), addr }
    }

    pub fn phys_addr(&self) -> (r: PhysAddr)
        ensures
            r.0 == self.addr & 0x7f_ffff_ffff,
    {
        PhysAddr::from_virt(self.addr)
    }

    pub fn virt_addr(&self) -> (r: u64)
        ensures
            r == self.addr,
    {
        self.addr
    }

    pub fn len(&self) -> (r: usize)
        ensures
            r == self.bytes@.len(),
    {
        self.bytes.len()
    }
}

/// The user stack of a task: its bytes and the kernel virtual address they live at.
pub struct UserTaskStack {
    pub bytes: Vec<u8>,
    pub addr: u64,
}

impl UserTaskStack {
    /// A zeroed stack at `addr`.
    pub fn new_zeroed(addr: u64) -> (r: Self)
        ensures
            r.addr == addr,
            r.bytes@ == Seq::new(STACK_SIZE as nat, |_i: int| 0u8),
    {
        UserTaskStack { bytes: zeroed_stack(), addr }
    }

    /// A copy of this stack, living at `addr`.
    pub fn clone_box(&self, addr: u64) -> (r: Self)
        ensures
            r.addr == addr,
            r.bytes@ == self.bytes@,
    {
        UserTaskStack { bytes: copy_stack(&self.bytes), addr }
    }

    pub fn get(&self) -> (r: &[u8])
        ensures
            r@ == self.bytes@,
    {
        self.bytes.as_slice()
    }

    pub fn get_mut(&mut self) -> (r: &mut Vec<u8>)
        ensures
            *r == old(self).bytes,
            final(self).bytes == *final(r),
            final(self).addr == old(self).addr,
    {
        &mut self.bytes
    }

    pub fn phys_addr(&self) -> (r: PhysAddr)
        ensures
            r.0 == self.addr & 0x7f_ffff_ffff,
    {
        PhysAddr::from_virt(self.addr)
    }

    pub fn len(&self) -> (r: usize)
        ensures
            r == self.bytes@.len(),
    {
        self.bytes.len()
    }
}

/// `base` moved by `offset`, held to the range of `usize`.
pub open spec fn saturating_offset(base: usize, offset: isize) -> usize {
    clamp_count(base + offset) as usize
}

/// The heap of a user process: a zero-filled area whose end the process moves.
pub struct UserSpaceHeap(pub LazyPageBuffer<LazyPageZeroedSource>);

impl UserSpaceHeap {
    /// An empty heap at `base_vma`.
    pub fn new(base_vma: usize) -> (r: Self)
        ensures
            r.0.vma_bounds.0 == base_vma,
            r.0.vma_bounds.1 == base_vma,
            r.0.vma_area.vma == base_vma,
            r.0.vma_area.pfn_count == 0,
    {
        Self(LazyPageBuffer::new_zeroed(base_vma, base_vma))
    }

    /// Moves the end of the heap by `offset`, saturating, and returns the new end. When the
    /// heap shrinks, every valid page of `table` from the new end up to the old one loses its
    /// use of its frame and becomes invalid.
    pub fn modify_end(&mut self, offset: isize, table: &mut UserPageTable, metas: &mut Vec<PageMeta>) -> (r: usize)
        requires
            saturating_offset(old(self).0.vma_bounds.1, offset) < old(self).0.vma_bounds.1 ==> release_ready(
                old(metas)@,
                old(table).pages@,
                saturating_offset(old(self).0.vma_bounds.1, offset) as int,
                old(self).0.vma_bounds.1 as int,
            ),
        ensures
            r == saturating_offset(old(self).0.vma_bounds.1, offset),
            final(self).0.vma_bounds.1 == r,
            final(self).0.vma_bounds.0 == old(self).0.vma_bounds.0,
            final(self).0.vma_area.vma == old(self).0.vma_area.vma,
            final(self).0.vma_area.pfn_count == clamp_count(
                old(self).0.vma_area.pfn_count + pages_up_to(r as int) - pages_up_to(old(self).0.vma_bounds.1 as int),
            ),
            final(self).0.anon_vma == old(self).0.anon_vma,
            final(self).0.source == old(self).0.source,
            r < old(self).0.vma_bounds.1 ==> final(metas)@ == released_metas(
                old(metas)@,
                old(table).pages@,
                r as int,
                old(self).0.vma_bounds.1 as int,
            ) && final(table).pages@ == pages_outside(old(table).pages@, r as int, old(self).0.vma_bounds.1 as int),
            r >= old(self).0.vma_bounds.1 ==> final(metas)@ == old(metas)@ && final(table).pages@ == old(table).pages@,
    {
        let original_end_address = self.0.end_address();
        let new_end_address = match original_end_address.checked_add_signed(offset) {
            Some(e) => e,
            None => if offset < 0 {
                0
            } else {
                usize::MAX
            },
        };
        self.0.set_end_bound(new_end_address, table, metas);
        new_end_address
    }

    pub fn fork(&self) -> (r: Self)
        ensures
            area_fork_of(r.0, self.0),
    {
        Self(self.0.fork())
    }

    /// Drops the heap's use of the frame of every valid page of `table` within its pages.
    pub fn release_pages(&self, table: &UserPageTable, metas: &mut Vec<PageMeta>)
        requires
            self.0.vma_area.vma + self.0.vma_area.pfn_count * PAGE_SIZE <= usize::MAX,
            release_ready(old(metas)@, table.pages@, self.0.vma_area.vma as int, area_end(self.0.vma_area)),
        ensures
            final(metas)@ == released_metas(old(metas)@, table.pages@, self.0.vma_area.vma as int, area_end(self.0.vma_area)),
    {
        self.0.release_pages(table, metas)
    }

    pub fn contains_vma(&self, vma: usize) -> (r: bool)
        ensures
            r == (self.0.vma_bounds.0 <= vma && vma < self.0.vma_bounds.1),
    {
        self.0.contains_vma(vma)
    }

    pub fn end_of_heap(&self) -> (r: usize)
        ensures
            r == self.0.vma_bounds.1,
    {
        self.0.end_address()
    }
}

/// The parts of a user task beyond its registers.
pub struct UserSpaceProcess {
    /// The valid pages of the process's translation tables.
    pub page_table: UserPageTable,
    pub user_stack: UserTaskStack,
    pub user_heap: UserSpaceHeap,
    pub kernel_stack: KernelTaskStack,
    pub segments: Vec<LazyPageBuffer<Segment>>,
    pub fds: TaskFdTable,
}

/// Whether lazily filled area `b` is the copy of `a` that a forked process gets: the same
/// bounds and pages, with anonymous metadata of its own that descends from `a`'s.
pub open spec fn area_fork_of<S: LazyPageBufferSource>(b: LazyPageBuffer<S>, a: LazyPageBuffer<S>) -> bool {
    &&& b.vma_area == a.vma_area
    &&& b.vma_bounds == a.vma_bounds
    &&& b.anon_vma@.parent matches Some(p) && p@ == a.anon_vma@
    &&& b.anon_vma@.vma_tree@.len() == 0
}

/// Whether descriptor table `c` is the copy of `p` that a forked process gets: the same
/// descriptors in the same order, each with its own copy of the open file it named.
pub open spec fn fd_table_fork_of(c: TaskFdTable, p: TaskFdTable) -> bool {
    &&& c.next_fd_number == p.next_fd_number
    &&& c.fds@.len() == p.fds@.len()
    &&& c.files@.len() == p.fds@.len()
    &&& forall|i: int| 0 <= i < p.fds@.len() ==> (#[trigger] c.fds@[i]).0 == p.fds@[i].0 && c.fds@[i].1.inner == i
        && c.files@[i] == p.files@[p.fds@[i].1.inner as int]
}

/// Whether user process `c` is the copy of `p` that a forked task gets: stacks copied to
/// `user_stack_addr` and `kernel_stack_addr`, heap and segments forked, descriptors copied.
pub open spec fn user_fork_of(c: UserSpaceProcess, p: UserSpaceProcess, user_stack_addr: u64, kernel_stack_addr: u64) -> bool {
    &&& c.user_stack.addr == user_stack_addr
    &&& c.user_stack.bytes@ == p.user_stack.bytes@
    &&& c.kernel_stack.addr == kernel_stack_addr
    &&& c.kernel_stack.bytes@ == p.kernel_stack.bytes@
    &&& area_fork_of(c.user_heap.0, p.user_heap.0)
    &&& c.segments@.len() == p.segments@.len()
    &&& forall|i: int| 0 <= i < p.segments@.len() ==> area_fork_of(#[trigger] c.segments@[i], p.segments@[i])
    &&& c.fds.wf()
    &&& fd_table_fork_of(c.fds, p.fds)
    &&& c.page_table.pages@ == forked_pages(p.page_table.pages@, process_areas(p)) + stack_pages(user_stack_addr)
}

/// Whether user process `a` is `b` after a fork: its valid pages within its areas became
/// read-only, and nothing else changed.
pub open spec fn fork_protected(a: UserSpaceProcess, b: UserSpaceProcess) -> bool {
    &&& a.user_stack == b.user_stack
    &&& a.user_heap == b.user_heap
    &&& a.kernel_stack == b.kernel_stack
    &&& a.segments == b.segments
    &&& a.fds == b.fds
    &&& a.page_table.pages@ == protected_areas(b.page_table.pages@, process_areas(b))
}

/// Whether process `a` is `b` after a fork: a user process's valid pages within its areas
/// became read-only; a kernel process is unchanged.
pub open spec fn process_fork_protected(a: Process, b: Process) -> bool {
    match b {
        Process::Kernel(_) => a == b,
        Process::User(u) => a matches Process::User(au) && fork_protected(au, u),
    }
}

/// Whether process `c` is the copy of `p` that a forked task gets.
pub open spec fn process_fork_of(c: Process, p: Process, user_stack_addr: u64, kernel_stack_addr: u64) -> bool {
    match p {
        Process::Kernel(k) => c matches Process::Kernel(ck) && ck.kernel_stack.addr == kernel_stack_addr
            && ck.kernel_stack.bytes@ == k.kernel_stack.bytes@,
        Process::User(u) => c matches Process::User(cu) && user_fork_of(cu, u, user_stack_addr, kernel_stack_addr),
    }
}

impl UserSpaceProcess {
    /// A copy for a forked task: stacks copied to the given addresses, heap and segments
    /// forked, descriptors copied. The valid pages of this process's tables within the heap
    /// and then each segment are shared with the copy's new tables, which then map the frames
    /// of the copy's stack at `STACK_VIRTUAL_ADDR`.
    pub fn fork(&mut self, user_stack_addr: u64, kernel_stack_addr: u64, metas: &mut Vec<PageMeta>) -> (r: UserSpaceProcess)
        requires
            old(self).fds.wf(),
            frames_known(old(metas)@, old(self).page_table.pages@),
            areas_end_in_range(process_areas(*old(self))),
        ensures
            user_fork_of(r, *old(self), user_stack_addr, kernel_stack_addr),
            fork_protected(*final(self), *old(self)),
            final(metas)@ == forked_metas(old(metas)@, old(self).page_table.pages@, process_areas(*old(self))),
    {
        let ghost areas = process_areas(*self);
        let ghost p0 = self.page_table.pages@;
        let ghost m0 = metas@;
        let mut child_table = UserPageTable::create_user();
        let new_user_stack = self.user_stack.clone_box(user_stack_addr);
        let new_user_heap = self.user_heap.fork();
        proof {
            assert(areas[0] == self.user_heap.0.vma_area);
            assert(areas.subrange(0, 0) =~= Seq::<VmaAllocatedArea>::empty());
            assert(same_mappings(p0, p0));
        }
        self.user_heap.0.share_pages(&mut self.page_table, &mut child_table, metas);
        proof {
            lemma_fork_step(m0, p0, areas, 0);
            crate::sched::user_pages::lemma_shared_len(m0, p0, areas[0].vma as int, area_end(areas[0]));
        }
        let new_kernel_stack = self.kernel_stack.clone_box(kernel_stack_addr);
        let new_fds = self.fds.fork();
        let mut new_segments: Vec<LazyPageBuffer<Segment>> = Vec::new();
        let mut i: usize = 0;
        while i < self.segments.len()
            invariant
                i <= self.segments@.len(),
                self.user_stack == old(self).user_stack,
                self.user_heap == old(self).user_heap,
                self.kernel_stack == old(self).kernel_stack,
                self.segments == old(self).segments,
                self.fds == old(self).fds,
                areas == process_areas(*old(self)),
                areas.len() == self.segments@.len() + 1,
                areas_end_in_range(areas),
                new_segments@.len() == i,
                forall|k: int| 0 <= k < i ==> area_fork_of(#[trigger] new_segments@[k], self.segments@[k]),
                self.page_table.pages@ == protected_areas(p0, areas.subrange(0, i + 1)),
                child_table.pages@ == forked_pages(p0, areas.subrange(0, i + 1)),
                metas@ == forked_metas(m0, p0, areas.subrange(0, i + 1)),
                same_mappings(self.page_table.pages@, p0),
                frames_known(m0, p0),
                metas@.len() == m0.len(),
            decreases self.segments@.len() - i,
        {
            new_segments.push(self.segments[i].fork());
            proof {
                assert(areas[i + 1] == self.segments@[i as int].vma_area);
                assert forall|k: int| 0 <= k < self.page_table.pages@.len() implies (#[trigger] self.page_table.pages@[k]).1
                    < metas@.len() by {
                    assert(p0[k].1 < m0.len());
                }
            }
            let ghost mb = metas@;
            let ghost pb = self.page_table.pages@;
            self.segments[i].share_pages(&mut self.page_table, &mut child_table, metas);
            proof {
                lemma_fork_step(m0, p0, areas, i + 1);
                crate::sched::user_pages::lemma_shared_len(mb, pb, areas[i + 1].vma as int, area_end(areas[i + 1]));
            }
            i += 1;
        }
        proof {
            assert(areas.subrange(0, i + 1) =~= areas);
        }
        let stack_pfn = stack_frame(&new_user_stack);
        child_table.map_page_range(STACK_VIRTUAL_ADDR, stack_pfn, STACK_SIZE / PAGE_SIZE);
        UserSpaceProcess {
            page_table: child_table,
            user_stack: new_user_stack,
            user_heap: new_user_heap,
            kernel_stack: new_kernel_stack,
            segments: new_segments,
            fds: new_fds,
        }
    }
}

/// Whether every area of `areas` ends within the address range.
pub open spec fn areas_end_in_range(areas: Seq<VmaAllocatedArea>) -> bool {
    forall|k: int| 0 <= k < areas.len() ==> area_end(#[trigger] areas[k]) <= usize::MAX
}

/// The valid pages `pages` after the pages of each area of `areas`, in order, are made
/// read-only.
pub open spec fn protected_areas(pages: Seq<(usize, usize, bool)>, areas: Seq<VmaAllocatedArea>) -> Seq<(usize, usize, bool)>
    decreases areas.len(),
{
    if areas.len() == 0 {
        pages
    } else {
        protected(protected_areas(pages, areas.drop_last()), areas.last().vma as int, area_end(areas.last()))
    }
}

/// The pages a fork's new tables take from the valid pages `pages` for `areas`: those of each
/// area in turn, read-only.
pub open spec fn forked_pages(pages: Seq<(usize, usize, bool)>, areas: Seq<VmaAllocatedArea>) -> Seq<(usize, usize, bool)>
    decreases areas.len(),
{
    if areas.len() == 0 {
        Seq::empty()
    } else {
        forked_pages(pages, areas.drop_last()) + shared_pages(pages, areas.last().vma as int, area_end(areas.last()))
    }
}

/// The metadata `metas` after a fork takes one more use of the frame of every valid page of
/// `pages` within each area of `areas`, in turn.
pub open spec fn forked_metas(metas: Seq<PageMeta>, pages: Seq<(usize, usize, bool)>, areas: Seq<VmaAllocatedArea>) -> Seq<PageMeta>
    decreases areas.len(),
{
    if areas.len() == 0 {
        metas
    } else {
        shared_metas(forked_metas(metas, pages, areas.drop_last()), pages, areas.last().vma as int, area_end(areas.last()))
    }
}

/// One step of a fork's sharing, for area `k`: sharing from the pages made read-only so far
/// gives what sharing from the original pages gives, and keeps them the same mappings.
proof fn lemma_fork_step(m0: Seq<PageMeta>, p0: Seq<(usize, usize, bool)>, areas: Seq<VmaAllocatedArea>, k: int)
    requires
        0 <= k < areas.len(),
    ensures
        ({
            let before = areas.subrange(0, k);
            let after = areas.subrange(0, k + 1);
            let lo = areas[k].vma as int;
            let hi = area_end(areas[k]);
            let pk = protected_areas(p0, before);
            &&& protected_areas(p0, after) == protected(pk, lo, hi)
            &&& same_mappings(pk, p0) ==> forked_pages(p0, after) == forked_pages(p0, before) + shared_pages(pk, lo, hi)
            &&& same_mappings(pk, p0) ==> forked_metas(m0, p0, after) == shared_metas(forked_metas(m0, p0, before), pk, lo, hi)
            &&& same_mappings(pk, p0) ==> same_mappings(protected(pk, lo, hi), p0)
        }),
{
    let before = areas.subrange(0, k);
    let after = areas.subrange(0, k + 1);
    assert(after.drop_last() =~= before);
    assert(after.last() == areas[k]);
    let lo = areas[k].vma as int;
    let hi = area_end(areas[k]);
    let pk = protected_areas(p0, before);
    if same_mappings(pk, p0) {
        lemma_shared_same(forked_metas(m0, p0, before), pk, p0, lo, hi);
    }
}

/// The parts of a kernel task beyond its registers.
pub struct KernelSpaceProcess {
    pub kernel_stack: KernelTaskStack,
}

impl KernelSpaceProcess {
    /// A copy for a forked task, its stack copied to `kernel_stack_addr`.
    pub fn fork(&self, kernel_stack_addr: u64) -> (r: KernelSpaceProcess)
        ensures
            r.kernel_stack.addr == kernel_stack_addr,
            r.kernel_stack.bytes@ == self.kernel_stack.bytes@,
    {
        KernelSpaceProcess { kernel_stack: self.kernel_stack.clone_box(kernel_stack_addr) }
    }
}

/// The bytes of `args` with each of the `argc` words after the first moved by `delta`: the
/// offsets that the argument block holds become addresses.
pub open spec fn relocated_args(args: Seq<u8>, delta: int) -> Seq<u8> {
    let argc = le_u64(args, 0);
    Seq::new(
        args.len(),
        |j: int|
            if 8 <= j < 8 * (argc + 1) {
                u64_le_bytes((le_u64(args, 8 * (j / 8)) + delta) as u64)[j % 8]
            } else {
                args[j]
            },
    )
}

/// Whether `args` can be placed on a user stack: empty, or holding its count and that many
/// offsets, none of which overflows when moved to the stack's address.
pub open spec fn args_placeable(args: Seq<u8>) -> bool {
    args.len() < STACK_SIZE && (args.len() > 0 ==> {
        let argc = le_u64(args, 0);
        &&& 8 <= args.len()
        &&& 8 * (argc + 1) <= args.len()
        &&& forall|i: int| 0 <= i < argc ==> #[trigger] le_u64(args, 8 * (i + 1)) + (STACK_SIZE - args.len())
            + STACK_VIRTUAL_ADDR <= u64::MAX
    })
}

/// The user stack that `exec` builds: zero, with `args` at its top when there are any, each of
/// their offsets turned into the user address it points to.
pub open spec fn user_stack_bytes(args: Seq<u8>) -> Seq<u8> {
    if args.len() == 0 {
        Seq::new(STACK_SIZE as nat, |_i: int| 0u8)
    } else {
        let copy_start = STACK_SIZE - args.len();
        Seq::new(copy_start as nat, |_i: int| 0u8) + relocated_args(args, copy_start + STACK_VIRTUAL_ADDR)
    }
}

/// Each argument word of the stack that `exec` builds is the user address of its string: the
/// stack is mapped at `STACK_VIRTUAL_ADDR` and the block sits at its top, so word `i` holds
/// `STACK_VIRTUAL_ADDR + (STACK_SIZE - args.len())` plus the string's offset in the block, and
/// the bytes there are the string's bytes.
#[verifier::spinoff_prover]
#[verifier::rlimit(50)]
pub proof fn lemma_argv_words_are_user_addresses(args: Seq<u8>, i: int)
    requires
        8 <= args.len() < STACK_SIZE,
        0 <= i < le_u64(args, 0),
        8 * (le_u64(args, 0) + 1) <= args.len(),
        le_u64(args, 8 * (i + 1)) + (STACK_SIZE - args.len()) + STACK_VIRTUAL_ADDR <= u64::MAX,
    ensures
        ({
            let copy_start = STACK_SIZE - args.len();
            let stack = user_stack_bytes(args);
            let off = le_u64(args, 8 * (i + 1));
            &&& stack.len() == STACK_SIZE
            &&& le_u64(stack, copy_start + 8 * (i + 1)) == STACK_VIRTUAL_ADDR + copy_start + off
            &&& forall|t: int|
                8 * (le_u64(args, 0) + 1) <= off + t < args.len() && 0 <= t ==> #[trigger] stack[STACK_VIRTUAL_ADDR + copy_start + off
                    + t - STACK_VIRTUAL_ADDR] == args[off + t]
        }),
{
    let copy_start = STACK_SIZE - args.len();
    let delta = copy_start + STACK_VIRTUAL_ADDR;
    let stack = user_stack_bytes(args);
    let zeros = Seq::new(copy_start as nat, |_i: int| 0u8);
    let rel = relocated_args(args, delta);
    assert(stack == zeros + rel);
    let argc = le_u64(args, 0);
    let off = le_u64(args, 8 * (i + 1));
    let val = (off + delta) as u64;
    crate::bytes::lemma_u64_le_bytes_roundtrip(val);
    let w = u64_le_bytes(val);
    let p = copy_start + 8 * (i + 1);
    assert forall|t: int| 0 <= t < 8 implies #[trigger] stack[p + t] == w[t] by {
        let j = 8 * (i + 1) + t;
        assert(j / 8 == i + 1 && j % 8 == t);
        assert(stack[p + t] == rel[j]);
    }
    assert(le_u64(stack, p) == le_u64(w, 0)) by {
        assert(stack[p] == w[0] && stack[p + 1] == w[1] && stack[p + 2] == w[2] && stack[p + 3] == w[3]);
        assert(stack[p + 4] == w[4] && stack[p + 5] == w[5] && stack[p + 6] == w[6] && stack[p + 7] == w[7]);
    }
    assert forall|t: int|
        8 * (argc + 1) <= off + t < args.len() && 0 <= t implies #[trigger] stack[STACK_VIRTUAL_ADDR + copy_start + off + t
        - STACK_VIRTUAL_ADDR] == args[off + t] by {
        assert(stack[copy_start + off + t] == rel[off + t]);
    }
}

/// The stack that `exec` builds is zero below the argument block, which fills its top; the
/// count word and the bytes past the argument table are the block's own. With no block the
/// whole stack is zero.
pub proof fn lemma_user_stack_layout(args: Seq<u8>, j: int)
    requires
        args.len() < STACK_SIZE,
        0 <= j < STACK_SIZE,
    ensures
        user_stack_bytes(args).len() == STACK_SIZE,
        j < STACK_SIZE - args.len() ==> user_stack_bytes(args)[j] == 0,
        args.len() > 0 && STACK_SIZE - args.len() <= j && (j - (STACK_SIZE - args.len()) < 8 || j - (STACK_SIZE
            - args.len()) >= 8 * (le_u64(args, 0) + 1)) ==> user_stack_bytes(args)[j] == args[j - (STACK_SIZE - args.len())],
{
    if args.len() > 0 {
        let copy_start = STACK_SIZE - args.len();
        let zeros = Seq::new(copy_start as nat, |_i: int| 0u8);
        let rel = relocated_args(args, copy_start + STACK_VIRTUAL_ADDR);
        assert(user_stack_bytes(args) == zeros + rel);
        if j >= copy_start {
            assert(user_stack_bytes(args)[j] == rel[j - copy_start]);
        }
    }
}

/// A fresh user stack at `addr` holding the argument block `args` at its top.
pub fn create_user_stack_with_args(args: &[u8], addr: u64) -> (r: UserTaskStack)
    requires
        args_placeable(args@),
    ensures
        r.addr == addr,
        r.bytes@ == user_stack_bytes(args@),
{
    let mut user_stack = UserTaskStack::new_zeroed(addr);
    let _n = args.len();
    if args.len() > 0 {
        let copy_start = STACK_SIZE - args.len();
        let stack = user_stack.get_mut();
        copy_into(stack, copy_start, args, 0, args.len());
        let ghost zeros = Seq::new(copy_start as nat, |_i: int| 0u8);
        assert(stack@ =~= zeros + args@);
        let argc = read_le_u64(args, 0);
        let ghost delta: int = copy_start + STACK_VIRTUAL_ADDR;
        let mut i: u64 = 0;
        while i < argc
            invariant
                argc == le_u64(args@, 0),
                args_placeable(args@),
                args@.len() > 0,
                copy_start == STACK_SIZE - args@.len(),
                delta == copy_start + STACK_VIRTUAL_ADDR,
                i <= argc,
                stack@.len() == STACK_SIZE,
                zeros == Seq::new(copy_start as nat, |_i: int| 0u8),
                stack@ == zeros + Seq::new(args@.len(), |j: int| if 8 <= j < 8 * (i + 1) {
                    u64_le_bytes((le_u64(args@, 8 * (j / 8)) + delta) as u64)[j % 8]
                } else {
                    args@[j]
                }),
            decreases argc - i,
        {
            let at = 8 * (i as usize + 1);
            let argv = read_le_u64(args, at);
            let moved = argv + copy_start as u64 + STACK_VIRTUAL_ADDR as u64;
            let word = u64_to_le_bytes(moved);
            let ghost before = stack@;
            copy_into(stack, copy_start + at, word.as_slice(), 0, 8);
            proof {
                let next = Seq::new(args@.len(), |j: int| if 8 <= j < 8 * (i + 2) {
                    u64_le_bytes((le_u64(args@, 8 * (j / 8)) + delta) as u64)[j % 8]
                } else {
                    args@[j]
                });
                assert forall|k: int| 0 <= k < STACK_SIZE implies stack@[k] == (zeros + next)[k] by {
                    if k >= copy_start {
                        let j = k - copy_start;
                        if at <= j < at + 8 {
                            assert(j / 8 == i + 1);
                            assert(j % 8 == j - at);
                        }
                    }
                }
                assert(stack@ =~= zeros + next);
            }
            i += 1;
        }
        assert(Seq::new(args@.len(), |j: int| if 8 <= j < 8 * (argc + 1) {
            u64_le_bytes((le_u64(args@, 8 * (j / 8)) + delta) as u64)[j % 8]
        } else {
            args@[j]
        }) =~= relocated_args(args@, delta));
    } else {
        assert(user_stack.bytes@ =~= user_stack_bytes(args@));
    }
    user_stack
}

/// Segments of an image as lazily filled areas: each loadable one covers whole pages from the
/// page holding its start; empty ones are skipped.
pub open spec fn segment_area(s: Segment) -> (usize, usize) {
    let start = (s.vaddr - s.vaddr % 4096) as usize;
    let pages = (s.vaddr % 4096 + s.memsz + 4095) / 4096;
    (start, (start + pages * PAGE_SIZE) as usize)
}

/// Position of the first of the areas `segs`, at or after `i`, that holds `vma`.
pub open spec fn first_segment_with(segs: Seq<LazyPageBuffer<Segment>>, vma: usize, i: int) -> Option<int>
    decreases segs.len() - i,
{
    if i < 0 || i >= segs.len() {
        None
    } else if segs[i].vma_bounds.0 <= vma < segs[i].vma_bounds.1 {
        Some(i)
    } else {
        first_segment_with(segs, vma, i + 1)
    }
}

/// Whether a fault of type `fault` at `vma` of task `t` can be resolved in the area that
/// holds the address (see `fault_ready`).
pub open spec fn task_fault_ready(
    t: Task,
    fault: PageFaultType,
    vma: usize,
    pages: PageAllocator,
    metas: Seq<PageMeta>,
    frame: Seq<u8>,
    current: Seq<u8>,
) -> bool {
    t.process matches Process::User(u) ==> {
        let tp = u.page_table.pages@;
        &&& u.user_heap.0.vma_bounds.0 <= vma < u.user_heap.0.vma_bounds.1 ==> fault_ready(
            u.user_heap.0,
            fault,
            vma,
            pages,
            metas,
            tp,
            frame,
            current,
        )
        &&& !(u.user_heap.0.vma_bounds.0 <= vma < u.user_heap.0.vma_bounds.1) ==> (first_segment_with(u.segments@, vma, 0) matches Some(
            i,
        ) ==> fault_ready(u.segments@[i], fault, vma, pages, metas, tp, frame, current))
    }
}

/// Whether `r` and the states after (`t1`, `p1`, `m1`, `f1`) are what resolving a fault of
/// type `fault` at `vma` of task `t0` makes of those before: the area that holds the address,
/// the heap or else the first segment that holds it, resolves it in the task's tables (see
/// `fault_resolved`); a kernel task, or an address no area holds, leaves it unhandled and
/// everything as it was.
pub open spec fn task_fault_resolved(
    t0: Task,
    t1: Task,
    fault: PageFaultType,
    vma: usize,
    p0: PageAllocator,
    p1: PageAllocator,
    m0: Seq<PageMeta>,
    m1: Seq<PageMeta>,
    f0: Seq<u8>,
    f1: Seq<u8>,
    current: Seq<u8>,
    r: Result<Option<Pfn>, PageFaultError>,
) -> bool {
    &&& t1.pid == t0.pid
    &&& t1.state == t0.state
    &&& t1.registers == t0.registers
    &&& t1.parent_pid == t0.parent_pid
    &&& t1.children == t0.children
    &&& t0.process is Kernel ==> r == Err::<Option<Pfn>, PageFaultError>(PageFaultError::Unhandled) && t1 == t0 && p1 == p0
        && m1 == m0 && f1 == f0
    &&& t0.process matches Process::User(u) ==> (t1.process matches Process::User(nu) && {
        let in_heap = u.user_heap.0.vma_bounds.0 <= vma < u.user_heap.0.vma_bounds.1;
        let seg = first_segment_with(u.segments@, vma, 0);
        &&& nu.user_stack == u.user_stack
        &&& nu.user_heap == u.user_heap
        &&& nu.kernel_stack == u.kernel_stack
        &&& nu.segments == u.segments
        &&& nu.fds == u.fds
        &&& in_heap ==> fault_resolved(
            u.user_heap.0,
            fault,
            vma,
            p0,
            p1,
            m0,
            m1,
            u.page_table.pages@,
            nu.page_table.pages@,
            f0,
            f1,
            current,
            r,
        )
        &&& !in_heap ==> (seg matches Some(i) ==> fault_resolved(
            u.segments@[i],
            fault,
            vma,
            p0,
            p1,
            m0,
            m1,
            u.page_table.pages@,
            nu.page_table.pages@,
            f0,
            f1,
            current,
            r,
        ))
        &&& !in_heap && seg is None ==> r == Err::<Option<Pfn>, PageFaultError>(PageFaultError::Unhandled) && nu.page_table
            == u.page_table && p1 == p0 && m1 == m0 && f1 == f0
    })
}

/// Which area of user process `u` holds `vma`: `Some(None)` for the heap, `Some(Some(i))`
/// for the first segment `i` that holds it when the heap does not, `None` for no area.
fn fault_area(u: &UserSpaceProcess, vma: usize) -> (r: Option<Option<usize>>)
    ensures
        u.user_heap.0.vma_bounds.0 <= vma < u.user_heap.0.vma_bounds.1 ==> r == Some(None::<usize>),
        !(u.user_heap.0.vma_bounds.0 <= vma < u.user_heap.0.vma_bounds.1) ==> match first_segment_with(u.segments@, vma, 0) {
            Some(i) => r == Some(Some(i as usize)) && 0 <= i < u.segments@.len(),
            None => r is None,
        },
{
    if u.user_heap.contains_vma(vma) {
        return Some(None);
    }
    let mut i: usize = 0;
    while i < u.segments.len()
        invariant
            i <= u.segments@.len(),
            !(u.user_heap.0.vma_bounds.0 <= vma < u.user_heap.0.vma_bounds.1),
            first_segment_with(u.segments@, vma, 0) == first_segment_with(u.segments@, vma, i as int),
        decreases u.segments@.len() - i,
    {
        if u.segments[i].contains_vma(vma) {
            return Some(Some(i));
        }
        i += 1;
    }
    None
}

/// Whether a segment's area can be computed without overflow.
pub open spec fn segment_fits(s: Segment) -> bool {
    &&& s.vaddr % 4096 + s.memsz <= u64::MAX
    &&& s.vaddr <= usize::MAX
    &&& (s.vaddr - s.vaddr % 4096) + (s.vaddr % 4096 + s.memsz + 4095) / 4096 * PAGE_SIZE <= usize::MAX
}

/// The segments of `s` that are loaded or zeroed, in order.
pub open spec fn mapped_segments(s: Seq<Segment>) -> Seq<Segment>
    decreases s.len(),
{
    if s.len() == 0 {
        s
    } else if s[0].source is Null {
        mapped_segments(s.drop_first())
    } else {
        seq![s[0]] + mapped_segments(s.drop_first())
    }
}

/// Whether `b` is the fresh lazily filled area of segment `s`: the whole pages it touches.
pub open spec fn lazy_area_of(b: LazyPageBuffer<Segment>, s: Segment) -> bool {
    let (start, end) = segment_area(s);
    &&& b.source == s
    &&& b.vma_bounds == crate::sched::lazy_buffer::LazyVmaBounds(start, end)
    &&& b.vma_area.vma == start
    &&& b.vma_area.pfn_count == (end - start) / PAGE_SIZE as int
    &&& b.anon_vma@.parent is None
    &&& b.anon_vma@.vma_tree@.len() == 0
}

/// Turns the segments of an image into lazily filled areas, skipping empty ones.
pub fn lazy_segments(segments: Vec<Segment>) -> (r: Vec<LazyPageBuffer<Segment>>)
    requires
        forall|i: int| 0 <= i < segments@.len() ==> segment_fits(#[trigger] segments@[i]),
    ensures
        r@.len() == mapped_segments(segments@).len(),
        forall|i: int| 0 <= i < r@.len() ==> lazy_area_of(#[trigger] r@[i], mapped_segments(segments@)[i]),
        forall|i: int| 0 <= i < r@.len() ==> !((#[trigger] r@[i]).source.source is Null),
{
    let mut result: Vec<LazyPageBuffer<Segment>> = Vec::new();
    let mut segments = segments;
    let ghost all = segments@;
    let ghost mut done: Seq<Segment> = Seq::empty();
    while segments.len() > 0
        invariant
            forall|i: int| 0 <= i < segments@.len() ==> segment_fits(#[trigger] segments@[i]),
            done + mapped_segments(segments@) == mapped_segments(all),
            result@.len() == done.len(),
            forall|i: int| 0 <= i < result@.len() ==> lazy_area_of(#[trigger] result@[i], done[i]),
            forall|i: int| 0 <= i < result@.len() ==> !((#[trigger] result@[i]).source.source is Null),
        decreases segments@.len(),
    {
        let ghost before = segments@;
        let segment = segments.remove(0);
        assert(segments@ =~= before.drop_first());
        assert(segment_fits(segment));
        if !segment.is_null() {
            let virt_addr = (segment.virt_addr() - segment.virt_addr() % 4096) as usize;
            let pages = segment.mem_page_count() as usize;
            let end = virt_addr + pages * PAGE_SIZE;
            result.push(LazyPageBuffer::new(segment, virt_addr, end));
            proof {
                assert(done.push(segment) + mapped_segments(segments@) =~= done + mapped_segments(before));
                done = done.push(segment);
            }
        }
    }
    assert(done + mapped_segments(segments@) =~= done);
    result
}

/// The memory of a task beyond its registers.
pub enum Process {
    Kernel(KernelSpaceProcess),
    User(UserSpaceProcess),
}

impl Process {
    pub fn new_kernel(stack: KernelTaskStack) -> (r: Self)
        ensures
            r matches Process::Kernel(k) && k.kernel_stack == stack,
    {
        Process::Kernel(KernelSpaceProcess { kernel_stack: stack })
    }

    /// A copy for a forked task, with stacks copied to the given addresses. A user process
    /// shares the valid pages of its tables within its areas with the copy's new tables (see
    /// `UserSpaceProcess::fork`).
    pub fn fork(&mut self, user_stack_addr: u64, kernel_stack_addr: u64, metas: &mut Vec<PageMeta>) -> (r: Process)
        requires
            *old(self) matches Process::User(u) ==> u.fds.wf() && frames_known(old(metas)@, u.page_table.pages@)
                && areas_end_in_range(process_areas(u)),
        ensures
            process_fork_of(r, *old(self), user_stack_addr, kernel_stack_addr),
            process_fork_protected(*final(self), *old(self)),
            *old(self) is Kernel ==> final(metas)@ == old(metas)@,
            *old(self) matches Process::User(u) ==> final(metas)@ == forked_metas(
                old(metas)@,
                u.page_table.pages@,
                process_areas(u),
            ),
    {
        match self {
            Process::Kernel(k) => Process::Kernel(k.fork(kernel_stack_addr)),
            Process::User(u) => Process::User(u.fork(user_stack_addr, kernel_stack_addr, metas)),
        }
    }

    /// Replaces the program of a user process: a new stack at `user_stack_addr` with `args` at
    /// its top, the image's segments, and an empty heap. The old heap and then each old segment
    /// drop their use of the frames of the valid pages of the process's tables within their
    /// pages; the process then gets new tables that map the new stack's frames at
    /// `STACK_VIRTUAL_ADDR`. A kernel process is left as it is, with the page metadata.
    pub fn exec(
        &mut self,
        segments: Vec<Segment>,
        args: &[u8],
        user_stack_addr: u64,
        metas: &mut Vec<PageMeta>,
    )
        requires
            args_placeable(args@),
            forall|i: int| 0 <= i < segments@.len() ==> segment_fits(#[trigger] segments@[i]),
            *old(self) matches Process::User(o) ==> areas_ready(old(metas)@, o.page_table.pages@, process_areas(o)),
        ensures
            *old(self) is Kernel ==> *final(self) == *old(self) && final(metas)@ == old(metas)@,
            *old(self) matches Process::User(o) ==> (*final(self) matches Process::User(u) && u.user_stack.addr
                == user_stack_addr && u.user_stack.bytes@ == user_stack_bytes(args@)
                && u.user_heap.0.vma_bounds.0 == DEFAULT_BASE_VMA && u.user_heap.0.vma_bounds.1 == DEFAULT_BASE_VMA
                && u.user_heap.0.vma_area.vma == DEFAULT_BASE_VMA && u.user_heap.0.vma_area.pfn_count == 0
                && u.segments@.len() == mapped_segments(segments@).len()
                && (forall|i: int| 0 <= i < u.segments@.len() ==> lazy_area_of(#[trigger] u.segments@[i], mapped_segments(segments@)[i]))
                && u.kernel_stack == o.kernel_stack && u.fds == o.fds
                && final(metas)@ == released_areas(old(metas)@, o.page_table.pages@, process_areas(o))
                && u.page_table.pages@ == stack_pages(user_stack_addr)),
    {
        match self {
            Process::Kernel(_) => {},
            Process::User(user_process) => {
                let ghost areas = process_areas(*user_process);
                let ghost old_table = user_process.page_table;
                let user_stack = create_user_stack_with_args(args, user_stack_addr);
                let mut page_table = UserPageTable::create_user();
                let stack_pfn = stack_frame(&user_stack);
                page_table.map_page_range(STACK_VIRTUAL_ADDR, stack_pfn, STACK_SIZE / PAGE_SIZE);
                proof {
                    assert(areas.subrange(0, 0) =~= Seq::<VmaAllocatedArea>::empty());
                    assert(areas[0] == user_process.user_heap.0.vma_area);
                }
                user_process.user_heap.release_pages(&user_process.page_table, metas);
                proof {
                    assert(areas.subrange(0, 1).drop_last() =~= areas.subrange(0, 0));
                    assert(areas.subrange(0, 1).last() == areas[0]);
                    assert(released_areas(old(metas)@, user_process.page_table.pages@, areas.subrange(0, 0)) == old(metas)@);
                    assert(metas@ == released_areas(old(metas)@, user_process.page_table.pages@, areas.subrange(0, 1)));
                    lemma_areas_ready_after(old(metas)@, user_process.page_table.pages@, areas, areas[0].vma as int, area_end(areas[0]));
                }
                let mut i: usize = 0;
                while i < user_process.segments.len()
                    invariant
                        i <= user_process.segments@.len(),
                        areas == process_areas(*user_process),
                        areas.len() == user_process.segments@.len() + 1,
                        user_process.page_table == old_table,
                        areas_ready(metas@, old_table.pages@, areas),
                        metas@ == released_areas(old(metas)@, old_table.pages@, areas.subrange(0, i + 1)),
                    decreases user_process.segments@.len() - i,
                {
                    proof {
                        assert(areas[i + 1] == user_process.segments@[i as int].vma_area);
                        assert(areas.subrange(0, i + 2).drop_last() =~= areas.subrange(0, i + 1));
                        lemma_areas_ready_after(metas@, old_table.pages@, areas, areas[i + 1].vma as int, area_end(areas[i + 1]));
                    }
                    user_process.segments[i].release_pages(&user_process.page_table, metas);
                    i += 1;
                }
                proof {
                    assert(areas.subrange(0, i + 1) =~= areas);
                }
                user_process.page_table = page_table;
                let segments = lazy_segments(segments);
                user_process.segments = segments;
                user_process.user_stack = user_stack;
                user_process.user_heap = UserSpaceHeap::new(DEFAULT_BASE_VMA);
            },
        }
    }
}

/// Whether the pages of the segment that program header `h` describes fit the address range.
pub open spec fn header_fits(h: ProgramHeader) -> bool {
    &&& h.vaddr % 4096 + h.memsz <= u64::MAX
    &&& h.vaddr <= usize::MAX
    &&& (h.vaddr - h.vaddr % 4096) + (h.vaddr % 4096 + h.memsz + 4095) / 4096 * PAGE_SIZE <= usize::MAX
}

/// Whether the pages of every segment of the image that `parser` reads fit the address range.
pub open spec fn image_fits(parser: ElfParser) -> bool {
    forall|i: int, h: ProgramHeader|
        0 <= i < parser.header.phnum && #[trigger] h.parsed_from(parser.image(), PROGRAM_HEADER_SIZE * i + parser.header.phoff)
            ==> header_fits(h)
}

/// Whether moving the heap of `u` by `offset` can drop the uses of the valid pages in `pages`
/// that it gives up.
pub open spec fn heap_release_ready(u: UserSpaceProcess, offset: isize, pages: Seq<(usize, usize, bool)>, metas: Seq<PageMeta>) -> bool {
    let end = saturating_offset(u.user_heap.0.vma_bounds.1, offset);
    end < u.user_heap.0.vma_bounds.1 ==> release_ready(metas, pages, end as int, u.user_heap.0.vma_bounds.1 as int)
}

/// The areas whose pages `exec` releases from user process `u`: its heap's, then each
/// segment's.
pub open spec fn process_areas(u: UserSpaceProcess) -> Seq<VmaAllocatedArea> {
    seq![u.user_heap.0.vma_area] + u.segments@.map_values(|b: LazyPageBuffer<Segment>| b.vma_area)
}

/// Whether each area of `areas` ends within the address range and its valid pages in `pages`
/// can drop their uses in `metas`.
pub open spec fn areas_ready(metas: Seq<PageMeta>, pages: Seq<(usize, usize, bool)>, areas: Seq<VmaAllocatedArea>) -> bool {
    forall|k: int| 0 <= k < areas.len() ==> area_end(#[trigger] areas[k]) <= usize::MAX && release_ready(
        metas,
        pages,
        areas[k].vma as int,
        area_end(areas[k]),
    )
}

/// The metadata `metas` after each area of `areas`, in order, drops the uses of its valid
/// pages in `pages`.
pub open spec fn released_areas(metas: Seq<PageMeta>, pages: Seq<(usize, usize, bool)>, areas: Seq<VmaAllocatedArea>) -> Seq<
    PageMeta,
>
    decreases areas.len(),
{
    if areas.len() == 0 {
        metas
    } else {
        released_metas(
            released_areas(metas, pages, areas.drop_last()),
            pages,
            areas.last().vma as int,
            area_end(areas.last()),
        )
    }
}

/// The frame where a stack at kernel virtual address `addr` lies.
pub open spec fn stack_frame_of(addr: u64) -> usize {
    ((addr & 0x7f_ffff_ffffu64) / 4096u64) as usize
}

/// The valid pages of the tables `exec` sets up for a stack at `addr`: its frames, mapped in
/// order from `STACK_VIRTUAL_ADDR` on.
pub open spec fn stack_pages(addr: u64) -> Seq<(usize, usize, bool)> {
    range_pages(STACK_VIRTUAL_ADDR as int, stack_frame_of(addr) as int, (STACK_SIZE / PAGE_SIZE) as int)
}

/// The frame where `stack` lies.
fn stack_frame(stack: &UserTaskStack) -> (r: usize)
    ensures
        r == stack_frame_of(stack.addr),
        r < 0x800_0000,
{
    let phys = stack.phys_addr();
    let a = stack.addr;
    assert((a & 0x7f_ffff_ffffu64) / 4096u64 < 0x800_0000u64) by (bit_vector);
    (phys.0 / 4096) as usize
}

/// Areas ready for release stay ready once the pages of some range dropped their uses.
proof fn lemma_areas_ready_after(
    metas: Seq<PageMeta>,
    pages: Seq<(usize, usize, bool)>,
    areas: Seq<VmaAllocatedArea>,
    lo: int,
    hi: int,
)
    requires
        areas_ready(metas, pages, areas),
    ensures
        areas_ready(released_metas(metas, pages, lo, hi), pages, areas),
{
    assert forall|k: int| 0 <= k < areas.len() implies area_end(#[trigger] areas[k]) <= usize::MAX && release_ready(
        released_metas(metas, pages, lo, hi),
        pages,
        areas[k].vma as int,
        area_end(areas[k]),
    ) by {
        crate::sched::user_pages::lemma_ready_after(metas, pages, lo, hi, areas[k].vma as int, area_end(areas[k]));
    }
}

#[derive(Debug, Clone, Copy, PartialEq, Eq, Structural)]
pub enum TaskState {
    Running,
    Runnable,
    Blocked,
    Done(i32),
}

/// A thread of execution.
pub struct Task {
    pub pid: u32,
    pub state: TaskState,
    pub completion_waiters: WaitQueue,
    pub registers: ExceptionRegisters,
    pub process: Process,
    /// Pids of its children.
    pub children: Vec<u32>,
    /// Pid of its parent; 0 for none.
    pub parent_pid: u32,
}

/// Top of a stack at `addr`.
pub open spec fn stack_top_of(addr: u64) -> int {
    addr + STACK_SIZE
}

impl Task {
    pub open spec fn kernel_stack_addr(&self) -> u64 {
        match self.process {
            Process::Kernel(k) => k.kernel_stack.addr,
            Process::User(u) => u.kernel_stack.addr,
        }
    }

    pub open spec fn stack_addr(&self) -> u64 {
        match self.process {
            Process::Kernel(k) => k.kernel_stack.addr,
            Process::User(u) => u.user_stack.addr,
        }
    }

    /// Stacks are addressed so that their tops fit and are aligned to 16 bytes.
    pub open spec fn stacks_ok(&self) -> bool {
        &&& stack_top_of(self.kernel_stack_addr()) <= u64::MAX
        &&& stack_top_of(self.stack_addr()) <= u64::MAX
    }

    pub fn pid(&self) -> (r: u32)
        ensures
            r == self.pid,
    {
        self.pid
    }

    pub fn parent(&self) -> (r: u32)
        ensures
            r == self.parent_pid,
    {
        self.parent_pid
    }

    pub fn has_parent(&self) -> (r: bool)
        ensures
            r == (self.parent_pid != 0),
    {
        self.parent_pid != 0
    }

    pub fn mark_running(&mut self)
        ensures
            final(self).state == TaskState::Running,
            final(self).pid == old(self).pid,
            final(self).registers == old(self).registers,
            final(self).parent_pid == old(self).parent_pid,
            final(self).children@ == old(self).children@,
    {
        self.state = TaskState::Running;
    }

    /// Hands the task's state to `func`, keeps the state `func` gives back, and returns the rest
    /// of what `func` returns.
    pub fn with_state_locked<R, F: FnOnce(TaskState) -> (TaskState, R)>(&mut self, func: F) -> (r: R)
        requires
            call_requires(func, (old(self).state,)),
        ensures
            exists|s: TaskState| #[trigger] call_ensures(func, (old(self).state,), (s, r)) && final(self).state == s,
            final(self).pid == old(self).pid,
            final(self).registers == old(self).registers,
            final(self).children@ == old(self).children@,
            final(self).parent_pid == old(self).parent_pid,
    {
        let mut state = TaskState::Runnable;
        core::mem::swap(&mut state, &mut self.state);
        let (new_state, r) = func(state);
        self.state = new_state;
        r
    }

    pub fn is_done(&self) -> (r: bool)
        ensures
            r == (self.state is Done),
    {
        matches!(self.state, TaskState::Done(_))
    }

    pub fn is_blocked(&self) -> (r: bool)
        ensures
            r == (self.state is Blocked),
    {
        matches!(self.state, TaskState::Blocked)
    }

    pub fn mark_runnable(&mut self)
        ensures
            final(self).state == TaskState::Runnable,
            final(self).pid == old(self).pid,
            final(self).registers == old(self).registers,
            final(self).parent_pid == old(self).parent_pid,
            final(self).children@ == old(self).children@,
    {
        self.state = TaskState::Runnable;
    }

    pub fn mark_blocked(&mut self)
        ensures
            final(self).state == TaskState::Blocked,
            final(self).pid == old(self).pid,
            final(self).registers == old(self).registers,
            final(self).parent_pid == old(self).parent_pid,
            final(self).children@ == old(self).children@,
    {
        self.state = TaskState::Blocked;
    }

    /// Marks the task done with `code` and hands out the tasks waiting for it, which the
    /// caller makes runnable.
    pub fn mark_done(&mut self, code: i32) -> (r: Vec<u32>)
        ensures
            final(self).state == TaskState::Done(code),
            r@ == old(self).completion_waiters.waiters(),
            final(self).completion_waiters.waiters().len() == 0,
            final(self).pid == old(self).pid,
            final(self).registers == old(self).registers,
            final(self).parent_pid == old(self).parent_pid,
            final(self).children@ == old(self).children@,
    {
        self.state = TaskState::Done(code);
        self.completion_waiters.unblock_all()
    }

    /// Top of the stack the task runs on: the kernel stack of a kernel task, the user stack of
    /// a user task.
    pub fn stack_top(&self) -> (r: u64)
        requires
            self.stacks_ok(),
        ensures
            r == stack_top_of(self.stack_addr()),
    {
        match &self.process {
            Process::Kernel(k) => k.kernel_stack.addr + STACK_SIZE as u64,
            Process::User(u) => u.user_stack.addr + STACK_SIZE as u64,
        }
    }

    pub fn kernel_stack_top(&self) -> (r: u64)
        requires
            self.stacks_ok(),
        ensures
            r == stack_top_of(self.kernel_stack_addr()),
    {
        match &self.process {
            Process::Kernel(k) => k.kernel_stack.addr + STACK_SIZE as u64,
            Process::User(u) => u.kernel_stack.addr + STACK_SIZE as u64,
        }
    }

    pub fn user_fd_table(&self) -> (r: Option<&TaskFdTable>)
        ensures
            self.process is Kernel ==> r is None,
            self.process matches Process::User(u) ==> r == Some(&u.fds),
    {
        match &self.process {
            Process::Kernel(_) => None,
            Process::User(u) => Some(&u.fds),
        }
    }

    pub fn is_user_task(&self) -> (r: bool)
        ensures
            r == (self.process is User),
    {
        match &self.process {
            Process::Kernel(_) => false,
            Process::User(_) => true,
        }
    }

    /// The child with pid `pid`, if the task has one.
    pub fn find_child(&self, pid: u32) -> (r: Option<u32>)
        ensures
            r is Some <==> self.children@.contains(pid),
            r matches Some(c) ==> c == pid,
    {
        let mut i: usize = 0;
        while i < self.children.len()
            invariant
                i <= self.children@.len(),
                forall|k: int| 0 <= k < i ==> self.children@[k] != pid,
            decreases self.children@.len() - i,
        {
            if self.children[i] == pid {
                return Some(pid);
            }
            i += 1;
        }
        None
    }

    /// Forgets every child.
    pub fn kill_children(&mut self)
        ensures
            final(self).children@.len() == 0,
            final(self).pid == old(self).pid,
            final(self).state == old(self).state,
            final(self).registers == old(self).registers,
            final(self).parent_pid == old(self).parent_pid,
    {
        while self.children.len() > 0
            invariant
                self.pid == old(self).pid,
                self.state == old(self).state,
                self.registers == old(self).registers,
                self.parent_pid == old(self).parent_pid,
            decreases self.children@.len(),
        {
            self.children.remove(0);
        }
    }

    /// What to do about a fault at `vma` of a user task: the heap handles it when it holds
    /// the address, else the first segment that holds it.
    pub fn handle_page_fault(&self, fault_type: PageFaultType, vma: usize) -> (r: Result<LazyFaultAction, PageFaultError>)
        requires
            self.process matches Process::User(u) ==> (u.user_heap.0.vma_bounds.0 == u.user_heap.0.vma_area.vma
                && forall|i: int| 0 <= i < u.segments@.len() ==> (#[trigger] u.segments@[i]).vma_bounds.0
                    == u.segments@[i].vma_area.vma),
        ensures
            self.process is Kernel ==> r == Err::<LazyFaultAction, PageFaultError>(PageFaultError::Unhandled),
            self.process matches Process::User(u) ==> r == (if u.user_heap.0.vma_bounds.0 <= vma < u.user_heap.0.vma_bounds.1 {
                fault_action(u.user_heap.0.vma_area, fault_type, vma)
            } else {
                match first_segment_with(u.segments@, vma, 0) {
                    Some(i) => fault_action(u.segments@[i].vma_area, fault_type, vma),
                    None => Err(PageFaultError::Unhandled),
                }
            }),
    {
        match &self.process {
            Process::User(user_process) => {
                if user_process.user_heap.contains_vma(vma) {
                    return user_process.user_heap.0.page_fault(fault_type, vma);
                }
                let mut i: usize = 0;
                while i < user_process.segments.len()
                    invariant
                        i <= user_process.segments@.len(),
                        self.process == Process::User(*user_process),
                        !(user_process.user_heap.0.vma_bounds.0 <= vma < user_process.user_heap.0.vma_bounds.1),
                        forall|k: int| 0 <= k < user_process.segments@.len() ==> (#[trigger] user_process.segments@[k]).vma_bounds.0
                            == user_process.segments@[k].vma_area.vma,
                        forall|k: int| 0 <= k < i ==> !((#[trigger] user_process.segments@[k]).vma_bounds.0 <= vma
                            < user_process.segments@[k].vma_bounds.1),
                        first_segment_with(user_process.segments@, vma, 0) == first_segment_with(
                            user_process.segments@,
                            vma,
                            i as int,
                        ),
                    decreases user_process.segments@.len() - i,
                {
                    if user_process.segments[i].contains_vma(vma) {
                        return user_process.segments[i].page_fault(fault_type, vma);
                    }
                    i += 1;
                }
                Err(PageFaultError::Unhandled)
            },
            Process::Kernel(_) => Err(PageFaultError::Unhandled),
        }
    }

    /// The user tables that map addresses while the task runs: a user task's own; a kernel
    /// task has none beyond the kernel's.
    pub fn bind_pages(&self) -> (r: Option<&UserPageTable>)
        ensures
            self.process is Kernel ==> r is None,
            self.process matches Process::User(u) ==> r == Some(&u.page_table),
    {
        match &self.process {
            Process::Kernel(_) => None,
            Process::User(u) => Some(&u.page_table),
        }
    }

    /// Resolves a fault of type `fault` at `vma` of a user task in the area that holds the
    /// address, the heap or else the first segment that holds it, and its tables (see
    /// `LazyPageBuffer::handle_fault`). A kernel task, or an address no area holds, leaves the
    /// fault unhandled.
    pub fn resolve_page_fault(
        &mut self,
        fault: PageFaultType,
        vma: usize,
        pages: &mut PageAllocator,
        metas: &mut Vec<PageMeta>,
        frame: &mut Vec<u8>,
        current: &[u8],
    ) -> (r: Result<Option<Pfn>, PageFaultError>)
        requires
            old(pages).wf(),
            free_pages_ready(*old(pages), old(metas)@),
            task_fault_ready(*old(self), fault, vma, *old(pages), old(metas)@, old(frame)@, current@),
        ensures
            final(pages).wf(),
            task_fault_resolved(
                *old(self),
                *final(self),
                fault,
                vma,
                *old(pages),
                *final(pages),
                old(metas)@,
                final(metas)@,
                old(frame)@,
                final(frame)@,
                current@,
                r,
            ),
    {
        let area = match &self.process {
            Process::User(u) => fault_area(u, vma),
            Process::Kernel(_) => None,
        };
        match &mut self.process {
            Process::User(user_process) => match area {
                Some(None) => user_process.user_heap.0.handle_fault(
                    fault,
                    vma,
                    pages,
                    metas,
                    &mut user_process.page_table,
                    frame,
                    current,
                ),
                Some(Some(i)) => {
                    let _n = user_process.segments.len();
                    proof {
                        let u0 = old(self).process->User_0;
                        assert(user_process.segments@.len() == u0.segments@.len());
                        assert(!(u0.user_heap.0.vma_bounds.0 <= vma < u0.user_heap.0.vma_bounds.1));
                        let j = first_segment_with(u0.segments@, vma, 0)->Some_0;
                        assert(area == Some(Some(j as usize)) && 0 <= j < u0.segments@.len());
                        assert(j as usize == i);
                        assert(first_segment_with(u0.segments@, vma, 0) == Some(i as int));
                    }
                    user_process.segments[i].handle_fault(
                    fault,
                    vma,
                    pages,
                    metas,
                    &mut user_process.page_table,
                    frame,
                    current,
                    )
                },
                None => Err(PageFaultError::Unhandled),
            },
            Process::Kernel(_) => Err(PageFaultError::Unhandled),
        }
    }

    /// Moves the end of a user task's heap by `offset` and returns the new end; when the heap
    /// shrinks, every valid page of its tables from the new end up to the old one loses its
    /// use of its frame and becomes invalid. A kernel task has no heap and gets 0.
    pub fn offset_heap(&mut self, offset: isize, metas: &mut Vec<PageMeta>) -> (r: Result<usize, ()>)
        requires
            old(self).process matches Process::User(u) ==> heap_release_ready(u, offset, u.page_table.pages@, old(metas)@),
        ensures
            r is Ok,
            old(self).process is Kernel ==> r == Ok::<usize, ()>(0) && final(self).process == old(self).process
                && final(metas)@ == old(metas)@,
            old(self).process matches Process::User(u) ==> (final(self).process matches Process::User(nu) && {
                let h = u.user_heap.0;
                let nh = nu.user_heap.0;
                let end = saturating_offset(h.vma_bounds.1, offset);
                &&& r == Ok::<usize, ()>(end)
                &&& nh.vma_bounds == crate::sched::lazy_buffer::LazyVmaBounds(h.vma_bounds.0, end)
                &&& nh.vma_area.vma == h.vma_area.vma
                &&& nh.vma_area.pfn_count == clamp_count(
                    h.vma_area.pfn_count + pages_up_to(end as int) - pages_up_to(h.vma_bounds.1 as int),
                )
                &&& end < h.vma_bounds.1 ==> final(metas)@ == released_metas(
                    old(metas)@,
                    u.page_table.pages@,
                    end as int,
                    h.vma_bounds.1 as int,
                ) && nu.page_table.pages@ == pages_outside(u.page_table.pages@, end as int, h.vma_bounds.1 as int)
                &&& end >= h.vma_bounds.1 ==> final(metas)@ == old(metas)@ && nu.page_table.pages@ == u.page_table.pages@
                &&& nu.user_stack == u.user_stack
                &&& nu.kernel_stack == u.kernel_stack
                &&& nu.segments == u.segments
                &&& nu.fds == u.fds
            }),
            final(self).pid == old(self).pid,
            final(self).state == old(self).state,
            final(self).registers == old(self).registers,
            final(self).parent_pid == old(self).parent_pid,
            final(self).children == old(self).children,
    {
        match &mut self.process {
            Process::User(user_process) => Ok(user_process.user_heap.modify_end(offset, &mut user_process.page_table, metas)),
            Process::Kernel(_) => Ok(0),
        }
    }

    /// A kernel task with pid `pid` that runs function `f` with `arg` on `stack` through
    /// `wrapper`, which ends the task when `f` returns.
    pub fn kernel_task_from_fn(pid: u32, wrapper: u64, f: u64, arg: u64, stack: KernelTaskStack) -> (r: Task)
        requires
            stack_top_of(stack.addr) <= u64::MAX,
            stack_top_of(stack.addr) % 16 == 0,
        ensures
            r.pid == pid,
            r.state == TaskState::Runnable,
            r.parent_pid == 0,
            r.children@.len() == 0,
            r.process matches Process::Kernel(k) && k.kernel_stack.addr == stack.addr,
            r.registers.elr == wrapper,
            r.registers.gprs@[0] == f,
            r.registers.gprs@[1] == arg,
            r.registers.gprs@[31] == stack_top_of(stack.addr),
            r.registers.spsr == 0b0101,
            r.stacks_ok(),
    {
        let mut task = Task {
            pid,
            state: TaskState::Runnable,
            completion_waiters: WaitQueue::new(),
            registers: ExceptionRegisters::zeroed(),
            process: Process::new_kernel(stack),
            children: Vec::new(),
            parent_pid: 0,
        };
        let top = task.stack_top();
        task.registers.elr = wrapper;
        task.registers.gprs[0] = f;
        task.registers.gprs[1] = arg;
        task.registers.gprs[31] = top;
        task.registers.spsr = 0b0101;
        task
    }

    /// A user task with pid `pid` running the image whose entry is `entry` and whose
    /// segments are `segments`, with fresh stacks and heap and no descriptors; its tables map
    /// the frames of its stack at `STACK_VIRTUAL_ADDR`.
    pub fn load_program(
        pid: u32,
        entry: u64,
        segments: Vec<Segment>,
        user_stack_addr: u64,
        kernel_stack_addr: u64,
    ) -> (r: Task)
        requires
            forall|i: int| 0 <= i < segments@.len() ==> segment_fits(#[trigger] segments@[i]),
            stack_top_of(kernel_stack_addr) <= u64::MAX,
            stack_top_of(user_stack_addr) <= u64::MAX,
            stack_top_of(kernel_stack_addr) % 16 == 0,
        ensures
            r.pid == pid,
            r.state == TaskState::Runnable,
            r.parent_pid == 0,
            r.children@.len() == 0,
            r.process matches Process::User(u) && u.fds.wf() && u.fds.fds@.len() == 0 && u.user_stack.addr
                == user_stack_addr && u.kernel_stack.addr == kernel_stack_addr
                && u.user_heap.0.vma_bounds.0 == DEFAULT_BASE_VMA && u.user_heap.0.vma_bounds.1 == DEFAULT_BASE_VMA
                && u.user_heap.0.vma_area.vma == DEFAULT_BASE_VMA && u.user_heap.0.vma_area.pfn_count == 0
                && u.segments@.len() == mapped_segments(segments@).len()
                && (forall|i: int| 0 <= i < u.segments@.len() ==> lazy_area_of(#[trigger] u.segments@[i], mapped_segments(segments@)[i]))
                && u.page_table.pages@ == stack_pages(user_stack_addr),
            r.registers.elr == entry,
            r.registers.gprs@[31] == stack_top_of(kernel_stack_addr),
            r.registers.sp_el0 == STACK_VIRTUAL_ADDR + STACK_SIZE,
            r.registers.spsr == 0,
            r.stacks_ok(),
    {
        let user_stack = UserTaskStack::new_zeroed(user_stack_addr);
        let mut page_table = UserPageTable::create_user();
        let stack_pfn = stack_frame(&user_stack);
        page_table.map_page_range(STACK_VIRTUAL_ADDR, stack_pfn, STACK_SIZE / PAGE_SIZE);
        let userspace = UserSpaceProcess {
            page_table,
            user_stack,
            user_heap: UserSpaceHeap::new(DEFAULT_BASE_VMA),
            kernel_stack: KernelTaskStack::new_zeroed(kernel_stack_addr),
            segments: lazy_segments(segments),
            fds: TaskFdTable::new(),
        };
        let mut task = Task {
            pid,
            state: TaskState::Runnable,
            completion_waiters: WaitQueue::new(),
            registers: ExceptionRegisters::zeroed(),
            process: Process::User(userspace),
            children: Vec::new(),
            parent_pid: 0,
        };
        let top = task.kernel_stack_top();
        task.registers.elr = entry;
        task.registers.gprs[31] = top;
        task.registers.sp_el0 = STACK_VIRTUAL_ADDR as u64 + STACK_SIZE as u64;
        task.registers.spsr = 0b0000;
        task
    }

    /// A user task with pid `pid` running the image that `parser` reads, from the image's entry
    /// with the image's segments, fresh stacks and heap and no descriptors; its tables map the
    /// frames of its stack at `STACK_VIRTUAL_ADDR`.
    pub fn load_image(pid: u32, parser: &ElfParser, user_stack_addr: u64, kernel_stack_addr: u64) -> (r: Task)
        requires
            parser.headers_readable(),
            image_fits(*parser),
            stack_top_of(kernel_stack_addr) <= u64::MAX,
            stack_top_of(user_stack_addr) <= u64::MAX,
            stack_top_of(kernel_stack_addr) % 16 == 0,
        ensures
            r.pid == pid,
            r.state == TaskState::Runnable,
            r.parent_pid == 0,
            r.children@.len() == 0,
            r.registers.elr == parser.header.entry,
            r.registers.gprs@[31] == stack_top_of(kernel_stack_addr),
            r.registers.sp_el0 == STACK_VIRTUAL_ADDR + STACK_SIZE,
            r.registers.spsr == 0,
            r.stacks_ok(),
            exists|segs: Seq<Segment>|
                #![trigger parser.segments_are(segs)]
                parser.segments_are(segs) && (r.process matches Process::User(u) && u.fds.wf() && u.fds.fds@.len() == 0
                    && u.page_table.pages@ == stack_pages(user_stack_addr)
                    && u.user_stack.addr == user_stack_addr && u.kernel_stack.addr == kernel_stack_addr
                    && u.user_heap.0.vma_bounds.0 == DEFAULT_BASE_VMA && u.user_heap.0.vma_bounds.1 == DEFAULT_BASE_VMA
                    && u.user_heap.0.vma_area.vma == DEFAULT_BASE_VMA && u.user_heap.0.vma_area.pfn_count == 0
                    && u.segments@.len() == mapped_segments(segs).len()
                    && (forall|i: int| 0 <= i < u.segments@.len() ==> lazy_area_of(#[trigger] u.segments@[i], mapped_segments(segs)[i]))),
    {
        let segments = parser.segments();
        let ghost segs = segments@;
        proof {
            assert forall|i: int| 0 <= i < segs.len() implies segment_fits(#[trigger] segs[i]) by {
                assert(parser.describes(i, segs[i]));
                let h = choose|h: ProgramHeader| #[trigger] h.parsed_from(
                    parser.image(),
                    PROGRAM_HEADER_SIZE * i + parser.header.phoff,
                ) && parser.segment_spec(h, segs[i]);
                assert(header_fits(h));
            }
        }
        Task::load_program(pid, parser.entry_vma(), segments, user_stack_addr, kernel_stack_addr)
    }

    /// Makes a child of the task with pid `child_pid`, whose stacks are copied to the given
    /// addresses; the child returns 0 from the call, on its own kernel stack at the same depth.
    /// Records the child and hands it out for the scheduler to run. A user task shares the
    /// valid pages of its tables within its areas with the child's (see
    /// `UserSpaceProcess::fork`).
    pub fn fork_process(
        &mut self,
        child_pid: u32,
        user_stack_addr: u64,
        kernel_stack_addr: u64,
        metas: &mut Vec<PageMeta>,
    ) -> (r: Task)
        requires
            old(self).stacks_ok(),
            old(self).process matches Process::User(u) ==> u.fds.wf() && frames_known(old(metas)@, u.page_table.pages@)
                && areas_end_in_range(process_areas(u)),
            stack_top_of(kernel_stack_addr) <= u64::MAX,
            stack_top_of(user_stack_addr) <= u64::MAX,
            old(self).registers.gprs@[31] <= stack_top_of(old(self).kernel_stack_addr()),
            stack_top_of(old(self).kernel_stack_addr()) - old(self).registers.gprs@[31] <= stack_top_of(kernel_stack_addr),
        ensures
            r.pid == child_pid,
            r.parent_pid == old(self).pid,
            r.state == TaskState::Runnable,
            r.children@.len() == 0,
            r.registers.gprs@[0] == 0,
            r.registers.gprs@[31] == stack_top_of(kernel_stack_addr) - (stack_top_of(old(self).kernel_stack_addr())
                - old(self).registers.gprs@[31]),
            forall|i: int| 1 <= i < 31 ==> r.registers.gprs@[i] == old(self).registers.gprs@[i],
            r.registers.elr == old(self).registers.elr,
            r.registers.spsr == old(self).registers.spsr,
            r.registers.sp_el0 == old(self).registers.sp_el0,
            r.kernel_stack_addr() == kernel_stack_addr,
            r.stacks_ok(),
            process_fork_of(r.process, old(self).process, user_stack_addr, kernel_stack_addr),
            final(self).children@ == old(self).children@.push(child_pid),
            final(self).pid == old(self).pid,
            final(self).state == old(self).state,
            final(self).registers == old(self).registers,
            process_fork_protected(final(self).process, old(self).process),
            final(self).parent_pid == old(self).parent_pid,
            old(self).process is Kernel ==> final(metas)@ == old(metas)@,
            old(self).process matches Process::User(u) ==> final(metas)@ == forked_metas(
                old(metas)@,
                u.page_table.pages@,
                process_areas(u),
            ),
    {
        let mut new_registers = self.registers;
        let new_process = self.process.fork(user_stack_addr, kernel_stack_addr, metas);
        let old_kernel_stack = self.kernel_stack_top();
        let new_kernel_stack = kernel_stack_addr + STACK_SIZE as u64;
        new_registers.gprs[0] = 0;
        new_registers.gprs[31] = new_kernel_stack - (old_kernel_stack - new_registers.gprs[31]);
        let new_task = Task {
            pid: child_pid,
            state: TaskState::Runnable,
            completion_waiters: WaitQueue::new(),
            registers: new_registers,
            process: new_process,
            children: Vec::new(),
            parent_pid: self.pid,
        };
        self.children.push(child_pid);
        new_task
    }

    /// Replaces the program of a user task by the image with entry `entry` and `segments`,
    /// with `args` on its new stack at `user_stack_addr`, and returns the registers it starts
    /// with (the count of arguments and the address of their offsets in the first two). The
    /// old heap and segments drop the uses of their valid pages, and the task gets tables that
    /// map the new stack (see `Process::exec`).
    pub fn exec(
        &mut self,
        entry: u64,
        segments: Vec<Segment>,
        args: &[u8],
        user_stack_addr: u64,
        metas: &mut Vec<PageMeta>,
    ) -> (r: ExceptionRegisters)
        requires
            args_placeable(args@),
            old(self).process matches Process::User(o) ==> areas_ready(old(metas)@, o.page_table.pages@, process_areas(o)),
            forall|i: int| 0 <= i < segments@.len() ==> segment_fits(#[trigger] segments@[i]),
            old(self).registers.gprs@[31] % 16 == 0,
        ensures
            r == final(self).registers,
            r.elr == entry,
            r.sp_el0 == STACK_VIRTUAL_ADDR + STACK_SIZE - args@.len(),
            r.gprs@[0] == (if args@.len() > 0 { le_u64(args@, 0) } else { 0 }),
            r.gprs@[1] == STACK_VIRTUAL_ADDR + STACK_SIZE - args@.len() + 8,
            r.spsr == 0,
            forall|i: int| 2 <= i < 32 ==> r.gprs@[i] == old(self).registers.gprs@[i],
            final(self).pid == old(self).pid,
            final(self).state == old(self).state,
            final(self).parent_pid == old(self).parent_pid,
            final(self).children == old(self).children,
            old(self).process is Kernel ==> final(self).process == old(self).process && final(metas)@ == old(metas)@,
            old(self).process matches Process::User(o) ==> (final(self).process matches Process::User(u)
                && u.user_stack.addr == user_stack_addr && u.user_stack.bytes@ == user_stack_bytes(args@)
                && u.user_heap.0.vma_bounds.0 == DEFAULT_BASE_VMA && u.user_heap.0.vma_bounds.1 == DEFAULT_BASE_VMA
                && u.user_heap.0.vma_area.vma == DEFAULT_BASE_VMA && u.user_heap.0.vma_area.pfn_count == 0
                && u.segments@.len() == mapped_segments(segments@).len()
                && (forall|i: int| 0 <= i < u.segments@.len() ==> lazy_area_of(#[trigger] u.segments@[i], mapped_segments(segments@)[i]))
                && u.kernel_stack == o.kernel_stack && u.fds == o.fds
                && final(metas)@ == released_areas(old(metas)@, o.page_table.pages@, process_areas(o))
                && u.page_table.pages@ == stack_pages(user_stack_addr)),
    {
        let _n = args.len();
        self.process.exec(segments, args, user_stack_addr, metas);
        self.registers.elr = entry;
        self.registers.sp_el0 = STACK_VIRTUAL_ADDR as u64 + STACK_SIZE as u64 - args.len() as u64;
        if args.len() > 0 {
            self.registers.gprs[0] = read_le_u64(args, 0);
        } else {
            self.registers.gprs[0] = 0;
        }
        self.registers.gprs[1] = STACK_VIRTUAL_ADDR as u64 + STACK_SIZE as u64 - args.len() as u64 + 8;
        self.registers.spsr = 0b0000;
        self.registers
    }
}

/// An open file that descriptors share: a file of the file system, or an object that only
/// offers inode operations, each with the offset reached so far.
#[derive(Debug, Clone, Copy, PartialEq, Eq, Structural)]
pub enum TaskFdInner {
    File { inode: usize, offset: usize },
    AnonFile { inode_ops: usize, offset: usize },
}

/// The file-system inode that open file `f` names, if it names one.
pub open spec fn inode_of(f: TaskFdInner) -> Option<usize> {
    match f {
        TaskFdInner::File { inode, .. } => Some(inode),
        TaskFdInner::AnonFile { .. } => None,
    }
}

/// Open file `f` with its offset moved by `by`, wrapping.
pub open spec fn moved_by(f: TaskFdInner, by: usize) -> TaskFdInner {
    match f {
        TaskFdInner::File { inode, offset } => TaskFdInner::File { inode, offset: offset.wrapping_add(by) },
        TaskFdInner::AnonFile { inode_ops, offset } => TaskFdInner::AnonFile {
            inode_ops,
            offset: offset.wrapping_add(by),
        },
    }
}

/// Whether `after` is `before` less its first entry under `key`, or `before` itself when no
/// entry has that key.
pub open spec fn without_key(before: Seq<(usize, TaskFd)>, after: Seq<(usize, TaskFd)>, key: usize) -> bool {
    ||| !has_key(before, key) && after == before
    ||| exists|k: int| 0 <= k < before.len() && #[trigger] before[k].0 == key && after == before.remove(k)
}

/// A descriptor number and the open file it names, by position in its table's files.
#[derive(Debug, Clone, Copy, PartialEq, Eq, Structural)]
pub struct TaskFd {
    pub descriptor: usize,
    pub inner: usize,
}

impl TaskFd {
    /// Descriptor `descriptor` for the same open file, sharing its offset.
    pub fn dup(&self, descriptor: usize) -> (r: Self)
        ensures
            r == (TaskFd { descriptor, inner: self.inner }),
    {
        TaskFd { descriptor, inner: self.inner }
    }

    /// The same descriptor for a forked table: a copy of its open file, with the offset it
    /// has now, goes to the end of `files`.
    pub fn fork(&self, from: &Vec<TaskFdInner>, files: &mut Vec<TaskFdInner>) -> (r: TaskFd)
        requires
            self.inner < from@.len(),
        ensures
            final(files)@ == old(files)@.push(from@[self.inner as int]),
            r == (TaskFd { descriptor: self.descriptor, inner: old(files)@.len() as usize }),
    {
        let at = files.len();
        files.push(from[self.inner]);
        TaskFd { descriptor: self.descriptor, inner: at }
    }

    pub fn descriptor(&self) -> (r: usize)
        ensures
            r == self.descriptor,
    {
        self.descriptor
    }

    /// The file-system inode that this descriptor's open file, among `files`, names, if it
    /// names one.
    pub fn inode(&self, files: &Vec<TaskFdInner>) -> (r: Option<usize>)
        requires
            self.inner < files@.len(),
        ensures
            r == inode_of(files@[self.inner as int]),
    {
        match files[self.inner] {
            TaskFdInner::File { inode, .. } => Some(inode),
            TaskFdInner::AnonFile { .. } => None,
        }
    }
}

/// The descriptors of a process.
pub struct TaskFdTable {
    pub fds: RbTree<TaskFd>,
    pub files: Vec<TaskFdInner>,
    pub next_fd_number: usize,
}

impl TaskFdTable {
    pub open spec fn wf(&self) -> bool {
        &&& self.fds.wf()
        &&& forall|i: int| 0 <= i < self.fds@.len() ==> (#[trigger] self.fds@[i]).1.descriptor == self.fds@[i].0
            && self.fds@[i].1.inner < self.files@.len()
    }

    /// No descriptors; the first one handed out is 11.
    pub fn new() -> (r: Self)
        ensures
            r.wf(),
            r.fds@.len() == 0,
            r.files@.len() == 0,
            r.next_fd_number == 11,
    {
        TaskFdTable { fds: RbTree::new(), files: Vec::new(), next_fd_number: 11 }
    }

    /// The open file of descriptor `descriptor`, if there is one.
    pub fn open_file(&self, descriptor: usize) -> (r: Option<TaskFdInner>)
        requires
            self.wf(),
        ensures
            r is None <==> !has_key(self.fds@, descriptor),
            r matches Some(f) ==> exists|i: int| 0 <= i < self.fds@.len() && (#[trigger] self.fds@[i]).0 == descriptor
                && f == self.files@[self.fds@[i].1.inner as int],
    {
        match self.fds.find(descriptor) {
            Some(fd) => {
                proof {
                    let i = choose|i: int| 0 <= i < self.fds@.len() && #[trigger] self.fds@[i] == (descriptor, *fd);
                    assert(self.fds@[i].0 == descriptor);
                }
                Some(self.files[fd.inner])
            },
            None => None,
        }
    }

    /// The inode of descriptor `descriptor`, if it names a file of the file system.
    pub fn find_inode(&self, descriptor: usize) -> (r: Option<usize>)
        requires
            self.wf(),
        ensures
            !has_key(self.fds@, descriptor) ==> r is None,
            has_key(self.fds@, descriptor) ==> exists|i: int| 0 <= i < self.fds@.len() && (#[trigger] self.fds@[i]).0
                == descriptor && r == inode_of(self.files@[self.fds@[i].1.inner as int]),
    {
        let f = self.open_file(descriptor);
        proof {
            if has_key(self.fds@, descriptor) {
                let i = choose|i: int| 0 <= i < self.fds@.len() && (#[trigger] self.fds@[i]).0 == descriptor
                    && f == Some(self.files@[self.fds@[i].1.inner as int]);
                assert(self.fds@[i].0 == descriptor);
            }
        }
        match f {
            Some(TaskFdInner::File { inode, offset: _ }) => Some(inode),
            _ => None,
        }
    }

    /// Opens `inner` under the next descriptor number, which it returns; the number wraps as
    /// the atomic counter does.
    fn add_fd(&mut self, inner: TaskFdInner) -> (r: usize)
        requires
            old(self).wf(),
            old(self).files@.len() < usize::MAX,
        ensures
            final(self).wf(),
            r == old(self).next_fd_number,
            final(self).next_fd_number == old(self).next_fd_number.wrapping_add(1),
            final(self).files@ == old(self).files@.push(inner),
            exists|pos: int| 0 <= pos <= old(self).fds@.len() && final(self).fds@ == #[trigger] old(self).fds@.insert(
                pos,
                (r, TaskFd { descriptor: r, inner: old(self).files@.len() as usize }),
            ),
    {
        let descriptor = self.next_fd_number;
        self.next_fd_number = self.next_fd_number.wrapping_add(1);
        let at = self.files.len();
        self.files.push(inner);
        let ghost before = self.fds@;
        self.fds.insert(descriptor, TaskFd { descriptor, inner: at });
        proof {
            let pos = choose|pos: int| 0 <= pos <= before.len() && (forall|i: int| 0 <= i < pos ==> #[trigger] before[i].0 <= descriptor)
                && (forall|i: int| pos <= i < before.len() ==> #[trigger] before[i].0 > descriptor)
                && self.fds@ == #[trigger] before.insert(pos, (descriptor, TaskFd { descriptor, inner: at }));
            assert forall|i: int| 0 <= i < self.fds@.len() implies (#[trigger] self.fds@[i]).1.descriptor == self.fds@[i].0
                && self.fds@[i].1.inner < self.files@.len() by {
                if i < pos {
                    assert(self.fds@[i] == before[i]);
                } else if i > pos {
                    assert(self.fds@[i] == before[i - 1]);
                }
            }
        }
        descriptor
    }

    /// Opens file-system inode `inode` at offset 0 under a new descriptor, which it returns.
    pub fn add_file_fd(&mut self, inode: usize) -> (r: usize)
        requires
            old(self).wf(),
            old(self).files@.len() < usize::MAX,
        ensures
            final(self).wf(),
            r == old(self).next_fd_number,
            final(self).next_fd_number == old(self).next_fd_number.wrapping_add(1),
            final(self).files@ == old(self).files@.push(TaskFdInner::File { inode, offset: 0 }),
            exists|pos: int| 0 <= pos <= old(self).fds@.len() && final(self).fds@ == #[trigger] old(self).fds@.insert(
                pos,
                (r, TaskFd { descriptor: r, inner: old(self).files@.len() as usize }),
            ),
            has_key(final(self).fds@, r),
            final(self).fds@.len() == old(self).fds@.len() + 1,
    {
        let r = self.add_fd(TaskFdInner::File { inode, offset: 0 });
        proof {
            let pos = choose|pos: int| 0 <= pos <= old(self).fds@.len() && self.fds@ == #[trigger] old(self).fds@.insert(
                pos,
                (r, TaskFd { descriptor: r, inner: old(self).files@.len() as usize }),
            );
            assert(self.fds@[pos].0 == r);
        }
        r
    }

    /// Opens object `inode_ops` at offset 0 under a new descriptor, which it returns.
    pub fn add_anon_file_fd(&mut self, inode_ops: usize) -> (r: usize)
        requires
            old(self).wf(),
            old(self).files@.len() < usize::MAX,
        ensures
            final(self).wf(),
            r == old(self).next_fd_number,
            final(self).next_fd_number == old(self).next_fd_number.wrapping_add(1),
            final(self).files@ == old(self).files@.push(TaskFdInner::AnonFile { inode_ops, offset: 0 }),
            exists|pos: int| 0 <= pos <= old(self).fds@.len() && final(self).fds@ == #[trigger] old(self).fds@.insert(
                pos,
                (r, TaskFd { descriptor: r, inner: old(self).files@.len() as usize }),
            ),
            has_key(final(self).fds@, r),
            final(self).fds@.len() == old(self).fds@.len() + 1,
    {
        let r = self.add_fd(TaskFdInner::AnonFile { inode_ops, offset: 0 });
        proof {
            let pos = choose|pos: int| 0 <= pos <= old(self).fds@.len() && self.fds@ == #[trigger] old(self).fds@.insert(
                pos,
                (r, TaskFd { descriptor: r, inner: old(self).files@.len() as usize }),
            );
            assert(self.fds@[pos].0 == r);
        }
        r
    }

    /// Makes descriptor `dst` name the open file of `src`, sharing its offset, after closing
    /// `dst`; fails when `src` is not open.
    pub fn dup_fd(&mut self, dst: u32, src: u32) -> (r: Result<(), ()>)
        requires
            old(self).wf(),
        ensures
            final(self).wf(),
            r is Err <==> !has_key(old(self).fds@, src as usize),
            r is Err ==> final(self).fds@ == old(self).fds@,
            final(self).files@ == old(self).files@,
            final(self).next_fd_number == old(self).next_fd_number,
            r is Ok ==> exists|i: int, j: int| 0 <= i < old(self).fds@.len() && 0 <= j < final(self).fds@.len()
                && (#[trigger] old(self).fds@[i]).0 == src as usize && (#[trigger] final(self).fds@[j]).0 == dst as usize
                && final(self).fds@[j].1.inner == old(self).fds@[i].1.inner,
            r is Ok ==> exists|i: int, mid: Seq<(usize, TaskFd)>, pos: int|
                #![trigger old(self).fds@[i], mid.insert(pos, (dst as usize, TaskFd { descriptor: dst as usize, inner: old(self).fds@[i].1.inner }))]
                0 <= i < old(self).fds@.len() && old(self).fds@[i].0 == src as usize
                && without_key(old(self).fds@, mid, dst as usize) && 0 <= pos <= mid.len()
                && final(self).fds@ == mid.insert(pos, (dst as usize, TaskFd { descriptor: dst as usize, inner: old(self).fds@[i].1.inner })),
    {
        let found = match self.fds.find(src as usize) {
            Some(fd) => *fd,
            None => return Err(()),
        };
        proof {
            let i = choose|i: int| 0 <= i < self.fds@.len() && #[trigger] self.fds@[i] == (src as usize, found);
            assert(old(self).fds@[i].0 == src as usize);
        }
        let ghost i0 = choose|i: int| 0 <= i < self.fds@.len() && #[trigger] self.fds@[i] == (src as usize, found);
        let ghost before = self.fds@;
        let _ = self.fds.remove_key(dst as usize);
        proof {
            assert forall|i: int| 0 <= i < self.fds@.len() implies (#[trigger] self.fds@[i]).1.descriptor == self.fds@[i].0
                && self.fds@[i].1.inner < self.files@.len() by {
                assert(exists|k: int| 0 <= k < before.len() && before[k] == self.fds@[i]) by {
                    if self.fds@ == before {
                        assert(before[i] == self.fds@[i]);
                    } else {
                        let k0 = choose|k: int| 0 <= k < before.len() && #[trigger] before[k].0 == dst as usize
                            && self.fds@ == before.remove(k);
                        if i < k0 {
                            assert(before[i] == self.fds@[i]);
                        } else {
                            assert(before[i + 1] == self.fds@[i]);
                        }
                    }
                }
            }
        }
        let ghost middle = self.fds@;
        let new_fd = found.dup(dst as usize);
        self.fds.insert(dst as usize, new_fd);
        proof {
            let pos = choose|pos: int| 0 <= pos <= middle.len() && (forall|i: int| 0 <= i < pos ==> #[trigger] middle[i].0 <= dst as usize)
                && (forall|i: int| pos <= i < middle.len() ==> #[trigger] middle[i].0 > dst as usize)
                && self.fds@ == #[trigger] middle.insert(pos, (dst as usize, new_fd));
            assert forall|i: int| 0 <= i < self.fds@.len() implies (#[trigger] self.fds@[i]).1.descriptor == self.fds@[i].0
                && self.fds@[i].1.inner < self.files@.len() by {
                if i < pos {
                    assert(self.fds@[i] == middle[i]);
                } else if i > pos {
                    assert(self.fds@[i] == middle[i - 1]);
                }
            }
            assert(self.fds@[pos] == (dst as usize, new_fd));
            assert(old(self).fds@[i0].0 == src as usize);
            assert(without_key(before, middle, dst as usize));
            assert(self.fds@ == middle.insert(pos, (dst as usize, TaskFd { descriptor: dst as usize, inner: old(self).fds@[i0].1.inner })));
        }
        Ok(())
    }

    /// Moves the offset of the open file of `descriptor` by `by`, wrapping as the atomic
    /// offset does; every descriptor of that open file sees it.
    pub fn advance_offset(&mut self, descriptor: usize, by: usize)
        requires
            old(self).wf(),
        ensures
            final(self).wf(),
            final(self).fds@ == old(self).fds@,
            final(self).next_fd_number == old(self).next_fd_number,
            final(self).files@.len() == old(self).files@.len(),
            !has_key(old(self).fds@, descriptor) ==> final(self).files@ == old(self).files@,
            has_key(old(self).fds@, descriptor) ==> exists|i: int| 0 <= i < old(self).fds@.len()
                && (#[trigger] old(self).fds@[i]).0 == descriptor && final(self).files@ == old(self).files@.update(
                old(self).fds@[i].1.inner as int,
                moved_by(old(self).files@[old(self).fds@[i].1.inner as int], by),
            ),
    {
        match self.fds.find(descriptor) {
            Some(fd) => {
                let at = fd.inner;
                let ghost i = choose|i: int| 0 <= i < self.fds@.len() && #[trigger] self.fds@[i] == (descriptor, *fd);
                proof {
                    assert(self.fds@[i].1.inner < self.files@.len());
                }
                let moved = match self.files[at] {
                    TaskFdInner::File { inode, offset } => TaskFdInner::File { inode, offset: offset.wrapping_add(by) },
                    TaskFdInner::AnonFile { inode_ops, offset } => TaskFdInner::AnonFile {
                        inode_ops,
                        offset: offset.wrapping_add(by),
                    },
                };
                self.files.set(at, moved);
                assert(old(self).fds@[i].0 == descriptor);
            },
            None => {},
        }
    }

    /// Closes descriptor `descriptor`.
    pub fn close(&mut self, descriptor: usize)
        requires
            old(self).wf(),
        ensures
            final(self).wf(),
            final(self).files@ == old(self).files@,
            final(self).next_fd_number == old(self).next_fd_number,
            !has_key(old(self).fds@, descriptor) ==> final(self).fds@ == old(self).fds@,
            has_key(old(self).fds@, descriptor) ==> final(self).fds@.len() == old(self).fds@.len() - 1,
            has_key(old(self).fds@, descriptor) ==> exists|k: int|
                0 <= k < old(self).fds@.len() && (#[trigger] old(self).fds@[k]).0 == descriptor && final(self).fds@ == old(
                    self,
                ).fds@.remove(k),
            forall|i: int|
                0 <= i < old(self).fds@.len() && (#[trigger] old(self).fds@[i]).0 != descriptor ==> final(self).fds@.contains(
                    old(self).fds@[i],
                ),
    {
        let ghost before = self.fds@;
        let _ = self.fds.remove_key(descriptor);
        proof {
            assert forall|i: int| 0 <= i < self.fds@.len() implies (#[trigger] self.fds@[i]).1.descriptor == self.fds@[i].0
                && self.fds@[i].1.inner < self.files@.len() by {
                if self.fds@ != before {
                    let k0 = choose|k: int| 0 <= k < before.len() && #[trigger] before[k].0 == descriptor
                        && self.fds@ == before.remove(k);
                    if i < k0 {
                        assert(before[i] == self.fds@[i]);
                    } else {
                        assert(before[i + 1] == self.fds@[i]);
                    }
                }
            }
            assert forall|i: int| 0 <= i < before.len() && (#[trigger] before[i]).0 != descriptor implies self.fds@.contains(
                before[i],
            ) by {
                if self.fds@ != before {
                    let k0 = choose|k: int| 0 <= k < before.len() && #[trigger] before[k].0 == descriptor
                        && self.fds@ == before.remove(k);
                    if i < k0 {
                        assert(self.fds@[i] == before[i]);
                    } else {
                        assert(i != k0);
                        assert(self.fds@[i - 1] == before[i]);
                    }
                } else {
                    assert(self.fds@[i] == before[i]);
                }
            }
        }
    }

    /// The table of a forked process: the same descriptors, each with its own copy of its
    /// open file, so that offsets move apart from here on.
    pub fn fork(&self) -> (r: TaskFdTable)
        requires
            self.wf(),
        ensures
            r.wf(),
            r.next_fd_number == self.next_fd_number,
            r.fds@.len() == self.fds@.len(),
            r.files@.len() == self.fds@.len(),
            forall|i: int| 0 <= i < self.fds@.len() ==> (#[trigger] r.fds@[i]).0 == self.fds@[i].0 && r.fds@[i].1.inner == i
                && r.files@[i] == self.files@[self.fds@[i].1.inner as int],
    {
        let mut entries: Vec<(usize, TaskFd)> = Vec::new();
        let mut files: Vec<TaskFdInner> = Vec::new();
        let mut i: usize = 0;
        while i < self.fds.entries.len()
            invariant
                self.wf(),
                i <= self.fds@.len(),
                entries@.len() == i,
                files@.len() == i,
                forall|k: int| 0 <= k < i ==> (#[trigger] entries@[k]).0 == self.fds@[k].0 && entries@[k].1.inner == k
                    && entries@[k].1.descriptor == self.fds@[k].0 && files@[k] == self.files@[self.fds@[k].1.inner as int],
            decreases self.fds@.len() - i,
        {
            let (key, fd) = &self.fds.entries[i];
            let new_fd = fd.fork(&self.files, &mut files);
            entries.push((*key, new_fd));
            i += 1;
        }
        let new_fds = RbTree { entries };
        assert(new_fds.wf()) by {
            assert forall|a: int, b: int| 0 <= a < b < new_fds@.len() implies new_fds@[a].0 <= new_fds@[b].0 by {
                assert(self.fds@[a].0 <= self.fds@[b].0);
            }
        }
        TaskFdTable { fds: new_fds, files, next_fd_number: self.next_fd_number }
    }
}

/// After `dup_fd`, the new descriptor and the old one name the same open file, so an offset
/// moved through one is the offset seen through the other.
pub proof fn lemma_dup_shares_offset(table: TaskFdTable, i: int, j: int)
    requires
        table.wf(),
        0 <= i < table.fds@.len(),
        0 <= j < table.fds@.len(),
        table.fds@[i].1.inner == table.fds@[j].1.inner,
    ensures
        table.files@[table.fds@[i].1.inner as int] == table.files@[table.fds@[j].1.inner as int],
{
}

} // verus!

verus! {

use crate::subsystem::fs::inode::InodeOperations;

impl TaskFdTable {
    /// Reads through descriptor `descriptor` from `target`, the object its open file names,
    /// at the file's offset, which then moves past the bytes read. Returns their count, or -1
    /// when the descriptor is not open or the read fails.
    pub fn read<I: InodeOperations>(&mut self, descriptor: usize, target: &I, buf: &mut Vec<u8>) -> (r: isize)
        requires
            old(self).wf(),
            old(buf)@.len() <= isize::MAX,
        ensures
            final(self).wf(),
            final(self).fds@ == old(self).fds@,
            final(self).next_fd_number == old(self).next_fd_number,
            final(buf)@.len() == old(buf)@.len(),
            !has_key(old(self).fds@, descriptor) ==> r == -1 && final(self).files@ == old(self).files@
                && final(buf)@ == old(buf)@,
            r == -1 ==> final(self).files@ == old(self).files@,
            has_key(old(self).fds@, descriptor) && r != -1 ==> 0 <= r <= old(buf)@.len() && exists|i: int|
                0 <= i < old(self).fds@.len() && (#[trigger] old(self).fds@[i]).0 == descriptor
                    && final(self).files@ == old(self).files@.update(
                    old(self).fds@[i].1.inner as int,
                    moved_by(old(self).files@[old(self).fds@[i].1.inner as int], r as usize),
                ),
    {
        let file = match self.open_file(descriptor) {
            Some(f) => f,
            None => return -1,
        };
        let offset = match file {
            TaskFdInner::File { inode: _, offset } => offset,
            TaskFdInner::AnonFile { inode_ops: _, offset } => offset,
        };
        match target.read(offset as u64, buf) {
            Ok(n) => {
                self.advance_offset(descriptor, n);
                n as isize
            },
            Err(_) => -1,
        }
    }

    /// Writes through descriptor `descriptor` to `target`, the object its open file names, at
    /// the file's offset, which then moves past the bytes written. Returns their count, or -1
    /// when the descriptor is not open or the write fails.
    pub fn write<I: InodeOperations>(&mut self, descriptor: usize, target: &mut I, buf: &[u8]) -> (r: isize)
        requires
            old(self).wf(),
            buf@.len() <= isize::MAX,
        ensures
            final(self).wf(),
            final(self).fds@ == old(self).fds@,
            final(self).next_fd_number == old(self).next_fd_number,
            !has_key(old(self).fds@, descriptor) ==> r == -1 && final(self).files@ == old(self).files@,
            r == -1 ==> final(self).files@ == old(self).files@,
            has_key(old(self).fds@, descriptor) && r != -1 ==> 0 <= r <= buf@.len() && exists|i: int|
                0 <= i < old(self).fds@.len() && (#[trigger] old(self).fds@[i]).0 == descriptor
                    && final(self).files@ == old(self).files@.update(
                    old(self).fds@[i].1.inner as int,
                    moved_by(old(self).files@[old(self).fds@[i].1.inner as int], r as usize),
                ),
    {
        let file = match self.open_file(descriptor) {
            Some(f) => f,
            None => return -1,
        };
        let offset = match file {
            TaskFdInner::File { inode: _, offset } => offset,
            TaskFdInner::AnonFile { inode_ops: _, offset } => offset,
        };
        match target.write(offset as u64, buf) {
            Ok(n) => {
                self.advance_offset(descriptor, n);
                n as isize
            },
            Err(_) => -1,
        }
    }
}

} // verus!
