pub mod fault;
pub mod meta;

use vstd::prelude::*;

verus! {

/// Bit 10: access flag.
pub const AF_OFFSET: u64 = 10;
pub const AF_MASK: u64 = 0x400;

/// Bits 4:2: index into the memory attribute register.
pub const ATTR_INDX_OFFSET: u64 = 2;
pub const ATTR_INDX_MASK: u64 = 0x1c;

/// Bits 47:12: output address.
pub const ADDR_MASK: u64 = 0x0000fffffffff000;

pub const NUM_DESCRIPTORS_IN_PAGE: usize = 512;

/// Lowest virtual address of the kernel half, which the kernel tables translate.
pub const KERNEL_START_VIRT_ADDR: u64 = !0x7fffffffff;

/// Level of a translation table, from the one that maps the largest regions down.
#[derive(Debug, Clone, Copy, PartialEq, Eq, Structural)]
pub enum PageLayer {
    First,
    Second,
    Third,
}

pub open spec fn next_layer_spec(layer: PageLayer) -> PageLayer {
    match layer {
        PageLayer::First => PageLayer::Second,
        PageLayer::Second => PageLayer::Third,
        PageLayer::Third => PageLayer::Third,
    }
}

pub open spec fn region_size_spec(layer: PageLayer) -> int {
    match layer {
        PageLayer::First => 0x4000_0000int,
        PageLayer::Second => 0x20_0000int,
        PageLayer::Third => 4096int,
    }
}

impl PageLayer {
    /// The level below this one; the lowest stays where it is.
    pub fn next_layer(&self) -> (r: Self)
        ensures
            r == next_layer_spec(*self),
    {
        match self {
            PageLayer::First => PageLayer::Second,
            PageLayer::Second => PageLayer::Third,
            PageLayer::Third => PageLayer::Third,
        }
    }

    pub fn is_lowest_layer(&self) -> (r: bool)
        ensures
            r == (*self is Third),
    {
        matches!(self, PageLayer::Third)
    }

    /// Size of the region that one descriptor of this level covers.
    pub fn get_region_size(&self) -> (r: usize)
        ensures
            r == region_size_spec(*self),
    {
        match self {
            PageLayer::First => 1024 * 1024 * 1024,
            PageLayer::Second => 2 * 1024 * 1024,
            PageLayer::Third => 4096,
        }
    }
}

/// `bits` with the bits of `mask` set when `on`, cleared otherwise.
pub open spec fn with_flag(bits: u64, mask: u64, on: bool) -> u64 {
    if on {
        bits | mask
    } else {
        bits & !mask
    }
}

/// `bits` with its output address replaced by that of `addr`.
pub open spec fn with_phys_address(bits: u64, addr: u64) -> u64 {
    (bits & !0x0000fffffffff000u64) | (0x0000fffffffff000u64 & addr)
}

/// A descriptor of a translation table, as the hardware reads it.
#[derive(Debug, Clone, Copy, PartialEq, Eq, Structural)]
pub struct ArmPageDescriptor(pub u64);

impl ArmPageDescriptor {
    /// A valid descriptor with every other field zero.
    pub fn new() -> (r: Self)
        ensures
            r.0 == 1,
    {
        Self(0x1)
    }

    /// Whether the descriptor points to a table or a page rather than a block.
    pub fn is_page_descriptor(&self) -> (r: bool)
        ensures
            r == (self.0 & 2 != 0),
    {
        (self.0 & 0b10) != 0
    }

    pub fn set_page_descriptor(&mut self, descriptor_type: bool)
        ensures
            final(self).0 == with_flag(old(self).0, 2, descriptor_type),
    {
        let x = self.0;
        assert((x & !2u64) | (1u64 << 1u64) == x | 2u64 && (x & !2u64) | (0u64 << 1u64) == x & !2u64) by (bit_vector);
        self.0 &= !(0b10);
        self.0 |= (descriptor_type as u64) << 1;
    }

    pub fn valid(&self) -> (r: bool)
        ensures
            r == (self.0 & 1 != 0),
    {
        (self.0 & 0b1) != 0
    }

    pub fn set_valid(&mut self, valid: bool)
        ensures
            final(self).0 == with_flag(old(self).0, 1, valid),
    {
        let x = self.0;
        assert((x & !1u64) | 1u64 == x | 1u64 && (x & !1u64) | 0u64 == x & !1u64) by (bit_vector);
        self.0 &= !0b1;
        self.0 |= valid as u64;
    }

    pub fn af(&self) -> (r: bool)
        ensures
            r == (self.0 & AF_MASK != 0),
    {
        (self.0 & AF_MASK) != 0
    }

    pub fn set_af(&mut self, af: bool)
        ensures
            final(self).0 == with_flag(old(self).0, AF_MASK, af),
    {
        let x = self.0;
        assert((x & !0x400u64) | (1u64 << 10u64) == x | 0x400u64 && (x & !0x400u64) | (0u64 << 10u64) == x & !0x400u64)
            by (bit_vector);
        self.0 &= !AF_MASK;
        self.0 |= (af as u64) << AF_OFFSET;
    }

    pub fn set_phys_address(&mut self, addr: u64)
        ensures
            final(self).0 == with_phys_address(old(self).0, addr),
    {
        self.0 &= !ADDR_MASK;
        self.0 |= ADDR_MASK & addr;
    }

    pub fn get_phys_address(&self) -> (r: u64)
        ensures
            r == self.0 & ADDR_MASK,
    {
        self.0 & ADDR_MASK
    }

    pub fn get_attr_group(&self) -> (r: u64)
        ensures
            r == (self.0 & ATTR_INDX_MASK) >> ATTR_INDX_OFFSET,
    {
        (self.0 & ATTR_INDX_MASK) >> ATTR_INDX_OFFSET
    }

    /// Clears the attribute index and ors in `group` shifted into place and masked with the
    /// field's offset, so that no bit of `group` arrives.
    pub fn set_attr_group(&mut self, group: u64)
        ensures
            final(self).0 == (old(self).0 & !ATTR_INDX_MASK) | ((group << ATTR_INDX_OFFSET) & ATTR_INDX_OFFSET),
    {
        self.0 &= !ATTR_INDX_MASK;
        self.0 |= (group << ATTR_INDX_OFFSET) & ATTR_INDX_OFFSET;
    }
}

/// Setting one of the valid, table and access flags gives it the value set and keeps every
/// other bit of the descriptor.
pub proof fn lemma_flag_update(bits: u64, mask: u64, on: bool)
    requires
        mask == 1 || mask == 2 || mask == 0x400,
    ensures
        (with_flag(bits, mask, on) & mask != 0) == on,
        with_flag(bits, mask, on) & !mask == bits & !mask,
{
    assert(mask == 1u64 || mask == 2u64 || mask == 0x400u64 ==> ((with_flag(bits, mask, on) & mask != 0u64) == on
        && with_flag(bits, mask, on) & !mask == bits & !mask)) by (bit_vector);
}

/// Setting the output address makes it read back masked to bits 47:12 and keeps every other
/// bit of the descriptor.
pub proof fn lemma_phys_address_update(bits: u64, addr: u64)
    ensures
        with_phys_address(bits, addr) & ADDR_MASK == addr & ADDR_MASK,
        with_phys_address(bits, addr) & !ADDR_MASK == bits & !ADDR_MASK,
{
    assert(with_phys_address(bits, addr) & 0x0000fffffffff000u64 == addr & 0x0000fffffffff000u64
        && with_phys_address(bits, addr) & !0x0000fffffffff000u64 == bits & !0x0000fffffffff000u64) by (bit_vector);
}

/// Setting the attribute index leaves it reading zero whatever group was asked for, and keeps
/// every other bit of the descriptor.
pub proof fn lemma_attr_group_update(bits: u64, group: u64)
    ensures
        ((((bits & !ATTR_INDX_MASK) | ((group << ATTR_INDX_OFFSET) & ATTR_INDX_OFFSET)) & ATTR_INDX_MASK)
            >> ATTR_INDX_OFFSET) == 0,
        ((bits & !ATTR_INDX_MASK) | ((group << ATTR_INDX_OFFSET) & ATTR_INDX_OFFSET)) & !ATTR_INDX_MASK
            == bits & !ATTR_INDX_MASK,
{
    assert(((((bits & !0x1cu64) | ((group << 2u64) & 2u64)) & 0x1cu64) >> 2u64) == 0u64
        && ((bits & !0x1cu64) | ((group << 2u64) & 2u64)) & !0x1cu64 == bits & !0x1cu64) by (bit_vector);
}

/// The descriptor that a fresh table entry gets: output address `addr`, accessed, page or
/// table entry when `page`, valid; every other bit zero.
pub open spec fn fresh_entry(addr: u64, page: bool) -> u64 {
    with_flag(with_flag(with_flag(with_phys_address(0, addr), AF_MASK, true), 2, page), 1, true)
}

/// One translation table: its descriptors and the virtual address at which it lives.
pub struct ArmDescriptorGroup {
    pub descriptors: Vec<ArmPageDescriptor>,
    pub addr: u64,
}

impl ArmDescriptorGroup {
    /// A table at `addr` whose descriptors are all `ArmPageDescriptor::new()`.
    pub fn new(addr: u64) -> (r: Self)
        ensures
            r.addr == addr,
            r.descriptors@.len() == NUM_DESCRIPTORS_IN_PAGE,
            forall|i: int| 0 <= i < NUM_DESCRIPTORS_IN_PAGE ==> (#[trigger] r.descriptors@[i]).0 == 1,
    {
        let mut descriptors: Vec<ArmPageDescriptor> = Vec::new();
        let mut i: usize = 0;
        while i < NUM_DESCRIPTORS_IN_PAGE
            invariant
                i <= NUM_DESCRIPTORS_IN_PAGE,
                descriptors@.len() == i,
                forall|k: int| 0 <= k < i ==> (#[trigger] descriptors@[k]).0 == 1,
            decreases NUM_DESCRIPTORS_IN_PAGE - i,
        {
            descriptors.push(ArmPageDescriptor::new());
            i += 1;
        }
        ArmDescriptorGroup { descriptors, addr }
    }

    /// A table at `addr` whose descriptors are all zero, as fresh zeroed memory holds it.
    pub fn zeroed(addr: u64) -> (r: Self)
        ensures
            r.addr == addr,
            r.descriptors@.len() == NUM_DESCRIPTORS_IN_PAGE,
            forall|i: int| 0 <= i < NUM_DESCRIPTORS_IN_PAGE ==> (#[trigger] r.descriptors@[i]).0 == 0,
    {
        let mut descriptors: Vec<ArmPageDescriptor> = Vec::new();
        let mut i: usize = 0;
        while i < NUM_DESCRIPTORS_IN_PAGE
            invariant
                i <= NUM_DESCRIPTORS_IN_PAGE,
                descriptors@.len() == i,
                forall|k: int| 0 <= k < i ==> (#[trigger] descriptors@[k]).0 == 0,
            decreases NUM_DESCRIPTORS_IN_PAGE - i,
        {
            descriptors.push(ArmPageDescriptor(0));
            i += 1;
        }
        ArmDescriptorGroup { descriptors, addr }
    }

    /// The physical address of the table: its kernel virtual address without the high bits.
    pub fn phys_addr(&self) -> (r: u64)
        ensures
            r == self.addr & 0x7fffffffff,
    {
        self.addr & 0x7fffffffff
    }
}

/// Position of the first child at or after `i` that manages descriptor `index` of its parent.
pub open spec fn find_child(children: Seq<ArmDescriptorGroupManager>, index: usize, i: int) -> Option<int>
    decreases children.len() - i,
{
    if i < 0 || i >= children.len() {
        None
    } else if children[i].index == index {
        Some(i)
    } else {
        find_child(children, index, i + 1)
    }
}

pub proof fn lemma_find_child(children: Seq<ArmDescriptorGroupManager>, index: usize, i: int)
    ensures
        find_child(children, index, i) matches Some(k) ==> i <= k < children.len() && children[k].index == index,
        0 <= i ==> (find_child(children, index, i) is None <==> forall|k: int| i <= k < children.len()
            ==> #[trigger] children[k].index != index),
    decreases children.len() - i,
{
    if 0 <= i < children.len() {
        lemma_find_child(children, index, i + 1);
    }
}

/// Position before which a child for descriptor `index` goes: the first at or after `i` whose
/// index is not below it.
pub open spec fn insert_position(children: Seq<ArmDescriptorGroupManager>, index: usize, i: int) -> int
    decreases children.len() - i,
{
    if i < 0 || i >= children.len() {
        children.len() as int
    } else if children[i].index >= index {
        i
    } else {
        insert_position(children, index, i + 1)
    }
}

pub proof fn lemma_insert_position(children: Seq<ArmDescriptorGroupManager>, index: usize, i: int)
    requires
        0 <= i <= children.len(),
    ensures
        i <= insert_position(children, index, i) <= children.len(),
        forall|k: int| i <= k < insert_position(children, index, i) ==> #[trigger] children[k].index < index,
    decreases children.len() - i,
{
    if i < children.len() && children[i].index < index {
        lemma_insert_position(children, index, i + 1);
    }
}

/// A translation table with the tables below it, one per descriptor that was split.
pub struct ArmDescriptorGroupManager {
    /// Which descriptor of the parent table this table stands for.
    pub index: usize,
    pub descriptors: ArmDescriptorGroup,
    pub children: Vec<ArmDescriptorGroupManager>,
    pub layer: PageLayer,
}

impl ArmDescriptorGroupManager {
    /// A table of the lowest level.
    pub open spec fn leaf_wf(&self) -> bool {
        &&& self.layer == PageLayer::Third
        &&& self.index < NUM_DESCRIPTORS_IN_PAGE
        &&& self.descriptors.descriptors@.len() == NUM_DESCRIPTORS_IN_PAGE
        &&& self.children@.len() == 0
    }

    /// A table of the middle level whose children are lowest-level tables.
    pub open spec fn middle_wf(&self) -> bool {
        &&& self.layer == PageLayer::Second
        &&& self.index < NUM_DESCRIPTORS_IN_PAGE
        &&& self.descriptors.descriptors@.len() == NUM_DESCRIPTORS_IN_PAGE
        &&& forall|k: int| 0 <= k < self.children@.len() ==> (#[trigger] self.children@[k]).leaf_wf()
    }

    /// A fresh table for descriptor `index` of its parent, of level `layer`, living at `addr`,
    /// with all descriptors zero.
    pub fn new(index: usize, layer: PageLayer, addr: u64) -> (r: Self)
        ensures
            r.index == index,
            r.layer == layer,
            r.children@.len() == 0,
            r.descriptors.addr == addr,
            r.descriptors.descriptors@.len() == NUM_DESCRIPTORS_IN_PAGE,
            forall|i: int| 0 <= i < NUM_DESCRIPTORS_IN_PAGE ==> (#[trigger] r.descriptors.descriptors@[i]).0 == 0,
    {
        ArmDescriptorGroupManager {
            index,
            descriptors: ArmDescriptorGroup::zeroed(addr),
            children: Vec::new(),
            layer,
        }
    }

    /// Maps descriptor `index` to the page at `phys_addr`.
    pub fn map_page(&mut self, index: usize, phys_addr: u64)
        requires
            index < old(self).descriptors.descriptors@.len(),
            phys_addr % 4096 == 0,
        ensures
            final(self).descriptors.descriptors@ == old(self).descriptors.descriptors@.update(
                index as int,
                ArmPageDescriptor(with_phys_address(with_flag(with_flag(with_flag(
                    old(self).descriptors.descriptors@[index as int].0, AF_MASK, true), 2, true), 1, true), phys_addr)),
            ),
            final(self).descriptors.addr == old(self).descriptors.addr,
            final(self).index == old(self).index,
            final(self).layer == old(self).layer,
            final(self).children@ == old(self).children@,
    {
        let mut before = self.descriptors.descriptors[index];
        before.set_af(true);
        before.set_page_descriptor(true);
        before.set_valid(true);
        before.set_phys_address(phys_addr);
        self.descriptors.descriptors.set(index, before);
    }

    pub fn is_lowest_layer(&self) -> (r: bool)
        ensures
            r == (self.layer is Third),
    {
        self.layer.is_lowest_layer()
    }

    /// Position of the first child for descriptor `index`.
    pub fn find_subgroup(&self, index: usize) -> (r: Option<usize>)
        ensures
            r matches Some(k) ==> find_child(self.children@, index, 0) == Some(k as int),
            r is None ==> find_child(self.children@, index, 0) is None,
            r matches Some(k) ==> k < self.children@.len() && self.children@[k as int].index == index,
    {
        proof {
            lemma_find_child(self.children@, index, 0);
        }
        let mut k: usize = 0;
        while k < self.children.len()
            invariant
                k <= self.children@.len(),
                find_child(self.children@, index, 0) == find_child(self.children@, index, k as int),
            decreases self.children@.len() - k,
        {
            if self.children[k].index == index {
                return Some(k);
            }
            k += 1;
        }
        None
    }

    /// The first child table for descriptor `index`, if that descriptor was split.
    pub fn subgroup(&self, index: usize) -> (r: Option<&ArmDescriptorGroupManager>)
        ensures
            r == (match find_child(self.children@, index, 0) {
                Some(k) => Some(&self.children@[k]),
                None => None::<&ArmDescriptorGroupManager>,
            }),
    {
        proof {
            lemma_find_child(self.children@, index, 0);
        }
        match self.find_subgroup(index) {
            Some(k) => Some(&self.children[k]),
            None => None,
        }
    }

    /// Replaces block descriptor `index` by a table of the next level that maps the same
    /// region in smaller pieces; the new table lives at `table_addr`. Lowest-level tables are
    /// left as they are.
    pub fn split_block_descriptor(&mut self, index: usize, table_addr: u64)
        requires
            index < NUM_DESCRIPTORS_IN_PAGE,
            old(self).descriptors.descriptors@.len() == NUM_DESCRIPTORS_IN_PAGE,
        ensures
            final(self).index == old(self).index,
            final(self).layer == old(self).layer,
            final(self).descriptors.addr == old(self).descriptors.addr,
            old(self).layer is Third ==> final(self).children@ == old(self).children@
                && final(self).descriptors.descriptors@ == old(self).descriptors.descriptors@,
            !(old(self).layer is Third) ==> ({
                let pos = insert_position(old(self).children@, index, 0);
                let child = final(self).children@[pos];
                let phys = old(self).descriptors.descriptors@[index as int].0 & ADDR_MASK;
                let next = next_layer_spec(old(self).layer);
                &&& final(self).children@ == old(self).children@.insert(pos, child)
                &&& child.index == index
                &&& child.layer == next
                &&& child.children@.len() == 0
                &&& child.descriptors.addr == table_addr
                &&& child.descriptors.descriptors@.len() == NUM_DESCRIPTORS_IN_PAGE
                &&& forall|i: int| 0 <= i < NUM_DESCRIPTORS_IN_PAGE ==> (#[trigger] child.descriptors.descriptors@[i]).0
                    == fresh_entry((phys + i * region_size_spec(next)) as u64, next is Third)
                &&& final(self).descriptors.descriptors@ == old(self).descriptors.descriptors@.update(
                    index as int,
                    ArmPageDescriptor(with_flag(with_flag(with_flag(with_phys_address(
                        old(self).descriptors.descriptors@[index as int].0, table_addr & 0x7fffffffff), 2, true), 1, true),
                        AF_MASK, true)),
                )
            }),
    {
        if self.layer.is_lowest_layer() {
            return;
        }
        let descriptor = self.descriptors.descriptors[index];
        let phys_addr = descriptor.get_phys_address();
        let current_layer = self.layer;
        let next_layer = current_layer.next_layer();
        let mut new_group = Self::new(index, next_layer, table_addr);
        let new_group_phys_addr = new_group.descriptors.addr;
        let region_size = next_layer.get_region_size();
        proof {
            let d0 = descriptor.0;
            assert(phys_addr <= 0x0000fffffffff000u64) by (bit_vector)
                requires
                    phys_addr == d0 & 0x0000fffffffff000u64,
            ;
        }
        let mut i: usize = 0;
        while i < NUM_DESCRIPTORS_IN_PAGE
            invariant
                i <= NUM_DESCRIPTORS_IN_PAGE,
                phys_addr <= 0x0000fffffffff000u64,
                region_size == region_size_spec(next_layer),
                region_size <= 1024 * 1024 * 1024,
                new_group.index == index,
                new_group.layer == next_layer,
                new_group.children@.len() == 0,
                new_group.descriptors.addr == table_addr,
                new_group.descriptors.descriptors@.len() == NUM_DESCRIPTORS_IN_PAGE,
                forall|k: int| 0 <= k < i ==> (#[trigger] new_group.descriptors.descriptors@[k]).0
                    == fresh_entry((phys_addr + k * region_size_spec(next_layer)) as u64, next_layer is Third),
                forall|k: int| i <= k < NUM_DESCRIPTORS_IN_PAGE ==> (#[trigger] new_group.descriptors.descriptors@[k]).0 == 0,
            decreases NUM_DESCRIPTORS_IN_PAGE - i,
        {
            let mut new_descriptor = new_group.descriptors.descriptors[i];
            proof {
                vstd::arithmetic::mul::lemma_mul_upper_bound(i as int, 512, region_size as int, 0x4000_0000int);
            }
            let offset: u64 = (i as u64) * (region_size as u64);
            new_descriptor.set_phys_address(phys_addr + offset);
            new_descriptor.set_af(true);
            new_descriptor.set_page_descriptor(next_layer.is_lowest_layer());
            new_descriptor.set_valid(true);
            new_group.descriptors.descriptors.set(i, new_descriptor);
            i += 1;
        }
        let mut pos: usize = 0;
        proof {
            lemma_insert_position(self.children@, index, 0);
        }
        while pos < self.children.len() && self.children[pos].index < index
            invariant
                pos <= self.children@.len(),
                insert_position(self.children@, index, 0) == insert_position(self.children@, index, pos as int),
            decreases self.children@.len() - pos,
        {
            pos += 1;
        }
        self.children.insert(pos, new_group);
        let mut before = self.descriptors.descriptors[index];
        before.set_phys_address(new_group_phys_addr & 0x7fffffffff);
        before.set_page_descriptor(true);
        before.set_valid(true);
        before.set_af(true);
        self.descriptors.descriptors.set(index, before);
    }
}

/// Splitting a descriptor of a table that is not of the lowest level gives it a child table
/// for that descriptor, which `subgroup` then finds.
pub proof fn lemma_split_then_subgroup(
    before: ArmDescriptorGroupManager,
    after: ArmDescriptorGroupManager,
    index: usize,
)
    requires
        !(before.layer is Third),
        ({
            let pos = insert_position(before.children@, index, 0);
            &&& after.children@ == before.children@.insert(pos, after.children@[pos])
            &&& after.children@[pos].index == index
        }),
    ensures
        find_child(after.children@, index, 0) is Some,
{
    let pos = insert_position(before.children@, index, 0);
    lemma_insert_position(before.children@, index, 0);
    lemma_find_child(after.children@, index, 0);
    assert(after.children@[pos].index == index);
}

/// Where the descriptor for a kernel virtual address stands, or which descriptor has to be
/// split before it can be found.
#[derive(Debug, Clone, Copy, PartialEq, Eq, Structural)]
pub enum VmaDescriptor {
    /// Descriptor `index` of the table that is child `third` of child `second` of the root.
    Found { second: usize, third: usize, index: usize },
    /// Root descriptor `index` maps a block and has to be split first.
    SplitRoot { index: usize },
    /// Descriptor `index` of child `second` of the root maps a block and has to be split first.
    SplitSecond { second: usize, index: usize },
}

/// Where the descriptor for kernel virtual address `addr` stands in the tables under `root`,
/// or which block descriptor has to be split first.
pub open spec fn vma_descriptor(root: ArmDescriptorGroupManager, addr: u64) -> VmaDescriptor {
    let rel = addr - KERNEL_START_VIRT_ADDR;
    let first = (rel / 0x4000_0000int) as usize;
    match find_child(root.children@, first, 0) {
        None => VmaDescriptor::SplitRoot { index: first },
        Some(p) => {
            let second = ((rel / 0x20_0000int) % 512) as usize;
            match find_child(root.children@[p].children@, second, 0) {
                None => VmaDescriptor::SplitSecond { second: p as usize, index: second },
                Some(q) => VmaDescriptor::Found {
                    second: p as usize,
                    third: q as usize,
                    index: ((rel / 4096int) % 512) as usize,
                },
            }
        },
    }
}

/// The kernel's translation tables.
pub struct ArmPageTableRoot {
    pub root_group: ArmDescriptorGroupManager,
}

impl ArmPageTableRoot {
    pub open spec fn wf(&self) -> bool {
        &&& self.root_group.layer == PageLayer::First
        &&& self.root_group.descriptors.descriptors@.len() == NUM_DESCRIPTORS_IN_PAGE
        &&& forall|k: int| 0 <= k < self.root_group.children@.len() ==> (#[trigger] self.root_group.children@[k]).middle_wf()
    }

    /// Tables that map the first 512 GiB of physical memory in 1 GiB blocks, the root living
    /// at `table_addr`.
    pub fn create_kernel_root(table_addr: u64) -> (r: Self)
        ensures
            r.wf(),
            r.root_group.index == 0,
            r.root_group.children@.len() == 0,
            r.root_group.descriptors.addr == table_addr,
            forall|i: int| 0 <= i < NUM_DESCRIPTORS_IN_PAGE ==> (#[trigger] r.root_group.descriptors.descriptors@[i]).0
                == fresh_entry((i * 1024 * 1024 * 1024) as u64, false),
    {
        let mut group = ArmDescriptorGroupManager::new(0, PageLayer::First, table_addr);
        let region_size = PageLayer::First.get_region_size();
        let mut i: usize = 0;
        while i < NUM_DESCRIPTORS_IN_PAGE
            invariant
                i <= NUM_DESCRIPTORS_IN_PAGE,
                region_size == 1024 * 1024 * 1024,
                group.index == 0,
                group.layer == PageLayer::First,
                group.children@.len() == 0,
                group.descriptors.addr == table_addr,
                group.descriptors.descriptors@.len() == NUM_DESCRIPTORS_IN_PAGE,
                forall|k: int| 0 <= k < i ==> (#[trigger] group.descriptors.descriptors@[k]).0
                    == fresh_entry((k * 1024 * 1024 * 1024) as u64, false),
                forall|k: int| i <= k < NUM_DESCRIPTORS_IN_PAGE ==> (#[trigger] group.descriptors.descriptors@[k]).0 == 0,
            decreases NUM_DESCRIPTORS_IN_PAGE - i,
        {
            let mut descriptor = group.descriptors.descriptors[i];
            descriptor.set_attr_group(0);
            assert(((0u64 & !0x1cu64) | ((0u64 << 2u64) & 2u64)) == 0u64) by (bit_vector);
            proof {
                vstd::arithmetic::mul::lemma_mul_upper_bound(i as int, 512, region_size as int, 0x4000_0000int);
            }
            descriptor.set_phys_address((i as u64) * (region_size as u64));
            descriptor.set_af(true);
            descriptor.set_page_descriptor(false);
            descriptor.set_valid(true);
            group.descriptors.descriptors.set(i, descriptor);
            i += 1;
        }
        Self { root_group: group }
    }

    /// Finds the lowest-level descriptor for kernel virtual address `addr`, or says which
    /// block descriptor on the way has to be split first; after that split the caller asks
    /// again.
    pub fn descriptor_for_vma(&self, addr: u64) -> (r: VmaDescriptor)
        requires
            self.wf(),
            addr >= KERNEL_START_VIRT_ADDR,
        ensures
            r == vma_descriptor(self.root_group, addr),
    {
        let relative_addr = addr - KERNEL_START_VIRT_ADDR;
        let region_size = self.root_group.layer.get_region_size();
        let index = (relative_addr / (region_size as u64)) as usize;
        match self.root_group.find_subgroup(index) {
            Some(p) => {
                let sub_group = &self.root_group.children[p];
                let region_size = sub_group.layer.get_region_size();
                let index = ((relative_addr / (region_size as u64)) % (NUM_DESCRIPTORS_IN_PAGE as u64)) as usize;
                match sub_group.find_subgroup(index) {
                    Some(q) => {
                        let index = ((relative_addr / 4096) % (NUM_DESCRIPTORS_IN_PAGE as u64)) as usize;
                        VmaDescriptor::Found { second: p, third: q, index }
                    },
                    None => VmaDescriptor::SplitSecond { second: p, index },
                }
            },
            None => VmaDescriptor::SplitRoot { index },
        }
    }
}


impl ArmPageTableRoot {
    /// Splits block descriptor `index` of middle table `p`, the new lowest table living at
    /// `table`; returns the new table's position among that middle table's children.
    fn split_second(&mut self, p: usize, index: usize, table: u64) -> (third: usize)
        requires
            old(self).wf(),
            p < old(self).root_group.children@.len(),
            index < NUM_DESCRIPTORS_IN_PAGE,
            find_child(old(self).root_group.children@[p as int].children@, index, 0) is None,
        ensures
            final(self).wf(),
            final(self).root_group.index == old(self).root_group.index,
            final(self).root_group.descriptors == old(self).root_group.descriptors,
            final(self).root_group.children@.len() == old(self).root_group.children@.len(),
            forall|k: int| 0 <= k < old(self).root_group.children@.len() && k != p ==> #[trigger] final(self).root_group.children@[k]
                == old(self).root_group.children@[k],
            final(self).root_group.children@[p as int].index == old(self).root_group.children@[p as int].index,
            final(self).root_group.children@[p as int].descriptors.addr == old(self).root_group.children@[p as int].descriptors.addr,
            find_child(final(self).root_group.children@[p as int].children@, index, 0) == Some(third as int),
            final(self).root_group.children@[p as int].children@[third as int].descriptors.addr == table,
    {
        let ghost before_root = self.root_group;
        let mut child = self.root_group.children.remove(p);
        let ghost before = child;
        proof {
            assert(before == before_root.children@[p as int]);
            assert(before.middle_wf());
        }
        child.split_block_descriptor(index, table);
        let ghost pos = insert_position(before.children@, index, 0);
        proof {
            lemma_insert_position(before.children@, index, 0);
            assert forall|k: int| 0 <= k < child.children@.len() implies (#[trigger] child.children@[k]).leaf_wf() by {
                if k < pos {
                    assert(child.children@[k] == before.children@[k]);
                } else if k > pos {
                    assert(child.children@[k] == before.children@[k - 1]);
                }
            }
            lemma_find_child(before.children@, index, 0);
            assert forall|k: int| 0 <= k < pos implies #[trigger] child.children@[k].index != index by {
                assert(child.children@[k] == before.children@[k]);
            }
            lemma_first_child_at(child.children@, index, pos);
        }
        self.root_group.children.insert(p, child);
        proof {
            assert(self.root_group.children@ =~= before_root.children@.update(p as int, child));
            assert forall|k: int| 0 <= k < self.root_group.children@.len() implies (#[trigger] self.root_group.children@[k]).middle_wf() by {
                if k != p {
                    assert(self.root_group.children@[k] == before_root.children@[k]);
                }
            }
        }
        let third = match self.root_group.children[p].find_subgroup(index) {
            Some(t) => t,
            None => {
                proof {
                    assert(false);
                }
                0
            },
        };
        third
    }

    /// Finds the lowest-level descriptor for kernel virtual address `addr`, splitting the block
    /// descriptors on the way that map it in larger pieces: a split root descriptor gets its
    /// new table at `root_table`, a split middle descriptor at `second_table`. Returns the
    /// positions of the middle and lowest tables and the descriptor's index in the latter.
    pub fn descriptor_for_vma_splitting(&mut self, addr: u64, root_table: u64, second_table: u64) -> (r: (usize, usize, usize))
        requires
            old(self).wf(),
            addr >= KERNEL_START_VIRT_ADDR,
            (addr - KERNEL_START_VIRT_ADDR) / 0x4000_0000int < NUM_DESCRIPTORS_IN_PAGE,
        ensures
            final(self).wf(),
            vma_descriptor(final(self).root_group, addr) == (VmaDescriptor::Found { second: r.0, third: r.1, index: r.2 }),
            final(self).root_group.index == old(self).root_group.index,
            final(self).root_group.descriptors.addr == old(self).root_group.descriptors.addr,
            vma_descriptor(old(self).root_group, addr) is Found ==> final(self).root_group == old(self).root_group,
            vma_descriptor(old(self).root_group, addr) is SplitRoot ==> final(self).root_group.children@[r.0 as int].descriptors.addr
                == root_table && final(self).root_group.children@[r.0 as int].children@[r.1 as int].descriptors.addr
                == second_table,
            vma_descriptor(old(self).root_group, addr) matches VmaDescriptor::SplitSecond { second, .. } ==> r.0 == second
                && final(self).root_group.descriptors == old(self).root_group.descriptors
                && final(self).root_group.children@[r.0 as int].children@[r.1 as int].descriptors.addr == second_table,
    {
        let ghost rel = addr - KERNEL_START_VIRT_ADDR;
        let ghost first = (rel / 0x4000_0000int) as usize;
        let index3 = ((addr - KERNEL_START_VIRT_ADDR) / 4096 % (NUM_DESCRIPTORS_IN_PAGE as u64)) as usize;
        let index2 = ((addr - KERNEL_START_VIRT_ADDR) / 0x20_0000 % (NUM_DESCRIPTORS_IN_PAGE as u64)) as usize;
        proof {
            assert(index2 == ((rel / 0x20_0000int) % 512) as usize);
            assert(index3 == ((rel / 4096int) % 512) as usize);
        }
        let found = self.descriptor_for_vma(addr);
        match found {
            VmaDescriptor::Found { second, third, index } => (second, third, index),
            VmaDescriptor::SplitRoot { index } => {
                let ghost before = self.root_group;
                self.root_group.split_block_descriptor(index, root_table);
                let ghost pos = insert_position(before.children@, index, 0);
                proof {
                    lemma_insert_position(before.children@, index, 0);
                    assert forall|k: int| 0 <= k < self.root_group.children@.len() implies (#[trigger] self.root_group.children@[k]).middle_wf() by {
                        if k < pos {
                            assert(self.root_group.children@[k] == before.children@[k]);
                        } else if k > pos {
                            assert(self.root_group.children@[k] == before.children@[k - 1]);
                        }
                    }
                    lemma_find_child(before.children@, index, 0);
                    assert forall|k: int| 0 <= k < pos implies #[trigger] self.root_group.children@[k].index != index by {
                        assert(self.root_group.children@[k] == before.children@[k]);
                    }
                    lemma_first_child_at(self.root_group.children@, index, pos);
                }
                let p = match self.root_group.find_subgroup(index) {
                    Some(k) => k,
                    None => {
                        proof {
                            assert(false);
                        }
                        0
                    },
                };
                let ghost mid = self.root_group;
                let third = self.split_second(p, index2, second_table);
                proof {
                    lemma_find_child_update(mid.children@, p as int, self.root_group.children@[p as int], first, 0);
                    assert(self.root_group.children@ =~= mid.children@.update(p as int, self.root_group.children@[p as int]));
                }
                (p, third, index3)
            },
            VmaDescriptor::SplitSecond { second, index } => {
                let _n = self.root_group.children.len();
                proof {
                    lemma_find_child(self.root_group.children@, first, 0);
                    let p = find_child(self.root_group.children@, first, 0)->Some_0;
                    assert(p as usize == second);
                    assert(p == second as int);
                    assert(find_child(self.root_group.children@[p].children@, index, 0) is None);
                }
                let ghost mid = self.root_group;
                let third = self.split_second(second, index, second_table);
                proof {
                    lemma_find_child_update(mid.children@, second as int, self.root_group.children@[second as int], first, 0);
                    assert(self.root_group.children@ =~= mid.children@.update(second as int, self.root_group.children@[second as int]));
                }
                (second, third, index3)
            },
        }
    }
}

/// When the child at `pos` is the first with index `index`, `find_child` gives `pos`.
proof fn lemma_first_child_at(children: Seq<ArmDescriptorGroupManager>, index: usize, pos: int)
    requires
        0 <= pos < children.len(),
        children[pos].index == index,
        forall|k: int| 0 <= k < pos ==> #[trigger] children[k].index != index,
    ensures
        find_child(children, index, 0) == Some(pos),
{
    lemma_first_child_from(children, index, pos, 0);
}

proof fn lemma_first_child_from(children: Seq<ArmDescriptorGroupManager>, index: usize, pos: int, i: int)
    requires
        0 <= i <= pos < children.len(),
        children[pos].index == index,
        forall|k: int| 0 <= k < pos ==> #[trigger] children[k].index != index,
    ensures
        find_child(children, index, i) == Some(pos),
    decreases pos - i,
{
    if i < pos {
        lemma_first_child_from(children, index, pos, i + 1);
    }
}

/// Replacing a child by one with the same index finds the same positions.
proof fn lemma_find_child_update(children: Seq<ArmDescriptorGroupManager>, at: int, c: ArmDescriptorGroupManager, index: usize, i: int)
    requires
        0 <= at < children.len(),
        c.index == children[at].index,
        0 <= i,
    ensures
        find_child(children.update(at, c), index, i) == find_child(children, index, i),
    decreases children.len() - i,
{
    if i < children.len() {
        lemma_find_child_update(children, at, c, index, i + 1);
    }
}

} // verus!
