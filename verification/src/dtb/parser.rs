use vstd::prelude::*;
use crate::bytes::{be_u32, read_be_u32};
use crate::utils::string::bytes_equal;

verus! {

/// Token that opens a node.
pub const FDT_BEGIN_NODE: u32 = 0x1;
/// Token that closes a node.
pub const FDT_END_NODE: u32 = 0x2;
/// Token that opens a property.
pub const FDT_PROP: u32 = 0x3;
/// Token that the parser skips.
pub const FDT_NOP: u32 = 0x4;
/// Token that ends the structure block.
pub const FDT_END: u32 = 0x9;

/// Whether `e` is the position of the first zero byte of `s` at or after `off`.
pub open spec fn is_cstr_end(s: Seq<u8>, off: int, e: int) -> bool {
    &&& off <= e < s.len()
    &&& s[e] == 0
    &&& forall|j: int| off <= j < e ==> s[j] != 0
}

/// At most one position is the first zero byte after `off`.
pub proof fn lemma_cstr_end_unique(s: Seq<u8>, off: int, e1: int, e2: int)
    requires
        is_cstr_end(s, off, e1),
        is_cstr_end(s, off, e2),
    ensures
        e1 == e2,
{
    if e1 < e2 {
        assert(s[e1] != 0);
    } else if e2 < e1 {
        assert(s[e2] != 0);
    }
}

/// The string value of a property: its bytes up to the first zero, or all of them if none is
/// zero.
pub open spec fn prop_string(v: Seq<u8>) -> Seq<u8> {
    if exists|e: int| #[trigger] is_cstr_end(v, 0, e) {
        v.subrange(0, choose|e: int| #[trigger] is_cstr_end(v, 0, e))
    } else {
        v
    }
}

/// Position of the first zero byte of `s` at or after `off`.
pub fn cstr_end(s: &[u8], off: usize) -> (r: Option<usize>)
    ensures
        r matches Some(e) ==> is_cstr_end(s@, off as int, e as int),
        r is None ==> forall|j: int| off <= j < s@.len() ==> s@[j] != 0,
{
    let mut i = off;
    while i < s.len()
        invariant
            off <= i,
            forall|j: int| off <= j < i && j < s@.len() ==> s@[j] != 0,
        decreases s@.len() - i,
    {
        if s[i] == 0 {
            return Some(i);
        }
        i += 1;
    }
    None
}

/// Copies `len` bytes of `s` from `off` on.
pub fn copy_bytes(s: &[u8], off: usize, len: usize) -> (r: Vec<u8>)
    requires
        off + len <= s@.len(),
    ensures
        r@ == s@.subrange(off as int, off + len),
{
    let _n = s.len();
    let mut r: Vec<u8> = Vec::new();
    let mut i: usize = 0;
    while i < len
        invariant
            s@.len() <= usize::MAX,
            off + len <= s@.len(),
            i <= len,
            r@ == s@.subrange(off as int, off + i),
        decreases len - i,
    {
        r.push(s[off + i]);
        i += 1;
    }
    r
}

/// Header of a flattened device tree.
pub struct FtdHeader {
    pub magic: u32,
    pub total_size: u32,
    pub off_dt_struct: u32,
    pub off_dt_string: u32,
    pub off_mem_rsvmap: u32,
    pub version: u32,
    pub last_comp_version: u32,
    pub boot_cpuid_phys: u32,
    pub size_dt_strings: u32,
    pub size_dt_structs: u32,
}

impl FtdHeader {
    /// The header, ten big endian words, at the start of `blob`.
    pub open spec fn at(blob: Seq<u8>) -> FtdHeader {
        FtdHeader {
            magic: be_u32(blob, 0) as u32,
            total_size: be_u32(blob, 4) as u32,
            off_dt_struct: be_u32(blob, 8) as u32,
            off_dt_string: be_u32(blob, 12) as u32,
            off_mem_rsvmap: be_u32(blob, 16) as u32,
            version: be_u32(blob, 20) as u32,
            last_comp_version: be_u32(blob, 24) as u32,
            boot_cpuid_phys: be_u32(blob, 28) as u32,
            size_dt_strings: be_u32(blob, 32) as u32,
            size_dt_structs: be_u32(blob, 36) as u32,
        }
    }

    /// Reads the header, ten big endian words, at the start of `blob`.
    pub fn parse(blob: &[u8]) -> (r: Self)
        requires
            blob@.len() >= 40,
        ensures
            r == FtdHeader::at(blob@),
            r.magic == be_u32(blob@, 0),
            r.total_size == be_u32(blob@, 4),
            r.off_dt_struct == be_u32(blob@, 8),
            r.off_dt_string == be_u32(blob@, 12),
            r.off_mem_rsvmap == be_u32(blob@, 16),
            r.version == be_u32(blob@, 20),
            r.last_comp_version == be_u32(blob@, 24),
            r.boot_cpuid_phys == be_u32(blob@, 28),
            r.size_dt_strings == be_u32(blob@, 32),
            r.size_dt_structs == be_u32(blob@, 36),
    {
        FtdHeader {
            magic: read_be_u32(blob, 0),
            total_size: read_be_u32(blob, 4),
            off_dt_struct: read_be_u32(blob, 8),
            off_dt_string: read_be_u32(blob, 12),
            off_mem_rsvmap: read_be_u32(blob, 16),
            version: read_be_u32(blob, 20),
            last_comp_version: read_be_u32(blob, 24),
            boot_cpuid_phys: read_be_u32(blob, 28),
            size_dt_strings: read_be_u32(blob, 32),
            size_dt_structs: read_be_u32(blob, 36),
        }
    }
}

/// A property of a device tree node.
pub struct FdtProp {
    pub name: Vec<u8>,
    pub value: Option<Vec<u8>>,
}

/// Bytes of the value of a property `len` bytes long, rounded up to whole words.
pub open spec fn padded_len(len: int) -> int {
    4 * ((len + 3) / 4)
}

/// Whether `blob` holds a well formed property at `cursor`, with names at `strings`.
pub open spec fn prop_well_formed(blob: Seq<u8>, cursor: int, strings: int) -> bool {
    &&& cursor + 12 <= blob.len()
    &&& be_u32(blob, cursor) == FDT_PROP
    &&& cursor + 12 + padded_len(be_u32(blob, cursor + 4)) <= blob.len()
    &&& exists|e: int| #[trigger] is_cstr_end(blob, strings + be_u32(blob, cursor + 8), e)
}

impl FdtProp {
    /// Reads the property at byte `cursor` of `blob`, whose names start at byte `strings`.
    /// Returns it and the position after it, or `None` if no well formed property is there.
    pub fn parse(blob: &[u8], cursor: usize, strings: usize) -> (r: Option<(FdtProp, usize)>)
        ensures
            r is Some <==> prop_well_formed(blob@, cursor as int, strings as int),
            r matches Some((p, next)) ==> {
                let len = be_u32(blob@, cursor + 4);
                let name_off = strings + be_u32(blob@, cursor + 8);
                &&& next == cursor + 12 + padded_len(len)
                &&& len > 0 ==> (p.value matches Some(v) && v@ == blob@.subrange(cursor + 12, cursor + 12 + len))
                &&& len == 0 ==> p.value is None
                &&& exists|e: int| #[trigger] is_cstr_end(blob@, name_off, e) && p.name@ == blob@.subrange(name_off, e)
            },
            match prop_at(blob@, cursor as int, strings as int) {
                None => r is None,
                Some((m, next)) => r matches Some((p, nx)) && p.model() == m && nx == next,
            },
    {
        let n = blob.len();
        if cursor > n || n - cursor < 12 {
            return None;
        }
        if read_be_u32(blob, cursor) != FDT_PROP {
            return None;
        }
        let len = read_be_u32(blob, cursor + 4) as usize;
        let name_offset = read_be_u32(blob, cursor + 8) as usize;
        let words = len / 4 + if len % 4 == 0 { 0 } else { 1 };
        assert(4 * words == padded_len(len as int));
        if (n - cursor - 12) / 4 < words {
            return None;
        }
        if strings > n || name_offset > n - strings {
            proof {
                assert forall|e: int| !#[trigger] is_cstr_end(blob@, strings + name_offset, e) by {}
            }
            return None;
        }
        let name_start = strings + name_offset;
        let name_end = match cstr_end(blob, name_start) {
            Some(e) => e,
            None => {
                proof {
                    assert forall|e: int| !#[trigger] is_cstr_end(blob@, name_start as int, e) by {
                        if is_cstr_end(blob@, name_start as int, e) {
                            assert(blob@[e] != 0);
                        }
                    }
                }
                return None;
            },
        };
        let name = copy_bytes(blob, name_start, name_end - name_start);
        let value = if len > 0 {
            Some(copy_bytes(blob, cursor + 12, len))
        } else {
            None
        };
        let prop = FdtProp { value, name };
        proof {
            let c = choose|e: int| #[trigger] is_cstr_end(blob@, name_start as int, e);
            lemma_cstr_end_unique(blob@, name_start as int, c, name_end as int);
            let m = prop_at(blob@, cursor as int, strings as int)->Some_0.0;
            assert(prop.model().name == m.name);
            assert(prop.model().value == m.value);
        }
        Some((prop, cursor + 12 + 4 * words))
    }

    pub fn name(&self) -> (r: &[u8])
        ensures
            r@ == self.name@,
    {
        self.name.as_slice()
    }

    /// The value up to its first zero byte, or the whole value if it has none.
    pub fn read_prop_string(&self) -> (r: Option<Vec<u8>>)
        ensures
            self.value is None ==> r is None,
            self.value matches Some(v) ==> (r matches Some(s) && s@ == prop_string(v@)),
    {
        match &self.value {
            None => None,
            Some(v) => {
                match cstr_end(v.as_slice(), 0) {
                    Some(e) => {
                        proof {
                            let c = choose|e2: int| #[trigger] is_cstr_end(v@, 0, e2);
                            lemma_cstr_end_unique(v@, 0, c, e as int);
                        }
                        Some(copy_bytes(v.as_slice(), 0, e))
                    },
                    None => {
                        let s = copy_bytes(v.as_slice(), 0, v.len());
                        assert(s@ =~= v@);
                        Some(s)
                    },
                }
            },
        }
    }

    /// Big endian word `index` of the value.
    pub fn read_u32(&self, index: usize) -> (r: Option<u32>)
        requires
            self.value matches Some(v) ==> 4 * index + 4 <= v@.len(),
        ensures
            self.value is None ==> r is None,
            self.value matches Some(v) ==> r == Some(be_u32(v@, 4 * index) as u32),
    {
        match &self.value {
            None => None,
            Some(v) => {
                let _n = v.len();
                Some(read_be_u32(v.as_slice(), 4 * index))
            },
        }
    }

    /// Big endian double word `index` of the value.
    pub fn read_u64(&self, index: usize) -> (r: Option<u64>)
        requires
            self.value matches Some(v) ==> 8 * index + 8 <= v@.len(),
        ensures
            self.value is None ==> r is None,
            self.value matches Some(v) ==> r == Some(
                (be_u32(v@, 8 * index) * 0x1_0000_0000 + be_u32(v@, 8 * index + 4)) as u64,
            ),
    {
        match &self.value {
            None => None,
            Some(v) => {
                let _n = v.len();
                let upper = read_be_u32(v.as_slice(), 8 * index) as u64;
                let lower = read_be_u32(v.as_slice(), 8 * index + 4) as u64;
                Some(upper * 0x1_0000_0000 + lower)
            },
        }
    }
}

/// Cell counts and interrupt parent that a node passes on to its children.
pub struct FdtNodeMeta {
    /// Number of u32 cells used for the size of registers.
    pub size_cells: u32,
    /// Number of u32 cells used for addresses.
    pub address_cells: u32,
    /// Phandle of the interrupt parent.
    pub interrupt_parent: Option<u32>,
}

impl FdtNodeMeta {
    /// The values a node has when it states none.
    pub fn new() -> (r: Self)
        ensures
            r.size_cells == 1,
            r.address_cells == 2,
            r.interrupt_parent is None,
    {
        FdtNodeMeta { size_cells: 1, address_cells: 2, interrupt_parent: None }
    }
}

/// A node of a device tree.
pub struct FdtNode {
    pub name: Option<Vec<u8>>,
    pub properties: Vec<FdtProp>,
    pub children: Vec<FdtNode>,
}

/// What a property holds: its name and value.
pub struct PropModel {
    pub name: Seq<u8>,
    pub value: Option<Seq<u8>>,
}

/// What a node holds: its name, its properties and its children, in the order of the blob.
pub struct NodeModel {
    pub name: Option<Seq<u8>>,
    pub props: Seq<PropModel>,
    pub children: Seq<NodeModel>,
}

/// The bytes of an optional byte vector.
pub open spec fn opt_bytes(v: Option<Vec<u8>>) -> Option<Seq<u8>> {
    match v {
        Some(b) => Some(b@),
        None => None,
    }
}

impl FdtProp {
    pub open spec fn model(&self) -> PropModel {
        PropModel { name: self.name@, value: opt_bytes(self.value) }
    }
}

/// The models of `props`.
pub open spec fn props_models(props: Seq<FdtProp>) -> Seq<PropModel> {
    props.map_values(|p: FdtProp| p.model())
}

/// The model of `n`, with those of all its descendants.
pub open spec fn node_model(n: FdtNode) -> NodeModel
    decreases n, 0int,
{
    NodeModel {
        name: opt_bytes(n.name),
        props: props_models(n.properties@),
        children: nodes_models(n.children@, n.children@.len() as int),
    }
}

/// The models of the first `k` nodes of `s`.
pub open spec fn nodes_models(s: Seq<FdtNode>, k: int) -> Seq<NodeModel>
    decreases s, k,
{
    if k <= 0 || k > s.len() {
        Seq::empty()
    } else {
        nodes_models(s, k - 1).push(node_model(s[k - 1]))
    }
}

pub proof fn lemma_nodes_models_push(s: Seq<FdtNode>, x: FdtNode, k: int)
    requires
        0 <= k <= s.len(),
    ensures
        nodes_models(s.push(x), k) == nodes_models(s, k),
    decreases k,
{
    if k > 0 {
        lemma_nodes_models_push(s, x, k - 1);
        assert(s.push(x)[k - 1] == s[k - 1]);
    }
}

pub proof fn lemma_nodes_models_len(s: Seq<FdtNode>, k: int)
    requires
        0 <= k <= s.len(),
    ensures
        nodes_models(s, k).len() == k,
    decreases k,
{
    if k > 0 {
        lemma_nodes_models_len(s, k - 1);
    }
}

/// The property that `blob` holds at `cursor`, with names at `strings`, and the position after
/// it.
pub open spec fn prop_at(blob: Seq<u8>, cursor: int, strings: int) -> Option<(PropModel, int)> {
    if prop_well_formed(blob, cursor, strings) {
        let len = be_u32(blob, cursor + 4);
        let name_off = strings + be_u32(blob, cursor + 8);
        let e = choose|e: int| #[trigger] is_cstr_end(blob, name_off, e);
        Some(
            (
                PropModel {
                    name: blob.subrange(name_off, e),
                    value: if len > 0 {
                        Some(blob.subrange(cursor + 12, cursor + 12 + len))
                    } else {
                        None
                    },
                },
                cursor + 12 + padded_len(len),
            ),
        )
    } else {
        None
    }
}

/// The node that `blob` holds at `cursor`, with names at `strings`, and the position after its
/// end token: a begin token, the name (a zero word where there is none, else the string and
/// its zero padded to whole words), then properties, child nodes and skipped tokens up to the
/// end token.
pub open spec fn parse_node(blob: Seq<u8>, cursor: int, strings: int) -> Option<(NodeModel, int)>
    decreases blob.len() - cursor, 0int,
{
    if cursor < 0 || cursor + 8 > blob.len() || be_u32(blob, cursor) != FDT_BEGIN_NODE {
        None
    } else if be_u32(blob, cursor + 4) == 0 {
        parse_items(blob, cursor + 8, strings, None, Seq::empty(), Seq::empty())
    } else if exists|e: int| #[trigger] is_cstr_end(blob, cursor + 4, e) {
        let e = choose|e: int| #[trigger] is_cstr_end(blob, cursor + 4, e);
        let c = cursor + 4 + padded_len(e - cursor - 3);
        if c > blob.len() {
            None
        } else {
            parse_items(
                blob,
                c,
                strings,
                Some(blob.subrange(cursor + 4, e)),
                Seq::empty(),
                Seq::empty(),
            )
        }
    } else {
        None
    }
}

/// The rest of a node from position `c` on, where `name`, `props` and `children` were read
/// before `c`.
pub open spec fn parse_items(
    blob: Seq<u8>,
    c: int,
    strings: int,
    name: Option<Seq<u8>>,
    props: Seq<PropModel>,
    children: Seq<NodeModel>,
) -> Option<(NodeModel, int)>
    decreases blob.len() - c, 1int,
{
    if c < 0 || c + 4 > blob.len() {
        None
    } else {
        let token = be_u32(blob, c);
        if token == FDT_END_NODE {
            Some((NodeModel { name, props, children }, c + 4))
        } else if token == FDT_BEGIN_NODE {
            match parse_node(blob, c, strings) {
                None => None,
                Some((child, next)) => if next <= c || next > blob.len() {
                    None
                } else {
                    parse_items(blob, next, strings, name, props, children.push(child))
                },
            }
        } else if token == FDT_PROP {
            match prop_at(blob, c, strings) {
                None => None,
                Some((p, next)) => if next <= c || next > blob.len() {
                    None
                } else {
                    parse_items(blob, next, strings, name, props.push(p), children)
                },
            }
        } else if token == FDT_NOP {
            parse_items(blob, c + 4, strings, name, props, children)
        } else {
            None
        }
    }
}

/// The top level nodes from position `c` up to the end token, after `acc`.
pub open spec fn top_nodes(blob: Seq<u8>, c: int, strings: int, acc: Seq<NodeModel>) -> Option<Seq<NodeModel>>
    decreases blob.len() - c,
{
    if c < 0 || c + 4 > blob.len() {
        None
    } else if be_u32(blob, c) == FDT_END {
        Some(acc)
    } else {
        match parse_node(blob, c, strings) {
            None => None,
            Some((node, next)) => if next <= c || next > blob.len() {
                None
            } else {
                top_nodes(blob, next, strings, acc.push(node))
            },
        }
    }
}

/// The top level nodes of the tree that `blob` holds.
pub open spec fn tree_nodes(blob: Seq<u8>) -> Option<Seq<NodeModel>> {
    if blob.len() < 40 || be_u32(blob, 12) > blob.len() {
        None
    } else {
        top_nodes(blob, be_u32(blob, 8), be_u32(blob, 12), Seq::empty())
    }
}

/// After a node's name the parser goes on at the next word boundary past the name's zero byte:
/// a name of `len` bytes, with its terminating zero, takes `4 * ceil((len + 1) / 4)` bytes, so
/// a name whose length is a multiple of four is followed by a whole word of padding.
pub proof fn lemma_node_resumes_after_padded_name(blob: Seq<u8>, cursor: int, strings: int, len: int)
    requires
        0 <= cursor,
        0 < len,
        cursor + 8 <= blob.len(),
        be_u32(blob, cursor) == FDT_BEGIN_NODE,
        cursor + 4 + len < blob.len(),
        forall|j: int| cursor + 4 <= j < cursor + 4 + len ==> blob[j] != 0,
        blob[cursor + 4 + len] == 0,
        cursor + 4 + 4 * ((len + 4) / 4) <= blob.len(),
    ensures
        parse_node(blob, cursor, strings) == parse_items(
            blob,
            cursor + 4 + 4 * ((len + 4) / 4),
            strings,
            Some(blob.subrange(cursor + 4, cursor + 4 + len)),
            Seq::empty(),
            Seq::empty(),
        ),
{
    let e = cursor + 4 + len;
    assert(is_cstr_end(blob, cursor + 4, e));
    let ch = choose|x: int| #[trigger] is_cstr_end(blob, cursor + 4, x);
    lemma_cstr_end_unique(blob, cursor + 4, ch, e);
    assert(blob[cursor + 4] != 0);
    assert(be_u32(blob, cursor + 4) != 0);
}

/// A node holding only its name parses to a node of that name with no properties and no
/// children, ending after its end token.
pub proof fn lemma_named_leaf_node(blob: Seq<u8>, cursor: int, strings: int, len: int)
    requires
        0 <= cursor,
        0 < len,
        cursor + 8 <= blob.len(),
        be_u32(blob, cursor) == FDT_BEGIN_NODE,
        cursor + 4 + len < blob.len(),
        forall|j: int| cursor + 4 <= j < cursor + 4 + len ==> blob[j] != 0,
        blob[cursor + 4 + len] == 0,
        cursor + 8 + 4 * ((len + 4) / 4) <= blob.len(),
        be_u32(blob, cursor + 4 + 4 * ((len + 4) / 4)) == FDT_END_NODE,
    ensures
        parse_node(blob, cursor, strings) == Some(
            (
                NodeModel {
                    name: Some(blob.subrange(cursor + 4, cursor + 4 + len)),
                    props: Seq::empty(),
                    children: Seq::empty(),
                },
                cursor + 8 + 4 * ((len + 4) / 4),
            ),
        ),
{
    lemma_node_resumes_after_padded_name(blob, cursor, strings, len);
}

/// A node whose name word is zero has no name, and the parser goes on right after that word.
pub proof fn lemma_nameless_node_resumes(blob: Seq<u8>, cursor: int, strings: int)
    requires
        0 <= cursor,
        cursor + 8 <= blob.len(),
        be_u32(blob, cursor) == FDT_BEGIN_NODE,
        be_u32(blob, cursor + 4) == 0,
    ensures
        parse_node(blob, cursor, strings) == parse_items(blob, cursor + 8, strings, None, Seq::empty(), Seq::empty()),
{
}

/// A well formed property of `len` bytes is named by the string at its name offset in the
/// strings block, holds the `len` bytes after its three header words, and is followed by the
/// next token at the word boundary after them.
pub proof fn lemma_prop_layout(blob: Seq<u8>, cursor: int, strings: int, e: int)
    requires
        0 <= cursor,
        cursor + 12 <= blob.len(),
        be_u32(blob, cursor) == FDT_PROP,
        cursor + 12 + 4 * ((be_u32(blob, cursor + 4) + 3) / 4) <= blob.len(),
        is_cstr_end(blob, strings + be_u32(blob, cursor + 8), e),
    ensures
        ({
            let len = be_u32(blob, cursor + 4);
            prop_at(blob, cursor, strings) == Some(
                (
                    PropModel {
                        name: blob.subrange(strings + be_u32(blob, cursor + 8), e),
                        value: if len > 0 {
                            Some(blob.subrange(cursor + 12, cursor + 12 + len))
                        } else {
                            None
                        },
                    },
                    cursor + 12 + 4 * ((len + 3) / 4),
                ),
            )
        }),
{
    let name_off = strings + be_u32(blob, cursor + 8);
    let ch = choose|x: int| #[trigger] is_cstr_end(blob, name_off, x);
    lemma_cstr_end_unique(blob, name_off, ch, e);
}

/// Position of the first node named `name` in `nodes` at or after `i`.
pub open spec fn find_child_from(nodes: Seq<FdtNode>, name: Seq<u8>, i: int) -> Option<int>
    decreases nodes.len() - i,
{
    if i < 0 || i >= nodes.len() {
        None
    } else if nodes[i].name_spec() == name {
        Some(i)
    } else {
        find_child_from(nodes, name, i + 1)
    }
}

/// Position of the first node named `name` in `nodes`.
pub open spec fn find_child_spec(nodes: Seq<FdtNode>, name: Seq<u8>) -> Option<int> {
    find_child_from(nodes, name, 0)
}

/// Position of the first property named `name` in `props` at or after `i`.
pub open spec fn find_prop_from(props: Seq<FdtProp>, name: Seq<u8>, i: int) -> Option<int>
    decreases props.len() - i,
{
    if i < 0 || i >= props.len() {
        None
    } else if props[i].name@ == name {
        Some(i)
    } else {
        find_prop_from(props, name, i + 1)
    }
}

/// Position of the first property named `name` in `props`.
pub open spec fn find_prop_spec(props: Seq<FdtProp>, name: Seq<u8>) -> Option<int> {
    find_prop_from(props, name, 0)
}

pub proof fn lemma_find_child_from_bounds(nodes: Seq<FdtNode>, name: Seq<u8>, i: int)
    ensures
        find_child_from(nodes, name, i) matches Some(k) ==> i <= k < nodes.len() && nodes[k].name_spec() == name,
    decreases nodes.len() - i,
{
    if 0 <= i < nodes.len() && nodes[i].name_spec() != name {
        lemma_find_child_from_bounds(nodes, name, i + 1);
    }
}

pub proof fn lemma_find_prop_from_bounds(props: Seq<FdtProp>, name: Seq<u8>, i: int)
    ensures
        find_prop_from(props, name, i) matches Some(k) ==> i <= k < props.len() && props[k].name@ == name,
    decreases props.len() - i,
{
    if 0 <= i < props.len() && props[i].name@ != name {
        lemma_find_prop_from_bounds(props, name, i + 1);
    }
}

impl FdtNode {
    /// The name, empty for a node without one.
    pub open spec fn name_spec(&self) -> Seq<u8> {
        match self.name {
            Some(n) => n@,
            None => Seq::empty(),
        }
    }

    pub fn name(&self) -> (r: &[u8])
        ensures
            r@ == self.name_spec(),
    {
        match &self.name {
            Some(n) => n.as_slice(),
            None => {
                let e: &[u8] = &[];
                assert(e@ =~= Seq::<u8>::empty());
                e
            },
        }
    }

    /// Reads the node at byte `cursor` of `blob`, with its properties and children, whose names
    /// start at byte `strings`. Returns it and the position after its end token, or `None` if no
    /// well formed node is there.
    pub fn parse(blob: &[u8], cursor: usize, strings: usize) -> (r: Option<(FdtNode, usize)>)
        ensures
            r matches Some((node, next)) ==> {
                &&& cursor + 8 <= next <= blob@.len()
                &&& be_u32(blob@, cursor as int) == FDT_BEGIN_NODE
                &&& be_u32(blob@, next - 4) == FDT_END_NODE
            },
            match parse_node(blob@, cursor as int, strings as int) {
                None => r is None,
                Some((m, next)) => r matches Some((node, nx)) && node_model(node) == m && nx == next,
            },
        decreases blob@.len() - cursor,
    {
        let n = blob.len();
        if cursor > n || n - cursor < 8 {
            return None;
        }
        if read_be_u32(blob, cursor) != FDT_BEGIN_NODE {
            return None;
        }
        let mut c = cursor + 4;
        let mut name: Option<Vec<u8>> = None;
        if read_be_u32(blob, c) != 0 {
            let end = match cstr_end(blob, c) {
                Some(e) => e,
                None => {
                    proof {
                        assert forall|e: int| !#[trigger] is_cstr_end(blob@, cursor + 4, e) by {
                            if is_cstr_end(blob@, cursor + 4, e) {
                                assert(blob@[e] != 0);
                            }
                        }
                    }
                    return None;
                },
            };
            let len = end - c + 1;
            let jump = len / 4 + if len % 4 == 0 { 0 } else { 1 };
            assert(4 * jump == padded_len(len as int));
            proof {
                let ch = choose|e: int| #[trigger] is_cstr_end(blob@, cursor + 4, e);
                lemma_cstr_end_unique(blob@, cursor + 4, ch, end as int);
            }
            name = Some(copy_bytes(blob, c, end - c));
            if n - c < 4 * jump {
                return None;
            }
            c = c + 4 * jump;
        } else {
            c = c + 4;
        }
        let mut properties: Vec<FdtProp> = Vec::new();
        let mut children: Vec<FdtNode> = Vec::new();
        assert(props_models(properties@) =~= Seq::<PropModel>::empty());
        loop
            invariant
                cursor + 8 <= c <= n,
                n == blob@.len(),
                be_u32(blob@, cursor as int) == FDT_BEGIN_NODE,
                parse_node(blob@, cursor as int, strings as int) == parse_items(
                    blob@,
                    c as int,
                    strings as int,
                    opt_bytes(name),
                    props_models(properties@),
                    nodes_models(children@, children@.len() as int),
                ),
            decreases n - c,
        {
            if n - c < 4 {
                return None;
            }
            let token = read_be_u32(blob, c);
            if token == FDT_END_NODE {
                let node = FdtNode { name, properties, children };
                return Some((node, c + 4));
            } else if token == FDT_BEGIN_NODE {
                match FdtNode::parse(blob, c, strings) {
                    Some((child, next)) => {
                        proof {
                            lemma_nodes_models_push(children@, child, children@.len() as int);
                        }
                        children.push(child);
                        c = next;
                    },
                    None => return None,
                }
            } else if token == FDT_PROP {
                match FdtProp::parse(blob, c, strings) {
                    Some((prop, next)) => {
                        assert(props_models(properties@.push(prop)) =~= props_models(properties@).push(prop.model()));
                        properties.push(prop);
                        c = next;
                    },
                    None => return None,
                }
            } else if token == FDT_NOP {
                c = c + 4;
            } else {
                return None;
            }
        }
    }

    pub fn properties(&self) -> (r: &Vec<FdtProp>)
        ensures
            r@ == self.properties@,
    {
        &self.properties
    }

    pub fn children(&self) -> (r: &Vec<FdtNode>)
        ensures
            r@ == self.children@,
    {
        &self.children
    }

    /// The first child named `name`.
    pub fn find_child_by_name(&self, name: &[u8]) -> (r: Option<&FdtNode>)
        ensures
            match find_child_spec(self.children@, name@) {
                Some(i) => r == Some(&self.children@[i]),
                None => r is None,
            },
    {
        let mut i: usize = 0;
        while i < self.children.len()
            invariant
                i <= self.children@.len(),
                find_child_spec(self.children@, name@) == find_child_from(self.children@, name@, i as int),
            decreases self.children@.len() - i,
        {
            if bytes_equal(self.children[i].name(), name) {
                return Some(&self.children[i]);
            }
            i += 1;
        }
        None
    }

    /// Position of the first child named `name`.
    pub fn find_child_index(&self, name: &[u8]) -> (r: Option<usize>)
        ensures
            r matches Some(i) ==> find_child_spec(self.children@, name@) == Some(i as int) && i < self.children@.len(),
            r is None ==> find_child_spec(self.children@, name@) is None,
    {
        proof {
            lemma_find_child_from_bounds(self.children@, name@, 0);
        }
        let mut i: usize = 0;
        while i < self.children.len()
            invariant
                i <= self.children@.len(),
                find_child_spec(self.children@, name@) == find_child_from(self.children@, name@, i as int),
            decreases self.children@.len() - i,
        {
            if bytes_equal(self.children[i].name(), name) {
                return Some(i);
            }
            i += 1;
        }
        None
    }

    /// The first property named `name`.
    pub fn find_prop_by_name(&self, name: &[u8]) -> (r: Option<&FdtProp>)
        ensures
            match find_prop_spec(self.properties@, name@) {
                Some(i) => r == Some(&self.properties@[i]),
                None => r is None,
            },
    {
        let mut i: usize = 0;
        while i < self.properties.len()
            invariant
                i <= self.properties@.len(),
                find_prop_spec(self.properties@, name@) == find_prop_from(self.properties@, name@, i as int),
            decreases self.properties@.len() - i,
        {
            if bytes_equal(self.properties[i].name(), name) {
                return Some(&self.properties[i]);
            }
            i += 1;
        }
        None
    }

    /// The string value of the first property named `name`.
    pub fn read_prop_string(&self, name: &[u8]) -> (r: Option<Vec<u8>>)
        ensures
            match find_prop_spec(self.properties@, name@) {
                None => r is None,
                Some(i) => match self.properties@[i].value {
                    None => r is None,
                    Some(v) => r matches Some(s) && s@ == prop_string(v@),
                },
            },
    {
        match self.find_prop_by_name(name) {
            Some(p) => {
                proof {
                    lemma_find_prop_from_bounds(self.properties@, name@, 0);
                }
                p.read_prop_string()
            },
            None => None,
        }
    }

    /// Big endian word `index` of the first property named `name`.
    pub fn read_u32(&self, name: &[u8], index: usize) -> (r: Option<u32>)
        requires
            forall|i: int| 0 <= i < self.properties@.len() ==> ((#[trigger] self.properties@[i]).value matches Some(v)
                ==> 4 * index + 4 <= v@.len()),
        ensures
            match find_prop_spec(self.properties@, name@) {
                None => r is None,
                Some(i) => match self.properties@[i].value {
                    None => r is None,
                    Some(v) => r == Some(be_u32(v@, 4 * index) as u32),
                },
            },
    {
        match self.find_prop_by_name(name) {
            Some(p) => {
                proof {
                    lemma_find_prop_from_bounds(self.properties@, name@, 0);
                    let i = find_prop_spec(self.properties@, name@)->Some_0;
                    assert(self.properties@[i] == *p);
                }
                p.read_u32(index)
            },
            None => None,
        }
    }

    /// Big endian double word `index` of the first property named `name`.
    pub fn read_u64(&self, name: &[u8], index: usize) -> (r: Option<u64>)
        requires
            forall|i: int| 0 <= i < self.properties@.len() ==> ((#[trigger] self.properties@[i]).value matches Some(v)
                ==> 8 * index + 8 <= v@.len()),
        ensures
            match find_prop_spec(self.properties@, name@) {
                None => r is None,
                Some(i) => match self.properties@[i].value {
                    None => r is None,
                    Some(v) => r == Some((be_u32(v@, 8 * index) * 0x1_0000_0000 + be_u32(v@, 8 * index + 4)) as u64),
                },
            },
    {
        match self.find_prop_by_name(name) {
            Some(p) => {
                proof {
                    lemma_find_prop_from_bounds(self.properties@, name@, 0);
                    let i = find_prop_spec(self.properties@, name@)->Some_0;
                    assert(self.properties@[i] == *p);
                }
                p.read_u64(index)
            },
            None => None,
        }
    }
}

/// A parsed flattened device tree.
pub struct Fdt {
    pub header: FtdHeader,
    pub nodes: Vec<FdtNode>,
}

impl Fdt {
    /// Parses the tree that `blob` holds: its header, then top level nodes until the end token.
    pub fn parse(blob: &[u8]) -> (r: Option<Fdt>)
        ensures
            match tree_nodes(blob@) {
                None => r is None,
                Some(ms) => r matches Some(t) && t.header == FtdHeader::at(blob@) && nodes_models(
                    t.nodes@,
                    t.nodes@.len() as int,
                ) == ms,
            },
    {
        let n = blob.len();
        if n < 40 {
            return None;
        }
        let header = FtdHeader::parse(blob);
        let strings = header.off_dt_string as usize;
        if strings > n {
            return None;
        }
        let mut cursor = header.off_dt_struct as usize;
        let mut nodes: Vec<FdtNode> = Vec::new();
        loop
            invariant
                n == blob@.len(),
                n >= 40,
                strings <= n,
                strings == be_u32(blob@, 12),
                header == FtdHeader::at(blob@),
                tree_nodes(blob@) == top_nodes(blob@, cursor as int, strings as int, nodes_models(
                    nodes@,
                    nodes@.len() as int,
                )),
            decreases n - cursor,
        {
            if cursor > n || n - cursor < 4 {
                return None;
            }
            if read_be_u32(blob, cursor) == FDT_END {
                return Some(Fdt { header, nodes });
            }
            match FdtNode::parse(blob, cursor, strings) {
                Some((node, next)) => {
                    proof {
                        lemma_nodes_models_push(nodes@, node, nodes@.len() as int);
                    }
                    nodes.push(node);
                    cursor = next;
                },
                None => return None,
            }
        }
    }

    pub fn nodes(&self) -> (r: &Vec<FdtNode>)
        ensures
            r@ == self.nodes@,
    {
        &self.nodes
    }

    /// The first top level node.
    pub fn root(&self) -> (r: &FdtNode)
        requires
            self.nodes@.len() > 0,
        ensures
            *r == self.nodes@[0],
    {
        &self.nodes[0]
    }
}

} // verus!
