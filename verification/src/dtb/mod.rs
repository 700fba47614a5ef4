pub mod parser;

use vstd::prelude::*;
use crate::dtb::parser::{Fdt, FdtNode, find_child_spec, find_prop_spec, prop_string};

verus! {

/// Number of leading `/` bytes of `s`.
pub open spec fn leading_slashes(s: Seq<u8>) -> int
    decreases s.len(),
{
    if s.len() > 0 && s[0] == 0x2f {
        1 + leading_slashes(s.drop_first())
    } else {
        0
    }
}

/// `s` without its leading `/` bytes.
pub fn trim_start_slashes(s: &[u8]) -> (r: Vec<u8>)
    ensures
        0 <= leading_slashes(s@) <= s@.len(),
        r@ == s@.skip(leading_slashes(s@)),
{
    let mut i: usize = 0;
    assert(s@.skip(0) =~= s@);
    while i < s.len() && s[i] == 0x2f
        invariant
            i <= s@.len(),
            leading_slashes(s@) == i + leading_slashes(s@.skip(i as int)),
        decreases s@.len() - i,
    {
        assert(s@.skip(i as int).drop_first() =~= s@.skip(i + 1));
        i += 1;
    }
    assert(leading_slashes(s@.skip(i as int)) == 0);
    let mut r: Vec<u8> = Vec::new();
    let mut j = i;
    while j < s.len()
        invariant
            i <= j <= s@.len(),
            r@ == s@.subrange(i as int, j as int),
        decreases s@.len() - j,
    {
        r.push(s[j]);
        j += 1;
    }
    assert(r@ =~= s@.skip(i as int));
    r
}

/// The name `chosen`.
pub open spec fn chosen_name() -> Seq<u8> {
    seq![0x63u8, 0x68, 0x6f, 0x73, 0x65, 0x6e]
}

/// The name `stdout-path`.
pub open spec fn stdout_path_name() -> Seq<u8> {
    seq![0x73u8, 0x74, 0x64, 0x6f, 0x75, 0x74, 0x2d, 0x70, 0x61, 0x74, 0x68]
}

/// The name of the console node that `root` gives: the `stdout-path` property of its `chosen`
/// child, with its leading slashes dropped.
pub open spec fn stdout_target(root: FdtNode) -> Option<Seq<u8>> {
    match find_child_spec(root.children@, chosen_name()) {
        None => None,
        Some(ci) => {
            let chosen = root.children@[ci];
            match find_prop_spec(chosen.properties@, stdout_path_name()) {
                None => None,
                Some(pi) => match chosen.properties@[pi].value {
                    None => None,
                    Some(v) => {
                        let path = prop_string(v@);
                        Some(path.skip(leading_slashes(path)))
                    },
                },
            }
        },
    }
}

/// Position, among the children of the root, of the node that the `stdout-path` property of
/// the root's `chosen` child names, with its leading slashes dropped.
pub open spec fn earlyconsole_index(fdt: &Fdt) -> Option<int> {
    if fdt.nodes@.len() == 0 {
        None
    } else {
        match stdout_target(fdt.nodes@[0]) {
            None => None,
            Some(name) => find_child_spec(fdt.nodes@[0].children@, name),
        }
    }
}

/// The node that the `stdout-path` property of the `/chosen` node names, among the children of
/// the root. `None` where the tree lacks any of them.
pub fn find_earlyconsole_node(fdt: &Fdt) -> (r: Option<&FdtNode>)
    ensures
        match earlyconsole_index(fdt) {
            None => r is None,
            Some(i) => r == Some(&fdt.nodes@[0].children@[i]),
        },
{
    if fdt.nodes.len() == 0 {
        return None;
    }
    let root = fdt.root();
    let chosen_key: [u8; 6] = [0x63, 0x68, 0x6f, 0x73, 0x65, 0x6e];
    assert(chosen_key@ =~= chosen_name());
    let chosen = match root.find_child_by_name(&chosen_key) {
        Some(c) => c,
        None => return None,
    };
    let stdout_key: [u8; 11] = [0x73, 0x74, 0x64, 0x6f, 0x75, 0x74, 0x2d, 0x70, 0x61, 0x74, 0x68];
    assert(stdout_key@ =~= stdout_path_name());
    let path = match chosen.read_prop_string(&stdout_key) {
        Some(p) => p,
        None => return None,
    };
    let node_name = trim_start_slashes(path.as_slice());
    root.find_child_by_name(node_name.as_slice())
}

/// Whether `s` starts with `prefix`.
pub open spec fn has_prefix(s: Seq<u8>, prefix: Seq<u8>) -> bool {
    prefix.len() <= s.len() && s.subrange(0, prefix.len() as int) == prefix
}

/// Position of the first of `nodes`, at or after `i`, whose name starts with `prefix`.
pub open spec fn first_with_prefix(nodes: Seq<FdtNode>, prefix: Seq<u8>, i: int) -> Option<int>
    decreases nodes.len() - i,
{
    if i < 0 || i >= nodes.len() {
        None
    } else if has_prefix(nodes[i].name_spec(), prefix) {
        Some(i)
    } else {
        first_with_prefix(nodes, prefix, i + 1)
    }
}

/// Position of the first child of `node` whose name starts with `prefix`, as the memory and
/// interrupt controller nodes are found at boot.
pub fn find_child_with_prefix(node: &FdtNode, prefix: &[u8]) -> (r: Option<usize>)
    ensures
        r == (match first_with_prefix(node.children@, prefix@, 0) {
            Some(i) => Some(i as usize),
            None => None::<usize>,
        }),
{
    let mut i: usize = 0;
    while i < node.children.len()
        invariant
            i <= node.children@.len(),
            first_with_prefix(node.children@, prefix@, 0) == first_with_prefix(node.children@, prefix@, i as int),
        decreases node.children@.len() - i,
    {
        if crate::utils::string::bytes_starts_with(node.children[i].name(), prefix) {
            return Some(i);
        }
        i += 1;
    }
    None
}

} // verus!
