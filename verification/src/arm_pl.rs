use vstd::prelude::*;
use vstd::string::StrSliceExecFns;
use crate::bytes::be_u32;
use crate::dtb::parser::{FdtNode, FdtProp};

verus! {

/// The early console: a PL011 UART reached before drivers run, at a kernel virtual address
/// once one is known.
pub struct ArmPl {
    pub ptr: Option<u64>,
}

/// The low byte of each character, which the early console sends.
pub open spec fn early_bytes(s: Seq<char>) -> Seq<u8> {
    s.map_values(|c: char| (c as u32 % 0x100) as u8)
}

impl ArmPl {
    /// The bytes to send for `s`: the low byte of each character, or nothing while no
    /// address is known.
    pub fn early_printk_str(&self, s: &str) -> (r: Vec<u8>)
        ensures
            self.ptr is None ==> r@.len() == 0,
            self.ptr is Some ==> r@ == early_bytes(s@),
    {
        let mut out: Vec<u8> = Vec::new();
        if self.ptr.is_some() {
            let n = s.unicode_len();
            let mut i: usize = 0;
            while i < n
                invariant
                    n == s@.len(),
                    self.ptr is Some,
                    i <= n,
                    out@ == early_bytes(s@.subrange(0, i as int)),
                decreases n - i,
            {
                let c = s.get_char(i);
                let ghost prefix = s@.subrange(0, i as int);
                assert(s@.subrange(0, i + 1) =~= prefix.push(c));
                assert(early_bytes(prefix.push(c)) =~= early_bytes(prefix).push((c as u32 % 0x100) as u8));
                match self.early_putchar(c) {
                    Some(b) => out.push(b),
                    None => {},
                }
                i += 1;
            }
            assert(s@.subrange(0, n as int) =~= s@);
        }
        out
    }

    /// The byte to send for `c`, once the transmit queue has room: its low byte, when an
    /// address is known.
    pub fn early_putchar(&self, c: char) -> (r: Option<u8>)
        ensures
            self.ptr is None ==> r is None,
            self.ptr is Some ==> r == Some((c as u32 % 0x100) as u8),
    {
        match self.ptr {
            Some(_) => Some(((c as u32) % 0x100) as u8),
            None => None,
        }
    }
}

/// Whether a property is called `reg`.
pub open spec fn is_reg(p: FdtProp) -> bool {
    p.name@ == seq![0x72u8, 0x65, 0x67]
}

/// The console address that the first `n` properties give: the first double word of the last
/// `reg` among them, moved into the kernel's map; `Some(None)` where none is a `reg`, and
/// `None` where a `reg` lacks that double word.
pub open spec fn early_ptr(props: Seq<FdtProp>, n: int) -> Option<Option<u64>>
    decreases n,
{
    if n <= 0 {
        Some(None)
    } else {
        match early_ptr(props, n - 1) {
            None => None,
            Some(p) => if !is_reg(props[n - 1]) {
                Some(p)
            } else {
                match props[n - 1].value {
                    None => None,
                    Some(v) => if v@.len() < 8 {
                        None
                    } else {
                        Some(Some(((be_u32(v@, 0) * 0x1_0000_0000 + be_u32(v@, 4)) as u64) | 0xffffff8000000000u64))
                    },
                }
            },
        }
    }
}

pub proof fn lemma_early_ptr_stays_none(props: Seq<FdtProp>, n: int, m: int)
    requires
        0 <= n <= m,
        early_ptr(props, n) is None,
    ensures
        early_ptr(props, m) is None,
    decreases m - n,
{
    if n < m {
        lemma_early_ptr_stays_none(props, n, m - 1);
    }
}

/// The early console that a device tree node describes: the first word of its last `reg`
/// property, moved into the kernel's map. `None` where a `reg` property lacks that word.
pub fn init_from_dtb_node(node: &FdtNode) -> (r: Option<ArmPl>)
    ensures
        match early_ptr(node.properties@, node.properties@.len() as int) {
            None => r is None,
            Some(p) => r == Some(ArmPl { ptr: p }),
        },
{
    let mut ptr: Option<u64> = None;
    let reg_name: [u8; 3] = [0x72, 0x65, 0x67];
    assert(reg_name@ =~= seq![0x72u8, 0x65, 0x67]);
    let properties = node.properties();
    let mut i: usize = 0;
    while i < properties.len()
        invariant
            i <= properties@.len(),
            properties@ == node.properties@,
            reg_name@ == seq![0x72u8, 0x65, 0x67],
            early_ptr(node.properties@, i as int) == Some(ptr),
        decreases properties@.len() - i,
    {
        let property = &properties[i];
        if crate::utils::string::bytes_equal(property.name(), &reg_name) {
            let len = match &property.value {
                Some(v) => v.len(),
                None => {
                    proof {
                        lemma_early_ptr_stays_none(node.properties@, i + 1, node.properties@.len() as int);
                    }
                    return None;
                },
            };
            if len < 8 {
                proof {
                    lemma_early_ptr_stays_none(node.properties@, i + 1, node.properties@.len() as int);
                }
                return None;
            }
            let phys_addr = match property.read_u64(0) {
                Some(a) => a,
                None => return None,
            };
            ptr = Some(phys_addr | 0xffffff8000000000);
        }
        i += 1;
    }
    Some(ArmPl { ptr })
}

/// Turns the early console off.
pub fn disable_earlyconsole(console: &mut ArmPl)
    ensures
        final(console).ptr is None,
{
    console.ptr = None;
}

} // verus!
