use vstd::prelude::*;

verus! {

/// Little endian value of the 2 bytes of `s` at `off`.
pub open spec fn le_u16(s: Seq<u8>, off: int) -> int {
    s[off] + 0x100 * s[off + 1]
}

/// Little endian value of the 4 bytes of `s` at `off`.
pub open spec fn le_u32(s: Seq<u8>, off: int) -> int {
    s[off] + 0x100 * s[off + 1] + 0x1_0000 * s[off + 2] + 0x100_0000 * s[off + 3]
}

/// Little endian value of the 8 bytes of `s` at `off`.
pub open spec fn le_u64(s: Seq<u8>, off: int) -> int {
    le_u32(s, off) + 0x1_0000_0000 * le_u32(s, off + 4)
}

/// Big endian value of the 4 bytes of `s` at `off`.
pub open spec fn be_u32(s: Seq<u8>, off: int) -> int {
    0x100_0000 * s[off] + 0x1_0000 * s[off + 1] + 0x100 * s[off + 2] + s[off + 3]
}

/// Big endian value of the 8 bytes of `s` at `off`.
pub open spec fn be_u64(s: Seq<u8>, off: int) -> int {
    be_u32(s, off) * 0x1_0000_0000 + be_u32(s, off + 4)
}

/// The 4 bytes of `x` in little endian order.
pub open spec fn u32_le_bytes(x: u32) -> Seq<u8> {
    seq![
        (x % 0x100) as u8,
        ((x / 0x100) % 0x100) as u8,
        ((x / 0x1_0000) % 0x100) as u8,
        ((x / 0x100_0000) % 0x100) as u8,
    ]
}

/// The 8 bytes of `x` in little endian order.
pub open spec fn u64_le_bytes(x: u64) -> Seq<u8> {
    u32_le_bytes((x % 0x1_0000_0000) as u32) + u32_le_bytes((x / 0x1_0000_0000) as u32)
}

pub fn read_le_u16(s: &[u8], off: usize) -> (r: u16)
    requires
        off + 2 <= s@.len(),
    ensures
        r == le_u16(s@, off as int),
{
    s[off] as u16 + (s[off + 1] as u16) * 0x100
}

pub fn read_le_u32(s: &[u8], off: usize) -> (r: u32)
    requires
        off + 4 <= s@.len(),
    ensures
        r == le_u32(s@, off as int),
{
    s[off] as u32 + (s[off + 1] as u32) * 0x100 + (s[off + 2] as u32) * 0x1_0000 + (s[off + 3] as u32)
        * 0x100_0000
}

pub fn read_le_u64(s: &[u8], off: usize) -> (r: u64)
    requires
        off + 8 <= s@.len(),
    ensures
        r == le_u64(s@, off as int),
{
    let _len = s.len();
    let lo = read_le_u32(s, off) as u64;
    let hi = read_le_u32(s, off + 4) as u64;
    lo + hi * 0x1_0000_0000
}

pub fn read_be_u32(s: &[u8], off: usize) -> (r: u32)
    requires
        off + 4 <= s@.len(),
    ensures
        r == be_u32(s@, off as int),
{
    (s[off] as u32) * 0x100_0000 + (s[off + 1] as u32) * 0x1_0000 + (s[off + 2] as u32) * 0x100
        + s[off + 3] as u32
}

/// Reading back the 8 little endian bytes of `x` gives `x`.
pub proof fn lemma_u64_le_bytes_roundtrip(x: u64)
    ensures
        le_u64(u64_le_bytes(x), 0) == x,
        u64_le_bytes(x).len() == 8,
{
    let lo = (x % 0x1_0000_0000) as u32;
    let hi = (x / 0x1_0000_0000) as u32;
    lemma_u32_le_bytes_roundtrip(lo);
    lemma_u32_le_bytes_roundtrip(hi);
    let b = u64_le_bytes(x);
    assert(b == u32_le_bytes(lo) + u32_le_bytes(hi));
    assert(le_u32(b, 0) == le_u32(u32_le_bytes(lo), 0));
    assert(le_u32(b, 4) == le_u32(u32_le_bytes(hi), 0)) by {
        assert(b[4] == u32_le_bytes(hi)[0] && b[5] == u32_le_bytes(hi)[1] && b[6] == u32_le_bytes(hi)[2] && b[7]
            == u32_le_bytes(hi)[3]);
    }
    assert(x == x % 0x1_0000_0000 + 0x1_0000_0000 * (x / 0x1_0000_0000));
}

pub proof fn lemma_u32_le_bytes_roundtrip(x: u32)
    ensures
        le_u32(u32_le_bytes(x), 0) == x,
        u32_le_bytes(x).len() == 4,
{
    let b = u32_le_bytes(x);
    assert(b[0] == x % 0x100);
    assert(b[1] == (x / 0x100) % 0x100);
    assert(b[2] == (x / 0x1_0000) % 0x100);
    assert(b[3] == (x / 0x100_0000) % 0x100);
    assert(x == x % 0x100 + 0x100 * ((x / 0x100) % 0x100) + 0x1_0000 * ((x / 0x1_0000) % 0x100)
        + 0x100_0000 * ((x / 0x100_0000) % 0x100)) by (nonlinear_arith);
}

/// `n` zero bytes.
pub fn zeroed_bytes(n: usize) -> (r: Vec<u8>)
    ensures
        r@ == Seq::new(n as nat, |_i: int| 0u8),
{
    let mut r: Vec<u8> = Vec::new();
    let mut i: usize = 0;
    while i < n
        invariant
            i <= n,
            r@ == Seq::new(i as nat, |_i: int| 0u8),
        decreases n - i,
    {
        r.push(0);
        i += 1;
        assert(r@ =~= Seq::new(i as nat, |_i: int| 0u8));
    }
    r
}

pub fn u32_to_le_bytes(x: u32) -> (r: Vec<u8>)
    ensures
        r@ == u32_le_bytes(x),
{
    let mut r: Vec<u8> = Vec::new();
    r.push((x % 0x100) as u8);
    r.push(((x / 0x100) % 0x100) as u8);
    r.push(((x / 0x1_0000) % 0x100) as u8);
    r.push(((x / 0x100_0000) % 0x100) as u8);
    assert(r@ =~= u32_le_bytes(x));
    r
}

pub fn u64_to_le_bytes(x: u64) -> (r: Vec<u8>)
    ensures
        r@ == u64_le_bytes(x),
{
    let mut r = u32_to_le_bytes((x % 0x1_0000_0000) as u32);
    let mut hi = u32_to_le_bytes((x / 0x1_0000_0000) as u32);
    r.append(&mut hi);
    r
}

} // verus!

verus! {

/// Copies `len` bytes of `src` from `from` on into `buf` at `at`.
pub fn copy_into(buf: &mut Vec<u8>, at: usize, src: &[u8], from: usize, len: usize)
    requires
        at + len <= old(buf)@.len(),
        from + len <= src@.len(),
    ensures
        final(buf)@ == old(buf)@.subrange(0, at as int) + src@.subrange(from as int, from + len)
            + old(buf)@.subrange(at + len, old(buf)@.len() as int),
{
    let _n = src.len();
    let _m = buf.len();
    let mut i: usize = 0;
    while i < len
        invariant
            src@.len() <= usize::MAX,
            buf@.len() <= usize::MAX,
            at + len <= buf@.len(),
            from + len <= src@.len(),
            buf@.len() == old(buf)@.len(),
            i <= len,
            forall|j: int| 0 <= j < buf@.len() ==> #[trigger] buf@[j] == if at <= j < at + i {
                src@[from + j - at]
            } else {
                old(buf)@[j]
            },
        decreases len - i,
    {
        buf.set(at + i, src[from + i]);
        i += 1;
    }
    assert(buf@ =~= old(buf)@.subrange(0, at as int) + src@.subrange(from as int, from + len)
        + old(buf)@.subrange(at + len, old(buf)@.len() as int));
}

/// Sets the bytes of `buf` from `from` to its end to zero.
pub fn zero_from(buf: &mut Vec<u8>, from: usize)
    requires
        from <= old(buf)@.len(),
    ensures
        final(buf)@ == old(buf)@.subrange(0, from as int) + Seq::new(
            (old(buf)@.len() - from) as nat,
            |_i: int| 0u8,
        ),
{
    let mut i = from;
    while i < buf.len()
        invariant
            from <= i <= buf@.len(),
            buf@.len() == old(buf)@.len(),
            forall|j: int| 0 <= j < buf@.len() ==> #[trigger] buf@[j] == if from <= j < i {
                0u8
            } else {
                old(buf)@[j]
            },
        decreases buf@.len() - i,
    {
        buf.set(i, 0);
        i += 1;
    }
    assert(buf@ =~= old(buf)@.subrange(0, from as int) + Seq::new(
        (old(buf)@.len() - from) as nat,
        |_i: int| 0u8,
    ));
}

} // verus!
