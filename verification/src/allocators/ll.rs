use vstd::prelude::*;
use crate::utils::spin_lock::SpinLock;

verus! {

/// Alignment of a hole record: two 64-bit words.
pub const LL_HOLE_ALIGN: u64 = 8;
/// Bytes of a hole record: its size and the link to the next hole.
pub const LL_HOLE_SIZE: u64 = 16;
/// Bytes of the header before each allocation: where its region starts and ends.
pub const LL_HEADER_SIZE: u64 = 16;
/// The allocator manages addresses below this one.
pub const LL_ADDR_LIMIT: u64 = 0xffff_ffff_0000_0000;

/// A free region.
#[derive(Debug, Clone, Copy, PartialEq, Eq, Structural)]
pub struct LLHole {
    pub addr: u64,
    pub size: u64,
}

/// The header stored before allocation `ptr`: the region the allocation took.
#[derive(Debug, Clone, Copy, PartialEq, Eq, Structural)]
pub struct LLHeader {
    pub ptr: u64,
    pub region_start: u64,
    pub region_end: u64,
}

pub struct LLStatistics {
    pub bytes_allocated: usize,
}

impl LLStatistics {
    pub fn new() -> (r: Self)
        ensures
            r.bytes_allocated == 0,
    {
        Self { bytes_allocated: 0 }
    }
}

/// Whether address `a` lies in one of the holes.
pub open spec fn free_at(holes: Seq<LLHole>, a: int) -> bool {
    exists|i: int| 0 <= i < holes.len() && #[trigger] holes[i].addr <= a < holes[i].addr + holes[i].size
}

/// Holes in address order, not overlapping, not empty, below the limit.
pub open spec fn holes_wf(holes: Seq<LLHole>) -> bool {
    &&& forall|i: int| 0 <= i < holes.len() ==> (#[trigger] holes[i]).size > 0 && holes[i].addr + holes[i].size <= LL_ADDR_LIMIT
    &&& forall|i: int, j: int| 0 <= i < j < holes.len() ==> #[trigger] holes[i].addr + holes[i].size <= #[trigger] holes[j].addr
}

/// Whether `[start, end)` meets no hole.
pub open spec fn clear_of_holes(holes: Seq<LLHole>, start: int, end: int) -> bool {
    forall|i: int| 0 <= i < holes.len() ==> #[trigger] holes[i].addr + holes[i].size <= start || end <= holes[i].addr
}

/// Header `hd` lies before its bytes in its region, below the limit, and meets no hole.
pub open spec fn header_ok(holes: Seq<LLHole>, hd: LLHeader) -> bool {
    &&& hd.region_start + LL_HEADER_SIZE <= hd.ptr <= hd.region_end <= LL_ADDR_LIMIT
    &&& clear_of_holes(holes, hd.region_start as int, hd.region_end as int)
}

/// Whether the regions of two headers do not meet.
pub open spec fn regions_apart(a: LLHeader, b: LLHeader) -> bool {
    a.region_end <= b.region_start || b.region_end <= a.region_start
}

/// Every header is in order and the regions of any two of them are apart.
pub open spec fn headers_wf(holes: Seq<LLHole>, headers: Seq<LLHeader>) -> bool {
    &&& forall|k: int| 0 <= k < headers.len() ==> header_ok(holes, #[trigger] headers[k])
    &&& forall|i: int, j: int| 0 <= i < headers.len() && 0 <= j < headers.len() && i != j ==> regions_apart(
        #[trigger] headers[i],
        #[trigger] headers[j],
    )
}

/// `x` rounded up to a multiple of `a`.
pub open spec fn round_up_to(x: int, a: int) -> int {
    (x + a - 1) / a * a
}

/// Where a request for `size` bytes aligned to `align` would start in `hole`: after a header,
/// at the alignment asked for, and at least that of a hole record.
pub open spec fn alloc_ptr(hole: LLHole, align: int) -> int {
    round_up_to(hole.addr + LL_HEADER_SIZE, if align > LL_HOLE_ALIGN { align } else { LL_HOLE_ALIGN as int })
}

/// Where it would end, rounded up so that a hole record can follow.
pub open spec fn alloc_end(hole: LLHole, size: int, align: int) -> int {
    round_up_to(alloc_ptr(hole, align) + size, LL_HOLE_ALIGN as int)
}

/// Whether the request, with its header and the rounding, fits in `hole`.
pub open spec fn fits(hole: LLHole, size: int, align: int) -> bool {
    hole.size >= alloc_end(hole, size, align) - hole.addr
}

/// Position of the first hole, at or after `i`, that the request fits in.
pub open spec fn first_fit(holes: Seq<LLHole>, size: int, align: int, i: int) -> Option<int>
    decreases holes.len() - i,
{
    if i < 0 || i >= holes.len() {
        None
    } else if fits(holes[i], size, align) {
        Some(i)
    } else {
        first_fit(holes, size, align, i + 1)
    }
}

pub proof fn lemma_first_fit(holes: Seq<LLHole>, size: int, align: int, i: int)
    ensures
        first_fit(holes, size, align, i) matches Some(k) ==> i <= k < holes.len() && fits(holes[k], size, align),
    decreases holes.len() - i,
{
    if 0 <= i < holes.len() && !fits(holes[i], size, align) {
        lemma_first_fit(holes, size, align, i + 1);
    }
}

/// Rounds `x` up to a multiple of `a`, or `None` when that does not fit in 64 bits.
fn round_up_checked(x: u64, a: u64) -> (r: Option<u64>)
    requires
        a > 0,
    ensures
        r matches Some(v) ==> v == round_up_to(x as int, a as int) && v % a == 0,
        r is None ==> round_up_to(x as int, a as int) > u64::MAX,
{
    let rem = x % a;
    proof {
        vstd::arithmetic::div_mod::lemma_fundamental_div_mod(x as int, a as int);
        vstd::arithmetic::div_mod::lemma_div_pos_is_pos(x as int, a as int);
        assert((a as int) * (x as int / a as int) >= 0) by (nonlinear_arith)
            requires
                a > 0,
                x as int / a as int >= 0,
        ;
    }
    let down = x - rem;
    proof {
        let q = x as int / a as int;
        assert(down == a * q);
        if rem == 0 {
            vstd::arithmetic::div_mod::lemma_div_multiples_vanish_fancy(q, a - 1, a as int);
            assert((a * q + (a - 1)) / (a as int) == q);
            assert(round_up_to(x as int, a as int) == q * a);
        } else {
            vstd::arithmetic::div_mod::lemma_div_multiples_vanish_fancy(q + 1, rem - 1, a as int);
            assert(x + a - 1 == a * (q + 1) + (rem - 1)) by (nonlinear_arith)
                requires
                    x == a * q + rem,
            ;
            assert(round_up_to(x as int, a as int) == (q + 1) * a);
            assert((q + 1) * a == down + a) by (nonlinear_arith)
                requires
                    down == a * q,
            ;
        }
        vstd::arithmetic::mul::lemma_mul_is_commutative(a as int, q);
        vstd::arithmetic::div_mod::lemma_mod_multiples_basic(q, a as int);
        vstd::arithmetic::div_mod::lemma_mod_multiples_basic(q + 1, a as int);
    }
    if rem == 0 {
        Some(x)
    } else if down > u64::MAX - a {
        None
    } else {
        Some(down + a)
    }
}

/// The index of the header whose allocation starts at `ptr`.
pub open spec fn header_index(headers: Seq<LLHeader>, ptr: u64) -> int {
    choose|k: int| 0 <= k < headers.len() && headers[k].ptr == ptr
}

/// `holes` with hole `i` grown over hole `i + 1`, which goes.
pub open spec fn merged(holes: Seq<LLHole>, i: int) -> Seq<LLHole> {
    holes.update(i, LLHole { addr: holes[i].addr, size: (holes[i].size + holes[i + 1].size) as u64 }).remove(i + 1)
}

/// Two headers never share an allocation address.
pub proof fn lemma_header_ptr_unique(holes: Seq<LLHole>, headers: Seq<LLHeader>, i: int, j: int)
    requires
        headers_wf(holes, headers),
        0 <= i < headers.len(),
        0 <= j < headers.len(),
        headers[i].ptr == headers[j].ptr,
    ensures
        i == j,
{
    if i != j {
        assert(regions_apart(headers[i], headers[j]));
        assert(header_ok(holes, headers[i]));
        assert(header_ok(holes, headers[j]));
    }
}

/// Dropping a header keeps the others in order, and they stay apart from its region.
pub proof fn lemma_remove_header(holes: Seq<LLHole>, headers: Seq<LLHeader>, k: int)
    requires
        headers_wf(holes, headers),
        0 <= k < headers.len(),
    ensures
        headers_wf(holes, headers.remove(k)),
        forall|j: int| 0 <= j < headers.remove(k).len() ==> regions_apart(headers[k], #[trigger] headers.remove(k)[j]),
{
    let r = headers.remove(k);
    assert forall|j: int| 0 <= j < r.len() implies header_ok(holes, #[trigger] r[j]) by {
        if j < k {
            assert(r[j] == headers[j]);
        } else {
            assert(r[j] == headers[j + 1]);
        }
    }
    assert forall|i: int, j: int| 0 <= i < r.len() && 0 <= j < r.len() && i != j implies regions_apart(
        #[trigger] r[i],
        #[trigger] r[j],
    ) by {
        let bi = if i < k { i } else { i + 1 };
        let bj = if j < k { j } else { j + 1 };
        assert(r[i] == headers[bi]);
        assert(r[j] == headers[bj]);
        assert(regions_apart(headers[bi], headers[bj]));
    }
    assert forall|j: int| 0 <= j < r.len() implies regions_apart(headers[k], #[trigger] r[j]) by {
        let bj = if j < k { j } else { j + 1 };
        assert(r[j] == headers[bj]);
        assert(regions_apart(headers[k], headers[bj]));
    }
}

/// Inserting a hole that meets no other hole and no allocated region, at its place in address
/// order, keeps both lists in order and frees exactly its addresses more.
pub proof fn lemma_insert_hole(before: Seq<LLHole>, headers: Seq<LLHeader>, p: int, hole: LLHole)
    requires
        holes_wf(before),
        headers_wf(before, headers),
        0 <= p <= before.len(),
        hole.size > 0,
        hole.addr + hole.size <= LL_ADDR_LIMIT,
        clear_of_holes(before, hole.addr as int, hole.addr + hole.size),
        forall|i: int| 0 <= i < p ==> #[trigger] before[i].addr < hole.addr,
        p < before.len() ==> before[p].addr >= hole.addr,
        forall|k: int| 0 <= k < headers.len() ==> (#[trigger] headers[k]).region_end <= hole.addr || hole.addr
            + hole.size <= headers[k].region_start,
    ensures
        holes_wf(before.insert(p, hole)),
        headers_wf(before.insert(p, hole), headers),
        forall|a: int| free_at(before.insert(p, hole), a) <==> free_at(before, a) || (hole.addr <= a < hole.addr + hole.size),
{
    let h = before.insert(p, hole);
    assert forall|i: int| 0 <= i < h.len() implies (#[trigger] h[i]).size > 0 && h[i].addr + h[i].size <= LL_ADDR_LIMIT by {
        if i < p {
            assert(h[i] == before[i]);
        } else if i > p {
            assert(h[i] == before[i - 1]);
        }
    }
    assert forall|i: int, j: int| 0 <= i < j < h.len() implies #[trigger] h[i].addr + h[i].size <= #[trigger] h[j].addr by {
        if j < p {
            assert(before[i].addr + before[i].size <= before[j].addr);
        } else if j == p {
            assert(before[i].addr < hole.addr);
            assert(before[i].addr + before[i].size <= hole.addr || hole.addr + hole.size <= before[i].addr);
        } else if i == p {
            assert(before[j - 1].addr >= hole.addr) by {
                if j - 1 > p {
                    assert(before[p].addr + before[p].size <= before[j - 1].addr);
                }
            }
            assert(before[j - 1].addr + before[j - 1].size <= hole.addr || hole.addr + hole.size <= before[j - 1].addr);
        } else if i < p {
            assert(before[i].addr + before[i].size <= before[j - 1].addr);
        } else {
            assert(before[i - 1].addr + before[i - 1].size <= before[j - 1].addr);
        }
    }
    assert forall|a: int| free_at(h, a) <==> free_at(before, a) || (hole.addr <= a < hole.addr + hole.size) by {
        if free_at(h, a) {
            let i = choose|i: int| 0 <= i < h.len() && #[trigger] h[i].addr <= a < h[i].addr + h[i].size;
            if i < p {
                assert(before[i].addr <= a < before[i].addr + before[i].size);
            } else if i > p {
                assert(before[i - 1].addr <= a < before[i - 1].addr + before[i - 1].size);
            }
        }
        if free_at(before, a) {
            let i = choose|i: int| 0 <= i < before.len() && #[trigger] before[i].addr <= a < before[i].addr + before[i].size;
            if i < p {
                assert(h[i] == before[i]);
            } else {
                assert(h[i + 1] == before[i]);
            }
        }
        if hole.addr <= a < hole.addr + hole.size {
            assert(h[p] == hole);
        }
    }
    assert forall|k: int| 0 <= k < headers.len() implies header_ok(h, #[trigger] headers[k]) by {
        let hd = headers[k];
        assert(header_ok(before, hd));
        assert forall|i: int| 0 <= i < h.len() implies #[trigger] h[i].addr + h[i].size <= hd.region_start
            || hd.region_end <= h[i].addr by {
            if i < p {
                assert(h[i] == before[i]);
            } else if i > p {
                assert(h[i] == before[i - 1]);
            }
        }
    }
}

/// Taking the region `hd` from the front of hole `k` (all of it, or up to a rest that stays a
/// hole) and recording it in a header keeps both lists in order and frees exactly its
/// addresses less.
pub proof fn lemma_take(before: Seq<LLHole>, after: Seq<LLHole>, headers: Seq<LLHeader>, k: int, split: bool, hd: LLHeader)
    requires
        holes_wf(before),
        headers_wf(before, headers),
        0 <= k < before.len(),
        hd.region_start == before[k].addr,
        hd.region_start + LL_HEADER_SIZE <= hd.ptr <= hd.region_end,
        hd.region_end <= before[k].addr + before[k].size,
        split ==> hd.region_end < before[k].addr + before[k].size && after == before.update(
            k,
            LLHole { addr: hd.region_end, size: (before[k].addr + before[k].size - hd.region_end) as u64 },
        ),
        !split ==> hd.region_end == before[k].addr + before[k].size && after == before.remove(k),
    ensures
        holes_wf(after),
        headers_wf(after, headers.push(hd)),
        forall|a: int| free_at(after, a) <==> free_at(before, a) && !(hd.region_start <= a < hd.region_end),
{
    let h = after;
    let hole = before[k];
    assert forall|i: int| 0 <= i < h.len() implies (#[trigger] h[i]).size > 0 && h[i].addr + h[i].size <= LL_ADDR_LIMIT by {
        if !split && i >= k {
            assert(h[i] == before[i + 1]);
        }
    }
    assert forall|i: int, j: int| 0 <= i < j < h.len() implies #[trigger] h[i].addr + h[i].size <= #[trigger] h[j].addr by {
        if split {
            if i == k {
                assert(before[k].addr + before[k].size <= before[j].addr);
            } else if j == k {
                assert(before[i].addr + before[i].size <= before[k].addr);
            } else {
                assert(before[i].addr + before[i].size <= before[j].addr);
            }
        } else {
            if j < k {
                assert(before[i].addr + before[i].size <= before[j].addr);
            } else if i < k {
                assert(before[i].addr + before[i].size <= before[j + 1].addr);
            } else {
                assert(before[i + 1].addr + before[i + 1].size <= before[j + 1].addr);
            }
        }
    }
    assert forall|a: int| free_at(h, a) <==> free_at(before, a) && !(hd.region_start <= a < hd.region_end) by {
        if free_at(h, a) {
            let i = choose|i: int| 0 <= i < h.len() && #[trigger] h[i].addr <= a < h[i].addr + h[i].size;
            if split {
                if i != k {
                    assert(before[i] == h[i]);
                    if i < k {
                        assert(before[i].addr + before[i].size <= before[k].addr);
                    } else {
                        assert(before[k].addr + before[k].size <= before[i].addr);
                    }
                } else {
                    assert(before[k].addr <= a < before[k].addr + before[k].size);
                }
            } else {
                let bi = if i < k { i } else { i + 1 };
                assert(before[bi] == h[i]);
                if bi < k {
                    assert(before[bi].addr + before[bi].size <= before[k].addr);
                } else {
                    assert(before[k].addr + before[k].size <= before[bi].addr);
                }
            }
        }
        if free_at(before, a) && !(hd.region_start <= a < hd.region_end) {
            let i = choose|i: int| 0 <= i < before.len() && #[trigger] before[i].addr <= a < before[i].addr + before[i].size;
            if split {
                if i == k {
                    assert(h[k].addr <= a < h[k].addr + h[k].size);
                } else {
                    assert(h[i] == before[i]);
                }
            } else {
                if i < k {
                    assert(h[i] == before[i]);
                } else if i > k {
                    assert(h[i - 1] == before[i]);
                }
            }
        }
    }
    let hs = headers.push(hd);
    assert forall|m: int| 0 <= m < hs.len() implies header_ok(h, #[trigger] hs[m]) by {
        let g = hs[m];
        if m == headers.len() {
            assert forall|i: int| 0 <= i < h.len() implies #[trigger] h[i].addr + h[i].size <= g.region_start
                || g.region_end <= h[i].addr by {
                if split {
                    if i < k {
                        assert(before[i].addr + before[i].size <= before[k].addr);
                    } else if i > k {
                        assert(before[k].addr + before[k].size <= before[i].addr);
                    }
                } else {
                    if i < k {
                        assert(before[i].addr + before[i].size <= before[k].addr);
                    } else {
                        assert(before[k].addr + before[k].size <= before[i + 1].addr);
                    }
                }
            }
        } else {
            assert(g == headers[m]);
            assert(header_ok(before, g));
            assert forall|i: int| 0 <= i < h.len() implies #[trigger] h[i].addr + h[i].size <= g.region_start
                || g.region_end <= h[i].addr by {
                if split {
                    if i == k {
                        assert(before[k].addr + before[k].size <= g.region_start || g.region_end <= before[k].addr);
                    } else {
                        assert(h[i] == before[i]);
                    }
                } else if i < k {
                    assert(h[i] == before[i]);
                } else {
                    assert(h[i] == before[i + 1]);
                }
            }
        }
    }
    assert forall|i: int, j: int| 0 <= i < hs.len() && 0 <= j < hs.len() && i != j implies regions_apart(
        #[trigger] hs[i],
        #[trigger] hs[j],
    ) by {
        if i < headers.len() && j < headers.len() {
            assert(regions_apart(headers[i], headers[j]));
        } else if i < headers.len() {
            assert(header_ok(before, headers[i]));
            assert(before[k].addr + before[k].size <= headers[i].region_start || headers[i].region_end <= before[k].addr);
        } else {
            assert(header_ok(before, headers[j]));
            assert(before[k].addr + before[k].size <= headers[j].region_start || headers[j].region_end <= before[k].addr);
        }
    }
}

/// Merging a hole with the one that starts where it ends keeps both lists in order and frees
/// the same addresses.
pub proof fn lemma_merge(before: Seq<LLHole>, headers: Seq<LLHeader>, i: int)
    requires
        holes_wf(before),
        headers_wf(before, headers),
        0 <= i,
        i + 1 < before.len(),
        before[i].addr + before[i].size == before[i + 1].addr,
    ensures
        holes_wf(merged(before, i)),
        headers_wf(merged(before, i), headers),
        merged(before, i).len() == before.len() - 1,
        forall|a: int| free_at(merged(before, i), a) <==> free_at(before, a),
{
    let m = merged(before, i);
    let joined = LLHole { addr: before[i].addr, size: (before[i].size + before[i + 1].size) as u64 };
    assert(before[i + 1].addr + before[i + 1].size <= LL_ADDR_LIMIT);
    assert(joined.addr + joined.size == before[i + 1].addr + before[i + 1].size);
    assert(m[i] == joined);
    assert forall|j: int| 0 <= j < m.len() && j != i implies #[trigger] m[j] == (if j < i { before[j] } else { before[j + 1] }) by {}
    assert forall|j: int| 0 <= j < m.len() implies (#[trigger] m[j]).size > 0 && m[j].addr + m[j].size <= LL_ADDR_LIMIT by {
        if j < i {
            assert(m[j] == before[j]);
        } else if j > i {
            assert(m[j] == before[j + 1]);
        }
    }
    assert forall|a: int, b: int| 0 <= a < b < m.len() implies #[trigger] m[a].addr + m[a].size <= #[trigger] m[b].addr by {
        if b < i {
            assert(before[a].addr + before[a].size <= before[b].addr);
        } else if b == i {
            assert(before[a].addr + before[a].size <= before[i].addr);
        } else if a == i {
            assert(m[b] == before[b + 1]);
            if b + 1 > i + 1 {
                assert(before[i + 1].addr + before[i + 1].size <= before[b + 1].addr);
            }
        } else if a < i {
            assert(m[b] == before[b + 1]);
            assert(before[a].addr + before[a].size <= before[b + 1].addr);
        } else {
            assert(m[a] == before[a + 1]);
            assert(m[b] == before[b + 1]);
            assert(before[a + 1].addr + before[a + 1].size <= before[b + 1].addr);
        }
    }
    assert forall|x: int| free_at(m, x) <==> free_at(before, x) by {
        if free_at(m, x) {
            let j = choose|j: int| 0 <= j < m.len() && #[trigger] m[j].addr <= x < m[j].addr + m[j].size;
            if j < i {
                assert(before[j].addr <= x < before[j].addr + before[j].size);
            } else if j > i {
                assert(before[j + 1].addr <= x < before[j + 1].addr + before[j + 1].size);
            } else if x < before[i + 1].addr {
                assert(before[i].addr <= x < before[i].addr + before[i].size);
            } else {
                assert(before[i + 1].addr <= x < before[i + 1].addr + before[i + 1].size);
            }
        }
        if free_at(before, x) {
            let j = choose|j: int| 0 <= j < before.len() && #[trigger] before[j].addr <= x < before[j].addr + before[j].size;
            if j < i {
                assert(m[j] == before[j]);
            } else if j > i + 1 {
                assert(m[j - 1] == before[j]);
            } else {
                assert(m[i].addr <= x < m[i].addr + m[i].size);
            }
        }
    }
    assert forall|k: int| 0 <= k < headers.len() implies header_ok(m, #[trigger] headers[k]) by {
        let hd = headers[k];
        assert(header_ok(before, hd));
        assert forall|j: int| 0 <= j < m.len() implies #[trigger] m[j].addr + m[j].size <= hd.region_start
            || hd.region_end <= m[j].addr by {
            if j < i {
                assert(m[j] == before[j]);
            } else if j > i {
                assert(m[j] == before[j + 1]);
            } else {
                assert(before[i].addr + before[i].size <= hd.region_start || hd.region_end <= before[i].addr);
                assert(before[i + 1].addr + before[i + 1].size <= hd.region_start || hd.region_end <= before[i + 1].addr);
            }
        }
    }
}

/// Position of the first hole, at or after `i`, that does not start below `a`.
pub open spec fn hole_pos(holes: Seq<LLHole>, a: int, i: int) -> int
    decreases holes.len() - i,
{
    if i < 0 || i >= holes.len() || holes[i].addr >= a {
        i
    } else {
        hole_pos(holes, a, i + 1)
    }
}

pub proof fn lemma_hole_pos(holes: Seq<LLHole>, a: int, i: int, p: int)
    requires
        0 <= i <= p <= holes.len(),
        forall|j: int| i <= j < p ==> #[trigger] holes[j].addr < a,
        p < holes.len() ==> holes[p].addr >= a,
    ensures
        hole_pos(holes, a, i) == p,
    decreases p - i,
{
    if i < p {
        lemma_hole_pos(holes, a, i + 1, p);
    }
}

/// Whether hole `i` ends where hole `i + 1` starts.
pub open spec fn adjoins(s: Seq<LLHole>, i: int) -> bool {
    s[i].addr + s[i].size == s[i + 1].addr
}

/// `s` after merging, into hole `cur - 1`, the holes at `cur` as long as they adjoin it.
pub open spec fn merge_back(s: Seq<LLHole>, cur: int) -> Seq<LLHole>
    decreases s.len(),
{
    if 0 < cur < s.len() && adjoins(s, cur - 1) {
        merge_back(merged(s, cur - 1), cur)
    } else {
        s
    }
}

/// `s` after merging, into hole `cur`, the holes after it as long as they adjoin it.
pub open spec fn merge_forward(s: Seq<LLHole>, cur: int) -> Seq<LLHole>
    decreases s.len(),
{
    if 0 <= cur && cur + 1 < s.len() && adjoins(s, cur) {
        merge_forward(merged(s, cur), cur)
    } else {
        s
    }
}

/// The holes after freeing `region_start..region_end` in `holes`: a hole for the region at
/// its place in address order, merged with the holes it touches.
pub open spec fn freed(holes: Seq<LLHole>, region_start: u64, region_end: u64) -> Seq<LLHole> {
    let p = hole_pos(holes, region_start as int, 0);
    let hole = LLHole { addr: region_start, size: (region_end - region_start) as u64 };
    merge_forward(merge_back(holes.insert(p, hole), p), p)
}

/// Whether `after` and `r` are what allocating `size` bytes aligned to `align` makes of
/// `before`: the request goes to the first hole it fits in, after a header; the rest of the
/// hole stays a hole when more than two hole records remain, else the region takes it all.
pub open spec fn allocated(before: LLAllocator, size: int, align: int, after: LLAllocator, r: Option<u64>) -> bool {
    match first_fit(before.holes@, size, align, 0) {
        None => r is None && after.holes@ == before.holes@ && after.headers@ == before.headers@
            && after.stats == before.stats,
        Some(k) => {
            let hole = before.holes@[k];
            let ptr = alloc_ptr(hole, align);
            let end = alloc_end(hole, size, align);
            let hole_end = hole.addr + hole.size;
            let split = hole_end >= end + 2 * LL_HOLE_SIZE;
            let region_end = if split { end } else { hole_end };
            &&& r == Some(ptr as u64)
            &&& ptr % align == 0
            &&& hole.addr + LL_HEADER_SIZE <= ptr
            &&& ptr + size <= region_end
            &&& after.headers@ == before.headers@.push(
                LLHeader { ptr: ptr as u64, region_start: hole.addr, region_end: region_end as u64 },
            )
            &&& split ==> after.holes@ == before.holes@.update(
                k,
                LLHole { addr: end as u64, size: (hole_end - end) as u64 },
            )
            &&& !split ==> after.holes@ == before.holes@.remove(k)
            &&& forall|a: int| free_at(after.holes@, a) <==> free_at(before.holes@, a) && !(hole.addr <= a < region_end)
            &&& after.stats.bytes_allocated == vstd::math::min(before.stats.bytes_allocated + size, usize::MAX as int)
        },
    }
}

/// Whether `after` is what freeing the allocation at `ptr`, of `size` bytes, makes of
/// `before`: its header goes and its region is free again, merged with the holes it touches.
pub open spec fn deallocated(before: LLAllocator, ptr: u64, size: int, after: LLAllocator) -> bool {
    let k = header_index(before.headers@, ptr);
    let hd = before.headers@[k];
    &&& after.headers@ == before.headers@.remove(k)
    &&& after.holes@ == freed(before.holes@, hd.region_start, hd.region_end)
    &&& forall|a: int| free_at(after.holes@, a) <==> free_at(before.holes@, a) || (hd.region_start <= a < hd.region_end)
    &&& after.holes@.len() <= before.holes@.len() + 1
    &&& after.stats.bytes_allocated == (if before.stats.bytes_allocated >= size {
        before.stats.bytes_allocated - size
    } else {
        0
    })
}

/// Freeing an allocation right after making it leaves the same headers and the same free
/// addresses as before it, and the byte count back where it was unless it had saturated.
pub proof fn lemma_allocate_then_free(a0: LLAllocator, a1: LLAllocator, a2: LLAllocator, size: usize, align: usize, ptr: u64)
    requires
        a0.wf(),
        a1.wf(),
        allocated(a0, size as int, align as int, a1, Some(ptr)),
        deallocated(a1, ptr, size as int, a2),
    ensures
        a2.headers@ == a0.headers@,
        forall|a: int| free_at(a2.holes@, a) <==> free_at(a0.holes@, a),
        a0.stats.bytes_allocated + size <= usize::MAX ==> a2.stats.bytes_allocated == a0.stats.bytes_allocated,
{
    lemma_first_fit(a0.holes@, size as int, align as int, 0);
    let k = first_fit(a0.holes@, size as int, align as int, 0)->Some_0;
    let last = a1.headers@.len() - 1;
    let c = header_index(a1.headers@, ptr);
    assert(a1.headers@[last].ptr == ptr);
    lemma_header_ptr_unique(a1.holes@, a1.headers@, last, c);
    assert(a1.headers@.remove(last) =~= a0.headers@);
    let hole = a0.holes@[k];
    let hd = a1.headers@[last];
    assert forall|a: int| free_at(a2.holes@, a) <==> free_at(a0.holes@, a) by {
        if hd.region_start <= a < hd.region_end {
            assert(hole.addr <= a < hole.addr + hole.size);
        }
    }
}

/// A first-fit allocator over a list of free regions in address order. Each allocation is
/// preceded by a header that records the region it took; freeing turns that region back into
/// a hole and merges it with the holes it touches.
pub struct LLAllocator {
    pub holes: Vec<LLHole>,
    pub headers: Vec<LLHeader>,
    pub stats: LLStatistics,
}

impl LLAllocator {
    pub open spec fn wf(&self) -> bool {
        &&& holes_wf(self.holes@)
        &&& headers_wf(self.holes@, self.headers@)
    }

    /// No memory yet.
    pub fn new() -> (r: Self)
        ensures
            r.wf(),
            r.holes@.len() == 0,
            r.headers@.len() == 0,
            r.stats.bytes_allocated == 0,
    {
        Self { holes: Vec::new(), headers: Vec::new(), stats: LLStatistics::new() }
    }

    /// Pages to ask the page allocator for when no hole fits `size_hint` bytes: enough for
    /// them and one more page, and at least eight.
    pub fn pages_to_claim(size_hint: usize) -> (r: usize)
        ensures
            r == vstd::math::max((size_hint + 4095) / 4096 + 1, 8),
    {
        let pages = size_hint / 4096 + if size_hint % 4096 == 0 { 0 } else { 1 } + 1;
        if pages > 8 { pages } else { 8 }
    }

    /// Index of the first hole that does not start below `addr`.
    fn hole_position(&self, addr: u64) -> (p: usize)
        requires
            holes_wf(self.holes@),
        ensures
            p <= self.holes@.len(),
            forall|i: int| 0 <= i < p ==> #[trigger] self.holes@[i].addr < addr,
            p < self.holes@.len() ==> self.holes@[p as int].addr >= addr,
    {
        let mut p: usize = 0;
        while p < self.holes.len() && self.holes[p].addr < addr
            invariant
                p <= self.holes@.len(),
                forall|i: int| 0 <= i < p ==> #[trigger] self.holes@[i].addr < addr,
            decreases self.holes@.len() - p,
        {
            p += 1;
        }
        p
    }

    /// Adds `size` fresh bytes at `addr` as a hole, in address order, without merging.
    pub fn claim_region(&mut self, addr: u64, size: u64)
        requires
            old(self).wf(),
            size > 0,
            addr + size <= LL_ADDR_LIMIT,
            clear_of_holes(old(self).holes@, addr as int, addr + size),
            forall|k: int| 0 <= k < old(self).headers@.len() ==> (#[trigger] old(self).headers@[k]).region_end <= addr
                || addr + size <= old(self).headers@[k].region_start,
        ensures
            final(self).wf(),
            final(self).headers@ == old(self).headers@,
            final(self).stats == old(self).stats,
            final(self).holes@.len() == old(self).holes@.len() + 1,
            exists|p: int| 0 <= p <= old(self).holes@.len() && final(self).holes@ == #[trigger] old(self).holes@.insert(
                p,
                LLHole { addr, size },
            ),
            forall|a: int| free_at(final(self).holes@, a) <==> free_at(old(self).holes@, a) || (addr <= a < addr + size),
    {
        let hole = LLHole { addr, size };
        let p = self.hole_position(addr);
        proof {
            lemma_insert_hole(self.holes@, self.headers@, p as int, hole);
        }
        self.holes.insert(p, hole);
    }

    /// Takes `size` bytes aligned to `align` from the first hole they fit in, after a header;
    /// when more than two hole records remain behind them, that rest stays a hole. Returns
    /// the address of the bytes, or `None` when no hole fits, after which the caller claims
    /// more memory and asks again.
    pub fn allocate(&mut self, size: usize, align: usize) -> (r: Option<u64>)
        requires
            old(self).wf(),
            0 < align,
            align & (align - 1) as usize == 0,
        ensures
            final(self).wf(),
            allocated(*old(self), size as int, align as int, *final(self), r),
    {
        let size64 = size as u64;
        let align64 = align as u64;
        let necessary_alignment: u64 = if align64 > LL_HOLE_ALIGN { align64 } else { LL_HOLE_ALIGN };
        proof {
            lemma_first_fit(old(self).holes@, size as int, align as int, 0);
        }
        let mut k: usize = 0;
        while k < self.holes.len()
            invariant
                self.wf(),
                self.holes@ == old(self).holes@,
                self.headers@ == old(self).headers@,
                self.stats == old(self).stats,
                k <= self.holes@.len(),
                first_fit(old(self).holes@, size as int, align as int, 0) == first_fit(
                    old(self).holes@,
                    size as int,
                    align as int,
                    k as int,
                ),
                size64 == size,
                align64 == align,
                necessary_alignment == (if align > LL_HOLE_ALIGN { align as int } else { LL_HOLE_ALIGN as int }),
                0 < align,
                align & (align - 1) as usize == 0,
            decreases self.holes@.len() - k,
        {
            let hole = self.holes[k];
            proof {
                assert(hole.addr + hole.size <= LL_ADDR_LIMIT);
            }
            let end_hole_addr = hole.addr + hole.size;
            let ptr_found = round_up_checked(hole.addr + LL_HEADER_SIZE, necessary_alignment);
            let end_found = match ptr_found {
                Some(p) => if size64 <= u64::MAX - p {
                    round_up_checked(p + size64, LL_HOLE_ALIGN)
                } else {
                    None
                },
                None => None,
            };
            proof {
                let ptr = alloc_ptr(hole, align as int);
                lemma_round_up(hole.addr + LL_HEADER_SIZE, necessary_alignment as int);
                lemma_round_up(ptr + size, LL_HOLE_ALIGN as int);
            }
            let fit = match end_found {
                Some(e) => hole.size >= e - hole.addr,
                None => false,
            };
            proof {
                assert(fit == fits(hole, size as int, align as int));
            }
            if fit {
                let ptr_addr = match ptr_found {
                    Some(p) => p,
                    None => 0,
                };
                let ptr_end = match end_found {
                    Some(e) => e,
                    None => 0,
                };
                let split = end_hole_addr >= ptr_end + 2 * LL_HOLE_SIZE;
                let region_end = if split { ptr_end } else { end_hole_addr };
                let header = LLHeader { ptr: ptr_addr, region_start: hole.addr, region_end };
                let ghost before = self.holes@;
                let ghost headers_before = self.headers@;
                if split {
                    self.holes.set(k, LLHole { addr: ptr_end, size: end_hole_addr - ptr_end });
                } else {
                    self.holes.remove(k);
                }
                self.headers.push(header);
                self.stats.bytes_allocated = self.stats.bytes_allocated.saturating_add(size);
                proof {
                    lemma_take(before, self.holes@, headers_before, k as int, split, header);
                    if align <= LL_HOLE_ALIGN {
                        assert(ptr_addr % 8 == 0);
                        assert(align == 1 || align == 2 || align == 4 || align == 8) by (bit_vector)
                            requires
                                0 < align <= 8,
                                align & (align - 1) as usize == 0,
                        ;
                        assert(ptr_addr % (align as u64) == 0) by (nonlinear_arith)
                            requires
                                ptr_addr % 8 == 0,
                                align == 1 || align == 2 || align == 4 || align == 8,
                        ;
                    }
                }
                return Some(ptr_addr);
            }
            k += 1;
        }
        None
    }

    /// Gives back the allocation at `ptr`: its header goes, its whole region becomes a hole
    /// again at its place in address order, and that hole is merged with the hole before it
    /// while they touch, then with the holes after it while they touch.
    pub fn deallocate(&mut self, ptr: u64, size: usize)
        requires
            old(self).wf(),
            exists|k: int| 0 <= k < old(self).headers@.len() && (#[trigger] old(self).headers@[k]).ptr == ptr,
        ensures
            final(self).wf(),
            deallocated(*old(self), ptr, size as int, *final(self)),
    {
        let mut k: usize = 0;
        while k < self.headers.len() && self.headers[k].ptr != ptr
            invariant
                k <= self.headers@.len(),
                forall|j: int| 0 <= j < k ==> (#[trigger] self.headers@[j]).ptr != ptr,
            decreases self.headers@.len() - k,
        {
            k += 1;
        }
        proof {
            let w = choose|w: int| 0 <= w < old(self).headers@.len() && (#[trigger] old(self).headers@[w]).ptr == ptr;
            assert(old(self).headers@[w].ptr == ptr);
            assert(k < self.headers@.len());
            let c = header_index(old(self).headers@, ptr);
            lemma_header_ptr_unique(old(self).holes@, old(self).headers@, k as int, c);
            lemma_remove_header(old(self).holes@, old(self).headers@, k as int);
        }
        let hd = self.headers.remove(k);
        let hole = LLHole { addr: hd.region_start, size: hd.region_end - hd.region_start };
        let p = self.hole_position(hole.addr);
        proof {
            assert(self.holes@ == old(self).holes@);
            assert(header_ok(old(self).holes@, hd));
            lemma_insert_hole(self.holes@, self.headers@, p as int, hole);
            lemma_hole_pos(self.holes@, hole.addr as int, 0, p as int);
        }
        self.holes.insert(p, hole);
        let ghost inserted = self.holes@;
        let ghost removed_at = k as int;
        assert(removed_at == header_index(old(self).headers@, ptr));
        assert(hd == old(self).headers@[removed_at]);
        assert forall|a: int| free_at(inserted, a) <==> free_at(old(self).holes@, a) || (hd.region_start <= a
            < hd.region_end) by {
            assert(inserted == old(self).holes@.insert(p as int, hole));
            assert(free_at(old(self).holes@.insert(p as int, hole), a) <==> free_at(old(self).holes@, a) || (hole.addr
                <= a < hole.addr + hole.size));
        }
        let mut cur: usize = p;
        while 0 < cur && cur < self.holes.len() && self.holes[cur - 1].addr + self.holes[cur - 1].size
            == self.holes[cur].addr
            invariant
                holes_wf(self.holes@),
                headers_wf(self.holes@, self.headers@),
                self.headers@ == old(self).headers@.remove(header_index(old(self).headers@, ptr)),
                self.stats == old(self).stats,
                cur <= self.holes@.len(),
                self.holes@.len() <= old(self).holes@.len() + 1,
                cur == p,
                merge_back(self.holes@, cur as int) == merge_back(inserted, p as int),
                forall|a: int| free_at(self.holes@, a) <==> free_at(inserted, a),
                forall|a: int| free_at(inserted, a) <==> free_at(old(self).holes@, a) || (hd.region_start <= a
                    < hd.region_end),
            decreases self.holes@.len(),
        {
            let ghost b = self.holes@;
            let prev = self.holes[cur - 1];
            let next_size = self.holes[cur].size;
            proof {
                lemma_merge(b, self.headers@, cur - 1);
            }
            self.holes.set(cur - 1, LLHole { addr: prev.addr, size: prev.size + next_size });
            self.holes.remove(cur);
            assert(self.holes@ =~= merged(b, cur - 1));
        }
        while cur < self.holes.len() && cur + 1 < self.holes.len() && self.holes[cur + 1].addr == self.holes[cur].addr
            + self.holes[cur].size
            invariant
                holes_wf(self.holes@),
                headers_wf(self.holes@, self.headers@),
                self.headers@ == old(self).headers@.remove(header_index(old(self).headers@, ptr)),
                self.stats == old(self).stats,
                cur <= self.holes@.len(),
                self.holes@.len() <= old(self).holes@.len() + 1,
                cur == p,
                merge_forward(self.holes@, cur as int) == merge_forward(merge_back(inserted, p as int), p as int),
                forall|a: int| free_at(self.holes@, a) <==> free_at(inserted, a),
                forall|a: int| free_at(inserted, a) <==> free_at(old(self).holes@, a) || (hd.region_start <= a
                    < hd.region_end),
            decreases self.holes@.len(),
        {
            let ghost b = self.holes@;
            let h = self.holes[cur];
            let next_size = self.holes[cur + 1].size;
            proof {
                lemma_merge(b, self.headers@, cur as int);
            }
            self.holes.set(cur, LLHole { addr: h.addr, size: h.size + next_size });
            self.holes.remove(cur + 1);
            assert(self.holes@ =~= merged(b, cur as int));
        }
        self.stats.bytes_allocated = self.stats.bytes_allocated.saturating_sub(size);
        assert forall|a: int| free_at(self.holes@, a) <==> free_at(old(self).holes@, a) || (hd.region_start <= a
            < hd.region_end) by {
            assert(free_at(self.holes@, a) <==> free_at(inserted, a));
            assert(free_at(inserted, a) <==> free_at(old(self).holes@, a) || (hd.region_start <= a < hd.region_end));
        }
    }
}

impl SpinLock<LLAllocator> {
    /// Bytes handed out and not given back, as the statistics count them.
    pub fn bytes_allocated(&self) -> (r: usize)
        ensures
            r == self.inner.stats.bytes_allocated,
    {
        self.inner.stats.bytes_allocated
    }
}

} // verus!

verus! {

use crate::memory::{reserved, PageAllocator, Pfn, KERNEL_DIRECT_MAP, PAGE_SIZE};

/// Whether address `a` lies in a page of `pages` that is marked used, through the kernel's
/// direct map.
pub open spec fn page_backed(pages: PageAllocator, a: int) -> bool {
    let p = (a - KERNEL_DIRECT_MAP) / PAGE_SIZE as int - pages.offset;
    &&& KERNEL_DIRECT_MAP <= a
    &&& 0 <= p < pages.page_count()
    &&& pages.used(p)
}

/// Whether every address that `ll` holds, free or in the region of an allocation, lies in a
/// page that `pages` marks used.
pub open spec fn backed_by(ll: LLAllocator, pages: PageAllocator) -> bool {
    &&& forall|a: int| #[trigger] free_at(ll.holes@, a) ==> page_backed(pages, a)
    &&& forall|k: int, a: int|
        #![trigger ll.headers@[k], page_backed(pages, a)]
        0 <= k < ll.headers@.len() && ll.headers@[k].region_start <= a < ll.headers@[k].region_end ==> page_backed(
            pages,
            a,
        )
}

/// Pages that the allocator claims for a request of `size` bytes that no hole fits.
pub open spec fn claim_count(size: int) -> int {
    vstd::math::max((size + 4095) / 4096 + 1, 8)
}

/// Allocating keeps every address the allocator holds in used pages.
pub proof fn lemma_allocated_backed(before: LLAllocator, size: int, align: int, after: LLAllocator, r: Option<u64>, pages: PageAllocator)
    requires
        before.wf(),
        0 <= size,
        backed_by(before, pages),
        allocated(before, size, align, after, r),
    ensures
        backed_by(after, pages),
{
    lemma_first_fit(before.holes@, size, align, 0);
    match first_fit(before.holes@, size, align, 0) {
        None => {},
        Some(k) => {
            let hole = before.holes@[k];
            let last = after.headers@.len() - 1;
            let end = alloc_end(hole, size, align);
            let hole_end = hole.addr + hole.size;
            let split = hole_end >= end + 2 * LL_HOLE_SIZE;
            let region_end = if split { end } else { hole_end };
            assert(after.headers@[last] == LLHeader {
                ptr: alloc_ptr(hole, align) as u64,
                region_start: hole.addr,
                region_end: region_end as u64,
            });
            assert forall|a: int| #[trigger] free_at(after.holes@, a) implies page_backed(pages, a) by {
                assert(free_at(before.holes@, a));
            }
            assert forall|j: int, a: int|
                #![trigger after.headers@[j], page_backed(pages, a)]
                0 <= j < after.headers@.len() && after.headers@[j].region_start <= a < after.headers@[j].region_end
                implies page_backed(pages, a) by {
                if j < last {
                    assert(after.headers@[j] == before.headers@[j]);
                    assert(before.headers@[j].region_start <= a < before.headers@[j].region_end);
                } else {
                    assert(j == last);
                    assert(hole.addr + hole.size <= LL_ADDR_LIMIT);
                    assert(fits(hole, size, align));
                    assert(region_end <= hole_end);
                    assert(alloc_ptr(hole, align) + size <= region_end);
                    assert(0 <= region_end <= u64::MAX);
                    assert(after.headers@[j].region_end == region_end);
                    assert(hole.addr <= a < hole.addr + hole.size);
                    assert(free_at(before.holes@, a));
                }
            }
        },
    }
}

/// The frame of an address in the page at frame `pfn + i`, counted from `pfn`.
proof fn lemma_page_of(a: int, pfn: int, count: int)
    requires
        pfn >= 0,
        count > 0,
        KERNEL_DIRECT_MAP + pfn * PAGE_SIZE <= a < KERNEL_DIRECT_MAP + (pfn + count) * PAGE_SIZE,
    ensures
        pfn <= (a - KERNEL_DIRECT_MAP) / (PAGE_SIZE as int) < pfn + count,
{
    let d = a - KERNEL_DIRECT_MAP;
    assert(pfn <= d / 4096 < pfn + count) by (nonlinear_arith)
        requires
            pfn * 4096 <= d < (pfn + count) * 4096,
            pfn >= 0,
    ;
}

impl LLAllocator {
    /// Allocates as `allocate` does; when no hole fits, claims `claim_count(size)` fresh pages
    /// from `pages`, adds them as a hole, and asks once more. Returns `None` when no hole
    /// fits and the pages cannot be had, or when the request does not fit the claimed pages
    /// either.
    pub fn allocate_claiming(&mut self, pages: &mut PageAllocator, size: usize, align: usize) -> (r: Option<u64>)
        requires
            old(self).wf(),
            old(pages).wf(),
            backed_by(*old(self), *old(pages)),
            (old(pages).offset + old(pages).page_count()) * PAGE_SIZE <= LL_ADDR_LIMIT - KERNEL_DIRECT_MAP,
            (old(pages).offset + old(pages).page_count()) * PAGE_SIZE <= usize::MAX,
            0 < align,
            align & (align - 1) as usize == 0,
        ensures
            final(self).wf(),
            final(pages).wf(),
            backed_by(*final(self), *final(pages)),
            final(pages).offset == old(pages).offset,
            final(pages).bitmask@.len() == old(pages).bitmask@.len(),
            first_fit(old(self).holes@, size as int, align as int, 0) is Some ==> allocated(
                *old(self),
                size as int,
                align as int,
                *final(self),
                r,
            ) && final(pages).bitmask@ == old(pages).bitmask@,
            first_fit(old(self).holes@, size as int, align as int, 0) is None ==> exists|got: Option<Pfn>, mid: LLAllocator|
                #![trigger reserved(*old(pages), claim_count(size as int), *final(pages), got), mid.holes@]
                reserved(*old(pages), claim_count(size as int), *final(pages), got) && match got {
                    None => r is None && final(self).holes@ == old(self).holes@ && final(self).headers@ == old(self).headers@
                        && final(self).stats == old(self).stats,
                    Some(pfn) => {
                        &&& mid.wf()
                        &&& mid.headers@ == old(self).headers@
                        &&& mid.stats == old(self).stats
                        &&& forall|a: int| free_at(mid.holes@, a) <==> free_at(old(self).holes@, a) || (KERNEL_DIRECT_MAP
                            + pfn.0 * PAGE_SIZE <= a < KERNEL_DIRECT_MAP + (pfn.0 + claim_count(size as int)) * PAGE_SIZE)
                        &&& allocated(mid, size as int, align as int, *final(self), r)
                    },
                },
            first_fit(old(self).holes@, size as int, align as int, 0) is None && align <= PAGE_SIZE && (exists|s: int|
                #[trigger] old(pages).free_run(s, claim_count(size as int))) ==> r is Some,
    {
        proof {
            lemma_first_fit(old(self).holes@, size as int, align as int, 0);
        }
        let first = self.allocate(size, align);
        proof {
            lemma_allocated_backed(*old(self), size as int, align as int, *self, first, *pages);
        }
        if first.is_some() {
            return first;
        }
        let count = LLAllocator::pages_to_claim(size);
        let ghost before_pages = *pages;
        let got = pages.reserve_pages(count);
        let pfn = match got {
            None => {
                proof {
                    assert(reserved(*old(pages), claim_count(size as int), *pages, got));
                    assert forall|a: int| page_backed(before_pages, a) implies page_backed(*pages, a) by {
                        let p = (a - KERNEL_DIRECT_MAP) / PAGE_SIZE as int - before_pages.offset;
                        assert(pages.bitmask@[p / 8] == before_pages.bitmask@[p / 8]);
                    }
                    assert forall|a: int| #[trigger] free_at(self.holes@, a) implies page_backed(*pages, a) by {
                        assert(page_backed(before_pages, a));
                    }
                    assert forall|k: int, a: int|
                        #![trigger self.headers@[k], page_backed(*pages, a)]
                        0 <= k < self.headers@.len() && self.headers@[k].region_start <= a < self.headers@[k].region_end
                        implies page_backed(*pages, a) by {
                        assert(page_backed(before_pages, a));
                    }
                }
                return None;
            },
            Some(p) => p,
        };
        proof {
            assert(before_pages.free_run(pfn.0 - before_pages.offset, count as int));
            assert((pfn.0 + count) * PAGE_SIZE <= (before_pages.offset + before_pages.page_count()) * PAGE_SIZE)
                by (nonlinear_arith)
                requires
                    pfn.0 + count <= before_pages.offset + before_pages.page_count(),
            ;
            assert(pfn.0 * PAGE_SIZE <= (pfn.0 + count) * PAGE_SIZE) by (nonlinear_arith);
            assert((pfn.0 + count) * PAGE_SIZE == pfn.0 * PAGE_SIZE + count * PAGE_SIZE) by (nonlinear_arith);
        }
        let addr = pfn.as_ptr();
        let bytes = (count * PAGE_SIZE) as u64;
        proof {
            let lo = KERNEL_DIRECT_MAP + pfn.0 * PAGE_SIZE;
            let hi = lo + count * PAGE_SIZE;
            assert(addr == lo && addr + bytes == hi);
            assert forall|a: int| lo <= a < hi implies !page_backed(before_pages, a) by {
                lemma_page_of(a, pfn.0 as int, count as int);
                let p = (a - KERNEL_DIRECT_MAP) / PAGE_SIZE as int - before_pages.offset;
                assert(!before_pages.used(p));
            }
            assert forall|i: int| 0 <= i < self.holes@.len() implies #[trigger] self.holes@[i].addr + self.holes@[i].size
                <= addr || addr + bytes <= self.holes@[i].addr by {
                let h = self.holes@[i];
                if !(h.addr + h.size <= addr || addr + bytes <= h.addr) {
                    let a: int = if h.addr >= addr { h.addr as int } else { addr as int };
                    assert(free_at(self.holes@, a));
                }
            }
            assert forall|k: int| 0 <= k < self.headers@.len() implies (#[trigger] self.headers@[k]).region_end <= addr
                || addr + bytes <= self.headers@[k].region_start by {
                let hd = self.headers@[k];
                if !(hd.region_end <= addr || addr + bytes <= hd.region_start) {
                    let a: int = if hd.region_start >= addr { hd.region_start as int } else { addr as int };
                    assert(page_backed(before_pages, a));
                }
            }
        }
        let ghost before_claim = *self;
        self.claim_region(addr, bytes);
        let ghost mid = *self;
        proof {
            let lo = KERNEL_DIRECT_MAP + pfn.0 * PAGE_SIZE;
            let hi = lo + count * PAGE_SIZE;
            assert forall|a: int| page_backed(before_pages, a) implies page_backed(*pages, a) by {
                let p = (a - KERNEL_DIRECT_MAP) / PAGE_SIZE as int - before_pages.offset;
                assert(pages.used(p));
            }
            assert forall|a: int| lo <= a < hi implies page_backed(*pages, a) by {
                lemma_page_of(a, pfn.0 as int, count as int);
                let p = (a - KERNEL_DIRECT_MAP) / PAGE_SIZE as int - before_pages.offset;
                assert(pages.used(p));
            }
            assert forall|a: int| #[trigger] free_at(mid.holes@, a) implies page_backed(*pages, a) by {
                if !(lo <= a < hi) {
                    assert(page_backed(before_pages, a));
                }
            }
            assert forall|k: int, a: int|
                #![trigger mid.headers@[k], page_backed(*pages, a)]
                0 <= k < mid.headers@.len() && mid.headers@[k].region_start <= a < mid.headers@[k].region_end
                implies page_backed(*pages, a) by {
                assert(page_backed(before_pages, a));
            }
        }
        proof {
            if align <= PAGE_SIZE {
                assert(4096usize % align == 0) by (bit_vector)
                    requires
                        0 < align <= 4096,
                        align & (align - 1) as usize == 0,
                ;
                let p = choose|p: int| 0 <= p <= before_claim.holes@.len() && mid.holes@ == #[trigger] before_claim.holes@.insert(
                    p,
                    LLHole { addr, size: bytes },
                );
                assert(addr % 4096 == 0) by (nonlinear_arith)
                    requires
                        addr == KERNEL_DIRECT_MAP + pfn.0 * 4096,
                        KERNEL_DIRECT_MAP == 0xffff_ff80_0000_0000u64,
                ;
                lemma_claim_fits(addr as int, size as int, align as int, count as int);
                assert(mid.holes@[p] == LLHole { addr, size: bytes });
                lemma_first_fit_found(mid.holes@, size as int, align as int, 0, p);
            }
        }
        let r = self.allocate(size, align);
        proof {
            lemma_allocated_backed(mid, size as int, align as int, *self, r, *pages);
            assert(reserved(*old(pages), claim_count(size as int), *pages, got));
        }
        r
    }
}


/// `round_up_to(x, a)` is the first multiple of `a` from `x` on.
proof fn lemma_round_up(x: int, a: int)
    requires
        a > 0,
        x >= 0,
    ensures
        x <= round_up_to(x, a) < x + a,
        round_up_to(x, a) % a == 0,
{
    let y = x + a - 1;
    vstd::arithmetic::div_mod::lemma_fundamental_div_mod(y, a);
    vstd::arithmetic::div_mod::lemma_mod_pos_bound(y, a);
    vstd::arithmetic::mul::lemma_mul_is_commutative(a, y / a);
    vstd::arithmetic::div_mod::lemma_mod_multiples_basic(y / a, a);
}

/// The difference of two multiples of `m` is one too.
proof fn lemma_mod_sub(x: int, y: int, m: int)
    requires
        m > 0,
        x % m == 0,
        y % m == 0,
    ensures
        (x - y) % m == 0,
{
    vstd::arithmetic::div_mod::lemma_fundamental_div_mod(x, m);
    vstd::arithmetic::div_mod::lemma_fundamental_div_mod(y, m);
    let q = x / m - y / m;
    assert(x - y == m * q) by (nonlinear_arith)
        requires
            x == m * (x / m),
            y == m * (y / m),
            q == x / m - y / m,
    ;
    vstd::arithmetic::mul::lemma_mul_is_commutative(m, q);
    vstd::arithmetic::div_mod::lemma_mod_multiples_basic(q, m);
}

/// A multiple of a multiple of `b` is a multiple of `b`.
proof fn lemma_mod_trans(x: int, a: int, b: int)
    requires
        a > 0,
        b > 0,
        x % a == 0,
        a % b == 0,
    ensures
        x % b == 0,
{
    vstd::arithmetic::div_mod::lemma_fundamental_div_mod(x, a);
    vstd::arithmetic::div_mod::lemma_fundamental_div_mod(a, b);
    let q = (x / a) * (a / b);
    assert(x == b * q) by (nonlinear_arith)
        requires
            x == a * (x / a),
            a == b * (a / b),
            q == (x / a) * (a / b),
    ;
    vstd::arithmetic::mul::lemma_mul_is_commutative(b, q);
    vstd::arithmetic::div_mod::lemma_mod_multiples_basic(q, b);
}

/// A multiple of `a` in `[lo, lo + a)` whose other bound is a multiple of `a` too.
proof fn lemma_multiple_below(d: int, a: int, m: int)
    requires
        a > 0,
        d % a == 0,
        m % a == 0,
        d < m + a,
        d >= 0,
        m >= 0,
    ensures
        d <= m,
{
    vstd::arithmetic::div_mod::lemma_fundamental_div_mod(d, a);
    vstd::arithmetic::div_mod::lemma_fundamental_div_mod(m, a);
    let q = d / a;
    let k = m / a;
    assert(d == a * q && m == a * k);
    assert(q <= k) by (nonlinear_arith)
        requires
            a > 0,
            d == a * q,
            m == a * k,
            d < m + a,
    ;
    assert(a * q <= a * k) by (nonlinear_arith)
        requires
            a > 0,
            q <= k,
    ;
}

/// A request aligned to at most a page fits a hole of `count` fresh pages at a page boundary
/// when `count` is what is claimed for it.
proof fn lemma_claim_fits(addr: int, size: int, align: int, count: int)
    requires
        0 <= addr,
        addr % 4096 == 0,
        0 < align <= 4096,
        4096int % align == 0,
        0 <= size,
        count >= (size + 4095) / 4096 + 1,
        addr + count * 4096 <= u64::MAX,
    ensures
        fits(LLHole { addr: addr as u64, size: (count * 4096) as u64 }, size, align),
{
    let a2: int = if align > LL_HOLE_ALIGN { align } else { LL_HOLE_ALIGN as int };
    assert(4096int % a2 == 0) by {
        if align <= 8 {
            assert(4096int % 8 == 0);
        }
    }
    assert(a2 % 8 == 0) by {
        if align > 8 {
            assert(4096int % align == 0);
            assert(align % 8 == 0) by (nonlinear_arith)
                requires
                    8 < align <= 4096,
                    4096int % align == 0,
            ;
        }
    }
    assert(addr % a2 == 0) by (nonlinear_arith)
        requires
            addr % 4096 == 0,
            4096int % a2 == 0,
            a2 > 0,
            addr >= 0,
    ;
    let hole = LLHole { addr: addr as u64, size: (count * 4096) as u64 };
    let ptr = alloc_ptr(hole, align);
    lemma_round_up(addr + LL_HEADER_SIZE, a2);
    let d = ptr - addr;
    lemma_mod_sub(ptr, addr, a2);
    assert(d <= 4096) by {
        if a2 >= 16 {
            lemma_multiple_below(d, a2, a2);
        } else {
            lemma_multiple_below(d, a2, 16);
        }
    }
    lemma_mod_trans(d, a2, 8);
    let end = alloc_end(hole, size, align);
    lemma_round_up(ptr + size, 8);
    let s4 = (size + 4095) / 4096 * 4096;
    lemma_round_up(size, 4096);
    assert(s4 % 8 == 0) by (nonlinear_arith)
        requires
            s4 % 4096 == 0,
    ;
    assert(addr % 8 == 0) by (nonlinear_arith)
        requires
            addr % 4096 == 0,
    ;
    let e = end - addr;
    assert(e % 8 == 0) by (nonlinear_arith)
        requires
            end % 8 == 0,
            addr % 8 == 0,
            e == end - addr,
    ;
    assert((4096 + s4) % 8 == 0) by (nonlinear_arith)
        requires
            s4 % 8 == 0,
    ;
    lemma_multiple_below(e, 8, 4096 + s4);
    assert(s4 + 4096 <= count * 4096) by (nonlinear_arith)
        requires
            count >= (size + 4095) / 4096 + 1,
            s4 == (size + 4095) / 4096 * 4096,
    ;
}

/// When some hole fits a request, the first fit finds one.
proof fn lemma_first_fit_found(holes: Seq<LLHole>, size: int, align: int, i: int, k: int)
    requires
        0 <= i <= k < holes.len(),
        fits(holes[k], size, align),
    ensures
        first_fit(holes, size, align, i) is Some,
    decreases k - i,
{
    if !fits(holes[i], size, align) {
        lemma_first_fit_found(holes, size, align, i + 1, k);
    }
}


/// Whether one hole of `s` spans `[x, y)`.
pub open spec fn covers(s: Seq<LLHole>, x: int, y: int) -> bool {
    exists|j: int| 0 <= j < s.len() && #[trigger] s[j].addr <= x && y <= s[j].addr + s[j].size
}

/// Merging two adjoining holes keeps every span that one hole covered covered by one hole.
proof fn lemma_merged_covers(s: Seq<LLHole>, i: int, x: int, y: int)
    requires
        0 <= i,
        i + 1 < s.len(),
        adjoins(s, i),
        covers(s, x, y),
        s[i].size + s[i + 1].size <= u64::MAX,
    ensures
        covers(merged(s, i), x, y),
{
    let m = merged(s, i);
    let j = choose|j: int| 0 <= j < s.len() && #[trigger] s[j].addr <= x && y <= s[j].addr + s[j].size;
    if j < i {
        assert(m[j] == s[j]);
    } else if j > i + 1 {
        assert(m[j - 1] == s[j]);
    } else {
        assert(m[i].addr <= x && y <= m[i].addr + m[i].size);
    }
}

/// `merge_back` keeps every span that one hole covered covered by one hole.
proof fn lemma_merge_back_covers(s: Seq<LLHole>, cur: int, x: int, y: int)
    requires
        holes_wf(s),
        covers(s, x, y),
    ensures
        covers(merge_back(s, cur), x, y),
        holes_wf(merge_back(s, cur)),
    decreases s.len(),
{
    if 0 < cur < s.len() && adjoins(s, cur - 1) {
        lemma_merge(s, Seq::empty(), cur - 1);
        assert(s[cur].addr + s[cur].size <= LL_ADDR_LIMIT);
        lemma_merged_covers(s, cur - 1, x, y);
        lemma_merge_back_covers(merged(s, cur - 1), cur, x, y);
    }
}

/// `merge_forward` keeps every span that one hole covered covered by one hole.
proof fn lemma_merge_forward_covers(s: Seq<LLHole>, cur: int, x: int, y: int)
    requires
        holes_wf(s),
        covers(s, x, y),
    ensures
        covers(merge_forward(s, cur), x, y),
        holes_wf(merge_forward(s, cur)),
    decreases s.len(),
{
    if 0 <= cur && cur + 1 < s.len() && adjoins(s, cur) {
        lemma_merge(s, Seq::empty(), cur);
        assert(s[cur + 1].addr + s[cur + 1].size <= LL_ADDR_LIMIT);
        lemma_merged_covers(s, cur, x, y);
        lemma_merge_forward_covers(merged(s, cur), cur, x, y);
    }
}

/// `round_up_to` keeps the order of its argument.
proof fn lemma_round_up_mono(x: int, y: int, a: int)
    requires
        a > 0,
        0 <= x <= y,
    ensures
        round_up_to(x, a) <= round_up_to(y, a),
{
    vstd::arithmetic::div_mod::lemma_div_is_ordered(x + a - 1, y + a - 1, a);
    vstd::arithmetic::mul::lemma_mul_inequality((x + a - 1) / a, (y + a - 1) / a, a);
}

/// Where a hole starts no later than another, a request starts no later in it.
proof fn lemma_alloc_ptr_mono(h: LLHole, g: LLHole, align: int)
    requires
        h.addr <= g.addr,
        align > 0,
    ensures
        alloc_ptr(h, align) <= alloc_ptr(g, align),
{
    let a = if align > LL_HOLE_ALIGN { align } else { LL_HOLE_ALIGN as int };
    lemma_round_up_mono(h.addr + LL_HEADER_SIZE, g.addr + LL_HEADER_SIZE, a);
}

/// The first hole that fits, from `i` on, comes no later than hole `j` when that one fits.
proof fn lemma_first_fit_before(holes: Seq<LLHole>, size: int, align: int, i: int, j: int)
    requires
        0 <= i <= j < holes.len(),
        fits(holes[j], size, align),
    ensures
        first_fit(holes, size, align, i) matches Some(k) && i <= k <= j,
    decreases j - i,
{
    if !fits(holes[i], size, align) {
        lemma_first_fit_before(holes, size, align, i + 1, j);
    }
}

/// Inserting a hole between its neighbours in address order keeps the holes in order.
proof fn lemma_insert_wf(h: Seq<LLHole>, p: int, hole: LLHole)
    requires
        holes_wf(h),
        0 <= p <= h.len(),
        hole.size > 0,
        hole.addr + hole.size <= LL_ADDR_LIMIT,
        p > 0 ==> h[p - 1].addr + h[p - 1].size <= hole.addr,
        p < h.len() ==> hole.addr + hole.size <= h[p].addr,
    ensures
        holes_wf(h.insert(p, hole)),
{
    let s = h.insert(p, hole);
    assert forall|i: int| 0 <= i < s.len() implies (#[trigger] s[i]).size > 0 && s[i].addr + s[i].size <= LL_ADDR_LIMIT by {
        if i < p {
            assert(s[i] == h[i]);
        } else if i > p {
            assert(s[i] == h[i - 1]);
        }
    }
    assert forall|i: int, j: int| 0 <= i < j < s.len() implies #[trigger] s[i].addr + s[i].size <= #[trigger] s[j].addr by {
        if j < p {
            assert(s[i] == h[i] && s[j] == h[j]);
        } else if j == p {
            assert(s[i] == h[i]);
            if i < p - 1 {
                assert(h[i].addr + h[i].size <= h[p - 1].addr);
            }
        } else if i > p {
            assert(s[i] == h[i - 1] && s[j] == h[j - 1]);
        } else if i == p {
            assert(s[j] == h[j - 1]);
            if j - 1 > p {
                assert(h[p].addr + h[p].size <= h[j - 1].addr);
            }
        } else {
            assert(s[i] == h[i] && s[j] == h[j - 1]);
        }
    }
}

/// A successful allocation starts at a multiple of the alignment asked for and of at least 8
/// bytes, and its bytes meet no hole and no other live allocation's region.
pub proof fn lemma_allocation_apart(a0: LLAllocator, a1: LLAllocator, size: usize, align: usize, ptr: u64)
    requires
        a0.wf(),
        a1.wf(),
        align > 0,
        allocated(a0, size as int, align as int, a1, Some(ptr)),
    ensures
        ptr as int % (if align > 8 { align as int } else { 8int }) == 0,
        forall|a: int| ptr <= a < ptr + size ==> !free_at(a1.holes@, a),
        forall|k: int|
            0 <= k < a1.headers@.len() - 1 ==> (#[trigger] a1.headers@[k]).region_end <= ptr || ptr + size
                <= a1.headers@[k].region_start,
{
    lemma_first_fit(a0.holes@, size as int, align as int, 0);
    let k = first_fit(a0.holes@, size as int, align as int, 0)->Some_0;
    let hole = a0.holes@[k];
    let al = if align > LL_HOLE_ALIGN { align as int } else { LL_HOLE_ALIGN as int };
    lemma_round_up(hole.addr + LL_HEADER_SIZE, al);
    let last = a1.headers@.len() - 1;
    let hd = a1.headers@[last];
    assert forall|j: int| 0 <= j < last implies (#[trigger] a1.headers@[j]).region_end <= ptr || ptr + size
        <= a1.headers@[j].region_start by {
        assert(regions_apart(a1.headers@[j], a1.headers@[last]));
    }
}

/// Freeing an allocation right after making it lets a new request of the same size and
/// alignment succeed, at an address no higher than the one freed.
pub proof fn lemma_free_then_allocate_again(
    a0: LLAllocator,
    a1: LLAllocator,
    a2: LLAllocator,
    a3: LLAllocator,
    size: usize,
    align: usize,
    ptr: u64,
    r: Option<u64>,
)
    requires
        a0.wf(),
        a1.wf(),
        a2.wf(),
        align > 0,
        allocated(a0, size as int, align as int, a1, Some(ptr)),
        deallocated(a1, ptr, size as int, a2),
        allocated(a2, size as int, align as int, a3, r),
    ensures
        r matches Some(q) && q <= ptr,
{
    lemma_first_fit(a0.holes@, size as int, align as int, 0);
    let k = first_fit(a0.holes@, size as int, align as int, 0)->Some_0;
    let hole = a0.holes@[k];
    let rs = hole.addr as int;
    let hole_end = hole.addr + hole.size;
    let end = alloc_end(hole, size as int, align as int);
    let last = a1.headers@.len() - 1;
    let c = header_index(a1.headers@, ptr);
    assert(a1.headers@[last].ptr == ptr);
    lemma_header_ptr_unique(a1.holes@, a1.headers@, last, c);
    let hd = a1.headers@[last];
    let split = hole_end >= end + 2 * LL_HOLE_SIZE;
    let re = hd.region_end as int;
    // The freed region goes back where the hole was.
    assert forall|j: int| 0 <= j < k implies #[trigger] a1.holes@[j].addr < rs by {
        assert(a1.holes@[j] == a0.holes@[j]);
        assert(a0.holes@[j].addr + a0.holes@[j].size <= a0.holes@[k].addr);
    }
    if split {
        assert(a1.holes@[k].addr == end);
        lemma_round_up(alloc_ptr(hole, align as int) + size, LL_HOLE_ALIGN as int);
        let al = if align > LL_HOLE_ALIGN { align as int } else { LL_HOLE_ALIGN as int };
        lemma_round_up(hole.addr + LL_HEADER_SIZE, al);
        lemma_hole_pos(a1.holes@, rs, 0, k);
    } else {
        if k < a1.holes@.len() {
            assert(a1.holes@[k] == a0.holes@[k + 1]);
            assert(a0.holes@[k].addr + a0.holes@[k].size <= a0.holes@[k + 1].addr);
        }
        lemma_hole_pos(a1.holes@, rs, 0, k);
    }
    let region = LLHole { addr: hd.region_start, size: (hd.region_end - hd.region_start) as u64 };
    let s = a1.holes@.insert(k, region);
    assert(s[k] == region);
    assert(covers(s, rs, re));
    // One hole of the freed list spans the whole of the old hole's request.
    assert(covers(a2.holes@, rs, end)) by {
        lemma_insert_wf(a1.holes@, k, region);
        if split {
            assert(s[k + 1] == a1.holes@[k]);
            assert(adjoins(s, k));
            if k > 0 && adjoins(s, k - 1) {
                lemma_merge(s, Seq::empty(), k - 1);
                let s1 = merged(s, k - 1);
                assert(s1[k] == s[k + 1]);
                assert(adjoins(s1, k - 1));
                lemma_merge(s1, Seq::empty(), k - 1);
                let s2 = merged(s1, k - 1);
                assert(s2[k - 1].addr <= rs && end <= s2[k - 1].addr + s2[k - 1].size);
                assert(covers(s2, rs, end));
                assert(merge_back(s, k) == merge_back(s1, k));
                assert(merge_back(s1, k) == merge_back(s2, k));
                lemma_merge_back_covers(s2, k, rs, end);
                lemma_merge_forward_covers(merge_back(s, k), k, rs, end);
            } else {
                assert(merge_back(s, k) == s);
                lemma_merge(s, Seq::empty(), k);
                let s1 = merged(s, k);
                assert(s1[k].addr <= rs && end <= s1[k].addr + s1[k].size);
                assert(covers(s1, rs, end));
                assert(merge_forward(s, k) == merge_forward(s1, k));
                lemma_merge_forward_covers(s1, k, rs, end);
            }
        } else {
            assert(covers(s, rs, end));
            lemma_merge_back_covers(s, k, rs, end);
            lemma_merge_forward_covers(merge_back(s, k), k, rs, end);
        }
    }
    let j = choose|j: int| 0 <= j < a2.holes@.len() && #[trigger] a2.holes@[j].addr <= rs && end <= a2.holes@[j].addr
        + a2.holes@[j].size;
    let h = a2.holes@[j];
    lemma_alloc_ptr_mono(h, hole, align as int);
    let al = if align > LL_HOLE_ALIGN { align as int } else { LL_HOLE_ALIGN as int };
    lemma_round_up_mono(alloc_ptr(h, align as int) + size, alloc_ptr(hole, align as int) + size, LL_HOLE_ALIGN as int);
    assert(fits(h, size as int, align as int));
    lemma_first_fit_before(a2.holes@, size as int, align as int, 0, j);
    let k2 = first_fit(a2.holes@, size as int, align as int, 0)->Some_0;
    if k2 < j {
        assert(a2.holes@[k2].addr + a2.holes@[k2].size <= a2.holes@[j].addr);
    }
    lemma_alloc_ptr_mono(a2.holes@[k2], h, align as int);
}

} // verus!
