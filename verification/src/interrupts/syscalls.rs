use vstd::prelude::*;
use crate::bytes::{u64_le_bytes, u64_to_le_bytes};
use crate::interrupts::irq_handler::ExceptionRegisters;
use crate::sched::scheduler::{registers_of, Sched};
use crate::sched::task::{
    areas_ready, heap_release_ready, process_areas, released_areas, saturating_offset, stack_pages, Process, Task, TaskFdTable,
};
use crate::sched::user_pages::{pages_outside, released_metas};
use crate::subsystem::page::meta::PageMeta;
use crate::timer::{us_sleep, TimerItem, TimerProgram, TimerQueue};
use crate::utils::intrusive_rbtree::has_key;

verus! {

/// Highest user address, exclusive.
pub const USER_ADDRESS_LIMIT: u64 = 0x7fffffffff;

/// Longest string a system call reads from user memory.
pub const MAX_STRING_LEN: usize = 2048;

/// Whether `len` bytes at `addr` lie below the user limit; the end saturates.
pub fn validate_user_address_range(addr: u64, len: u64) -> (r: bool)
    ensures
        r == (addr < USER_ADDRESS_LIMIT && addr + len < USER_ADDRESS_LIMIT),
{
    (addr < USER_ADDRESS_LIMIT) && (addr.saturating_add(len) < USER_ADDRESS_LIMIT)
}

/// Bytes that the first `i` strings take with their terminating zeros.
pub open spec fn strings_len(strs: Seq<Seq<u8>>, i: int) -> int
    decreases i,
{
    if i <= 0 {
        0
    } else {
        strings_len(strs, i - 1) + strs[i - 1].len() + 1
    }
}

/// Where string `i` starts in the argument block.
pub open spec fn argv_offset(strs: Seq<Seq<u8>>, i: int) -> int {
    8 + 8 * strs.len() + strings_len(strs, i)
}

/// The offsets of the first `i` strings, as little endian words.
pub open spec fn offset_table(strs: Seq<Seq<u8>>, i: int) -> Seq<u8>
    decreases i,
{
    if i <= 0 {
        Seq::empty()
    } else {
        offset_table(strs, i - 1) + u64_le_bytes(argv_offset(strs, i - 1) as u64)
    }
}

/// The first `i` strings, each followed by a zero.
pub open spec fn string_area(strs: Seq<Seq<u8>>, i: int) -> Seq<u8>
    decreases i,
{
    if i <= 0 {
        Seq::empty()
    } else {
        string_area(strs, i - 1) + strs[i - 1].push(0u8)
    }
}

/// The argument block for `strs`: their count, their offsets, the strings, and zeros up to a
/// multiple of 16 bytes.
pub open spec fn argv_block(strs: Seq<Seq<u8>>) -> Seq<u8> {
    let body = u64_le_bytes(strs.len() as u64) + offset_table(strs, strs.len() as int) + string_area(
        strs,
        strs.len() as int,
    );
    body + Seq::new(((body.len() + 15) / 16 * 16 - body.len()) as nat, |_i: int| 0u8)
}

pub proof fn lemma_strings_len(strs: Seq<Seq<u8>>, i: int)
    requires
        0 <= i <= strs.len(),
        forall|k: int| 0 <= k < strs.len() ==> (#[trigger] strs[k]).len() <= MAX_STRING_LEN,
    ensures
        0 <= strings_len(strs, i) <= i * (MAX_STRING_LEN + 1),
        offset_table(strs, i).len() == 8 * i,
        string_area(strs, i).len() == strings_len(strs, i),
    decreases i,
{
    if i > 0 {
        lemma_strings_len(strs, i - 1);
    }
}

/// Word `j` of the offset table of the first `i` strings is the offset of string `j`.
proof fn lemma_offset_table_word(strs: Seq<Seq<u8>>, i: int, j: int)
    requires
        0 <= j < i,
    ensures
        offset_table(strs, i).len() == 8 * i,
        offset_table(strs, i).subrange(8 * j, 8 * j + 8) == u64_le_bytes(argv_offset(strs, j) as u64),
    decreases i,
{
    lemma_offset_table_len(strs, i);
    let t = offset_table(strs, i - 1);
    let w = u64_le_bytes(argv_offset(strs, i - 1) as u64);
    lemma_offset_table_len(strs, i - 1);
    if j < i - 1 {
        lemma_offset_table_word(strs, i - 1, j);
        assert((t + w).subrange(8 * j, 8 * j + 8) =~= t.subrange(8 * j, 8 * j + 8));
    } else {
        assert((t + w).subrange(8 * j, 8 * j + 8) =~= w);
    }
}

/// The offset table of the first `i` strings holds a word for each.
proof fn lemma_offset_table_len(strs: Seq<Seq<u8>>, i: int)
    ensures
        offset_table(strs, i).len() == if i <= 0 { 0 } else { 8 * i },
    decreases i,
{
    if i > 0 {
        lemma_offset_table_len(strs, i - 1);
    }
}

/// In the area of the first `i` strings, string `j` stands at its place, followed by a zero.
proof fn lemma_string_area_entry(strs: Seq<Seq<u8>>, i: int, j: int)
    requires
        0 <= j < i,
    ensures
        string_area(strs, i).len() == strings_len(strs, i),
        strings_len(strs, j) + strs[j].len() + 1 <= strings_len(strs, i),
        string_area(strs, i).subrange(strings_len(strs, j), strings_len(strs, j) + strs[j].len()) == strs[j],
        string_area(strs, i)[strings_len(strs, j) + strs[j].len()] == 0u8,
    decreases i,
{
    lemma_string_area_len(strs, i);
    lemma_string_area_len(strs, i - 1);
    lemma_string_area_len(strs, j);
    let a = string_area(strs, i - 1);
    let e = strs[i - 1].push(0u8);
    if j < i - 1 {
        lemma_string_area_entry(strs, i - 1, j);
        assert((a + e).subrange(strings_len(strs, j), strings_len(strs, j) + strs[j].len()) =~= a.subrange(
            strings_len(strs, j),
            strings_len(strs, j) + strs[j].len(),
        ));
        assert((a + e)[strings_len(strs, j) + strs[j].len()] == a[strings_len(strs, j) + strs[j].len()]);
    } else {
        assert((a + e).subrange(strings_len(strs, j), strings_len(strs, j) + strs[j].len()) =~= strs[j]);
    }
}

/// The area of the first `i` strings holds each with its zero.
proof fn lemma_string_area_len(strs: Seq<Seq<u8>>, i: int)
    ensures
        string_area(strs, i).len() == strings_len(strs, i),
        strings_len(strs, i) >= 0,
    decreases i,
{
    if i > 0 {
        lemma_string_area_len(strs, i - 1);
    }
}

/// The layout of an argument block: its length is the count, the offset words and the
/// strings with their zeros rounded up to 16 bytes; it starts with the count; word `i + 1`
/// is the offset of string `i`, where string `i` stands, followed by a zero; the rest is zero.
#[verifier::spinoff_prover]
#[verifier::rlimit(50)]
pub proof fn lemma_argv_block_layout(strs: Seq<Seq<u8>>)
    ensures
        ({
            let n = strs.len() as int;
            let body = 8 + 8 * n + strings_len(strs, n);
            let b = argv_block(strs);
            &&& b.len() == (body + 15) / 16 * 16
            &&& b.subrange(0, 8) == u64_le_bytes(n as u64)
            &&& forall|i: int| 0 <= i < n ==> #[trigger] b.subrange(8 * i + 8, 8 * i + 16) == u64_le_bytes(
                argv_offset(strs, i) as u64,
            )
            &&& forall|i: int| 0 <= i < n ==> #[trigger] b.subrange(argv_offset(strs, i), argv_offset(strs, i) + strs[i].len())
                == strs[i] && b[argv_offset(strs, i) + strs[i].len()] == 0u8
            &&& forall|p: int| body <= p < b.len() ==> #[trigger] b[p] == 0u8
        }),
{
    let n = strs.len() as int;
    let head = u64_le_bytes(n as u64);
    let table = offset_table(strs, n);
    let area = string_area(strs, n);
    lemma_offset_table_len(strs, n);
    lemma_string_area_len(strs, n);
    let body = head + table + area;
    let b = argv_block(strs);
    assert(head.len() == 8);
    assert(body.len() == 8 + 8 * n + strings_len(strs, n));
    assert(b.subrange(0, body.len() as int) =~= body);
    assert(b.subrange(0, 8) =~= head);
    assert forall|i: int| 0 <= i < n implies #[trigger] b.subrange(8 * i + 8, 8 * i + 16) == u64_le_bytes(
        argv_offset(strs, i) as u64,
    ) by {
        lemma_offset_table_word(strs, n, i);
        assert(b.subrange(8 * i + 8, 8 * i + 16) =~= table.subrange(8 * i, 8 * i + 8));
    }
    let o = 8 + 8 * n;
    assert forall|k: int| o <= k < body.len() implies #[trigger] b[k] == area[k - o] by {
        assert(b[k] == body[k]);
    }
    assert forall|i: int| 0 <= i < n implies #[trigger] b.subrange(argv_offset(strs, i), argv_offset(strs, i) + strs[i].len())
        == strs[i] && b[argv_offset(strs, i) + strs[i].len()] == 0u8 by {
        lemma_string_area_entry(strs, n, i);
        lemma_string_area_len(strs, i);
        let lo = argv_offset(strs, i);
        let sub = area.subrange(strings_len(strs, i), strings_len(strs, i) + strs[i].len());
        assert forall|k: int| 0 <= k < strs[i].len() implies #[trigger] b.subrange(lo, lo + strs[i].len())[k] == sub[k] by {
            assert(b[lo + k] == area[lo + k - o]);
        }
        assert(b.subrange(lo, lo + strs[i].len()) =~= sub);
        assert(b[lo + strs[i].len()] == area[lo + strs[i].len() - o]);
    }
}

/// The strings that `argv` names, where each could be read.
pub open spec fn read_strings(argv: Seq<Option<Vec<u8>>>, n: int) -> Seq<Seq<u8>> {
    Seq::new(n as nat, |i: int| argv[i]->Some_0@)
}

/// Packs the first `argc` argument strings into the block that `exec` places on the new
/// stack: `argc`, the offset of each string from the block's start, then the strings with
/// their zeros, padded to a multiple of 16 bytes. `None` stands for a string that could not be
/// read from user memory, and fails the whole call.
pub fn parse_argv(argc: u64, argv: &Vec<Option<Vec<u8>>>) -> (r: Result<Vec<u8>, ()>)
    requires
        argc <= argv@.len(),
        argc * (8 + MAX_STRING_LEN + 1) + 32 <= usize::MAX,
        forall|i: int| 0 <= i < argc ==> ((#[trigger] argv@[i]) matches Some(s) ==> s@.len() <= MAX_STRING_LEN),
    ensures
        (exists|i: int| 0 <= i < argc && (#[trigger] argv@[i]) is None) <==> r is Err,
        r matches Ok(block) ==> block@ == argv_block(read_strings(argv@, argc as int)),
{
    let _len = argv.len();
    let n = argc as usize;
    let ghost strs = read_strings(argv@, n as int);
    assert(8 + 8 * n <= n * (8 + MAX_STRING_LEN + 1) + 8) by (nonlinear_arith)
        requires
            n >= 0,
    ;
    let mut buffer_size: usize = 8 + 8 * n;
    let mut i: usize = 0;
    while i < n
        invariant
            n == argc,
            n <= argv@.len(),
            i <= n,
            n * (8 + MAX_STRING_LEN + 1) + 32 <= usize::MAX,
            forall|k: int| 0 <= k < argc ==> ((#[trigger] argv@[k]) matches Some(s) ==> s@.len() <= MAX_STRING_LEN),
            forall|k: int| 0 <= k < i ==> (#[trigger] argv@[k]) is Some,
            strs == read_strings(argv@, n as int),
            buffer_size == 8 + 8 * n + strings_len(strs, i as int),
            strings_len(strs, i as int) <= i * (MAX_STRING_LEN + 1),
        decreases n - i,
    {
        match &argv[i] {
            None => return Err(()),
            Some(s) => {
                assert(strs[i as int] == s@);
                assert(s@.len() <= MAX_STRING_LEN);
                assert(i * (MAX_STRING_LEN + 1) + MAX_STRING_LEN + 1 == (i + 1) * (MAX_STRING_LEN + 1)) by (nonlinear_arith);
                assert((i + 1) * (MAX_STRING_LEN + 1) <= n * (MAX_STRING_LEN + 1)) by (nonlinear_arith)
                    requires
                        i + 1 <= n,
                ;
                assert(8 + 8 * n + (i + 1) * (MAX_STRING_LEN + 1) <= n * (8 + MAX_STRING_LEN + 1) + 8) by (nonlinear_arith)
                    requires
                        i + 1 <= n,
                ;
                buffer_size = buffer_size + s.len() + 1;
            },
        }
        i += 1;
    }
    proof {
        lemma_strings_len(strs, n as int);
        assert forall|k: int| 0 <= k < n implies (#[trigger] strs[k]).len() <= MAX_STRING_LEN by {
            assert(argv@[k] is Some);
        }
    }
    assert(strings_len(strs, n as int) <= n * (MAX_STRING_LEN + 1));
    let mut buffer = u64_to_le_bytes(argc);
    let mut index: usize = 8 + 8 * n;
    let mut i: usize = 0;
    while i < n
        invariant
            n == argc,
            n <= argv@.len(),
            i <= n,
            n * (8 + MAX_STRING_LEN + 1) + 32 <= usize::MAX,
            forall|k: int| 0 <= k < n ==> (#[trigger] strs[k]).len() <= MAX_STRING_LEN,
            forall|k: int| 0 <= k < n ==> (#[trigger] argv@[k]) is Some,
            strs == read_strings(argv@, n as int),
            buffer@ == u64_le_bytes(argc) + offset_table(strs, i as int),
            index == argv_offset(strs, i as int),
            strings_len(strs, n as int) <= n * (MAX_STRING_LEN + 1),
        decreases n - i,
    {
        proof {
            lemma_strings_len(strs, i as int);
            lemma_strings_len(strs, (i + 1) as int);
            lemma_strings_monotone(strs, (i + 1) as int, n as int);
            assert(8 + 8 * n + n * (MAX_STRING_LEN + 1) <= n * (8 + MAX_STRING_LEN + 1) + 8) by (nonlinear_arith)
                requires
                    n >= 0,
            ;
        }
        let mut word = u64_to_le_bytes(index as u64);
        buffer.append(&mut word);
        match &argv[i] {
            Some(s) => {
                assert(strs[i as int] == s@);
                index = index + s.len() + 1;
            },
            None => {},
        }
        i += 1;
    }
    let mut i: usize = 0;
    while i < n
        invariant
            n == argc,
            n <= argv@.len(),
            i <= n,
            forall|k: int| 0 <= k < n ==> (#[trigger] argv@[k]) is Some,
            strs == read_strings(argv@, n as int),
            buffer@ == u64_le_bytes(argc) + offset_table(strs, n as int) + string_area(strs, i as int),
        decreases n - i,
    {
        match &argv[i] {
            Some(s) => {
                let ghost before = buffer@;
                let mut j: usize = 0;
                while j < s.len()
                    invariant
                        j <= s@.len(),
                        buffer@ == before + s@.subrange(0, j as int),
                    decreases s@.len() - j,
                {
                    buffer.push(s[j]);
                    j += 1;
                    assert(buffer@ =~= before + s@.subrange(0, j as int));
                }
                buffer.push(0u8);
                assert(s@.subrange(0, s@.len() as int) =~= s@);
                assert(strs[i as int] == s@);
            },
            None => {},
        }
        i += 1;
    }
    proof {
        lemma_strings_len(strs, n as int);
        assert(8 + 8 * n + n * (MAX_STRING_LEN + 1) <= n * (8 + MAX_STRING_LEN + 1) + 8) by (nonlinear_arith)
            requires
                n >= 0,
        ;
        crate::allocators::lemma_align_up_16(buffer_size);
    }
    let aligned = crate::allocators::align_up(buffer_size, 16);
    let ghost body = buffer@;
    assert(body.len() == buffer_size);
    while buffer.len() < aligned
        invariant
            buffer@.len() <= aligned,
            buffer@.subrange(0, body.len() as int) == body,
            forall|k: int| body.len() <= k < buffer@.len() ==> buffer@[k] == 0u8,
            body.len() <= buffer@.len(),
        decreases aligned - buffer@.len(),
    {
        buffer.push(0u8);
        assert(buffer@.subrange(0, body.len() as int) =~= body);
    }
    assert(buffer@ =~= argv_block(strs));
    Ok(buffer)
}

pub proof fn lemma_strings_monotone(strs: Seq<Seq<u8>>, i: int, j: int)
    requires
        0 <= i <= j,
    ensures
        strings_len(strs, i) <= strings_len(strs, j),
    decreases j - i,
{
    if i < j {
        lemma_strings_monotone(strs, i, j - 1);
    }
}

/// The system calls, by what they do.
#[derive(Debug, Clone, Copy, PartialEq, Eq, Structural)]
pub enum Syscall {
    Write,
    Read,
    Open,
    Close,
    Dup2,
    Nanosleep,
    Fork,
    Exec,
    Waitpid,
    Sbrk,
    Pipe,
    Exit,
}

/// The system call with number `num`, if one has it.
pub open spec fn syscall_for_spec(num: u64) -> Option<Syscall> {
    if num == 0 {
        Some(Syscall::Write)
    } else if num == 1 {
        Some(Syscall::Read)
    } else if num == 8 {
        Some(Syscall::Open)
    } else if num == 11 {
        Some(Syscall::Close)
    } else if num == 14 {
        Some(Syscall::Dup2)
    } else if num == 17 {
        Some(Syscall::Nanosleep)
    } else if num == 20 {
        Some(Syscall::Fork)
    } else if num == 22 {
        Some(Syscall::Exec)
    } else if num == 27 {
        Some(Syscall::Waitpid)
    } else if num == 33 {
        Some(Syscall::Sbrk)
    } else if num == 40 {
        Some(Syscall::Pipe)
    } else if num == 50 {
        Some(Syscall::Exit)
    } else {
        None
    }
}

/// The system call with number `num`, if one has it.
pub fn syscall_for(num: u64) -> (r: Option<Syscall>)
    ensures
        r == syscall_for_spec(num),
{
    match num {
        0 => Some(Syscall::Write),
        1 => Some(Syscall::Read),
        8 => Some(Syscall::Open),
        11 => Some(Syscall::Close),
        14 => Some(Syscall::Dup2),
        17 => Some(Syscall::Nanosleep),
        20 => Some(Syscall::Fork),
        22 => Some(Syscall::Exec),
        27 => Some(Syscall::Waitpid),
        33 => Some(Syscall::Sbrk),
        40 => Some(Syscall::Pipe),
        50 => Some(Syscall::Exit),
        _ => None,
    }
}

/// What `x0` holds after a system call that failed: -1.
pub const SYSCALL_FAILED: u64 = 0xffff_ffff_ffff_ffff;

/// Number of entries of the system call table.
pub const SYSCALL_TABLE_LEN: u64 = 100;

/// Where a system call number leads.
#[derive(Debug, Clone, Copy, PartialEq, Eq, Structural)]
pub enum SyscallRoute {
    /// Past the table: the call fails.
    OutOfTable,
    /// An entry of the table without a handler: the registers stay as they are.
    NoHandler,
    /// The handler of the call.
    Handler(Syscall),
}

/// The route of system call number `num`, which the caller leaves in `x8`.
pub fn route_syscall(num: u64) -> (r: SyscallRoute)
    ensures
        num >= SYSCALL_TABLE_LEN ==> r == SyscallRoute::OutOfTable,
        num < SYSCALL_TABLE_LEN ==> r == match syscall_for_spec(num) {
            Some(c) => SyscallRoute::Handler(c),
            None => SyscallRoute::NoHandler,
        },
{
    if num >= SYSCALL_TABLE_LEN {
        return SyscallRoute::OutOfTable;
    }
    match syscall_for(num) {
        Some(c) => SyscallRoute::Handler(c),
        None => SyscallRoute::NoHandler,
    }
}

/// Leaves -1 in `x0`, for a call that failed.
pub fn fail_syscall(regs: &mut ExceptionRegisters)
    ensures
        final(regs).gprs@ == old(regs).gprs@.update(0, SYSCALL_FAILED),
        final(regs).elr == old(regs).elr,
        final(regs).spsr == old(regs).spsr,
        final(regs).sp_el0 == old(regs).sp_el0,
{
    regs.gprs[0] = SYSCALL_FAILED;
}

/// `dup2`: makes descriptor `x1` name the open file of descriptor `x0`; `x0` becomes 0, or -1
/// when `x0` names no open file.
pub fn sys_dup2(regs: &mut ExceptionRegisters, fds: &mut TaskFdTable)
    requires
        old(fds).wf(),
    ensures
        final(fds).wf(),
        ({
            let src = old(regs).gprs@[0] as u32;
            let dst = old(regs).gprs@[1] as u32;
            &&& final(regs).gprs@ == old(regs).gprs@.update(
                0,
                if has_key(old(fds).fds@, src as usize) { 0 } else { SYSCALL_FAILED },
            )
            &&& !has_key(old(fds).fds@, src as usize) ==> final(fds).fds@ == old(fds).fds@
            &&& has_key(old(fds).fds@, src as usize) ==> exists|i: int, j: int|
                0 <= i < old(fds).fds@.len() && 0 <= j < final(fds).fds@.len() && (#[trigger] old(fds).fds@[i]).0
                    == src as usize && (#[trigger] final(fds).fds@[j]).0 == dst as usize && final(fds).fds@[j].1.inner
                    == old(fds).fds@[i].1.inner
        }),
        final(fds).files@ == old(fds).files@,
        final(regs).elr == old(regs).elr,
{
    let old_fd = regs.gprs[0];
    let new_fd = regs.gprs[1];
    if fds.dup_fd(new_fd as u32, old_fd as u32).is_ok() {
        regs.gprs[0] = 0;
    } else {
        regs.gprs[0] = SYSCALL_FAILED;
    }
}

/// `close`: closes descriptor `x0`; `x0` becomes 0 whether or not it was open.
pub fn sys_close(regs: &mut ExceptionRegisters, fds: &mut TaskFdTable)
    requires
        old(fds).wf(),
    ensures
        final(fds).wf(),
        final(regs).gprs@ == old(regs).gprs@.update(0, 0u64),
        final(fds).files@ == old(fds).files@,
        !has_key(old(fds).fds@, old(regs).gprs@[0] as usize) ==> final(fds).fds@ == old(fds).fds@,
        has_key(old(fds).fds@, old(regs).gprs@[0] as usize) ==> final(fds).fds@.len() == old(fds).fds@.len() - 1,
        final(regs).elr == old(regs).elr,
{
    let descriptor = regs.gprs[0];
    fds.close(descriptor as usize);
    regs.gprs[0] = 0;
}

/// `sbrk`: moves the end of the heap by the signed offset in `x0`; `x0` becomes the new end.
/// When the heap shrinks, the valid pages of the task's tables that it gives up drop their
/// frames' uses and become invalid.
pub fn sys_sbrk(regs: &mut ExceptionRegisters, task: &mut Task, metas: &mut Vec<PageMeta>)
    requires
        old(task).process matches Process::User(u) ==> heap_release_ready(
            u,
            old(regs).gprs@[0] as isize,
            u.page_table.pages@,
            old(metas)@,
        ),
    ensures
        old(task).process is Kernel ==> final(regs).gprs@ == old(regs).gprs@.update(0, 0u64) && final(metas)@ == old(metas)@,
        old(task).process matches Process::User(u) ==> final(regs).gprs@ == old(regs).gprs@.update(
            0,
            saturating_offset(u.user_heap.0.vma_bounds.1, old(regs).gprs@[0] as isize) as u64,
        ),
        old(task).process is Kernel ==> final(task).process == old(task).process,
        old(task).process matches Process::User(u) ==> (final(task).process matches Process::User(nu) && {
            let end = saturating_offset(u.user_heap.0.vma_bounds.1, old(regs).gprs@[0] as isize);
            let top = u.user_heap.0.vma_bounds.1;
            &&& nu.user_heap.0.vma_bounds.1 == end
            &&& nu.user_heap.0.vma_bounds.0 == u.user_heap.0.vma_bounds.0
            &&& end < top ==> final(metas)@ == released_metas(old(metas)@, u.page_table.pages@, end as int, top as int)
                && nu.page_table.pages@ == pages_outside(u.page_table.pages@, end as int, top as int)
            &&& end >= top ==> final(metas)@ == old(metas)@ && nu.page_table.pages@ == u.page_table.pages@
        }),
        final(task).pid == old(task).pid,
        final(regs).elr == old(regs).elr,
{
    let offset = regs.gprs[0] as isize;
    match task.offset_heap(offset, metas) {
        Ok(end) => {
            regs.gprs[0] = end as u64;
        },
        Err(()) => {
            regs.gprs[0] = SYSCALL_FAILED;
        },
    }
}

/// `nanosleep`: queues a wake-up `x0` nanoseconds, cut to whole microseconds, after `now`;
/// `x0` becomes 0. Returns how to program the timer; the caller then blocks on `wait_queue`.
pub fn sys_nanosleep(regs: &mut ExceptionRegisters, queue: &mut TimerQueue, now: u64, func: usize, wait_queue: usize) -> (r:
    TimerProgram)
    requires
        now + old(regs).gprs@[0] / 1000 <= u64::MAX,
    ensures
        final(regs).gprs@ == old(regs).gprs@.update(0, 0u64),
        final(queue)@.to_multiset() == old(queue)@.to_multiset().insert(
            TimerItem { target_time: (now + old(regs).gprs@[0] / 1000) as u64, func, data: Some(wait_queue) },
        ),
        old(queue).wf() ==> final(queue).wf(),
        r == TimerProgram::Arm(final(queue)@[0].target_time),
        final(regs).elr == old(regs).elr,
{
    let delay_ns = regs.gprs[0];
    let program = us_sleep(queue, now, delay_ns / 1000, func, wait_queue);
    regs.gprs[0] = 0;
    program
}

/// `exit`: ends the task picked last with the code in `x0`, then picks the next task to run.
/// Returns the registers to return to, and the tasks that waited for the ended one, which the
/// caller makes runnable.
pub fn sys_exit(regs: &ExceptionRegisters, sched: &mut Sched) -> (r: (ExceptionRegisters, Vec<u32>))
    requires
        old(sched).wf(),
        old(sched).run_queue@.len() > 0 || old(sched).idle_task is Some,
    ensures
        final(sched).wf(),
        final(sched).staging == (if old(sched).run_queue@.len() > 0 {
            Some(old(sched).run_queue@[0])
        } else {
            None
        }),
        old(sched).run_queue@.len() > 0 ==> final(sched).run_queue@ == old(sched).run_queue@.drop_first()
            && final(sched).scheduled == Some(old(sched).run_queue@[0]) && r.0 == registers_of(
            final(sched).tasks@,
            old(sched).run_queue@[0],
        ),
        old(sched).run_queue@.len() == 0 ==> final(sched).scheduled == old(sched).idle_task && r.0 == registers_of(
            final(sched).tasks@,
            old(sched).idle_task->Some_0,
        ),
        old(sched).staging is None ==> r.1@.len() == 0,
        final(sched).blocked_queue@ == old(sched).blocked_queue@,
{
    let code = regs.gprs[0] as i32;
    let woken = sched.end_task(code);
    let next = match sched.next_task() {
        Some(n) => n,
        None => *regs,
    };
    (next, woken)
}

} // verus!

verus! {

use crate::elf::parser::Segment;
use crate::sched::task::{args_placeable, lazy_area_of, mapped_segments, segment_fits, user_stack_bytes};
use crate::subsystem::fs::inode::FsError;

/// `exec`: replaces the program of `task` by an image and `argc` arguments. `path_ok` tells
/// whether the path in `x0` could be read, `image` is what opening and parsing it gave (the
/// entry and the segments), `argv_in_range` whether the table of argument addresses in `x2`
/// lies in user memory, `words_copied` how many of its words were read, and `argv` the strings
/// they name (`None` for one that could not be read). Any failure leaves -1 in `x0` and the
/// task and `metas` as they were; otherwise the registers become those the new program starts
/// with, the old heap and segments drop the uses of their valid pages, and the task gets tables
/// that map the new stack (see `Process::exec`). Returns whether the program was replaced.
pub fn sys_exec(
    regs: &mut ExceptionRegisters,
    task: &mut Task,
    path_ok: bool,
    image: Result<(u64, Vec<Segment>), FsError>,
    argc: u64,
    argv_in_range: bool,
    words_copied: usize,
    argv: &Vec<Option<Vec<u8>>>,
    user_stack_addr: u64,
    metas: &mut Vec<PageMeta>,
) -> (r: bool)
    requires
        old(task).process matches Process::User(o) ==> areas_ready(old(metas)@, o.page_table.pages@, process_areas(o)),
        image matches Ok((_, segs)) ==> forall|i: int| 0 <= i < segs@.len() ==> segment_fits(#[trigger] segs@[i]),
        words_copied == argc ==> argc <= argv@.len() && argc * (8 + MAX_STRING_LEN + 1) + 32 <= usize::MAX
            && (forall|i: int| 0 <= i < argc ==> ((#[trigger] argv@[i]) matches Some(s) ==> s@.len() <= MAX_STRING_LEN)),
        words_copied == argc && (forall|i: int| 0 <= i < argc ==> (#[trigger] argv@[i]) is Some) ==> args_placeable(
            argv_block(read_strings(argv@, argc as int)),
        ),
        old(task).registers.gprs@[31] % 16 == 0,
    ensures
        r <==> (path_ok && image is Ok && argv_in_range && words_copied == argc && forall|i: int|
            0 <= i < argc ==> (#[trigger] argv@[i]) is Some),
        !r ==> final(regs).gprs@ == old(regs).gprs@.update(0, SYSCALL_FAILED) && final(regs).elr == old(regs).elr
            && final(regs).spsr == old(regs).spsr && final(regs).sp_el0 == old(regs).sp_el0 && *final(task) == *old(task)
            && final(metas)@ == old(metas)@,
        r ==> ({
            let (entry, segs) = image->Ok_0;
            let args = argv_block(read_strings(argv@, argc as int));
            &&& *final(regs) == final(task).registers
            &&& final(regs).elr == entry
            &&& final(regs).sp_el0 == crate::sched::task::STACK_VIRTUAL_ADDR + crate::sched::task::STACK_SIZE - args.len()
            &&& final(regs).gprs@[1] == crate::sched::task::STACK_VIRTUAL_ADDR + crate::sched::task::STACK_SIZE - args.len() + 8
            &&& final(regs).spsr == 0
            &&& final(task).pid == old(task).pid
            &&& old(task).process is Kernel ==> final(task).process == old(task).process && final(metas)@ == old(metas)@
            &&& old(task).process matches Process::User(o) ==> (final(task).process matches Process::User(u)
                && u.user_stack.addr == user_stack_addr && u.user_stack.bytes@ == user_stack_bytes(args)
                && u.segments@.len() == mapped_segments(segs@).len()
                && (forall|i: int| 0 <= i < u.segments@.len() ==> lazy_area_of(#[trigger] u.segments@[i], mapped_segments(segs@)[i]))
                && u.fds == o.fds
                && final(metas)@ == released_areas(old(metas)@, o.page_table.pages@, process_areas(o))
                && u.page_table.pages@ == stack_pages(user_stack_addr))
        }),
{
    if !path_ok {
        fail_syscall(regs);
        return false;
    }
    let (entry, segments) = match image {
        Ok(found) => found,
        Err(_) => {
            fail_syscall(regs);
            return false;
        },
    };
    if !argv_in_range || words_copied as u64 != argc {
        fail_syscall(regs);
        return false;
    }
    let args = match parse_argv(argc, argv) {
        Ok(block) => block,
        Err(()) => {
            fail_syscall(regs);
            return false;
        },
    };
    let new_regs = task.exec(entry, segments, args.as_slice(), user_stack_addr, metas);
    *regs = new_regs;
    true
}

} // verus!

verus! {

use crate::bytes::{u32_le_bytes, u32_to_le_bytes, zeroed_bytes};
use crate::interrupts::sexc_handler::{strnlen_spec, UserInput};
use crate::sched::task::{moved_by, TaskFdInner};
use crate::subsystem::fs::FileSystem;
use crate::subsystem::fs::inode::{FsResult, InodeOperations};
use crate::subsystem::fs::mounts::{mount_for, MountTable};
use crate::utils::string::utf8_valid;
use crate::sched::task::{
    areas_end_in_range, forked_metas, process_fork_of, process_fork_protected, stack_top_of, TaskState,
};
use crate::sched::user_pages::frames_known;

/// Whether `len` bytes at `addr` lie below the user limit.
pub open spec fn user_range_ok(addr: u64, len: int) -> bool {
    addr < USER_ADDRESS_LIMIT && addr + len < USER_ADDRESS_LIMIT
}

/// The value `x0` holds after a call that gave `r`: -1 for a failure.
pub open spec fn returned(r: isize) -> u64 {
    if r < 0 {
        SYSCALL_FAILED
    } else {
        r as u64
    }
}

/// What opening `path` in the mount table gives.
pub open spec fn opened<F: FileSystem>(mounts: &MountTable<F>, path: Seq<u8>) -> FsResult<usize> {
    match mount_for(mounts.mounts@, path, 0) {
        None => Err(FsError::NoExist),
        Some(k) => mounts.mounts@[k].fs.open_result(path.skip(mounts.mounts@[k].path@.len() as int)),
    }
}

/// A string's length is at most what holds it.
proof fn lemma_strnlen_bound(s: Seq<u8>, max_len: int)
    ensures
        0 <= strnlen_spec(s, max_len) <= s.len(),
        strnlen_spec(s, max_len) <= if max_len < 0 { 0 } else { max_len },
    decreases max_len,
{
    if !(max_len <= 0 || s.len() == 0 || s[0] == 0) {
        lemma_strnlen_bound(s.drop_first(), max_len - 1);
    }
}

/// `write`: writes the `x2` bytes at user address `x1` through descriptor `x0` to `target`,
/// the object its open file names, where `readable` holds the bytes of the range that can be
/// read; the bytes up to the first that faults are written. `x0` becomes the count written,
/// or -1 when the range does not lie in user memory, the descriptor is not open or the write
/// fails. Returns that result.
pub fn sys_write<I: InodeOperations>(regs: &mut ExceptionRegisters, fds: &mut TaskFdTable, target: &mut I, readable: &[u8]) -> (r: isize)
    requires
        old(fds).wf(),
    ensures
        final(fds).wf(),
        final(regs).gprs@ == old(regs).gprs@.update(0, returned(r)),
        final(fds).fds@ == old(fds).fds@,
        final(fds).next_fd_number == old(fds).next_fd_number,
        ({
            let descriptor = old(regs).gprs@[0] as usize;
            let len = old(regs).gprs@[2] as usize;
            let n = vstd::math::min(len as int, readable@.len() as int);
            &&& !user_range_ok(old(regs).gprs@[1], len as int) ==> r == -1 && final(fds).files@ == old(fds).files@
            &&& !has_key(old(fds).fds@, descriptor) ==> r == -1 && final(fds).files@ == old(fds).files@
            &&& r == -1 ==> final(fds).files@ == old(fds).files@
            &&& len > isize::MAX ==> r == -1 && final(fds).files@ == old(fds).files@
            &&& r != -1 ==> user_range_ok(old(regs).gprs@[1], len as int) && has_key(old(fds).fds@, descriptor) && 0 <= r <= n
                && exists|i: int|
                0 <= i < old(fds).fds@.len() && (#[trigger] old(fds).fds@[i]).0 == descriptor && final(fds).files@
                    == old(fds).files@.update(
                    old(fds).fds@[i].1.inner as int,
                    moved_by(old(fds).files@[old(fds).fds@[i].1.inner as int], r as usize),
                )
        }),
        final(regs).elr == old(regs).elr,
{
    let descriptor = regs.gprs[0] as usize;
    let addr = regs.gprs[1];
    let len = regs.gprs[2] as usize;
    let user_buf = match UserInput::from_raw_parts(addr, len, 1) {
        Ok(b) => b,
        Err(()) => {
            regs.gprs[0] = SYSCALL_FAILED;
            return -1;
        },
    };
    if len > isize::MAX as usize {
        regs.gprs[0] = SYSCALL_FAILED;
        return -1;
    }
    let mut kernel_buf = zeroed_bytes(user_buf.len());
    let copied = user_buf.copy_to_slice(&mut kernel_buf, readable);
    kernel_buf.truncate(copied);
    let ret = fds.write(descriptor, target, kernel_buf.as_slice());
    if ret < 0 {
        regs.gprs[0] = SYSCALL_FAILED;
    } else {
        regs.gprs[0] = ret as u64;
    }
    ret
}

/// `read`: reads at most `x2` bytes through descriptor `x0` from `target`, the object its open
/// file names, into the user range at `x1`, where `writable` holds the bytes of that range that
/// can be written; the copy stops where a write faults. `x0` becomes how many bytes reached
/// the range, or -1 when the range does not lie in user memory, the descriptor is not open or
/// the read fails.
pub fn sys_read<I: InodeOperations>(regs: &mut ExceptionRegisters, fds: &mut TaskFdTable, target: &I, writable: &mut Vec<u8>) -> (r: isize)
    requires
        old(fds).wf(),
    ensures
        final(fds).wf(),
        final(fds).fds@ == old(fds).fds@,
        final(fds).next_fd_number == old(fds).next_fd_number,
        final(writable)@.len() == old(writable)@.len(),
        final(regs).elr == old(regs).elr,
        ({
            let descriptor = old(regs).gprs@[0] as usize;
            let len = old(regs).gprs@[2] as usize;
            let m = vstd::math::min(r as int, old(writable)@.len() as int);
            &&& !user_range_ok(old(regs).gprs@[1], len as int) ==> r == -1
            &&& len > isize::MAX ==> r == -1
            &&& !has_key(old(fds).fds@, descriptor) ==> r == -1
            &&& r == -1 ==> final(regs).gprs@ == old(regs).gprs@.update(0, SYSCALL_FAILED) && final(fds).files@
                == old(fds).files@ && final(writable)@ == old(writable)@
            &&& r != -1 ==> {
                &&& 0 <= r <= len
                &&& final(regs).gprs@ == old(regs).gprs@.update(0, m as u64)
                &&& final(writable)@.subrange(m, final(writable)@.len() as int) == old(writable)@.subrange(
                    m,
                    old(writable)@.len() as int,
                )
                &&& exists|i: int|
                    0 <= i < old(fds).fds@.len() && (#[trigger] old(fds).fds@[i]).0 == descriptor && final(fds).files@
                        == old(fds).files@.update(
                        old(fds).fds@[i].1.inner as int,
                        moved_by(old(fds).files@[old(fds).fds@[i].1.inner as int], r as usize),
                    )
            }
        }),
{
    let descriptor = regs.gprs[0] as usize;
    let addr = regs.gprs[1];
    let len = regs.gprs[2] as usize;
    let user_buf = match UserInput::from_raw_parts(addr, len, 1) {
        Ok(b) => b,
        Err(()) => {
            regs.gprs[0] = SYSCALL_FAILED;
            return -1;
        },
    };
    if len > isize::MAX as usize {
        regs.gprs[0] = SYSCALL_FAILED;
        return -1;
    }
    let mut scratch = zeroed_bytes(len);
    let ret = fds.read(descriptor, target, &mut scratch);
    if ret < 0 {
        regs.gprs[0] = SYSCALL_FAILED;
    } else {
        let count = ret as usize;
        scratch.truncate(count);
        let copied = user_buf.copy_from_slice(writable, scratch.as_slice());
        regs.gprs[0] = copied as u64;
    }
    ret
}

/// `open`: opens the path named by the string at user address `x0`, at most
/// `MAX_STRING_LEN` bytes up to its first zero, where `readable` holds the bytes there that can
/// be read. `x0` becomes the new descriptor, or -1 when the string does not lie in user
/// memory, is not UTF-8, or names nothing that opens.
pub fn sys_open<F: FileSystem>(regs: &mut ExceptionRegisters, fds: &mut TaskFdTable, mounts: &MountTable<F>, readable: &[u8])
    requires
        old(fds).wf(),
        mounts.wf(),
        old(fds).files@.len() < usize::MAX,
    ensures
        final(fds).wf(),
        final(regs).elr == old(regs).elr,
        ({
            let len = strnlen_spec(readable@, MAX_STRING_LEN as int);
            let path = readable@.subrange(0, len);
            let ok = user_range_ok(old(regs).gprs@[0], len);
            &&& ok && utf8_valid(path) && opened(mounts, path) is Ok ==> {
                let inode = opened(mounts, path)->Ok_0;
                &&& final(regs).gprs@ == old(regs).gprs@.update(0, old(fds).next_fd_number as u64)
                &&& final(fds).files@ == old(fds).files@.push(TaskFdInner::File { inode, offset: 0 })
                &&& has_key(final(fds).fds@, old(fds).next_fd_number)
                &&& final(fds).next_fd_number == old(fds).next_fd_number.wrapping_add(1)
            }
            &&& !(ok && utf8_valid(path) && opened(mounts, path) is Ok) ==> final(regs).gprs@ == old(regs).gprs@.update(
                0,
                SYSCALL_FAILED,
            ) && *final(fds) == *old(fds)
        }),
{
    let addr = regs.gprs[0];
    let user_cstr = match UserInput::from_cstr(addr, MAX_STRING_LEN, readable) {
        Ok(s) => s,
        Err(()) => {
            regs.gprs[0] = SYSCALL_FAILED;
            return ;
        },
    };
    let mut scratch = zeroed_bytes(user_cstr.len());
    proof {
        lemma_strnlen_bound(readable@, MAX_STRING_LEN as int);
    }
    user_cstr.copy_to_slice(&mut scratch, readable);
    proof {
        assert(scratch@ =~= readable@.subrange(0, user_cstr.len as int));
    }
    if !crate::utils::string::is_utf8(scratch.as_slice()) {
        regs.gprs[0] = SYSCALL_FAILED;
        return ;
    }
    match mounts.open(scratch.as_slice()) {
        Ok(inode) => {
            let descriptor = fds.add_file_fd(inode);
            regs.gprs[0] = descriptor as u64;
        },
        Err(_) => {
            regs.gprs[0] = SYSCALL_FAILED;
        },
    }
}

/// `waitpid`: waits for the child with pid `x0` of `task` to end. `x0` becomes 0 when `task`
/// has such a child, -1 otherwise. Returns the child, on whose end the caller blocks the task
/// unless it already ended.
pub fn sys_waitpid(regs: &mut ExceptionRegisters, task: &Task) -> (r: Option<u32>)
    ensures
        r is Some <==> task.children@.contains(old(regs).gprs@[0] as u32),
        r matches Some(c) ==> c == old(regs).gprs@[0] as u32,
        final(regs).gprs@ == old(regs).gprs@.update(0, if r is Some { 0u64 } else { SYSCALL_FAILED }),
        final(regs).elr == old(regs).elr,
{
    let pid = regs.gprs[0] as u32;
    let child = task.find_child(pid);
    if child.is_some() {
        regs.gprs[0] = 0;
    } else {
        regs.gprs[0] = SYSCALL_FAILED;
    }
    child
}

/// `pipe`: opens the pipe object `pipe` under two new descriptors and stores them, as two
/// little-endian 32-bit words, at user address `x0`, where `writable` holds the bytes of those
/// eight that can be written. `x0` becomes 0, or -1 with nothing opened when the words do not
/// lie in user memory.
pub fn sys_pipe(regs: &mut ExceptionRegisters, fds: &mut TaskFdTable, writable: &mut Vec<u8>, pipe: usize)
    requires
        old(fds).wf(),
        old(fds).files@.len() + 2 < usize::MAX,
    ensures
        final(fds).wf(),
        final(regs).elr == old(regs).elr,
        final(writable)@.len() == old(writable)@.len(),
        !user_range_ok(old(regs).gprs@[0], 8) ==> final(regs).gprs@ == old(regs).gprs@.update(0, SYSCALL_FAILED)
            && *final(fds) == *old(fds) && final(writable)@ == old(writable)@,
        user_range_ok(old(regs).gprs@[0], 8) ==> {
            let d1 = old(fds).next_fd_number;
            let d2 = d1.wrapping_add(1);
            let words = u32_le_bytes(d1 as u32) + u32_le_bytes(d2 as u32);
            let n = vstd::math::min(8, old(writable)@.len() as int);
            &&& final(regs).gprs@ == old(regs).gprs@.update(0, 0u64)
            &&& final(fds).files@ == old(fds).files@.push(TaskFdInner::AnonFile { inode_ops: pipe, offset: 0 }).push(
                TaskFdInner::AnonFile { inode_ops: pipe, offset: 0 },
            )
            &&& has_key(final(fds).fds@, d1) && has_key(final(fds).fds@, d2)
            &&& final(fds).next_fd_number == d2.wrapping_add(1)
            &&& final(writable)@.subrange(0, n) == words.subrange(0, n)
            &&& final(writable)@.subrange(n, final(writable)@.len() as int) == old(writable)@.subrange(
                n,
                old(writable)@.len() as int,
            )
        },
{
    let user_output = match UserInput::from_raw_parts(regs.gprs[0], 2, 4) {
        Ok(o) => o,
        Err(()) => {
            regs.gprs[0] = SYSCALL_FAILED;
            return ;
        },
    };
    let descriptor1 = fds.add_anon_file_fd(pipe);
    let ghost mid = fds.fds@;
    let descriptor2 = fds.add_anon_file_fd(pipe);
    proof {
        let i = choose|i: int| 0 <= i < mid.len() && #[trigger] mid[i].0 == descriptor1;
        let pos = choose|pos: int| 0 <= pos <= mid.len() && fds.fds@ == #[trigger] mid.insert(
            pos,
            (descriptor2, crate::sched::task::TaskFd { descriptor: descriptor2, inner: (old(fds).files@.len() + 1) as usize }),
        );
        if i < pos {
            assert(fds.fds@[i].0 == descriptor1);
        } else {
            assert(fds.fds@[i + 1].0 == descriptor1);
        }
    }
    let mut words = u32_to_le_bytes(descriptor1 as u32);
    let mut second = u32_to_le_bytes(descriptor2 as u32);
    words.append(&mut second);
    user_output.copy_from_slice(writable, words.as_slice());
    regs.gprs[0] = 0;
}

/// `fork`: makes a child of `task` with pid `child_pid`, whose stacks are copied to the given
/// addresses (see `Task::fork_process`); `x0` becomes the child's pid. Returns the child, which
/// the caller hands to the scheduler.
pub fn sys_fork(
    regs: &mut ExceptionRegisters,
    task: &mut Task,
    child_pid: u32,
    user_stack_addr: u64,
    kernel_stack_addr: u64,
    metas: &mut Vec<PageMeta>,
) -> (r: Task)
    requires
        old(task).stacks_ok(),
        old(task).process matches Process::User(u) ==> u.fds.wf() && frames_known(old(metas)@, u.page_table.pages@)
            && areas_end_in_range(process_areas(u)),
        stack_top_of(kernel_stack_addr) <= u64::MAX,
        stack_top_of(user_stack_addr) <= u64::MAX,
        old(task).registers.gprs@[31] <= stack_top_of(old(task).kernel_stack_addr()),
        stack_top_of(old(task).kernel_stack_addr()) - old(task).registers.gprs@[31] <= stack_top_of(kernel_stack_addr),
    ensures
        final(regs).gprs@ == old(regs).gprs@.update(0, child_pid as u64),
        final(regs).elr == old(regs).elr,
        r.pid == child_pid,
        r.parent_pid == old(task).pid,
        r.state == TaskState::Runnable,
        r.registers.gprs@[0] == 0,
        r.kernel_stack_addr() == kernel_stack_addr,
        process_fork_of(r.process, old(task).process, user_stack_addr, kernel_stack_addr),
        final(task).children@ == old(task).children@.push(child_pid),
        final(task).pid == old(task).pid,
        final(task).registers == old(task).registers,
        process_fork_protected(final(task).process, old(task).process),
        old(task).process matches Process::User(u) ==> final(metas)@ == forked_metas(
            old(metas)@,
            u.page_table.pages@,
            process_areas(u),
        ),
{
    let child = task.fork_process(child_pid, user_stack_addr, kernel_stack_addr, metas);
    regs.gprs[0] = child_pid as u64;
    child
}

} // verus!
