use vstd::prelude::*;
use crate::interrupts::irq_handler::ExceptionRegisters;
use crate::interrupts::syscalls::{validate_user_address_range, USER_ADDRESS_LIMIT};
use crate::memory::{PageAllocator, Pfn};
use crate::sched::lazy_buffer::free_pages_ready;
use crate::sched::task::{task_fault_ready, task_fault_resolved, Task};
use crate::subsystem::page::fault::{PageFaultError, PageFaultType};
use crate::subsystem::page::meta::PageMeta;
use crate::utils::cpu_local::MAX_CPUS;
use crate::subsystem::trace::{decimal, decimal_digits};
use vstd::string::StrSliceExecFns;

verus! {

/// Which handler an exception class goes to.
#[derive(Debug, Clone, Copy, PartialEq, Eq, Structural)]
pub enum SexcHandler {
    Default,
    Syscall,
    UserInstructionFault,
    UserDataFault,
    UserDataAccess,
}

pub const NUM_EXCEPTION_CLASSES: usize = 64;

/// Handlers by exception class.
pub struct SexcTable(pub Vec<SexcHandler>);

/// The table every core starts with: system calls, and instruction and data aborts from user
/// code, have their handlers; every other class goes to the default handler.
pub fn create_sexc_table() -> (r: SexcTable)
    ensures
        r.0@.len() == NUM_EXCEPTION_CLASSES,
        r.0@[0x15] == SexcHandler::Syscall,
        r.0@[0x20] == SexcHandler::UserInstructionFault,
        r.0@[0x24] == SexcHandler::UserDataFault,
        forall|i: int| 0 <= i < NUM_EXCEPTION_CLASSES && i != 0x15 && i != 0x20 && i != 0x24
            ==> #[trigger] r.0@[i] == SexcHandler::Default,
{
    let mut table: Vec<SexcHandler> = Vec::new();
    let mut i: usize = 0;
    while i < NUM_EXCEPTION_CLASSES
        invariant
            i <= NUM_EXCEPTION_CLASSES,
            table@.len() == i,
            forall|k: int| 0 <= k < i ==> #[trigger] table@[k] == SexcHandler::Default,
        decreases NUM_EXCEPTION_CLASSES - i,
    {
        table.push(SexcHandler::Default);
        i += 1;
    }
    table.set(0x15, SexcHandler::Syscall);
    table.set(0x20, SexcHandler::UserInstructionFault);
    table.set(0x24, SexcHandler::UserDataFault);
    SexcTable(table)
}

/// One value per core, each behind its own lock.
pub struct PerCpuLock<T> {
    pub per_cpu: Vec<T>,
}

impl<T> PerCpuLock<T> {
    pub fn new(per_cpu: Vec<T>) -> (r: Self)
        requires
            per_cpu@.len() == MAX_CPUS,
        ensures
            r.per_cpu@ == per_cpu@,
    {
        PerCpuLock { per_cpu }
    }

    /// The value of core `cpu`.
    pub fn lock(&mut self, cpu: usize) -> (r: &mut T)
        requires
            cpu < old(self).per_cpu@.len(),
        ensures
            *r == old(self).per_cpu@[cpu as int],
            final(self).per_cpu@ == old(self).per_cpu@.update(cpu as int, *final(r)),
    {
        &mut self.per_cpu[cpu]
    }
}

impl PerCpuLock<SexcTable> {
    /// The handler that core `cpu` runs for exception class `ec`.
    pub fn dispatch(&self, cpu: usize, ec: usize) -> (r: SexcHandler)
        requires
            cpu < self.per_cpu@.len(),
            ec < self.per_cpu@[cpu as int].0@.len(),
        ensures
            r == self.per_cpu@[cpu as int].0@[ec as int],
    {
        self.per_cpu[cpu].0[ec]
    }

    /// Makes `func` the handler of class `ec` on core `cpu` and returns the one it replaces.
    pub fn set(&mut self, cpu: usize, ec: usize, func: SexcHandler) -> (r: SexcHandler)
        requires
            cpu < old(self).per_cpu@.len(),
            ec < old(self).per_cpu@[cpu as int].0@.len(),
        ensures
            r == old(self).per_cpu@[cpu as int].0@[ec as int],
            final(self).per_cpu@.len() == old(self).per_cpu@.len(),
            final(self).per_cpu@[cpu as int].0@ == old(self).per_cpu@[cpu as int].0@.update(ec as int, func),
            forall|c: int| 0 <= c < old(self).per_cpu@.len() && c != cpu ==> #[trigger] final(self).per_cpu@[c]
                == old(self).per_cpu@[c],
    {
        let table = self.lock(cpu);
        let old_func = table.0[ec];
        table.0.set(ec, func);
        old_func
    }
}

/// A range of user memory that was checked to lie below the user limit: `len` items of
/// `item_size` bytes at `addr`.
#[derive(Debug, Clone, Copy, PartialEq, Eq, Structural)]
pub struct UserInput {
    pub addr: u64,
    pub len: usize,
    pub item_size: usize,
}

impl UserInput {
    /// `user_len` items of `item_size` bytes at `user_address`, if they lie below the user
    /// limit; the byte length saturates.
    pub fn from_raw_parts(user_address: u64, user_len: usize, item_size: usize) -> (r: Result<Self, ()>)
        ensures
            ({
                let bytes = if user_len * item_size > u64::MAX { u64::MAX as int } else { user_len * item_size };
                &&& (user_address < USER_ADDRESS_LIMIT && user_address + bytes < USER_ADDRESS_LIMIT)
                    ==> r == Ok::<UserInput, ()>(UserInput { addr: user_address, len: user_len, item_size })
                &&& !(user_address < USER_ADDRESS_LIMIT && user_address + bytes < USER_ADDRESS_LIMIT)
                    ==> r is Err
            }),
    {
        let bytes: u64 = match (user_len as u64).checked_mul(item_size as u64) {
            Some(b) => b,
            None => u64::MAX,
        };
        if !validate_user_address_range(user_address, bytes) {
            return Err(());
        }
        Ok(UserInput { addr: user_address, len: user_len, item_size })
    }

    /// The string at `user_address`: its bytes up to the first zero, at most `max_len` of
    /// them, where `readable` holds the bytes there that can be read.
    pub fn from_cstr(user_address: u64, max_len: usize, readable: &[u8]) -> (r: Result<Self, ()>)
        ensures
            ({
                let len = strnlen_spec(readable@, max_len as int);
                &&& (user_address < USER_ADDRESS_LIMIT && user_address + len < USER_ADDRESS_LIMIT)
                    ==> r == Ok::<UserInput, ()>(UserInput { addr: user_address, len: len as usize, item_size: 1 })
                &&& !(user_address < USER_ADDRESS_LIMIT && user_address + len < USER_ADDRESS_LIMIT) ==> r is Err
            }),
    {
        if !validate_user_address_range(user_address, 0) {
            return Err(());
        }
        let len = user_strnlen(readable, max_len);
        if !validate_user_address_range(user_address, len as u64) {
            return Err(());
        }
        Ok(UserInput { addr: user_address, len, item_size: 1 })
    }

    /// Items `start..end` of this range.
    pub fn index(&self, start: usize, end: usize) -> (r: UserInput)
        requires
            start <= end <= self.len,
            self.addr + self.len * self.item_size < USER_ADDRESS_LIMIT,
        ensures
            r == (UserInput { addr: (self.addr + start * self.item_size) as u64, len: (end - start) as usize, item_size: self.item_size }),
    {
        proof {
            vstd::arithmetic::mul::lemma_mul_inequality(start as int, self.len as int, self.item_size as int);
        }
        UserInput { addr: self.addr + (start as u64) * (self.item_size as u64), len: end - start, item_size: self.item_size }
    }

    /// Items `start..end` of this range, to be written.
    pub fn index_mut(&mut self, start: usize, end: usize) -> (r: UserInput)
        requires
            start <= end <= old(self).len,
            old(self).addr + old(self).len * old(self).item_size < USER_ADDRESS_LIMIT,
        ensures
            r == (UserInput { addr: (old(self).addr + start * old(self).item_size) as u64, len: (end - start) as usize, item_size: old(self).item_size }),
            *final(self) == *old(self),
    {
        self.index(start, end)
    }

    pub fn len(&self) -> (r: usize)
        ensures
            r == self.len,
    {
        self.len
    }

    pub fn is_empty(&self) -> (r: bool)
        ensures
            r == (self.len == 0),
    {
        self.len == 0
    }

    /// Copies this range into the bytes of `dst`, where `readable` holds the bytes of the
    /// range that can be read; the copy stops where a read faults. Returns how many whole
    /// items were copied.
    pub fn copy_to_slice(&self, dst: &mut Vec<u8>, readable: &[u8]) -> (r: usize)
        requires
            self.item_size > 0,
            self.len * self.item_size <= usize::MAX,
            vstd::math::min(self.len * self.item_size, readable@.len() as int) <= old(dst)@.len(),
        ensures
            ({
                let n = vstd::math::min(self.len * self.item_size, readable@.len() as int);
                &&& r == n / self.item_size as int
                &&& final(dst)@.len() == old(dst)@.len()
                &&& final(dst)@.subrange(0, n) == readable@.subrange(0, n)
                &&& final(dst)@.subrange(n, final(dst)@.len() as int) == old(dst)@.subrange(n, old(dst)@.len() as int)
            }),
    {
        let bytes = self.len * self.item_size;
        let copied = copy_from_user(dst, bytes, readable);
        copied / self.item_size
    }

    /// Copies `src` into this range, where `writable` holds the bytes of the range that can be
    /// written; the copy stops where a write faults. Returns how many whole items were copied.
    pub fn copy_from_slice(&self, writable: &mut Vec<u8>, src: &[u8]) -> (r: usize)
        requires
            self.item_size > 0,
        ensures
            ({
                let n = vstd::math::min(src@.len() as int, old(writable)@.len() as int);
                &&& r == n / self.item_size as int
                &&& final(writable)@.len() == old(writable)@.len()
                &&& final(writable)@.subrange(0, n) == src@.subrange(0, n)
                &&& final(writable)@.subrange(n, final(writable)@.len() as int) == old(writable)@.subrange(n, old(writable)@.len() as int)
            }),
    {
        let copied = copy_to_user(writable, src);
        copied / self.item_size
    }
}

/// Length of the string in `s`: up to its first zero, at most `max_len`, at most what `s` holds.
pub open spec fn strnlen_spec(s: Seq<u8>, max_len: int) -> int
    decreases max_len,
{
    if max_len <= 0 || s.len() == 0 || s[0] == 0 {
        0
    } else {
        1 + strnlen_spec(s.drop_first(), max_len - 1)
    }
}

/// Length of the string at the start of `readable`, the bytes of user memory that can be read
/// there: the loop stops at a zero, at `max_len`, or where a read faults.
pub fn user_strnlen(readable: &[u8], max_len: usize) -> (r: usize)
    ensures
        r == strnlen_spec(readable@, max_len as int),
{
    let mut len: usize = 0;
    let _n = readable.len();
    assert(readable@.skip(0) =~= readable@);
    while len < max_len
        invariant
            len <= max_len,
            len <= readable@.len(),
            strnlen_spec(readable@, max_len as int) == len + strnlen_spec(readable@.skip(len as int), max_len - len),
        decreases max_len - len,
    {
        if len >= readable.len() {
            assert(readable@.skip(len as int).len() == 0);
            return len;
        }
        let byte = readable[len];
        if byte != 0 {
            assert(readable@.skip(len as int).drop_first() =~= readable@.skip(len + 1));
            len += 1;
        } else {
            return len;
        }
    }
    len
}

/// Copies from user memory into `dst`: `src_len` bytes were asked for, `readable` holds the
/// bytes that can be read; the copy stops where a read faults. Returns the bytes copied.
pub fn copy_from_user(dst: &mut Vec<u8>, src_len: usize, readable: &[u8]) -> (r: usize)
    requires
        vstd::math::min(src_len as int, readable@.len() as int) <= old(dst)@.len(),
    ensures
        r == vstd::math::min(src_len as int, readable@.len() as int),
        final(dst)@.len() == old(dst)@.len(),
        final(dst)@.subrange(0, r as int) == readable@.subrange(0, r as int),
        final(dst)@.subrange(r as int, final(dst)@.len() as int) == old(dst)@.subrange(r as int, old(dst)@.len() as int),
{
    let mut len: usize = 0;
    let _n = readable.len();
    while len < src_len
        invariant
            len <= src_len,
            len <= readable@.len(),
            vstd::math::min(src_len as int, readable@.len() as int) <= old(dst)@.len(),
            dst@.len() == old(dst)@.len(),
            dst@.subrange(0, len as int) == readable@.subrange(0, len as int),
            dst@.subrange(len as int, dst@.len() as int) == old(dst)@.subrange(len as int, old(dst)@.len() as int),
        decreases src_len - len,
    {
        if len >= readable.len() {
            return len;
        }
        let byte = readable[len];
        let ghost prev = dst@;
        dst.set(len, byte);
        proof {
            assert forall|k: int| len + 1 <= k < dst@.len() implies dst@[k] == old(dst)@[k] by {
                assert(prev.subrange(len as int, prev.len() as int)[k - len] == old(dst)@.subrange(len as int, old(dst)@.len() as int)[k - len]);
            }
        }
        len += 1;
        assert(dst@.subrange(0, len as int) =~= readable@.subrange(0, len as int));
        assert(dst@.subrange(len as int, dst@.len() as int) =~= old(dst)@.subrange(len as int, old(dst)@.len() as int));
    }
    len
}

/// Copies `src` to user memory, of which `dst` holds the bytes that can be written; the copy
/// stops where a write faults. Returns the bytes copied.
pub fn copy_to_user(dst: &mut Vec<u8>, src: &[u8]) -> (r: usize)
    ensures
        r == vstd::math::min(src@.len() as int, old(dst)@.len() as int),
        final(dst)@.len() == old(dst)@.len(),
        final(dst)@.subrange(0, r as int) == src@.subrange(0, r as int),
        final(dst)@.subrange(r as int, final(dst)@.len() as int) == old(dst)@.subrange(r as int, old(dst)@.len() as int),
{
    let mut len: usize = 0;
    let _n = src.len();
    while len < src.len()
        invariant
            len <= src@.len(),
            len <= dst@.len(),
            dst@.len() == old(dst)@.len(),
            dst@.subrange(0, len as int) == src@.subrange(0, len as int),
            dst@.subrange(len as int, dst@.len() as int) == old(dst)@.subrange(len as int, old(dst)@.len() as int),
        decreases src@.len() - len,
    {
        if len >= dst.len() {
            return len;
        }
        let ghost prev = dst@;
        dst.set(len, src[len]);
        proof {
            assert forall|k: int| len + 1 <= k < dst@.len() implies dst@[k] == old(dst)@[k] by {
                assert(prev.subrange(len as int, prev.len() as int)[k - len] == old(dst)@.subrange(len as int, old(dst)@.len() as int)[k - len]);
            }
        }
        len += 1;
        assert(dst@.subrange(0, len as int) =~= src@.subrange(0, len as int));
        assert(dst@.subrange(len as int, dst@.len() as int) =~= old(dst)@.subrange(len as int, old(dst)@.len() as int));
    }
    len
}

/// The fault a data or instruction abort with syndrome `esr` reports, if the page fault
/// handler of the current task should see it: a translation or permission fault, taken from
/// user code (`spsr` says so) or, unless `ignore_el`, from the kernel, while a user task runs.
pub open spec fn abort_fault(esr: u64, spsr: u64, ignore_el: bool, user_task: bool) -> Option<PageFaultType> {
    let fsc = (esr & 0x1ffffff) & 0x3f;
    let eligible = ((spsr & 0b1111) == 0 || !ignore_el) && user_task;
    if 4 <= fsc < 8 && eligible {
        Some(PageFaultType::Translation)
    } else if 12 <= fsc < 16 && eligible {
        Some(PageFaultType::Permission)
    } else {
        None
    }
}

/// The fault a data or instruction abort reports, if the page fault handler of the current
/// task should see it (see `abort_fault`).
pub fn classify_abort(esr: u64, spsr: u64, ignore_el: bool, user_task: bool) -> (r: Option<PageFaultType>)
    ensures
        r == abort_fault(esr, spsr, ignore_el, user_task),
{
    let iss = esr & 0x1ffffff;
    let fsc = iss & 0x3f;
    let interrupted_user = (spsr & 0b1111) == 0;
    if 4 <= fsc && fsc < 8 && (interrupted_user || !ignore_el) && user_task {
        Some(PageFaultType::Translation)
    } else if 12 <= fsc && fsc < 16 && (interrupted_user || !ignore_el) && user_task {
        Some(PageFaultType::Permission)
    } else {
        None
    }
}

/// Handles a data or instruction abort with syndrome `esr` at address `far`, taken while
/// `task` runs with `spsr`: a fault that `abort_fault` hands to the task is resolved there
/// (see `Task::resolve_page_fault`); any other abort is left unhandled, for the default
/// handler, and changes nothing.
pub fn handle_data_access_fault(
    esr: u64,
    spsr: u64,
    far: u64,
    ignore_el: bool,
    task: &mut Task,
    pages: &mut PageAllocator,
    metas: &mut Vec<PageMeta>,
    frame: &mut Vec<u8>,
    current: &[u8],
) -> (r: Result<Option<Pfn>, PageFaultError>)
    requires
        old(pages).wf(),
        free_pages_ready(*old(pages), old(metas)@),
        abort_fault(esr, spsr, ignore_el, old(task).process is User) matches Some(ft) ==> task_fault_ready(
            *old(task),
            ft,
            far as usize,
            *old(pages),
            old(metas)@,
            old(frame)@,
            current@,
        ),
    ensures
        final(pages).wf(),
        abort_fault(esr, spsr, ignore_el, old(task).process is User) is None ==> r == Err::<Option<Pfn>, PageFaultError>(
            PageFaultError::Unhandled,
        ) && *final(task) == *old(task) && *final(pages) == *old(pages) && final(metas)@ == old(metas)@ && final(frame)@
            == old(frame)@,
        abort_fault(esr, spsr, ignore_el, old(task).process is User) matches Some(ft) ==> task_fault_resolved(
            *old(task),
            *final(task),
            ft,
            far as usize,
            *old(pages),
            *final(pages),
            old(metas)@,
            final(metas)@,
            old(frame)@,
            final(frame)@,
            current@,
            r,
        ),
{
    let user = task.is_user_task();
    match classify_abort(esr, spsr, ignore_el, user) {
        None => Err(PageFaultError::Unhandled),
        Some(ft) => task.resolve_page_fault(ft, far as usize, pages, metas, frame, current),
    }
}

/// Whether a fault during a copy to or from user memory cancels the copy rather than going
/// to the default handler: a translation or permission fault.
pub fn cancels_user_copy(esr: u64) -> (r: bool)
    ensures
        r == ({
            let dfsc = (esr & 0x1ffffff) & 0x3f;
            (4 <= dfsc < 8) || (12 <= dfsc < 16)
        }),
{
    let iss = esr & 0x1ffffff;
    let dfsc = iss & 0x3f;
    (4 <= dfsc && dfsc < 8) || (12 <= dfsc && dfsc < 16)
}

/// Cancels the faulting load or store of a user copy: the copy loop sees a failure in `x0`
/// and goes on after the faulting instruction.
pub fn cancel_user_copy(regs: &mut ExceptionRegisters)
    requires
        old(regs).elr + 4 <= u64::MAX,
    ensures
        final(regs).gprs@ == old(regs).gprs@.update(0, 1u64),
        final(regs).elr == old(regs).elr + 4,
        final(regs).spsr == old(regs).spsr,
        final(regs).sp_el0 == old(regs).sp_el0,
{
    regs.gprs[0] = 0x1;
    regs.elr = regs.elr + 0x4;
}

/// The exception class of a syndrome value.
pub fn exception_class(esr: u64) -> (r: usize)
    ensures
        r == (esr >> 26) & 0x3f,
        r < NUM_EXCEPTION_CLASSES,
{
    proof {
        assert((esr >> 26u64) & 0x3fu64 < 64u64) by (bit_vector);
    }
    ((esr >> 26) & 0x3f) as usize
}

/// What the default handler does with an exception it cannot handle.
#[derive(Debug, Clone, Copy, PartialEq, Eq, Structural)]
pub enum UnhandledAction {
    /// End the user task that caused it and run the next task.
    AbortTask,
    /// Print the panic report and stop.
    Panic,
}

/// The default handler's decision: an exception taken from user code while a user task runs
/// ends that task; any other is a kernel panic.
pub fn unhandled_action(spsr: u64, user_task: bool) -> (r: UnhandledAction)
    ensures
        r == (if (spsr & 0b1111) == 0 && user_task {
            UnhandledAction::AbortTask
        } else {
            UnhandledAction::Panic
        }),
{
    if (spsr & 0b1111) == 0 && user_task {
        UnhandledAction::AbortTask
    } else {
        UnhandledAction::Panic
    }
}

/// The line a kernel panic report gives for exception class `ec`, when the class is one it
/// names.
pub open spec fn cause_text(ec: u64) -> Option<Seq<char>> {
    if ec == 0x1 {
        Some("Trapped WF* Instruction\n"@)
    } else if ec == 0x3 {
        Some("Trapped MCR or MRC\n"@)
    } else if ec == 0x7 {
        Some("Trapped FPU\n"@)
    } else if ec == 0xd {
        Some("Branch target exception\n"@)
    } else if ec == 0xe {
        Some("Illegal execution state\n"@)
    } else if ec == 0x15 {
        Some("Trapped SVC\n"@)
    } else if ec == 0x20 {
        Some("EL0 Instruction Abort\n"@)
    } else if ec == 0x21 {
        Some("EL1 Instruction Abort\n"@)
    } else if ec == 0x24 {
        Some("EL0 Data Abort\n"@)
    } else if ec == 0x25 {
        Some("EL1 Data Abort\n"@)
    } else {
        None
    }
}

/// The line a kernel panic report gives for exception class `ec`, when the class is one it
/// names; other classes are reported by number.
pub fn exception_cause(ec: u64) -> (r: Option<&'static str>)
    ensures
        match cause_text(ec) {
            None => r is None,
            Some(t) => r matches Some(s) && s@ == t,
        },
{
    match ec {
        0x1 => Some("Trapped WF* Instruction\n"),
        0x3 => Some("Trapped MCR or MRC\n"),
        0x7 => Some("Trapped FPU\n"),
        0xd => Some("Branch target exception\n"),
        0xe => Some("Illegal execution state\n"),
        0x15 => Some("Trapped SVC\n"),
        0x20 => Some("EL0 Instruction Abort\n"),
        0x21 => Some("EL1 Instruction Abort\n"),
        0x24 => Some("EL0 Data Abort\n"),
        0x25 => Some("EL1 Data Abort\n"),
        _ => None,
    }
}

/// The bytes of text `s`: the low byte of each character.
pub open spec fn text_bytes(s: Seq<char>) -> Seq<u8> {
    s.map_values(|c: char| (c as u32 % 0x100) as u8)
}

/// The lower case hexadecimal digit for `d`, below 16.
pub open spec fn hex_digit(d: int) -> u8 {
    if d < 10 {
        (0x30 + d) as u8
    } else {
        (0x57 + d) as u8
    }
}

/// The lower case hexadecimal digits of `x`, without leading zeros.
pub open spec fn hex(x: nat) -> Seq<u8>
    decreases x,
{
    if x < 16 {
        seq![hex_digit(x as int)]
    } else {
        hex(x / 16).push(hex_digit((x % 16) as int))
    }
}

/// Appends the bytes of `s`.
fn push_text(out: &mut Vec<u8>, s: &str)
    ensures
        final(out)@ == old(out)@ + text_bytes(s@),
{
    let n = s.unicode_len();
    let mut i: usize = 0;
    while i < n
        invariant
            n == s@.len(),
            i <= n,
            out@ == old(out)@ + text_bytes(s@.subrange(0, i as int)),
        decreases n - i,
    {
        let c = s.get_char(i);
        let ghost prefix = s@.subrange(0, i as int);
        assert(s@.subrange(0, i + 1) =~= prefix.push(c));
        assert(text_bytes(prefix.push(c)) =~= text_bytes(prefix).push((c as u32 % 0x100) as u8));
        out.push(((c as u32) % 0x100) as u8);
        i += 1;
    }
    assert(s@.subrange(0, n as int) =~= s@);
}

/// Appends the hexadecimal digits of `x`.
fn push_hex(out: &mut Vec<u8>, x: u64)
    ensures
        final(out)@ == old(out)@ + hex(x as nat),
    decreases x,
{
    if x >= 16 {
        push_hex(out, x / 16);
    }
    let d = x % 16;
    let digit: u8 = if d < 10 { 0x30 + d as u8 } else { 0x57 + d as u8 };
    out.push(digit);
    assert(hex(x as nat) == (if x < 16 { seq![digit] } else { hex((x / 16) as nat).push(digit) }));
}

/// The register that line `i` of the dump shows: its own, except that the line of `x26` shows
/// `x28`.
pub open spec fn dumped_register(i: int) -> int {
    if i == 26 {
        28
    } else {
        i
    }
}

/// Line `i` of the register dump: `xi: ` and the value in hexadecimal, or `sp: ` for the last.
pub open spec fn register_line(regs: ExceptionRegisters, i: int) -> Seq<u8> {
    (if i == 31 {
        text_bytes("sp: "@)
    } else {
        seq![0x78u8] + decimal(i as nat) + text_bytes(": "@)
    }) + hex(regs.gprs@[dumped_register(i)] as nat) + seq![0x0au8]
}

/// The first `k` lines of the register dump.
pub open spec fn register_lines(regs: ExceptionRegisters, k: int) -> Seq<u8>
    decreases k,
{
    if k <= 0 {
        Seq::empty()
    } else {
        register_lines(regs, k - 1) + register_line(regs, k - 1)
    }
}

/// The report of a kernel panic: where it happened, the registers, and the cause.
pub open spec fn panic_report(regs: ExceptionRegisters, far: u64, elr: u64, esr: u64, ec: u64) -> Seq<u8> {
    text_bytes("EXCEPTION at 0x"@) + hex(elr as nat) + text_bytes(", FAR 0x"@) + hex(far as nat) + text_bytes(
        ", ESR 0x"@,
    ) + hex(esr as nat) + text_bytes(" \n"@) + register_lines(regs, 32) + match cause_text(ec) {
        Some(t) => text_bytes(t),
        None => text_bytes("EC: "@) + hex(ec as nat) + seq![0x0au8],
    }
}

/// The text a kernel panic prints for exception class `ec` at `elr`, with fault address `far`,
/// syndrome `esr` and the registers `regs` of the code that faulted.
pub fn kernel_panic_report(regs: &ExceptionRegisters, far: u64, elr: u64, esr: u64, ec: u64) -> (r: Vec<u8>)
    ensures
        r@ == panic_report(*regs, far, elr, esr, ec),
{
    let mut out: Vec<u8> = Vec::new();
    push_text(&mut out, "EXCEPTION at 0x");
    push_hex(&mut out, elr);
    push_text(&mut out, ", FAR 0x");
    push_hex(&mut out, far);
    push_text(&mut out, ", ESR 0x");
    push_hex(&mut out, esr);
    push_text(&mut out, " \n");
    let ghost head = out@;
    let mut i: usize = 0;
    while i < 32
        invariant
            i <= 32,
            out@ == head + register_lines(*regs, i as int),
        decreases 32 - i,
    {
        let ghost before = out@;
        if i == 31 {
            push_text(&mut out, "sp: ");
        } else {
            out.push(0x78);
            let digits = decimal_digits(i as u64);
            let mut k: usize = 0;
            while k < digits.len()
                invariant
                    k <= digits@.len(),
                    out@ == before.push(0x78u8) + digits@.subrange(0, k as int),
                decreases digits@.len() - k,
            {
                out.push(digits[k]);
                k += 1;
                assert(out@ =~= before.push(0x78u8) + digits@.subrange(0, k as int));
            }
            assert(digits@.subrange(0, digits@.len() as int) =~= digits@);
            push_text(&mut out, ": ");
        }
        let reg = if i == 26 { 28 } else { i };
        push_hex(&mut out, regs.gprs[reg]);
        out.push(0x0a);
        proof {
            assert(before.push(0x78u8) =~= before + seq![0x78u8]);
            assert(out@ =~= before + register_line(*regs, i as int));
        }
        i += 1;
    }
    match exception_cause(ec) {
        Some(t) => push_text(&mut out, t),
        None => {
            push_text(&mut out, "EC: ");
            push_hex(&mut out, ec);
            out.push(0x0a);
        },
    }
    proof {
        let tail = match cause_text(ec) {
            Some(t) => text_bytes(t),
            None => text_bytes("EC: "@) + hex(ec as nat) + seq![0x0au8],
        };
        assert(out@ =~= head + register_lines(*regs, 32) + tail);
    }
    out
}

} // verus!
