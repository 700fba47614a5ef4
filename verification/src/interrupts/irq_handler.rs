use vstd::prelude::*;

verus! {

/// Registers saved on exception entry, in the order the entry code stores them.
#[derive(Debug, Clone, Copy)]
pub struct ExceptionRegisters {
    pub gprs: [u64; 32],
    pub elr: u64,
    pub spsr: u64,
    pub sp_el0: u64,
    pub _pad: u64,
}

impl ExceptionRegisters {
    /// All registers zero.
    pub fn zeroed() -> (r: Self)
        ensures
            forall|i: int| 0 <= i < 32 ==> r.gprs@[i] == 0,
            r.elr == 0,
            r.spsr == 0,
            r.sp_el0 == 0,
            r._pad == 0,
    {
        ExceptionRegisters { gprs: [0u64; 32], elr: 0, spsr: 0, sp_el0: 0, _pad: 0 }
    }
}

impl Default for ExceptionRegisters {
    fn default() -> (r: Self)
        ensures
            forall|i: int| 0 <= i < 32 ==> r.gprs@[i] == 0,
            r.elr == 0,
            r.spsr == 0,
            r.sp_el0 == 0,
            r._pad == 0,
    {
        Self::zeroed()
    }
}

/// Registers to return to instead of those of the interrupted code, set at most once before
/// the return.
pub struct ReturnExceptionRegs {
    pub regs: ExceptionRegisters,
    pub to_use: bool,
}

impl ReturnExceptionRegs {
    pub fn new() -> (r: Self)
        ensures
            !r.to_use,
            forall|i: int| 0 <= i < 32 ==> r.regs.gprs@[i] == 0,
    {
        Self { regs: ExceptionRegisters::zeroed(), to_use: false }
    }

    pub fn put(&mut self, regs: &ExceptionRegisters)
        ensures
            final(self).regs == *regs,
            final(self).to_use,
    {
        self.regs = regs.clone();
        self.to_use = true;
    }

    /// The registers put there, once.
    pub fn take(&mut self) -> (r: Option<ExceptionRegisters>)
        ensures
            old(self).to_use ==> r == Some(old(self).regs) && !final(self).to_use,
            !old(self).to_use ==> r is None && !final(self).to_use,
            final(self).regs == old(self).regs,
    {
        if self.to_use {
            let regs = self.regs;
            self.to_use = false;
            Some(regs)
        } else {
            None
        }
    }
}

/// Whether the running code may block: not while an interrupt is being handled.
pub fn can_block(in_interrupt: bool) -> (r: bool)
    ensures
        r == !in_interrupt,
{
    !in_interrupt
}

/// What an interrupt handler is handed: the data it was registered with.
pub struct IrqContext {
    pub data: Option<usize>,
}

/// A registered handler: `callback` names it in the caller's table.
#[derive(Debug, Clone, Copy, PartialEq, Eq, Structural)]
pub struct IrqHandler {
    pub callback: usize,
    pub data: Option<usize>,
}

pub const NUM_IRQS: usize = 1024;

/// Handlers by interrupt number.
pub struct IrqTable {
    pub irqs: Vec<Option<IrqHandler>>,
}

impl IrqTable {
    /// No interrupt has a handler.
    pub fn new() -> (r: Self)
        ensures
            r.irqs@.len() == NUM_IRQS,
            forall|i: int| 0 <= i < NUM_IRQS ==> (#[trigger] r.irqs@[i]) is None,
    {
        let mut irqs: Vec<Option<IrqHandler>> = Vec::new();
        let mut i: usize = 0;
        while i < NUM_IRQS
            invariant
                i <= NUM_IRQS,
                irqs@.len() == i,
                forall|k: int| 0 <= k < i ==> (#[trigger] irqs@[k]) is None,
            decreases NUM_IRQS - i,
        {
            irqs.push(None);
            i += 1;
        }
        IrqTable { irqs }
    }

    pub fn register_interrupt(&mut self, irqn: u64, callback: usize, data: Option<usize>)
        requires
            irqn < old(self).irqs@.len(),
        ensures
            final(self).irqs@ == old(self).irqs@.update(irqn as int, Some(IrqHandler { callback, data })),
    {
        let _n = self.irqs.len();
        self.irqs.set(irqn as usize, Some(IrqHandler { callback, data }));
    }

    /// The handler of interrupt `irqn`, if one was registered.
    pub fn handler(&self, irqn: u64) -> (r: Option<IrqHandler>)
        requires
            irqn < self.irqs@.len(),
        ensures
            r == self.irqs@[irqn as int],
    {
        let _n = self.irqs.len();
        self.irqs[irqn as usize]
    }
}

/// Registering a handler for an interrupt makes it the one found for that interrupt and
/// leaves the others as they were.
pub proof fn lemma_register_then_handler(before: Seq<Option<IrqHandler>>, irqn: int, other: int, h: IrqHandler)
    requires
        0 <= irqn < before.len(),
        0 <= other < before.len(),
        other != irqn,
    ensures
        before.update(irqn, Some(h))[irqn] == Some(h),
        before.update(irqn, Some(h))[other] == before[other],
{
}

} // verus!
