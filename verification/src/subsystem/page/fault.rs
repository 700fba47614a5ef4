use vstd::prelude::*;

verus! {

#[derive(Debug, Clone, Copy, PartialEq, Eq, Structural)]
pub enum PageFaultError {
    Unhandled,
}

#[derive(Debug, Clone, Copy, PartialEq, Eq, Structural)]
pub enum PageFaultType {
    /// No valid translation.
    Translation,
    /// Access flag violation.
    Access,
    /// Permission violation.
    Permission,
}

/// What handles a fault on a virtual address that it is responsible for.
pub trait PageFaultHandler {
    fn page_fault(&mut self, fault: PageFaultType, vma: u64) -> Result<(), PageFaultError>;
}

} // verus!
