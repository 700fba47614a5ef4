use vstd::prelude::*;
use vstd::string::StringSliceAdditionalSpecFns;
use crate::driver::Driver;
use crate::subsystem::fs::inode::FsResult;
use crate::utils::mmio::RegisterAccess;
use crate::utils::spin_lock::OnceSpinLock;

verus! {

/// A driver that can print.
pub trait ConsoleDriver: Driver {
    /// The accesses that send `buf`, byte by byte.
    fn write_bytes(&self, buf: &[u8]) -> (r: Vec<RegisterAccess>);

    /// The accesses that send the bytes of `s`.
    fn write_str(&self, s: &str) -> (r: Vec<RegisterAccess>) {
        self.write_bytes(s.as_bytes())
    }
}

/// The console that the kernel prints to.
pub struct Console<D: ConsoleDriver>(pub D);

/// Makes `console` the console, unless one was set.
pub fn set_console<D: ConsoleDriver>(slot: &mut OnceSpinLock<Console<D>>, console: D)
    ensures
        old(slot).inner is None ==> final(slot).inner == Some(Console(console)),
        old(slot).inner is Some ==> final(slot).inner == old(slot).inner,
{
    let _ = slot.set(Console(console));
}

/// The device file of the console.
pub struct ConsoleDeviceFile;

impl ConsoleDeviceFile {
    /// Prints `buffer` on `console`; every byte counts as written.
    pub fn write<D: ConsoleDriver>(&self, offset: u64, buffer: &[u8], console: &Console<D>) -> (r: (FsResult<usize>, Vec<RegisterAccess>))
        ensures
            r.0 == Ok::<usize, crate::subsystem::fs::inode::FsError>(buffer@.len() as usize),
    {
        let _ = offset;
        let ops = console.0.write_bytes(buffer);
        (Ok(buffer.len()), ops)
    }
}

} // verus!
