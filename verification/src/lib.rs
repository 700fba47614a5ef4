pub mod allocators;
pub mod arm_pl;
pub mod bytes;
pub mod driver;
pub mod dtb;
pub mod elf;
pub mod interrupts;
pub mod memory;
pub mod sched;
pub mod subsystem;
pub mod utils;
pub mod timer;
