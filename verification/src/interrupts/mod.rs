pub mod gic;
pub mod irq_handler;
pub mod sexc_handler;
pub mod syscalls;
