pub mod block;
pub mod console;
pub mod fs;
pub mod page;
pub mod pipe;
pub mod trace;
