pub mod addr;
pub mod arc;
pub mod core_lock;
pub mod cpu_local;
pub mod deque;
pub mod intrusive_list;
pub mod intrusive_rbtree;
pub mod mmio;
pub mod spin_lock;
pub mod string;
