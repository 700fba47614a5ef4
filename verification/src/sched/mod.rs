pub mod lazy_buffer;
pub mod mutex;
pub mod scheduler;
pub mod task;
pub mod user_pages;
pub mod wait_queue;
pub mod workqueue;
