//! The core of a small preemptive kernel, verified: physical frames, page
//! tables and address spaces; tasks, processes and stride scheduling;
//! mutexes, semaphores and condition variables with banker's-algorithm
//! deadlock avoidance; pipes and a flat file system.
pub mod banker;
pub mod bitmap;
pub mod block_cache;
pub mod config;
pub mod file;
pub mod frame_allocator;
pub mod fs;
pub mod id;
pub mod memory_set;
pub mod page_table;
pub mod pipe;
pub mod process;
pub mod sync;
pub mod syscall;
pub mod task;
pub mod timer;
pub mod trap;
