//! A small teaching kernel's memory and task core: physical frame allocation,
//! three-level page tables, per-task address spaces with `mmap`/`munmap`, and a
//! cooperative round-robin scheduler.

pub mod address;
pub mod frame_allocator;
pub mod page_table;
pub mod memory_set;
pub mod up;
pub mod task;
