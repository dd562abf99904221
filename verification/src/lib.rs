//! Verified core of the Tau supervisor: the page frame allocator (modelled
//! sequentially), register field encodings, page table entry encodings,
//! firmware call results and the supervisor's small tables.
pub mod llfree;
pub mod sbi;
pub mod scheduler;
pub mod vmem;
pub mod module;
pub mod state;
pub mod regs;
pub mod hw;
pub mod image;
