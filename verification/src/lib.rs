//! Virtual-address-space manager for a paged translation unit.
//!
//! An address space ([`memory_set::MemorySet`]) owns a page table and an
//! ordered collection of mapped regions ([`memory_set::MapArea`]).  Regions
//! are either identity-mapped kernel segments or demand-allocated framed
//! regions whose physical pages come from a frame pool.  The crate keeps the
//! region bookkeeping and the page table in lockstep and proves that the
//! dynamic remap primitives (`mmap`/`munmap`) preserve that correspondence.

pub mod address;
pub mod config;
pub mod elf;
pub mod frame;
pub mod memory_set;
pub mod page_table;
