//! Containers for sensitive data and the bookkeeping of the protected heap
//! that backs them.
//!
//! The heap is a directory of page-backed regions. It decides where every
//! allocation goes and tells its driver which pages to map, fill, protect and
//! release; it never touches memory itself. On top of it sit a fixed-length
//! buffer and a key whose elements can only be reached through leases.
//!
//! - [`mmap`]: page arithmetic and the plans for mapping, unmapping and
//!   protecting pages.
//! - [`region`]: size classes, and the record of one live mapping with its
//!   bitmap of free slots.
//! - [`table`]: the open-addressed hash table of the records.
//! - [`list`]: the lists that thread through the table.
//! - [`state`]: the state of a directory as its contracts see it, what
//!   every operation makes of it, and what holds of the operations together.
//! - [`records`]: what holds of the records between operations.
//! - [`dir`]: the directory.
//! - [`stats`]: the statistics a directory can keep.
//! - [`malloc`]: requests by size and alignment, in the manner of `malloc`
//!   and `free`.
//! - [`allocator`]: the allocators for buffers and for keys.
//! - [`element`], [`buf`], [`key`]: the containers.
//! - [`utils`]: comparison in constant time, and random draws.
//! - [`fault`]: the ways an operation can be refused.

pub mod allocator;
pub mod buf;
pub mod dir;
pub mod element;
pub mod fault;
pub mod key;
pub mod list;
pub mod malloc;
pub mod mmap;
pub mod records;
pub mod region;
pub mod state;
pub mod stats;
pub mod table;
pub mod utils;
