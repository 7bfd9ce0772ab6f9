//! A persistent two-level page allocator for a file of fixed-size pages.
//!
//! The allocator's state lives inside the very file it manages: bitmap pages
//! track the allocation state of a contiguous range of page ids (themselves
//! included), and an index page coordinates many bitmap pages. The page store
//! keeps the byte image of the backing file in memory; binding that image to
//! an actual file on disk is left to the embedding program.

pub mod bits;
pub mod filter;
pub mod store;
pub mod bitmap;
pub mod index;
