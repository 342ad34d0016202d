//! A freelist memory allocator with verified bookkeeping.
//!
//! The allocator carves usable spans out of large mapped blocks. Each block
//! is an arena of raw bytes holding self-describing metadata: free-region
//! headers and allocation records, both bracketed by sentinel words so that
//! corruption and misuse can be detected. Blocks are registered in a growable
//! mapping table owned by an allocator context.

use vstd::prelude::*;

pub mod block;
pub mod context;
pub mod layout;
pub mod words;

verus! {

} // verus!
