//! Secure erasure of the baremetal loader's scratch memory.
//!
//! The erased area is a list of memory regions (the free part of RRAM followed by
//! the BIO instruction memories).  A key stream is written through the regions in
//! order, in units of each region's write granularity; the library decides exactly
//! which bytes go to which address, and the platform layer performs the writes.

pub mod error;
pub mod soc;
pub mod region;
pub mod fill;
pub mod traversal;
pub mod erasure;
pub mod laws;
