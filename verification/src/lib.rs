//! Fast fixed-size memory pooling for a game runtime.
//!
//! The crate is built from three layers, leaves first:
//!
//! - [`pool::Pool`]: one contiguous arena sliced into equal slots, with a
//!   free-slot stack and O(1) allocate / deallocate of single slots.
//! - `fixed`: an ordered collection of pools per power-of-two size class,
//!   with owner lookup by address and growth on demand.
//! - `global`: the process-wide front end, which routes each request either
//!   to the size-classed pools or to a system fallback that the embedding
//!   program supplies.

pub mod fixed;
pub mod global;
pub mod pool;
