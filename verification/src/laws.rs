//! What holds of whole operations.
//!
//! The contracts of the flows say what one answer leads to. The laws here
//! follow from them and speak of operations from start to end, and of one
//! operation after another.
pub mod batches;
pub mod cache;
pub mod counting;
pub mod delete;
pub mod eviction;
pub mod fills;
pub mod flights;
pub mod history;
pub mod losses;
pub mod meanings;
pub mod memory;
pub mod memory_calls;
pub mod memory_moves;
pub mod origin;
pub mod outcomes;
pub mod promotion;
pub mod promotion_many;
pub mod read;
pub mod readback;
pub mod readback_many;
pub mod rolling;
pub mod single;
pub mod stampede;
pub mod world;
pub mod write;
