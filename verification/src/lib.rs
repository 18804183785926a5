//! A storage-tier router whose decisions are pure, verified logic.
//!
//! Layering, bottom to top:
//!
//! 1. [`policy`], [`read`] and [`tier`]: what a hierarchy is and how it is
//!    meant to behave. [`ReadFlow`] decides the read of one key.
//! 2. [`router`]: the tiers, their policy and their counters. Every routed
//!    operation is a *flow*, a state machine that names one tier call at a
//!    time and is told how the tier answered: [`fetch`], [`batch`],
//!    [`write`](mod@write) and [`delete`], with [`rollover`] for entries that
//!    a write displaces. No flow performs I/O.
//! 3. [`cache`]: a read-through rollover cache on top of the router.
//! 4. [`memory`]: a bounded in-memory tier.
//!
//! What a flow asks for next is stated as a function of the answers it was
//! given so far: the `..Log` types hold those answers and their `step` is that
//! function. [`laws`] states what follows for whole operations.

pub mod batch;
pub mod cache;
pub mod delete;
pub mod error;
pub mod fetch;
pub mod laws;
pub mod memory;
pub mod policy;
pub mod read;
pub mod report;
pub mod rollover;
pub mod router;
pub mod tier;
pub mod write;

pub use batch::{ReadManyFlow, ReadManyStep};
pub use cache::{
    answer, LoadFlow, LoadStep, LookupFlow, LookupStep, TieredCache, TieredCacheBuilder,
};
pub use delete::{DeleteFlow, DeleteStep, RemoveManyFlow, RemoveStep};
pub use error::{RouterError, TierFailure};
pub use fetch::{ExistsFlow, ExistsStep, GetFlow, GetStep};
pub use memory::{MemoryRef, MemoryTier, Unweighed, Weigher};
pub use policy::{Eviction, OnReadError, OnWriteError, Policy, Promote, ReadPolicy, WriteMode};
pub use read::{Probe, ReadFlow, ReadOutcome, ReadStep};
pub use report::{DeleteReport, KeyStatus, ReadOneReport, ReadReport};
pub use router::{Count, Counters, Router, RouterBuilder, TierStats};
pub use tier::{Displaced, Page, Tier};
pub use write::{WriteFlow, WriteStep};
