//! Routing policy: the *semantics* of a tier hierarchy, kept apart from the
//! mechanism that executes them.
//!
//! The same router becomes an inclusive read-through cache, an exclusive
//! rollover cache, or a plain fallback chain purely by changing [`Policy`].
use vstd::prelude::*;

verus! {

/// Eviction ordering for bounded cache tiers.
#[derive(Debug, Clone, Copy, PartialEq, Eq, Structural)]
pub enum Eviction {
    /// Evict in insertion order; reads do not affect eviction. Replacing a
    /// value keeps its queue position.
    Fifo,
    /// Evict the least recently *used* entry: reads and replacements refresh
    /// recency. Existence checks do not.
    Lru,
}

impl Default for Eviction {
    fn default() -> (r: Self)
        ensures
            r == Eviction::Fifo,
    {
        Eviction::Fifo
    }
}

/// What to do with a value found below the top tier.
#[derive(Debug, Clone, Copy, PartialEq, Eq, Structural)]
pub enum Promote {
    /// Leave the value where it was found: a pure fallback chain.
    Never,
    /// Copy the hit into the topmost tier only. Combined with demotion on
    /// eviction this yields an *exclusive* hierarchy.
    TopOnly,
    /// Copy the hit into every tier above the one that answered, yielding an
    /// *inclusive* hierarchy.
    AllAbove,
}

impl Default for Promote {
    fn default() -> (r: Self)
        ensures
            r == Promote::Never,
    {
        Promote::Never
    }
}

impl Promote {
    /// How many tiers, counted from the top, receive a copy of a value that
    /// tier `hit` served.
    pub open spec fn reach(self, hit: int) -> int {
        match self {
            Promote::Never => 0,
            Promote::TopOnly => if hit > 0 {
                1
            } else {
                0
            },
            Promote::AllAbove => hit,
        }
    }

    /// How many tiers, counted from the top, receive a copy of a value that
    /// tier `hit` served.
    pub fn targets(self, hit: usize) -> (count: usize)
        ensures
            count == self.reach(hit as int),
            count <= hit,
    {
        match self {
            Promote::Never => 0,
            Promote::TopOnly => if hit > 0 {
                1
            } else {
                0
            },
            Promote::AllAbove => hit,
        }
    }
}

/// How the read path treats a tier that *fails* (as opposed to one that
/// merely misses).
#[derive(Debug, Clone, Copy, PartialEq, Eq, Structural)]
pub enum OnReadError {
    /// Skip the failing tier and keep probing downward. A miss after any
    /// failure is inconclusive rather than confirmed.
    FallThrough,
    /// Abort the read on the first tier error.
    FailFast,
}

impl Default for OnReadError {
    fn default() -> (r: Self)
        ensures
            r == OnReadError::FallThrough,
    {
        OnReadError::FallThrough
    }
}

/// How write-through treats a tier that rejects a write.
#[derive(Debug, Clone, Copy, PartialEq, Eq, Structural)]
pub enum OnWriteError {
    /// Abort on the first tier error; lower tiers keep what they already
    /// accepted.
    FailFast,
    /// Skip the failing tier and keep writing the rest. Applies to the
    /// write-through fan-out; a write-around bottom write always fails
    /// loudly (it is the only real write).
    BestEffort,
}

impl Default for OnWriteError {
    fn default() -> (r: Self)
        ensures
            r == OnWriteError::FailFast,
    {
        OnWriteError::FailFast
    }
}

/// How writes propagate through the hierarchy.
#[derive(Debug, Clone, Copy, PartialEq, Eq, Structural)]
pub enum WriteMode {
    /// Write every tier, bottom-up, so an upper tier never holds a key its
    /// lower tiers failed to accept.
    WriteThrough,
    /// Write only the bottommost tier and *invalidate* the key in the tiers
    /// above (a stale upper copy would otherwise shadow the new value).
    WriteAround,
}

impl Default for WriteMode {
    fn default() -> (r: Self)
        ensures
            r == WriteMode::WriteThrough,
    {
        WriteMode::WriteThrough
    }
}

/// Read-path policy: promotion strategy plus error handling.
#[derive(Debug, Clone, Copy, PartialEq, Eq, Structural)]
pub struct ReadPolicy {
    /// What to do with hits found below the top tier.
    pub promote: Promote,
    /// How to treat failing tiers while probing.
    pub on_error: OnReadError,
}

impl Default for ReadPolicy {
    fn default() -> (r: Self)
        ensures
            r.promote == Promote::Never,
            r.on_error == OnReadError::FallThrough,
    {
        ReadPolicy { promote: Promote::Never, on_error: OnReadError::FallThrough }
    }
}

/// Complete routing policy for a tier hierarchy.
///
/// The default is the *neutral fallback chain*: no promotion, no demotion,
/// write-through, fall-through on read errors; the router moves no data
/// around on its own.
#[derive(Debug, Clone, Copy, PartialEq, Eq, Structural)]
pub struct Policy {
    /// Read-path behaviour.
    pub read: ReadPolicy,
    /// Write-path behaviour.
    pub write: WriteMode,
    /// Tolerance for tiers that reject writes during write-through.
    pub on_write_error: OnWriteError,
    /// When an insert displaces entries from a tier, push them into the next
    /// tier down (cascading as needed) instead of dropping them. Entries
    /// displaced from the bottommost tier are evicted outright either way.
    pub demote_displaced: bool,
}

impl Policy {
    /// The neutral fallback chain.
    pub open spec fn neutral() -> Policy {
        Policy {
            read: ReadPolicy { promote: Promote::Never, on_error: OnReadError::FallThrough },
            write: WriteMode::WriteThrough,
            on_write_error: OnWriteError::FailFast,
            demote_displaced: false,
        }
    }
}

impl Default for Policy {
    fn default() -> (r: Self)
        ensures
            r == Policy::neutral(),
    {
        Policy {
            read: ReadPolicy::default(),
            write: WriteMode::default(),
            on_write_error: OnWriteError::default(),
            demote_displaced: false,
        }
    }
}

} // verus!
