//! Per-key outcome reports for batched router operations.
//!
//! A batch can partially succeed: some keys hit, some are confirmed absent,
//! and, when a tier fails mid-batch, some are simply unknown. These report
//! types keep one status per key alongside whatever tier failures occurred.
use vstd::prelude::*;

use crate::error;
use crate::error::{RouterError, TierFailure, Trouble};

verus! {

/// Outcome of one key in a batched read.
#[derive(Debug, Clone, PartialEq, Eq)]
pub enum KeyStatus<V> {
    /// The key was found.
    Hit {
        /// Tier that served it (0 is topmost).
        tier: usize,
        /// The value.
        value: V,
    },
    /// Every tier answered and none held the key: confirmed absent.
    Miss,
    /// The key went unresolved while at least one tier failed; absence is
    /// unconfirmed and must not be treated as a miss.
    Inconclusive,
}

impl<V> KeyStatus<V> {
    /// The value of a hit.
    pub open spec fn found(self) -> Option<V> {
        match self {
            KeyStatus::Hit { value, .. } => Some(value),
            _ => None,
        }
    }

    /// Whether tier number `tier` served the key.
    pub open spec fn served_by(self, tier: int) -> bool {
        self matches KeyStatus::Hit { tier: t, .. } && t == tier
    }

    /// Index of the tier that served this key, or `None` for a miss or an
    /// inconclusive lookup.
    #[must_use]
    pub fn tier(&self) -> (tier: Option<usize>)
        ensures
            tier is Some <==> *self is Hit,
            tier matches Some(t) ==> self.served_by(t as int),
    {
        match self {
            KeyStatus::Hit { tier, .. } => Some(*tier),
            KeyStatus::Miss | KeyStatus::Inconclusive => None,
        }
    }

    /// The value, if this key hit.
    #[must_use]
    pub fn value(&self) -> (value: Option<&V>)
        ensures
            value is Some <==> self.found() is Some,
            value matches Some(v) ==> self.found() == Some(*v),
    {
        match self {
            KeyStatus::Hit { value, .. } => Some(value),
            KeyStatus::Miss | KeyStatus::Inconclusive => None,
        }
    }

    /// Consumes the status, returning the value if this key hit.
    #[must_use]
    pub fn into_value(self) -> (value: Option<V>)
        ensures
            value == self.found(),
    {
        match self {
            KeyStatus::Hit { value, .. } => Some(value),
            KeyStatus::Miss | KeyStatus::Inconclusive => None,
        }
    }
}

/// Result of a single-key read, including the tier that served a hit and any
/// failures the read policy routed around.
#[derive(Debug)]
pub struct ReadOneReport<V, E> {
    /// The key's resolved status and serving-tier provenance.
    pub status: KeyStatus<V>,
    /// Tiers that failed while probing. Empty means the status is complete.
    pub failures: Vec<TierFailure<E>>,
}

impl<V, E> ReadOneReport<V, E> {
    /// Whether every tier needed by the lookup answered.
    #[must_use]
    pub fn is_complete(&self) -> (complete: bool)
        ensures
            complete == (self.failures@.len() == 0),
    {
        self.failures.is_empty()
    }

    /// The value, if the lookup hit.
    #[must_use]
    pub fn value(&self) -> (value: Option<&V>)
        ensures
            value is Some <==> self.status.found() is Some,
            value matches Some(v) ==> self.status.found() == Some(*v),
    {
        self.status.value()
    }

    /// Consumes the report, returning the value if the lookup hit.
    #[must_use]
    pub fn into_value(self) -> (value: Option<V>)
        ensures
            value == self.status.found(),
    {
        self.status.into_value()
    }

    /// Collapses the report to a plain read result: a hit is its value, a
    /// confirmed miss is `None`, and an unconfirmed absence is an error that
    /// carries the failures.
    pub fn into_result(self) -> (result: Result<Option<V>, RouterError<E>>)
        ensures
            match self.status {
                KeyStatus::Hit { value, .. } => result == Ok::<Option<V>, RouterError<E>>(
                    Some(value),
                ),
                KeyStatus::Miss => result == Ok::<Option<V>, RouterError<E>>(None),
                KeyStatus::Inconclusive => result matches Err(error) && error@
                    == Trouble::Inconclusive(error::failures_of(self.failures@)),
            },
    {
        match self.status {
            KeyStatus::Hit { value, .. } => Ok(Some(value)),
            KeyStatus::Miss => Ok(None),
            KeyStatus::Inconclusive => Err(RouterError::Inconclusive(self.failures)),
        }
    }
}

/// Result of a batched read: one status per key, in request order, plus the
/// tier failures encountered while probing.
#[derive(Debug)]
pub struct ReadReport<V, E> {
    /// One status per requested key, in request order.
    pub statuses: Vec<KeyStatus<V>>,
    /// Tiers that failed while probing. Empty means every status is fully
    /// trustworthy (all misses are confirmed).
    pub failures: Vec<TierFailure<E>>,
}

impl<V, E> ReadReport<V, E> {
    /// Whether every tier answered.
    #[must_use]
    pub fn is_complete(&self) -> (complete: bool)
        ensures
            complete == (self.failures@.len() == 0),
    {
        self.failures.is_empty()
    }

    /// Collapses to plain values, discarding hit provenance and the
    /// miss/inconclusive distinction.
    #[must_use]
    pub fn into_values(self) -> (values: Vec<Option<V>>)
        ensures
            values@ == self.statuses@.map_values(|status: KeyStatus<V>| status.found()),
    {
        let mut values: Vec<Option<V>> = Vec::new();
        let ghost statuses = self.statuses@;
        for status in iter: self.statuses
            invariant
                iter.seq() == statuses,
                values@.len() == iter.index(),
                forall|i: int| 0 <= i < values@.len() ==> values@[i] == statuses[i].found(),
        {
            values.push(status.into_value());
        }
        assert(values@ =~= self.statuses@.map_values(|status: KeyStatus<V>| status.found()));
        values
    }

    /// The report of a one-key batch as a single-key report. A batch without
    /// any status reads as a miss.
    pub fn into_one(self) -> (report: ReadOneReport<V, E>)
        ensures
            report.failures == self.failures,
            self.statuses@.len() > 0 ==> report.status == self.statuses@.last(),
            self.statuses@.len() == 0 ==> report.status is Miss,
    {
        let mut statuses = self.statuses;
        let status = match statuses.pop() {
            Some(status) => status,
            None => KeyStatus::Miss,
        };
        ReadOneReport { status, failures: self.failures }
    }

    /// Whether some key stayed inconclusive.
    pub fn has_inconclusive(&self) -> (found: bool)
        ensures
            found == exists|i: int|
                0 <= i < self.statuses@.len() && #[trigger] self.statuses@[i] is Inconclusive,
    {
        let mut i: usize = 0;
        while i < self.statuses.len()
            invariant
                i <= self.statuses@.len(),
                forall|j: int| 0 <= j < i ==> !(#[trigger] self.statuses@[j] is Inconclusive),
            decreases self.statuses@.len() - i,
        {
            if let KeyStatus::Inconclusive = self.statuses[i] {
                return true;
            }
            i = i + 1;
        }
        false
    }

    /// Degrades the report to whole-batch granularity: plain values, unless
    /// some key is inconclusive, which makes the whole batch inconclusive.
    pub fn into_result(self) -> (result: Result<Vec<Option<V>>, RouterError<E>>)
        ensures
            (exists|i: int|
                0 <= i < self.statuses@.len() && #[trigger] self.statuses@[i] is Inconclusive)
                ==> (result matches Err(error) && error@ == Trouble::Inconclusive(
                error::failures_of(self.failures@),
            )),
            (forall|i: int|
                0 <= i < self.statuses@.len() ==> !(#[trigger] self.statuses@[i] is Inconclusive))
                ==> (result matches Ok(values) && values@ == self.statuses@.map_values(
                |status: KeyStatus<V>| status.found(),
            )),
    {
        if self.has_inconclusive() {
            Err(RouterError::Inconclusive(self.failures))
        } else {
            Ok(self.into_values())
        }
    }
}

/// Result of a batched delete: one "was it present" flag per key plus tier
/// failures.
///
/// Any failure here is serious: a copy surviving in an unreachable tier can
/// resurrect the key later.
#[derive(Debug)]
pub struct DeleteReport<E> {
    /// Per key, in request order: whether any answering tier held it.
    pub removed: Vec<bool>,
    /// Tiers that failed; a key may still exist in those.
    pub failures: Vec<TierFailure<E>>,
}

impl<E> DeleteReport<E> {
    /// Whether every tier processed every key.
    #[must_use]
    pub fn is_complete(&self) -> (complete: bool)
        ensures
            complete == (self.failures@.len() == 0),
    {
        self.failures.is_empty()
    }

    /// Degrades the report to whole-batch granularity: the flags, unless some
    /// tier failed.
    pub fn into_result(self) -> (result: Result<Vec<bool>, RouterError<E>>)
        ensures
            self.failures@.len() == 0 ==> result == Ok::<Vec<bool>, RouterError<E>>(self.removed),
            self.failures@.len() > 0 ==> (result matches Err(error) && error@ == Trouble::Partial(
                error::failures_of(self.failures@),
            )),
    {
        if self.is_complete() {
            Ok(self.removed)
        } else {
            Err(RouterError::Partial(self.failures))
        }
    }
}

} // verus!
