//! A tiered read-through cache built **on top of** the generic router.
//!
//! This layer is deliberately thin: [`Router`] is the mechanism, [`Policy`]
//! the semantics, and the cache contributes cache-appropriate defaults:
//! exclusive promotion ([`Promote::TopOnly`]) plus demotion on eviction, the
//! classic *rollover* hierarchy where an entry evicted from hot rolls into
//! warm instead of vanishing.
//!
//! Stampede protection is part of the flows: [`LookupFlow`] and [`LoadFlow`]
//! say when the per-key lock has to be held.
use vstd::prelude::*;

use crate::batch::{ReadManyFlow, ReadManyLog, ReadManyStep};
use crate::delete::{DeleteFlow, DeleteLog, DeleteStep, RemoveLog, RemoveManyFlow, RemoveStep};
use crate::error;
use crate::error::{RouterError, Trouble};
use crate::fetch::{ExistsFlow, ExistsLog, ExistsStep};
use crate::policy::{OnReadError, OnWriteError, Policy, Promote, ReadPolicy, WriteMode};
use crate::report::{KeyStatus, ReadOneReport};
use crate::router;
use crate::router::{Counters, Route, Router, RouterBuilder, TierStats};
use crate::tier::Tier;
use crate::write::{WriteFlow, WriteLog, WriteStep};

verus! {

/// Read-through, write-through rollover cache over an ordered tier stack.
pub struct TieredCache<T> {
    router: Router<T>,
    single_flight: bool,
}

/// Builder for [`TieredCache`]; add tiers top-down (hot first).
pub struct TieredCacheBuilder<T> {
    router: RouterBuilder<T>,
    single_flight: bool,
}

/// The cache preset, as contracts speak of it.
pub open spec fn cache_policy() -> Policy {
    Policy {
        read: ReadPolicy { promote: Promote::TopOnly, on_error: OnReadError::FallThrough },
        write: WriteMode::WriteThrough,
        on_write_error: OnWriteError::BestEffort,
        demote_displaced: true,
    }
}

impl<T: Tier> TieredCache<T> {
    /// The underlying router.
    pub closed spec fn routes(&self) -> Router<T> {
        self.router
    }

    /// Whether same-key reads are coalesced.
    pub closed spec fn coalesces(&self) -> bool {
        self.single_flight
    }

    /// Starts building a cache with [`TieredCache::default_policy`].
    #[must_use]
    pub fn builder() -> (builder: TieredCacheBuilder<T>)
        ensures
            builder.route() == (Route { policy: cache_policy(), lanes: Seq::empty() }),
            builder.tiers() == Seq::<T>::empty(),
            builder.coalesces(),
    {
        TieredCacheBuilder {
            router: Router::builder().policy(Self::default_policy()),
            single_flight: true,
        }
    }

    /// The cache preset: exclusive promotion (each entry lives in roughly
    /// one cache tier, maximising combined capacity), rollover on eviction,
    /// fall-through on tier read errors, and best-effort write-through: a
    /// tier that rejects a fill is skipped, never blocking the others.
    #[must_use]
    pub fn default_policy() -> (policy: Policy)
        ensures
            policy == cache_policy(),
    {
        Policy {
            read: ReadPolicy { promote: Promote::TopOnly, on_error: OnReadError::FallThrough },
            write: WriteMode::WriteThrough,
            on_write_error: OnWriteError::BestEffort,
            demote_displaced: true,
        }
    }

    /// Starts a read through the hierarchy, promoting the hit per policy.
    /// Same flow as [`TieredCache::lookup`]; [`answer`] collapses its
    /// result.
    ///
    /// With single-flight enabled (the default), reads of the same key
    /// coalesce: one caller performs the read-through and promotion, the
    /// rest wait and are then served from the tier the value was promoted
    /// into.
    pub fn get<'a>(&self, key: &'a T::Key) -> (started: (
        LookupFlow<'a, T::Key, T::Value, T::Error>,
        LookupStep<T::Value, T::Error>,
    ))
        ensures
            started.0.inv(),
            started.0@ == LookupLog::<T::Key, T::Value, T::Error>::begin(
                *key,
                self.coalesces(),
            ),
            started.1 == started.0@.step(),
    {
        self.lookup(key)
    }

    /// Starts a read through the hierarchy with serving-tier provenance and
    /// routed failures preserved in a single-key report.
    pub fn lookup<'a>(&self, key: &'a T::Key) -> (started: (
        LookupFlow<'a, T::Key, T::Value, T::Error>,
        LookupStep<T::Value, T::Error>,
    ))
        ensures
            started.0.inv(),
            started.0@ == LookupLog::<T::Key, T::Value, T::Error>::begin(
                *key,
                self.coalesces(),
            ),
            started.1 == started.0@.step(),
    {
        LookupFlow::start(key, self.single_flight)
    }

    /// Starts asking the hierarchy whether it holds `key`, without promoting.
    pub fn contains<'a>(&self, key: &'a T::Key) -> (started: (
        ExistsFlow<'a, T::Key, T::Error>,
        ExistsStep<T::Error>,
    ))
        ensures
            started.0.inv(),
            started.0@ == ExistsLog::<T::Key, T::Error>::begin(self.routes().route(), *key),
            started.1@ == started.0@.step(),
    {
        self.router.contains(key)
    }

    /// Starts writing one entry through the hierarchy. The flow ends with the
    /// entries this write pushed out of the store entirely.
    pub fn put(&self, key: T::Key, value: T::Value) -> (started: (
        WriteFlow<T::Key, T::Value, T::Error>,
        WriteStep<T::Key, T::Value, T::Error>,
    ))
        ensures
            started.0.inv(),
            started.0@ == WriteLog::<T::Key, T::Value, T::Error>::begin(
                self.routes().route(),
                seq![(key, value)],
            ),
            started.1@ == started.0@.step(),
    {
        self.router.put(key, value)
    }

    /// Starts removing `key` from every tier.
    pub fn invalidate<'a>(&self, key: &'a T::Key) -> (started: (
        DeleteFlow<'a, T::Key, T::Error>,
        DeleteStep<T::Error>,
    ))
        ensures
            started.0.inv(),
            started.0@ == DeleteLog::<T::Key, T::Error>::begin(self.routes().route(), *key),
            started.1@ == started.0@.step(),
    {
        self.router.delete(key)
    }

    /// Starts a read-through with an external loader: read the hierarchy, and
    /// on a miss run the loader (typically the origin fetch) and fill the
    /// tiers with its result.
    ///
    /// Uses probe-then-lock single-flight: hits never touch the per-key lock,
    /// and concurrent misses for one key share a single load: followers
    /// re-probe under the lock and reuse the leader's fill.
    ///
    /// Availability-first: probe failures are treated as misses (the loader
    /// is the authority), fills are best-effort, and loader errors are
    /// returned without being cached. With single-flight disabled this is a
    /// plain uncoalesced read-through.
    pub fn get_or_load<'a, L>(&self, key: &'a T::Key) -> (started: (
        LoadFlow<'a, T::Key, T::Value, T::Error, L>,
        LoadStep<T::Value, L>,
    ))
        ensures
            started.0.inv(),
            started.0@ == LoadLog::<T::Key, T::Value, T::Error, L>::begin(
                *key,
                self.coalesces(),
            ),
            started.1 == started.0@.step(),
    {
        LoadFlow::start(key, self.single_flight)
    }

    /// Starts a batched read-through with per-key outcomes. Batches are
    /// **not** single-flighted.
    pub fn get_many<'a>(&self, keys: &'a [T::Key]) -> (started: (
        ReadManyFlow<'a, T::Key, T::Value, T::Error>,
        ReadManyStep<T::Key, T::Value, T::Error>,
    ))
        ensures
            started.0.inv(),
            started.0@ == ReadManyLog::<T::Key, T::Value, T::Error>::begin(
                self.routes().route(),
                keys@,
            ),
            started.1@ == started.0@.step(),
    {
        self.router.read_many(keys)
    }

    /// Starts a batched write-through.
    pub fn put_many(&self, entries: Vec<(T::Key, T::Value)>) -> (started: (
        WriteFlow<T::Key, T::Value, T::Error>,
        WriteStep<T::Key, T::Value, T::Error>,
    ))
        ensures
            started.0.inv(),
            started.0@ == WriteLog::<T::Key, T::Value, T::Error>::begin(
                self.routes().route(),
                entries@,
            ),
            started.1@ == started.0@.step(),
    {
        self.router.put_many(entries)
    }

    /// Starts a batched invalidation with per-key outcomes.
    pub fn invalidate_many<'a>(&self, keys: &'a [T::Key]) -> (started: (
        RemoveManyFlow<'a, T::Key, T::Error>,
        RemoveStep<T::Error>,
    ))
        ensures
            started.0.inv(),
            started.0@ == RemoveLog::<T::Key, T::Error>::begin(self.routes().route(), keys@),
            started.1@ == started.0@.step(),
    {
        self.router.remove_many(keys)
    }

    /// Per-tier operation counters (hits, misses, errors, puts, deletes).
    #[must_use]
    pub fn stats(&self) -> (stats: Vec<TierStats>)
        ensures
            stats@.len() == self.routes().route().lanes.len(),
            forall|i: int|
                0 <= i < stats@.len() ==> (#[trigger] stats@[i]).describes(
                    self.routes().route().lanes[i],
                    self.routes().counters()[i],
                ),
    {
        self.router.stats()
    }

    /// The underlying router, for anything the cache API does not expose.
    #[must_use]
    pub fn router(&self) -> (router: &Router<T>)
        ensures
            *router == self.routes(),
    {
        &self.router
    }

    /// The underlying router, for the flows to count in.
    #[must_use]
    pub fn router_mut(&mut self) -> (router: &mut Router<T>)
        ensures
            *router == old(self).routes(),
            final(self).routes() == *final(router),
            final(self).coalesces() == old(self).coalesces(),
    {
        &mut self.router
    }
}

impl<T: Tier> TieredCacheBuilder<T> {
    /// What the built cache's decisions will depend on.
    pub closed spec fn route(&self) -> Route {
        self.router.route()
    }

    /// The tiers added so far, topmost first.
    pub closed spec fn tiers(&self) -> Seq<T> {
        self.router.tiers()
    }

    /// Whether same-key reads will be coalesced.
    pub closed spec fn coalesces(&self) -> bool {
        self.single_flight
    }

    /// Appends `tier` below all previously added tiers (first added is the
    /// hottest).
    #[must_use]
    pub fn tier(self, tier: T) -> (builder: Self)
        ensures
            builder.tiers() == self.tiers().push(tier),
            router::adds_lane(self.route(), tier, true, builder.route()),
            builder.coalesces() == self.coalesces(),
    {
        TieredCacheBuilder {
            router: self.router.tier(tier),
            single_flight: self.single_flight,
        }
    }

    /// Appends a read-only tier: the lane for an origin the cache fills from
    /// but never writes. Puts populate the writable cache layers only, and
    /// invalidation clears local copies while the origin re-serves the key
    /// afterwards.
    #[must_use]
    pub fn read_only_tier(self, tier: T) -> (builder: Self)
        ensures
            builder.tiers() == self.tiers().push(tier),
            router::adds_lane(self.route(), tier, false, builder.route()),
            builder.coalesces() == self.coalesces(),
    {
        TieredCacheBuilder {
            router: self.router.read_only_tier(tier),
            single_flight: self.single_flight,
        }
    }

    /// Overrides the cache policy.
    #[must_use]
    pub fn policy(self, policy: Policy) -> (builder: Self)
        ensures
            builder.tiers() == self.tiers(),
            builder.route() == (Route { policy, ..self.route() }),
            builder.coalesces() == self.coalesces(),
    {
        TieredCacheBuilder {
            router: self.router.policy(policy),
            single_flight: self.single_flight,
        }
    }

    /// Enables or disables per-key single-flight on reads (default:
    /// enabled). See [`TieredCache::get`] for the trade-off.
    #[must_use]
    pub fn single_flight(self, enabled: bool) -> (builder: Self)
        ensures
            builder.tiers() == self.tiers(),
            builder.route() == self.route(),
            builder.coalesces() == enabled,
    {
        TieredCacheBuilder { router: self.router, single_flight: enabled }
    }

    /// Diagnostic names of the tiers added so far, topmost first.
    #[must_use]
    pub fn tier_names(&self) -> (names: Vec<String>)
        ensures
            names@.len() == self.route().lanes.len(),
            forall|i: int|
                0 <= i < names@.len() ==> (#[trigger] names@[i])@ == router::lane_label(
                    self.route().lanes[i],
                ),
    {
        self.router.tier_names()
    }

    /// Finishes the cache. At least one tier must have been added.
    #[must_use]
    pub fn build(self) -> (cache: TieredCache<T>)
        requires
            self.route().lanes.len() > 0,
        ensures
            cache.routes().route() == self.route(),
            cache.routes().tiers() == self.tiers(),
            cache.routes().counters() == Seq::new(
                self.route().lanes.len(),
                |i: int| Counters::zero(),
            ),
            cache.coalesces() == self.coalesces(),
    {
        TieredCache { router: self.router.build(), single_flight: self.single_flight }
    }
}

/// The result of a lookup as a plain read result: a hit is its value, a
/// confirmed miss is `None`, and an unconfirmed absence is an error that
/// carries the failures.
pub fn answer<V, E>(result: Result<ReadOneReport<V, E>, RouterError<E>>) -> (answer: Result<
    Option<V>,
    RouterError<E>,
>)
    ensures
        match result {
            Err(error) => answer == Err::<Option<V>, RouterError<E>>(error),
            Ok(report) => match report.status {
                KeyStatus::Hit { value, .. } => answer == Ok::<Option<V>, RouterError<E>>(
                    Some(value),
                ),
                KeyStatus::Miss => answer == Ok::<Option<V>, RouterError<E>>(None),
                KeyStatus::Inconclusive => answer matches Err(error) && error@
                    == Trouble::Inconclusive(error::failures_of(report.failures@)),
            },
        },
{
    match result {
        Ok(report) => report.into_result(),
        Err(error) => Err(error),
    }
}

/// What a cache lookup asks of the driver.
#[derive(Debug)]
pub enum LookupStep<V, E> {
    /// Acquire the key's lock and report with [`LookupFlow::on_acquired`].
    Acquire,
    /// Carry out [`Router::read_one`] for the key and report with
    /// [`LookupFlow::on_read`].
    Read,
    /// Release the key's lock and report with [`LookupFlow::on_released`].
    Release,
    /// The lookup is over.
    Done(Result<ReadOneReport<V, E>, RouterError<E>>),
}

/// How the driver answered one request of a lookup.
pub enum LookupReply<V, E> {
    /// The lock is held.
    Acquired,
    /// The read ended.
    Read(Result<ReadOneReport<V, E>, RouterError<E>>),
    /// The lock is free again.
    Released,
}

impl<V, E> LookupStep<V, E> {
    /// Whether `reply` can be the answer to this request.
    pub open spec fn fits(self, reply: LookupReply<V, E>) -> bool {
        match self {
            LookupStep::Acquire => reply is Acquired,
            LookupStep::Read => reply is Read,
            LookupStep::Release => reply is Released,
            LookupStep::Done(_) => false,
        }
    }
}

/// Everything a lookup has learned.
#[verifier::ext_equal]
pub struct LookupLog<K, V, E> {
    /// The requested key.
    pub key: K,
    /// Whether same-key reads are coalesced.
    pub coalesced: bool,
    /// The answers so far.
    pub replies: Seq<LookupReply<V, E>>,
}

impl<K, V, E> LookupLog<K, V, E> {
    /// The log of a lookup that was only just requested.
    pub open spec fn begin(key: K, coalesced: bool) -> Self {
        LookupLog { key, coalesced, replies: Seq::empty() }
    }

    /// The result of the read, once it ended.
    pub open spec fn result(self) -> Option<Result<ReadOneReport<V, E>, RouterError<E>>> {
        let at = if self.coalesced {
            1int
        } else {
            0
        };
        if self.replies.len() > at {
            match self.replies[at] {
                LookupReply::Read(result) => Some(result),
                _ => None,
            }
        } else {
            None
        }
    }

    /// What the lookup asks for next. The lock is held through the read and
    /// its promotions: waiters must observe the value in the tier it was
    /// promoted into rather than race the lower read.
    pub open spec fn step(self) -> LookupStep<V, E> {
        match self.result() {
            None => if self.coalesced && self.replies.len() == 0 {
                LookupStep::Acquire
            } else {
                LookupStep::Read
            },
            Some(result) => if self.coalesced && self.replies.len() == 2 {
                LookupStep::Release
            } else {
                LookupStep::Done(result)
            },
        }
    }

    /// The log after one more answer.
    pub open spec fn answered(self, reply: LookupReply<V, E>) -> Self {
        LookupLog { replies: self.replies.push(reply), ..self }
    }

    /// The log when only the first `count` answers had come in.
    pub open spec fn prefix(self, count: int) -> Self {
        LookupLog { replies: self.replies.take(count), ..self }
    }

    /// Whether every answer is one to what was asked for.
    pub open spec fn sound(self) -> bool {
        forall|i: int|
            0 <= i < self.replies.len() ==> (#[trigger] self.prefix(i)).step().fits(
                self.replies[i],
            )
    }
}

/// What a lookup waits for.
enum LookupPhase<V, E> {
    Acquiring,
    Reading,
    Releasing { result: Result<ReadOneReport<V, E>, RouterError<E>> },
    Finished,
}

/// One cache lookup.
pub struct LookupFlow<'a, K, V, E> {
    key: &'a K,
    coalesced: bool,
    phase: LookupPhase<V, E>,
    replies: Ghost<Seq<LookupReply<V, E>>>,
}

impl<'a, K, V, E> View for LookupFlow<'a, K, V, E> {
    type V = LookupLog<K, V, E>;

    closed spec fn view(&self) -> LookupLog<K, V, E> {
        LookupLog { key: *self.key, coalesced: self.coalesced, replies: self.replies@ }
    }
}

impl<'a, K, V, E> LookupFlow<'a, K, V, E> {
    /// What every flow that [`TieredCache::lookup`] started satisfies.
    pub closed spec fn inv(&self) -> bool {
        match self.phase {
            LookupPhase::Acquiring => self.coalesced && self.replies@.len() == 0,
            LookupPhase::Reading => self.replies@.len() == if self.coalesced {
                1int
            } else {
                0
            },
            LookupPhase::Releasing { result } => self.coalesced && self.replies@.len() == 2
                && self.replies@[1] == LookupReply::Read(result),
            LookupPhase::Finished => self@.step() is Done,
        }
    }

    /// The requested key.
    pub fn key(&self) -> (key: &'a K)
        ensures
            *key == self@.key,
    {
        self.key
    }

    fn start(key: &'a K, coalesced: bool) -> (started: (Self, LookupStep<V, E>))
        ensures
            started.0.inv(),
            started.0@ == LookupLog::<K, V, E>::begin(*key, coalesced),
            started.1 == started.0@.step(),
    {
        if coalesced {
            (
                LookupFlow {
                    key,
                    coalesced,
                    phase: LookupPhase::Acquiring,
                    replies: Ghost(Seq::empty()),
                },
                LookupStep::Acquire,
            )
        } else {
            (
                LookupFlow {
                    key,
                    coalesced,
                    phase: LookupPhase::Reading,
                    replies: Ghost(Seq::empty()),
                },
                LookupStep::Read,
            )
        }
    }

    /// Reports that the lock is held; returns what to do next.
    pub fn on_acquired(&mut self) -> (step: LookupStep<V, E>)
        requires
            old(self).inv(),
            old(self)@.step() is Acquire,
        ensures
            final(self).inv(),
            final(self)@ == old(self)@.answered(LookupReply::Acquired),
            step == final(self)@.step(),
    {
        self.replies = Ghost(self.replies@.push(LookupReply::Acquired));
        self.phase = LookupPhase::Reading;
        LookupStep::Read
    }

    /// Reports how the read ended; returns what to do next.
    pub fn on_read(&mut self, result: Result<ReadOneReport<V, E>, RouterError<E>>) -> (step:
        LookupStep<V, E>)
        requires
            old(self).inv(),
            old(self)@.step() is Read,
        ensures
            final(self).inv(),
            final(self)@ == old(self)@.answered(LookupReply::Read(result)),
            step == final(self)@.step(),
    {
        self.replies = Ghost(self.replies@.push(LookupReply::Read(result)));
        if self.coalesced {
            self.phase = LookupPhase::Releasing { result };
            LookupStep::Release
        } else {
            self.phase = LookupPhase::Finished;
            LookupStep::Done(result)
        }
    }

    /// Reports that the lock is free again; returns what to do next.
    pub fn on_released(&mut self) -> (step: LookupStep<V, E>)
        requires
            old(self).inv(),
            old(self)@.step() is Release,
        ensures
            final(self).inv(),
            final(self)@ == old(self)@.answered(LookupReply::Released),
            step == final(self)@.step(),
    {
        self.replies = Ghost(self.replies@.push(LookupReply::Released));
        let mut phase = LookupPhase::Finished;
        core::mem::swap(&mut self.phase, &mut phase);
        match phase {
            LookupPhase::Releasing { result } => LookupStep::Done(result),
            _ => {
                assert(false);
                LookupStep::Read
            },
        }
    }
}

/// What a read-through with a loader asks of the driver.
#[derive(Debug)]
pub enum LoadStep<V, L> {
    /// Carry out [`Router::get`] for the key and report with
    /// [`LoadFlow::on_probe`].
    Probe,
    /// Acquire the key's lock and report with [`LoadFlow::on_acquired`].
    Acquire,
    /// Run the loader and report with [`LoadFlow::on_load`].
    Load,
    /// Carry out [`Router::put`] of the key with a copy of
    /// [`LoadFlow::value`] and report with [`LoadFlow::on_filled`], whatever
    /// its result.
    Fill,
    /// Release the key's lock and report with [`LoadFlow::on_released`].
    Release,
    /// The read is over.
    Done(Result<V, L>),
}

/// How the driver answered one request of a read-through with a loader.
pub enum LoadReply<V, E, L> {
    /// The hierarchy was read.
    Probed(Result<Option<V>, RouterError<E>>),
    /// The lock is held.
    Acquired,
    /// The loader ended.
    Loaded(Result<V, L>),
    /// The tiers were filled, as far as they accepted the value.
    Filled,
    /// The lock is free again.
    Released,
}

impl<V, E, L> LoadReply<V, E, L> {
    /// The value a probe found. A failed probe found nothing.
    pub open spec fn hit(self) -> Option<V> {
        match self {
            LoadReply::Probed(Ok(found)) => found,
            _ => None,
        }
    }

    /// The loader's result.
    pub open spec fn loaded(self) -> Option<Result<V, L>> {
        match self {
            LoadReply::Loaded(result) => Some(result),
            _ => None,
        }
    }
}

impl<V, L> LoadStep<V, L> {
    /// Whether `reply` can be the answer to this request.
    pub open spec fn fits<E>(self, reply: LoadReply<V, E, L>) -> bool {
        match self {
            LoadStep::Probe => reply is Probed,
            LoadStep::Acquire => reply is Acquired,
            LoadStep::Load => reply is Loaded,
            LoadStep::Fill => reply is Filled,
            LoadStep::Release => reply is Released,
            LoadStep::Done(_) => false,
        }
    }
}

/// Everything a read-through with a loader has learned.
#[verifier::ext_equal]
pub struct LoadLog<K, V, E, L> {
    /// The requested key.
    pub key: K,
    /// Whether same-key loads are coalesced.
    pub coalesced: bool,
    /// The answers so far.
    pub replies: Seq<LoadReply<V, E, L>>,
}

/// Leaving: the lock is released if it is held, then `result` is returned.
pub open spec fn leave<V, E, L>(
    coalesced: bool,
    result: Result<V, L>,
    replies: Seq<LoadReply<V, E, L>>,
) -> LoadStep<V, L> {
    if coalesced && replies.len() == 0 {
        LoadStep::Release
    } else {
        LoadStep::Done(result)
    }
}

/// Loading after the hierarchy had no value: what the loader returns is
/// returned, and a loaded value is offered to the tiers before.
pub open spec fn load<V, E, L>(coalesced: bool, replies: Seq<LoadReply<V, E, L>>) -> LoadStep<V, L> {
    if replies.len() == 0 {
        LoadStep::Load
    } else {
        match replies[0].loaded() {
            None => LoadStep::Load,
            Some(Err(error)) => leave(coalesced, Err(error), replies.skip(1)),
            Some(Ok(value)) => if replies.len() == 1 {
                LoadStep::Fill
            } else {
                leave(coalesced, Ok(value), replies.skip(2))
            },
        }
    }
}

impl<K, V, E, L> LoadLog<K, V, E, L> {
    /// The log of a read that was only just requested.
    pub open spec fn begin(key: K, coalesced: bool) -> Self {
        LoadLog { key, coalesced, replies: Seq::empty() }
    }

    /// What the read asks for next: probe; on a miss take the lock and probe
    /// again; on a miss load. Without single-flight a miss loads at once.
    pub open spec fn step(self) -> LoadStep<V, L> {
        let replies = self.replies;
        if replies.len() == 0 {
            LoadStep::Probe
        } else if let Some(value) = replies[0].hit() {
            LoadStep::Done(Ok(value))
        } else if !self.coalesced {
            load(false, replies.skip(1))
        } else if replies.len() == 1 {
            LoadStep::Acquire
        } else if replies.len() == 2 {
            LoadStep::Probe
        } else if let Some(value) = replies[2].hit() {
            leave(true, Ok(value), replies.skip(3))
        } else {
            load(true, replies.skip(3))
        }
    }

    /// The log after one more answer.
    pub open spec fn answered(self, reply: LoadReply<V, E, L>) -> Self {
        LoadLog { replies: self.replies.push(reply), ..self }
    }

    /// The log when only the first `count` answers had come in.
    pub open spec fn prefix(self, count: int) -> Self {
        LoadLog { replies: self.replies.take(count), ..self }
    }

    /// Whether every answer is one to what was asked for.
    pub open spec fn sound(self) -> bool {
        forall|i: int|
            0 <= i < self.replies.len() ==> (#[trigger] self.prefix(i)).step().fits(
                self.replies[i],
            )
    }

    /// The value the loader returned, once it did.
    pub open spec fn value(self) -> Option<V> {
        let at = if self.coalesced {
            3int
        } else {
            1
        };
        if self.replies.len() > at {
            match self.replies[at].loaded() {
                Some(Ok(value)) => Some(value),
                _ => None,
            }
        } else {
            None
        }
    }
}

/// What a read-through with a loader waits for.
enum LoadPhase<V, L> {
    Probing,
    Acquiring,
    Reprobing,
    Loading,
    Filling { value: V },
    Releasing { result: Result<V, L> },
    Finished,
}

/// One read-through with a loader.
pub struct LoadFlow<'a, K, V, E, L> {
    key: &'a K,
    coalesced: bool,
    phase: LoadPhase<V, L>,
    replies: Ghost<Seq<LoadReply<V, E, L>>>,
}

impl<'a, K, V, E, L> View for LoadFlow<'a, K, V, E, L> {
    type V = LoadLog<K, V, E, L>;

    closed spec fn view(&self) -> LoadLog<K, V, E, L> {
        LoadLog { key: *self.key, coalesced: self.coalesced, replies: self.replies@ }
    }
}

impl<'a, K, V, E, L> LoadFlow<'a, K, V, E, L> {
    /// The first answers were misses, and the lock is held if it has to be.
    spec fn missed(&self) -> bool {
        let replies = self.replies@;
        if self.coalesced {
            replies.len() >= 3 && replies[0].hit() is None && replies[2].hit() is None
        } else {
            replies.len() >= 1 && replies[0].hit() is None
        }
    }

    /// How many answers came before loading.
    spec fn lead(&self) -> int {
        if self.coalesced {
            3
        } else {
            1
        }
    }

    /// What every flow that [`TieredCache::get_or_load`] started satisfies.
    pub closed spec fn inv(&self) -> bool {
        let replies = self.replies@;
        match self.phase {
            LoadPhase::Probing => replies.len() == 0,
            LoadPhase::Acquiring => self.coalesced && replies.len() == 1 && replies[0].hit() is None,
            LoadPhase::Reprobing => self.coalesced && replies.len() == 2 && replies[0].hit() is None,
            LoadPhase::Loading => self.missed() && replies.len() == self.lead(),
            LoadPhase::Filling { value } => self.missed() && replies.len() == self.lead() + 1
                && replies[self.lead()].loaded() == Some(Ok::<V, L>(value)),
            LoadPhase::Releasing { result } => self.coalesced && self@.step() is Release && forall|
                reply: LoadReply<V, E, L>,
            |
                #[trigger] self@.answered(reply).step() == LoadStep::Done(result),
            LoadPhase::Finished => self@.step() is Done,
        }
    }

    /// The requested key.
    pub fn key(&self) -> (key: &'a K)
        ensures
            *key == self@.key,
    {
        self.key
    }

    fn start(key: &'a K, coalesced: bool) -> (started: (Self, LoadStep<V, L>))
        ensures
            started.0.inv(),
            started.0@ == LoadLog::<K, V, E, L>::begin(*key, coalesced),
            started.1 == started.0@.step(),
    {
        (
            LoadFlow { key, coalesced, phase: LoadPhase::Probing, replies: Ghost(Seq::empty()) },
            LoadStep::Probe,
        )
    }

    /// The loaded value, while it is offered to the tiers.
    pub fn value(&self) -> (value: Option<&V>)
        requires
            self.inv(),
        ensures
            value is Some <==> self@.step() is Fill,
            value matches Some(v) ==> self@.value() == Some(*v),
    {
        match &self.phase {
            LoadPhase::Filling { value } => Some(value),
            _ => None,
        }
    }

    /// Ends the read with `result`, releasing the lock first if it is held.
    fn finish(&mut self, result: Result<V, L>) -> (step: LoadStep<V, L>)
        requires
            old(self)@.step() == leave::<V, E, L>(old(self)@.coalesced, result, Seq::empty()),
            forall|reply: LoadReply<V, E, L>| #[trigger]
                old(self)@.answered(reply).step() == leave(
                    old(self)@.coalesced,
                    result,
                    seq![reply],
                ),
        ensures
            final(self).inv(),
            final(self)@ == old(self)@,
            step == final(self)@.step(),
    {
        if self.coalesced {
            self.phase = LoadPhase::Releasing { result };
            LoadStep::Release
        } else {
            self.phase = LoadPhase::Finished;
            LoadStep::Done(result)
        }
    }

    /// Reports how the probe ended; returns what to do next.
    pub fn on_probe(&mut self, result: Result<Option<V>, RouterError<E>>) -> (step: LoadStep<V, L>)
        requires
            old(self).inv(),
            old(self)@.step() is Probe,
        ensures
            final(self).inv(),
            final(self)@ == old(self)@.answered(LoadReply::Probed(result)),
            step == final(self)@.step(),
    {
        let ghost before = self.replies@;
        self.replies = Ghost(self.replies@.push(LoadReply::Probed(result)));
        let ghost replies = self.replies@;
        let hit = match result {
            Ok(found) => found,
            Err(_) => None,
        };
        let first = match self.phase {
            LoadPhase::Probing => true,
            _ => false,
        };
        match hit {
            Some(value) => if first {
                self.phase = LoadPhase::Finished;
                LoadStep::Done(Ok(value))
            } else {
                proof {
                    assert(replies.skip(3) =~= Seq::<LoadReply<V, E, L>>::empty());
                    assert forall|reply: LoadReply<V, E, L>| #[trigger]
                        self@.answered(reply).step() == leave(
                            self@.coalesced,
                            Ok::<V, L>(value),
                            seq![reply],
                        ) by {
                        assert(replies.push(reply).skip(3) =~= seq![reply]);
                    }
                }
                self.finish(Ok(value))
            },
            None => if first && self.coalesced {
                self.phase = LoadPhase::Acquiring;
                LoadStep::Acquire
            } else {
                self.phase = LoadPhase::Loading;
                LoadStep::Load
            },
        }
    }

    /// Reports that the lock is held; returns what to do next.
    pub fn on_acquired(&mut self) -> (step: LoadStep<V, L>)
        requires
            old(self).inv(),
            old(self)@.step() is Acquire,
        ensures
            final(self).inv(),
            final(self)@ == old(self)@.answered(LoadReply::Acquired),
            step == final(self)@.step(),
    {
        self.replies = Ghost(self.replies@.push(LoadReply::Acquired));
        self.phase = LoadPhase::Reprobing;
        LoadStep::Probe
    }

    /// Reports how the loader ended; returns what to do next.
    pub fn on_load(&mut self, result: Result<V, L>) -> (step: LoadStep<V, L>)
        requires
            old(self).inv(),
            old(self)@.step() is Load,
        ensures
            final(self).inv(),
            final(self)@ == old(self)@.answered(LoadReply::Loaded(result)),
            step == final(self)@.step(),
    {
        let ghost lead = self.lead();
        self.replies = Ghost(self.replies@.push(LoadReply::Loaded(result)));
        let ghost replies = self.replies@;
        assert(replies.skip(lead) =~= seq![LoadReply::<V, E, L>::Loaded(result)]);
        match result {
            Ok(value) => {
                self.phase = LoadPhase::Filling { value };
                LoadStep::Fill
            },
            Err(error) => {
                proof {
                    assert(replies.skip(lead).skip(1) =~= Seq::<LoadReply<V, E, L>>::empty());
                    assert forall|reply: LoadReply<V, E, L>| #[trigger]
                        self@.answered(reply).step() == leave(
                            self@.coalesced,
                            Err::<V, L>(error),
                            seq![reply],
                        ) by {
                        assert(replies.push(reply).skip(lead)[0] == replies[lead]);
                        assert(replies.push(reply).skip(lead).skip(1) =~= seq![reply]);
                    }
                }
                self.finish(Err(error))
            },
        }
    }

    /// Reports that the tiers were offered the value; returns what to do
    /// next.
    pub fn on_filled(&mut self) -> (step: LoadStep<V, L>)
        requires
            old(self).inv(),
            old(self)@.step() is Fill,
        ensures
            final(self).inv(),
            final(self)@ == old(self)@.answered(LoadReply::Filled),
            step == final(self)@.step(),
    {
        let ghost lead = self.lead();
        self.replies = Ghost(self.replies@.push(LoadReply::Filled));
        let ghost replies = self.replies@;
        let mut phase = LoadPhase::Finished;
        core::mem::swap(&mut self.phase, &mut phase);
        match phase {
            LoadPhase::Filling { value } => {
                proof {
                    assert(replies.skip(lead)[0] == replies[lead]);
                    assert(replies.skip(lead).skip(2) =~= Seq::<LoadReply<V, E, L>>::empty());
                    assert forall|reply: LoadReply<V, E, L>| #[trigger]
                        self@.answered(reply).step() == leave(
                            self@.coalesced,
                            Ok::<V, L>(value),
                            seq![reply],
                        ) by {
                        assert(replies.push(reply).skip(lead)[0] == replies[lead]);
                        assert(replies.push(reply).skip(lead).skip(2) =~= seq![reply]);
                    }
                }
                self.finish(Ok(value))
            },
            _ => {
                assert(false);
                LoadStep::Load
            },
        }
    }

    /// Reports that the lock is free again; returns what to do next.
    pub fn on_released(&mut self) -> (step: LoadStep<V, L>)
        requires
            old(self).inv(),
            old(self)@.step() is Release,
        ensures
            final(self).inv(),
            final(self)@ == old(self)@.answered(LoadReply::Released),
            step == final(self)@.step(),
    {
        let ghost before = self@;
        self.replies = Ghost(self.replies@.push(LoadReply::Released));
        assert(self@ == before.answered(LoadReply::Released));
        let mut phase = LoadPhase::Finished;
        core::mem::swap(&mut self.phase, &mut phase);
        match phase {
            LoadPhase::Releasing { result } => LoadStep::Done(result),
            _ => {
                assert(false);
                LoadStep::Load
            },
        }
    }
}

} // verus!
