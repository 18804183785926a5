//! Deleting keys from the hierarchy.
//!
//! A delete attempts every writable tier, whether or not others failed:
//! leaving a copy in one tier because another errored would resurrect the
//! key. [`DeleteFlow`] deletes one key, [`RemoveManyFlow`] a batch.
use vstd::prelude::*;

use crate::error;
use crate::error::{Failure, RouterError, TierFailure, Trouble};
use crate::report::DeleteReport;
use crate::router;
use crate::router::{Count, Counters, Route, Router};
use crate::tier::Tier;

verus! {

/// The failures among the answers of the writable tiers, topmost first.
pub open spec fn failures_at<A, E>(route: Route, replies: Seq<Result<A, E>>) -> Seq<Failure<E>>
    decreases replies.len(),
{
    if replies.len() == 0 {
        Seq::empty()
    } else {
        let above = failures_at(route, replies.drop_last());
        match replies.last() {
            Ok(_) => above,
            Err(source) => above.push(
                route.failure(
                    route.writables(route.lanes.len() as int)[replies.len() - 1],
                    source,
                ),
            ),
        }
    }
}

/// What a delete asks of the driver, as contracts speak of it.
#[verifier::ext_equal]
pub enum DeleteMove<E> {
    /// Delete the key from `tier`.
    Delete {
        /// The tier to delete from.
        tier: int,
    },
    /// The delete is over.
    Done(Result<bool, Trouble<E>>),
}

/// What a delete asks of the driver.
#[derive(Debug)]
pub enum DeleteStep<E> {
    /// Delete the key from `tier` and report with [`DeleteFlow::on_delete`].
    Delete {
        /// The tier to delete from.
        tier: usize,
    },
    /// The delete is over: whether some tier held the key.
    Done(Result<bool, RouterError<E>>),
}

impl<E> View for DeleteStep<E> {
    type V = DeleteMove<E>;

    open spec fn view(&self) -> DeleteMove<E> {
        match *self {
            DeleteStep::Delete { tier } => DeleteMove::Delete { tier: tier as int },
            DeleteStep::Done(Ok(existed)) => DeleteMove::Done(Ok(existed)),
            DeleteStep::Done(Err(error)) => DeleteMove::Done(Err(error@)),
        }
    }
}

/// Everything a delete has learned: `replies[i]` is the answer of the `i`-th
/// writable tier from the top.
#[verifier::ext_equal]
pub struct DeleteLog<K, E> {
    /// The hierarchy and its policy.
    pub route: Route,
    /// The requested key.
    pub key: K,
    /// The answers so far.
    pub replies: Seq<Result<bool, E>>,
}

impl<K, E> DeleteLog<K, E> {
    /// The log of a delete that was only just requested.
    pub open spec fn begin(route: Route, key: K) -> Self {
        DeleteLog { route, key, replies: Seq::empty() }
    }

    /// Whether some tier that answered held the key.
    pub open spec fn existed(self) -> bool {
        exists|i: int|
            0 <= i < self.replies.len() && #[trigger] self.replies[i] == Ok::<bool, E>(true)
    }

    /// What the delete asks for next: every writable tier in turn.
    pub open spec fn step(self) -> DeleteMove<E> {
        let tiers = self.route.writables(self.route.lanes.len() as int);
        let failures = failures_at(self.route, self.replies);
        if self.replies.len() < tiers.len() {
            DeleteMove::Delete { tier: tiers[self.replies.len() as int] }
        } else if failures.len() == 0 {
            DeleteMove::Done(Ok(self.existed()))
        } else {
            DeleteMove::Done(Err(Trouble::Partial(failures)))
        }
    }

    /// The log after one more answer.
    pub open spec fn answered(self, reply: Result<bool, E>) -> Self {
        DeleteLog { replies: self.replies.push(reply), ..self }
    }

    /// The log when only the first `count` answers had come in.
    pub open spec fn prefix(self, count: int) -> Self {
        DeleteLog { replies: self.replies.take(count), ..self }
    }

    /// Whether every answer is one to what was asked for.
    pub open spec fn sound(self) -> bool {
        forall|i: int|
            0 <= i < self.replies.len() ==> (#[trigger] self.prefix(i)).step() is Delete
    }

    /// How the answer `reply` to the pending call is counted.
    pub open spec fn tally(self, counters: Seq<Counters>, reply: Result<bool, E>) -> Seq<Counters> {
        router::tallied(
            counters,
            self.route.writables(self.route.lanes.len() as int)[self.replies.len() as int],
            match reply {
                Ok(_) => Count::Deletes,
                Err(_) => Count::Errors,
            },
            1,
        )
    }
}

/// One routed delete.
pub struct DeleteFlow<'a, K, E> {
    key: &'a K,
    tier: usize,
    existed: bool,
    failures: Vec<TierFailure<E>>,
    route: Ghost<Route>,
    replies: Ghost<Seq<Result<bool, E>>>,
}

impl<'a, K, E> View for DeleteFlow<'a, K, E> {
    type V = DeleteLog<K, E>;

    closed spec fn view(&self) -> DeleteLog<K, E> {
        DeleteLog { route: self.route@, key: *self.key, replies: self.replies@ }
    }
}

impl<'a, K, E> DeleteFlow<'a, K, E> {
    spec fn gathered(&self) -> bool {
        &&& self.existed == self@.existed()
        &&& error::failures_of(self.failures@) == failures_at(self.route@, self.replies@)
    }

    /// What every flow that [`Router::delete`] started satisfies.
    pub closed spec fn inv(&self) -> bool {
        self@.step() is Delete ==> {
            &&& self.gathered()
            &&& self.route@.writable(self.tier as int)
            &&& self.route@.writables(self.tier as int).len() == self.replies@.len()
            &&& self@.step() == DeleteMove::<E>::Delete { tier: self.tier as int }
        }
    }

    /// The requested key.
    pub fn key(&self) -> (key: &'a K)
        ensures
            *key == self@.key,
    {
        self.key
    }

    /// Goes on with the tiers from `from` down.
    fn settle<T: Tier<Key = K, Error = E>>(&mut self, router: &Router<T>, from: usize) -> (step:
        DeleteStep<E>)
        requires
            old(self).gathered(),
            old(self)@.route == router.route(),
            from <= router.route().lanes.len(),
            router.route().writables(from as int).len() == old(self)@.replies.len(),
        ensures
            final(self).inv(),
            final(self)@ == old(self)@,
            step@ == final(self)@.step(),
    {
        let ghost route = self.route@;
        let ghost n = route.lanes.len() as int;
        match router.next_writable(from) {
            Some(tier) => {
                proof {
                    route.lemma_writables_prefix(tier + 1, n);
                    let upto = route.writables(tier + 1);
                    assert(upto[upto.len() - 1] == tier);
                }
                self.tier = tier;
                DeleteStep::Delete { tier }
            },
            None => {
                let mut failures: Vec<TierFailure<E>> = Vec::new();
                core::mem::swap(&mut self.failures, &mut failures);
                if failures.is_empty() {
                    DeleteStep::Done(Ok(self.existed))
                } else {
                    DeleteStep::Done(Err(RouterError::Partial(failures)))
                }
            },
        }
    }

    fn start<T: Tier<Key = K, Error = E>>(router: &Router<T>, key: &'a K) -> (started: (
        Self,
        DeleteStep<E>,
    ))
        ensures
            started.0.inv(),
            started.0@ == DeleteLog::<K, E>::begin(router.route(), *key),
            started.1@ == started.0@.step(),
    {
        let mut flow = DeleteFlow {
            key,
            tier: 0,
            existed: false,
            failures: Vec::new(),
            route: Ghost(router.route()),
            replies: Ghost(Seq::empty()),
        };
        assert(error::failures_of(flow.failures@) =~= Seq::<Failure<E>>::empty());
        let step = flow.settle(router, 0);
        (flow, step)
    }

    /// Reports how the tier answered; returns what to do next.
    pub fn on_delete<T: Tier<Key = K, Error = E>>(
        &mut self,
        router: &mut Router<T>,
        reply: Result<bool, E>,
    ) -> (step: DeleteStep<E>)
        requires
            old(self).inv(),
            old(self)@.route == old(router).route(),
            old(self)@.step() is Delete,
        ensures
            final(self).inv(),
            final(self)@ == old(self)@.answered(reply),
            step@ == final(self)@.step(),
            final(router).route() == old(router).route(),
            final(router).tiers() == old(router).tiers(),
            final(router).counters() == old(self)@.tally(old(router).counters(), reply),
    {
        let ghost before = self.replies@;
        let ghost log = self@;
        let ghost existed = self.existed;
        let total = router.tier_count();
        let tier = self.tier;
        proof {
            assert(before.push(reply).drop_last() =~= before);
            let after = log.answered(reply);
            assert(after.existed() <==> log.existed() || reply == Ok::<bool, E>(true)) by {
                if log.existed() {
                    let i = choose|i: int|
                        0 <= i < before.len() && #[trigger] before[i] == Ok::<bool, E>(true);
                    assert(after.replies[i] == Ok::<bool, E>(true));
                }
                if reply == Ok::<bool, E>(true) {
                    assert(after.replies[before.len() as int] == Ok::<bool, E>(true));
                }
                if after.existed() && reply != Ok::<bool, E>(true) {
                    let i = choose|i: int|
                        0 <= i < after.replies.len() && #[trigger] after.replies[i] == Ok::<
                            bool,
                            E,
                        >(true);
                    assert(before[i] == Ok::<bool, E>(true));
                }
            }
        }
        match reply {
            Ok(present) => {
                router.record(tier, Count::Deletes, 1);
                self.existed = self.existed || present;
            },
            Err(source) => {
                router.record(tier, Count::Errors, 1);
                let failure = router.failure(tier, source);
                proof {
                    error::lemma_failures_push(self.failures@, failure);
                }
                self.failures.push(failure);
            },
        }
        self.replies = Ghost(before.push(reply));
        assert(tier < total);
        self.settle(router, tier + 1)
    }
}

/// What a batched delete asks of the driver, as contracts speak of it.
#[verifier::ext_equal]
pub enum RemoveMove<E> {
    /// Delete the keys from `tier`.
    DeleteMany {
        /// The tier to delete from.
        tier: int,
    },
    /// The delete is over.
    Done {
        /// Per key, whether any answering tier held it.
        removed: Seq<bool>,
        /// The tiers that failed.
        failures: Seq<Failure<E>>,
    },
}

/// What a batched delete asks of the driver.
#[derive(Debug)]
pub enum RemoveStep<E> {
    /// Delete the keys from `tier` and report with
    /// [`RemoveManyFlow::on_delete_many`].
    DeleteMany {
        /// The tier to delete from.
        tier: usize,
    },
    /// The delete is over.
    Done(DeleteReport<E>),
}

impl<E> View for RemoveStep<E> {
    type V = RemoveMove<E>;

    open spec fn view(&self) -> RemoveMove<E> {
        match *self {
            RemoveStep::DeleteMany { tier } => RemoveMove::DeleteMany { tier: tier as int },
            RemoveStep::Done(report) => RemoveMove::Done {
                removed: report.removed@,
                failures: error::failures_of(report.failures@),
            },
        }
    }
}

/// The answer to a batched delete as contracts speak of it.
pub open spec fn flags_reply<E>(reply: Result<Vec<bool>, E>) -> Result<Seq<bool>, E> {
    match reply {
        Ok(flags) => Ok(flags@),
        Err(source) => Err(source),
    }
}

/// Whether the answer `reply` flags key number `index` as present.
pub open spec fn flagged<E>(reply: Result<Seq<bool>, E>, index: int) -> bool {
    reply matches Ok(flags) && index < flags.len() && flags[index]
}

/// Everything a batched delete has learned: `replies[i]` is the answer of
/// the `i`-th writable tier from the top.
#[verifier::ext_equal]
pub struct RemoveLog<K, E> {
    /// The hierarchy and its policy.
    pub route: Route,
    /// The requested keys.
    pub keys: Seq<K>,
    /// The answers so far.
    pub replies: Seq<Result<Seq<bool>, E>>,
}

impl<K, E> RemoveLog<K, E> {
    /// The log of a batched delete that was only just requested.
    pub open spec fn begin(route: Route, keys: Seq<K>) -> Self {
        RemoveLog { route, keys, replies: Seq::empty() }
    }

    /// Per key, whether some tier that answered held it.
    pub open spec fn removed(self) -> Seq<bool> {
        Seq::new(
            self.keys.len(),
            |j: int|
                exists|i: int| 0 <= i < self.replies.len() && #[trigger] flagged(self.replies[i], j),
        )
    }

    /// What the delete asks for next: every writable tier in turn.
    pub open spec fn step(self) -> RemoveMove<E> {
        let tiers = self.route.writables(self.route.lanes.len() as int);
        if self.replies.len() < tiers.len() {
            RemoveMove::DeleteMany { tier: tiers[self.replies.len() as int] }
        } else {
            RemoveMove::Done {
                removed: self.removed(),
                failures: failures_at(self.route, self.replies),
            }
        }
    }

    /// The log after one more answer.
    pub open spec fn answered(self, reply: Result<Seq<bool>, E>) -> Self {
        RemoveLog { replies: self.replies.push(reply), ..self }
    }

    /// The log when only the first `count` answers had come in.
    pub open spec fn prefix(self, count: int) -> Self {
        RemoveLog { replies: self.replies.take(count), ..self }
    }

    /// Whether every answer is one to what was asked for.
    pub open spec fn sound(self) -> bool {
        forall|i: int|
            0 <= i < self.replies.len() ==> (#[trigger] self.prefix(i)).step() is DeleteMany
    }

    /// How the answer `reply` to the pending call is counted.
    pub open spec fn tally(self, counters: Seq<Counters>, reply: Result<Seq<bool>, E>) -> Seq<
        Counters,
    > {
        let tier = self.route.writables(self.route.lanes.len() as int)[self.replies.len() as int];
        match reply {
            Ok(_) => router::tallied(counters, tier, Count::Deletes, self.keys.len() as int),
            Err(_) => router::tallied(counters, tier, Count::Errors, 1),
        }
    }
}

/// One routed batched delete.
pub struct RemoveManyFlow<'a, K, E> {
    keys: &'a [K],
    tier: usize,
    removed: Vec<bool>,
    failures: Vec<TierFailure<E>>,
    route: Ghost<Route>,
    replies: Ghost<Seq<Result<Seq<bool>, E>>>,
}

impl<'a, K, E> View for RemoveManyFlow<'a, K, E> {
    type V = RemoveLog<K, E>;

    closed spec fn view(&self) -> RemoveLog<K, E> {
        RemoveLog { route: self.route@, keys: self.keys@, replies: self.replies@ }
    }
}

/// Marks every key that `flags` flags.
fn mark(removed: &mut Vec<bool>, flags: &Vec<bool>)
    ensures
        final(removed)@ == Seq::new(
            old(removed)@.len(),
            |j: int| old(removed)@[j] || (j < flags@.len() && flags@[j]),
        ),
{
    let ghost before = removed@;
    let mut j: usize = 0;
    while j < removed.len() && j < flags.len()
        invariant
            j <= removed@.len() == before.len(),
            j <= flags@.len(),
            forall|k: int| 0 <= k < j ==> #[trigger] removed@[k] == (before[k] || flags@[k]),
            forall|k: int| j <= k < before.len() ==> #[trigger] removed@[k] == before[k],
        decreases removed@.len() - j,
    {
        if flags[j] {
            removed[j] = true;
        }
        j = j + 1;
    }
    assert(removed@ =~= Seq::new(
        before.len(),
        |j: int| before[j] || (j < flags@.len() && flags@[j]),
    ));
}

impl<'a, K, E> RemoveManyFlow<'a, K, E> {
    spec fn gathered(&self) -> bool {
        &&& self.removed@ == self@.removed()
        &&& error::failures_of(self.failures@) == failures_at(self.route@, self.replies@)
    }

    /// What every flow that [`Router::remove_many`] started satisfies.
    pub closed spec fn inv(&self) -> bool {
        self@.step() is DeleteMany ==> {
            &&& self.gathered()
            &&& self.route@.writable(self.tier as int)
            &&& self.route@.writables(self.tier as int).len() == self.replies@.len()
            &&& self@.step() == RemoveMove::<E>::DeleteMany { tier: self.tier as int }
        }
    }

    /// The requested keys.
    pub fn keys(&self) -> (keys: &'a [K])
        ensures
            keys@ == self@.keys,
    {
        self.keys
    }

    /// Goes on with the tiers from `from` down.
    fn settle<T: Tier<Key = K, Error = E>>(&mut self, router: &Router<T>, from: usize) -> (step:
        RemoveStep<E>)
        requires
            old(self).gathered(),
            old(self)@.route == router.route(),
            from <= router.route().lanes.len(),
            router.route().writables(from as int).len() == old(self)@.replies.len(),
        ensures
            final(self).inv(),
            final(self)@ == old(self)@,
            step@ == final(self)@.step(),
    {
        let ghost route = self.route@;
        let ghost n = route.lanes.len() as int;
        match router.next_writable(from) {
            Some(tier) => {
                proof {
                    route.lemma_writables_prefix(tier + 1, n);
                    let upto = route.writables(tier + 1);
                    assert(upto[upto.len() - 1] == tier);
                }
                self.tier = tier;
                RemoveStep::DeleteMany { tier }
            },
            None => {
                let mut failures: Vec<TierFailure<E>> = Vec::new();
                core::mem::swap(&mut self.failures, &mut failures);
                let mut removed: Vec<bool> = Vec::new();
                core::mem::swap(&mut self.removed, &mut removed);
                RemoveStep::Done(DeleteReport { removed, failures })
            },
        }
    }

    fn start<T: Tier<Key = K, Error = E>>(router: &Router<T>, keys: &'a [K]) -> (started: (
        Self,
        RemoveStep<E>,
    ))
        ensures
            started.0.inv(),
            started.0@ == RemoveLog::<K, E>::begin(router.route(), keys@),
            started.1@ == started.0@.step(),
    {
        let mut removed: Vec<bool> = Vec::new();
        while removed.len() < keys.len()
            invariant
                removed@.len() <= keys@.len(),
                forall|j: int| 0 <= j < removed@.len() ==> !removed@[j],
            decreases keys@.len() - removed@.len(),
        {
            removed.push(false);
        }
        let mut flow = RemoveManyFlow {
            keys,
            tier: 0,
            removed,
            failures: Vec::new(),
            route: Ghost(router.route()),
            replies: Ghost(Seq::empty()),
        };
        assert(error::failures_of(flow.failures@) =~= Seq::<Failure<E>>::empty());
        assert(flow.removed@ =~= flow@.removed());
        let step = flow.settle(router, 0);
        (flow, step)
    }

    /// Reports how the tier answered; returns what to do next.
    pub fn on_delete_many<T: Tier<Key = K, Error = E>>(
        &mut self,
        router: &mut Router<T>,
        reply: Result<Vec<bool>, E>,
    ) -> (step: RemoveStep<E>)
        requires
            old(self).inv(),
            old(self)@.route == old(router).route(),
            old(self)@.step() is DeleteMany,
        ensures
            final(self).inv(),
            final(self)@ == old(self)@.answered(flags_reply(reply)),
            step@ == final(self)@.step(),
            final(router).route() == old(router).route(),
            final(router).tiers() == old(router).tiers(),
            final(router).counters() == old(self)@.tally(
                old(router).counters(),
                flags_reply(reply),
            ),
    {
        let ghost before = self.replies@;
        let ghost log = self@;
        let ghost answer = flags_reply(reply);
        let ghost after = log.answered(answer);
        let total = router.tier_count();
        let tier = self.tier;
        proof {
            assert(before.push(answer).drop_last() =~= before);
            assert forall|j: int| 0 <= j < log.keys.len() implies #[trigger] after.removed()[j] == (
            log.removed()[j] || flagged(answer, j)) by {
                if log.removed()[j] {
                    let i = choose|i: int| 0 <= i < before.len() && #[trigger] flagged(before[i], j);
                    assert(flagged(after.replies[i], j));
                }
                if flagged(answer, j) {
                    assert(flagged(after.replies[before.len() as int], j));
                }
                if after.removed()[j] && !flagged(answer, j) {
                    let i = choose|i: int|
                        0 <= i < after.replies.len() && #[trigger] flagged(after.replies[i], j);
                    assert(flagged(before[i], j));
                }
            }
        }
        match reply {
            Ok(flags) => {
                router.record(tier, Count::Deletes, self.keys.len() as u64);
                mark(&mut self.removed, &flags);
            },
            Err(source) => {
                router.record(tier, Count::Errors, 1);
                let failure = router.failure(tier, source);
                proof {
                    error::lemma_failures_push(self.failures@, failure);
                }
                self.failures.push(failure);
            },
        }
        assert(self.removed@ =~= after.removed());
        self.replies = Ghost(before.push(answer));
        assert(tier < total);
        self.settle(router, tier + 1)
    }
}

impl<T: Tier> Router<T> {
    /// Starts deleting `key` from every writable tier. Read-only tiers are
    /// untouched: a key present there will be served again once local copies
    /// are gone.
    pub fn delete<'a>(&self, key: &'a T::Key) -> (started: (
        DeleteFlow<'a, T::Key, T::Error>,
        DeleteStep<T::Error>,
    ))
        ensures
            started.0.inv(),
            started.0@ == DeleteLog::<T::Key, T::Error>::begin(self.route(), *key),
            started.1@ == started.0@.step(),
    {
        DeleteFlow::start(self, key)
    }

    /// Starts deleting a batch of keys, with per-key outcomes. Every
    /// *writable* tier is attempted for every key regardless of failures.
    /// Check [`DeleteReport::is_complete`] before trusting the flags.
    pub fn remove_many<'a>(&self, keys: &'a [T::Key]) -> (started: (
        RemoveManyFlow<'a, T::Key, T::Error>,
        RemoveStep<T::Error>,
    ))
        ensures
            started.0.inv(),
            started.0@ == RemoveLog::<T::Key, T::Error>::begin(self.route(), keys@),
            started.1@ == started.0@.step(),
    {
        RemoveManyFlow::start(self, keys)
    }
}

} // verus!
