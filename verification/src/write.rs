//! Writing entries through the hierarchy.
//!
//! [`WriteFlow`] is one routed write (of one entry or of a batch). What it
//! asks for next is a function of the answers it was given so far:
//! [`WriteLog`] holds those answers, and [`WriteLog::step`] is that function.
use vstd::prelude::*;

use crate::error;
use crate::error::{Failure, RouterError, TierFailure, Trouble};
use crate::policy::{OnWriteError, WriteMode};
use crate::rollover;
use crate::rollover::{Reply, Rolled, Rolling, Rollover};
use crate::router;
use crate::router::{Count, Counters, Route, Router};
use crate::tier::{Displaced, Tier};

verus! {

/// What a write asks of the driver, as contracts speak of it.
#[verifier::ext_equal]
pub enum WriteMove<K, V, E> {
    /// Write the requested entries into `tier`.
    Put {
        /// The tier to write.
        tier: int,
    },
    /// Write a displaced entry into `tier`.
    Demote {
        /// The tier to write.
        tier: int,
        /// The entry's key.
        key: K,
        /// The entry's value.
        value: V,
    },
    /// Delete the requested keys from `tier`.
    Delete {
        /// The tier to delete from.
        tier: int,
    },
    /// The write is over.
    Done(Result<Seq<(K, V)>, Trouble<E>>),
}

impl<K, V, E> WriteMove<K, V, E> {
    /// Whether `reply` can be the answer to this request.
    pub open spec fn fits(self, reply: Reply<K, V, E>) -> bool {
        match self {
            WriteMove::Put { .. } => reply is Put,
            WriteMove::Demote { .. } => reply is Put,
            WriteMove::Delete { .. } => reply is Deleted,
            WriteMove::Done(_) => false,
        }
    }
}

/// What a write asks of the driver.
#[derive(Debug)]
pub enum WriteStep<K, V, E> {
    /// Write a copy of [`WriteFlow::entries`] into `tier` and report with
    /// [`WriteFlow::on_put`].
    Put {
        /// The tier to write.
        tier: usize,
    },
    /// Write this displaced entry into `tier` and report with
    /// [`WriteFlow::on_put`].
    Demote {
        /// The tier to write.
        tier: usize,
        /// The entry's key.
        key: K,
        /// The entry's value.
        value: V,
    },
    /// Delete the keys of [`WriteFlow::entries`] from `tier` and report with
    /// [`WriteFlow::on_delete`].
    Delete {
        /// The tier to delete from.
        tier: usize,
    },
    /// The write is over: the entries it pushed out of the hierarchy
    /// entirely, or why it did not succeed.
    Done(Result<Displaced<K, V>, RouterError<E>>),
}

impl<K, V, E> View for WriteStep<K, V, E> {
    type V = WriteMove<K, V, E>;

    open spec fn view(&self) -> WriteMove<K, V, E> {
        match *self {
            WriteStep::Put { tier } => WriteMove::Put { tier: tier as int },
            WriteStep::Demote { tier, key, value } => WriteMove::Demote {
                tier: tier as int,
                key,
                value,
            },
            WriteStep::Delete { tier } => WriteMove::Delete { tier: tier as int },
            WriteStep::Done(Ok(evicted)) => WriteMove::Done(Ok(evicted@)),
            WriteStep::Done(Err(error)) => WriteMove::Done(Err(error@)),
        }
    }
}

/// Write-through over the topmost `left` tiers, bottom-up, when `evicted`
/// already fell off the bottom: each writable tier is written in turn, and
/// what that displaces either sinks into the tiers below or is evicted.
pub open spec fn write_through<K, V, E>(
    route: Route,
    left: int,
    evicted: Seq<(K, V)>,
    replies: Seq<Reply<K, V, E>>,
) -> WriteMove<K, V, E>
    decreases left, 0int,
{
    if left <= 0 {
        WriteMove::Done(Ok(evicted))
    } else if !route.writable(left - 1) {
        write_through(route, left - 1, evicted, replies)
    } else if replies.len() == 0 {
        WriteMove::Put { tier: left - 1 }
    } else {
        match replies[0] {
            Reply::Put(Ok(displaced)) => if route.policy.demote_displaced {
                roll_through(
                    route,
                    left - 1,
                    evicted,
                    rollover::sink(route, left, displaced, replies.skip(1)),
                )
            } else {
                write_through(route, left - 1, evicted + displaced, replies.skip(1))
            },
            Reply::Put(Err(source)) => match route.policy.on_write_error {
                OnWriteError::FailFast => WriteMove::Done(
                    Err(Trouble::Tier(route.failure(left - 1, source))),
                ),
                OnWriteError::BestEffort => write_through(
                    route,
                    left - 1,
                    evicted,
                    replies.skip(1),
                ),
            },
            _ => WriteMove::Put { tier: left - 1 },
        }
    }
}

/// Write-through while entries displaced from tier `left` sink: `rolled`
/// says where that stands, and the topmost `left` tiers come afterwards.
pub open spec fn roll_through<K, V, E>(
    route: Route,
    left: int,
    evicted: Seq<(K, V)>,
    rolled: Rolled<K, V, E>,
) -> WriteMove<K, V, E>
    decreases left, 1int,
{
    match rolled {
        Rolled::Ask { tier, key, value } => WriteMove::Demote { tier, key, value },
        Rolled::Settled { evicted: fallen, rest } => write_through(
            route,
            left,
            evicted + fallen,
            rest,
        ),
    }
}

/// The part of a write-around that follows the write of tier `bottom`, which
/// displaced `displaced`: every writable tier from `tier` up to `bottom` is
/// asked to delete the keys, whether or not others failed to.
pub open spec fn invalidate<K, V, E>(
    route: Route,
    bottom: int,
    tier: int,
    displaced: Seq<(K, V)>,
    failures: Seq<Failure<E>>,
    replies: Seq<Reply<K, V, E>>,
) -> WriteMove<K, V, E>
    decreases bottom - tier,
{
    if tier >= bottom {
        if failures.len() == 0 {
            WriteMove::Done(Ok(displaced))
        } else {
            WriteMove::Done(Err(Trouble::Partial(failures)))
        }
    } else if !route.writable(tier) {
        invalidate(route, bottom, tier + 1, displaced, failures, replies)
    } else if replies.len() == 0 {
        WriteMove::Delete { tier }
    } else {
        match replies[0] {
            Reply::Deleted(Ok(_)) => invalidate(
                route,
                bottom,
                tier + 1,
                displaced,
                failures,
                replies.skip(1),
            ),
            Reply::Deleted(Err(source)) => invalidate(
                route,
                bottom,
                tier + 1,
                displaced,
                failures.push(route.failure(tier, source)),
                replies.skip(1),
            ),
            _ => WriteMove::Delete { tier },
        }
    }
}

/// Write-around with `bottom` the bottommost writable tier: write that tier
/// alone, then invalidate above it.
pub open spec fn write_around<K, V, E>(
    route: Route,
    bottom: int,
    replies: Seq<Reply<K, V, E>>,
) -> WriteMove<K, V, E> {
    if replies.len() == 0 {
        WriteMove::Put { tier: bottom }
    } else {
        match replies[0] {
            Reply::Put(Ok(displaced)) => invalidate(
                route,
                bottom,
                0,
                displaced,
                Seq::empty(),
                replies.skip(1),
            ),
            Reply::Put(Err(source)) => WriteMove::Done(
                Err(Trouble::Tier(route.failure(bottom, source))),
            ),
            _ => WriteMove::Put { tier: bottom },
        }
    }
}

/// Everything a write has learned: the answers to its calls, in order.
#[verifier::ext_equal]
pub struct WriteLog<K, V, E> {
    /// The hierarchy and its policy.
    pub route: Route,
    /// The requested entries.
    pub entries: Seq<(K, V)>,
    /// The answers so far.
    pub replies: Seq<Reply<K, V, E>>,
}

impl<K, V, E> WriteLog<K, V, E> {
    /// The log of a write that was only just requested.
    pub open spec fn begin(route: Route, entries: Seq<(K, V)>) -> Self {
        WriteLog { route, entries, replies: Seq::empty() }
    }

    /// What the write asks for next.
    pub open spec fn step(self) -> WriteMove<K, V, E> {
        let n = self.route.lanes.len() as int;
        if self.route.writables(n).len() == 0 {
            WriteMove::Done(Err(Trouble::ReadOnly))
        } else {
            match self.route.policy.write {
                WriteMode::WriteThrough => write_through(
                    self.route,
                    n,
                    Seq::empty(),
                    self.replies,
                ),
                WriteMode::WriteAround => write_around(
                    self.route,
                    self.route.writables(n).last(),
                    self.replies,
                ),
            }
        }
    }

    /// The log after one more answer.
    pub open spec fn answered(self, reply: Reply<K, V, E>) -> Self {
        WriteLog { replies: self.replies.push(reply), ..self }
    }

    /// The log after more answers.
    pub open spec fn extended(self, replies: Seq<Reply<K, V, E>>) -> Self {
        WriteLog { replies: self.replies + replies, ..self }
    }

    /// The log when only the first `count` answers had come in.
    pub open spec fn prefix(self, count: int) -> Self {
        WriteLog { replies: self.replies.take(count), ..self }
    }

    /// What the write asked for, one request per answer.
    pub open spec fn asked(self) -> Seq<WriteMove<K, V, E>> {
        Seq::new(self.replies.len(), |i: int| self.prefix(i).step())
    }

    /// Whether every answer is one to what was asked for.
    pub open spec fn sound(self) -> bool {
        forall|i: int|
            0 <= i < self.replies.len() ==> (#[trigger] self.asked()[i]).fits(self.replies[i])
    }

    /// How the answer `reply` to the pending call is counted.
    pub open spec fn tally(self, counters: Seq<Counters>, reply: Reply<K, V, E>) -> Seq<Counters> {
        match (self.step(), reply) {
            (WriteMove::Put { tier }, Reply::Put(Ok(_))) => router::tallied(
                counters,
                tier,
                Count::Puts,
                self.entries.len() as int,
            ),
            (WriteMove::Demote { tier, .. }, Reply::Put(Ok(_))) => router::tallied(
                counters,
                tier,
                Count::Puts,
                1,
            ),
            (WriteMove::Delete { tier }, Reply::Deleted(Ok(_))) => router::tallied(
                counters,
                tier,
                Count::Deletes,
                self.entries.len() as int,
            ),
            (WriteMove::Put { tier }, _) => router::tallied(counters, tier, Count::Errors, 1),
            (WriteMove::Demote { tier, .. }, _) => router::tallied(
                counters,
                tier,
                Count::Errors,
                1,
            ),
            (WriteMove::Delete { tier }, _) => router::tallied(counters, tier, Count::Errors, 1),
            _ => counters,
        }
    }
}

/// What a write waits for.
enum WritePhase<K, V, E> {
    Through { tier: usize, evicted: Vec<(K, V)> },
    Rolling { left: usize, evicted: Vec<(K, V)>, rollover: Rollover<K, V> },
    Around { bottom: usize },
    Invalidating {
        bottom: usize,
        tier: usize,
        displaced: Vec<(K, V)>,
        failures: Vec<TierFailure<E>>,
    },
    Finished,
}

impl<K, V, E> WritePhase<K, V, E> {
    spec fn play(self, route: Route, replies: Seq<Reply<K, V, E>>) -> WriteMove<K, V, E> {
        match self {
            WritePhase::Through { tier, evicted } => write_through(
                route,
                tier + 1,
                evicted@,
                replies,
            ),
            WritePhase::Rolling { left, evicted, rollover } => roll_through(
                route,
                left as int,
                evicted@,
                rollover.continues(route, replies),
            ),
            WritePhase::Around { bottom } => write_around(route, bottom as int, replies),
            WritePhase::Invalidating { bottom, tier, displaced, failures } => invalidate(
                route,
                bottom as int,
                tier as int,
                displaced@,
                error::failures_of(failures@),
                replies,
            ),
            WritePhase::Finished => arbitrary(),
        }
    }

    spec fn awaits(self, route: Route, step: WriteMove<K, V, E>) -> bool {
        match self {
            WritePhase::Through { tier, .. } => route.writable(tier as int) && step
                == WriteMove::<K, V, E>::Put { tier: tier as int },
            WritePhase::Rolling { left, rollover, .. } => left <= route.lanes.len()
                && route.writable(rollover.target()) && (step matches WriteMove::Demote { tier, .. } && tier == rollover.target()),
            WritePhase::Around { bottom } => route.writable(bottom as int) && step
                == WriteMove::<K, V, E>::Put { tier: bottom as int },
            WritePhase::Invalidating { bottom, tier, .. } => route.writable(tier as int) && tier
                < bottom < route.lanes.len() && step == WriteMove::<K, V, E>::Delete { tier: tier as int },
            WritePhase::Finished => step is Done,
        }
    }
}

/// The next step of a write together with what the write then waits for.
struct WriteNext<K, V, E> {
    phase: WritePhase<K, V, E>,
    step: WriteStep<K, V, E>,
}

impl<K, V, E> WriteNext<K, V, E> {
    spec fn play(self, route: Route, replies: Seq<Reply<K, V, E>>) -> WriteMove<K, V, E> {
        if replies.len() == 0 || self.phase is Finished {
            self.step@
        } else {
            self.phase.play(route, replies)
        }
    }

    spec fn inv(self, route: Route) -> bool {
        self.phase.awaits(route, self.step@)
    }

    fn done(result: Result<Displaced<K, V>, RouterError<E>>) -> (next: Self)
        ensures
            next.phase is Finished,
            next.step == WriteStep::Done(result),
    {
        WriteNext { phase: WritePhase::Finished, step: WriteStep::Done(result) }
    }

    fn through<T: Tier<Key = K, Value = V, Error = E>>(
        router: &Router<T>,
        left: usize,
        evicted: Vec<(K, V)>,
    ) -> (next: Self)
        requires
            left <= router.route().lanes.len(),
        ensures
            next.inv(router.route()),
            forall|s: Seq<Reply<K, V, E>>| #[trigger]
                write_through(router.route(), left as int, evicted@, s) == next.play(
                    router.route(),
                    s,
                ),
    {
        let ghost route = router.route();
        let mut tier: usize = left;
        while tier > 0
            invariant
                tier <= left <= route.lanes.len(),
                route == router.route(),
                forall|s: Seq<Reply<K, V, E>>| #[trigger]
                    write_through(route, left as int, evicted@, s) == write_through(
                        route,
                        tier as int,
                        evicted@,
                        s,
                    ),
            decreases tier,
        {
            tier = tier - 1;
            if router.is_writable(tier) {
                return WriteNext {
                    phase: WritePhase::Through { tier, evicted },
                    step: WriteStep::Put { tier },
                };
            }
        }
        Self::done(Ok(evicted))
    }

    fn roll<T: Tier<Key = K, Value = V, Error = E>>(
        router: &Router<T>,
        left: usize,
        evicted: Vec<(K, V)>,
        rolling: Rolling<K, V>,
    ) -> (next: Self)
        requires
            left <= router.route().lanes.len(),
            rolling.inv(router.route()),
        ensures
            next.inv(router.route()),
            forall|s: Seq<Reply<K, V, E>>|
                roll_through(
                    router.route(),
                    left as int,
                    evicted@,
                    #[trigger] rolling.play(router.route(), s),
                ) == next.play(router.route(), s),
    {
        let ghost route = router.route();
        let ghost before = evicted@;
        match rolling {
            Rolling::Ask { tier, key, value, rollover } => {
                let next = WriteNext {
                    phase: WritePhase::Rolling { left, evicted, rollover },
                    step: WriteStep::Demote { tier, key, value },
                };
                assert forall|s: Seq<Reply<K, V, E>>|
                    roll_through(route, left as int, before, #[trigger] rolling.play(route, s))
                        == next.play(route, s) by {}
                next
            },
            Rolling::Settled(fallen) => {
                let ghost more = fallen@;
                let mut evicted = evicted;
                let mut fallen = fallen;
                evicted.append(&mut fallen);
                let next = Self::through(router, left, evicted);
                assert(evicted@ =~= before + more);
                assert forall|s: Seq<Reply<K, V, E>>|
                    roll_through(route, left as int, before, #[trigger] rolling.play(route, s))
                        == next.play(route, s) by {
                    assert(roll_through(route, left as int, before, rolling.play(route, s))
                        == write_through(route, left as int, before + more, s));
                }
                next
            },
        }
    }

    fn invalidate<T: Tier<Key = K, Value = V, Error = E>>(
        router: &Router<T>,
        bottom: usize,
        from: usize,
        displaced: Vec<(K, V)>,
        failures: Vec<TierFailure<E>>,
    ) -> (next: Self)
        requires
            from <= bottom < router.route().lanes.len(),
        ensures
            next.inv(router.route()),
            forall|s: Seq<Reply<K, V, E>>| #[trigger]
                invalidate(
                    router.route(),
                    bottom as int,
                    from as int,
                    displaced@,
                    error::failures_of(failures@),
                    s,
                ) == next.play(router.route(), s),
    {
        let ghost route = router.route();
        let ghost failed = error::failures_of(failures@);
        let mut tier: usize = from;
        while tier < bottom
            invariant
                from <= tier <= bottom < route.lanes.len(),
                route == router.route(),
                failed == error::failures_of(failures@),
                forall|s: Seq<Reply<K, V, E>>| #[trigger]
                    invalidate(route, bottom as int, from as int, displaced@, failed, s)
                        == invalidate(route, bottom as int, tier as int, displaced@, failed, s),
            decreases bottom - tier,
        {
            if router.is_writable(tier) {
                return WriteNext {
                    phase: WritePhase::Invalidating { bottom, tier, displaced, failures },
                    step: WriteStep::Delete { tier },
                };
            }
            tier = tier + 1;
        }
        if failures.is_empty() {
            Self::done(Ok(displaced))
        } else {
            Self::done(Err(RouterError::Partial(failures)))
        }
    }
}

/// One routed write, waiting for the answer to a tier call.
pub struct WriteFlow<K, V, E> {
    entries: Vec<(K, V)>,
    phase: WritePhase<K, V, E>,
    route: Ghost<Route>,
    replies: Ghost<Seq<Reply<K, V, E>>>,
}

impl<K, V, E> View for WriteFlow<K, V, E> {
    type V = WriteLog<K, V, E>;

    closed spec fn view(&self) -> WriteLog<K, V, E> {
        WriteLog { route: self.route@, entries: self.entries@, replies: self.replies@ }
    }
}

impl<K, V, E> WriteFlow<K, V, E> {
    /// What every flow that [`Router::put`] or [`Router::put_many`] started
    /// satisfies.
    pub closed spec fn inv(&self) -> bool {
        &&& self.phase.awaits(self.route@, self@.step())
        &&& !(self.phase is Finished) ==> forall|s: Seq<Reply<K, V, E>>|
            s.len() > 0 ==> #[trigger] self@.extended(s).step() == self.phase.play(self.route@, s)
    }

    /// The requested entries.
    pub fn entries(&self) -> (entries: &Vec<(K, V)>)
        ensures
            entries@ == self@.entries,
    {
        &self.entries
    }

    /// Copies of the requested keys.
    pub fn keys(&self) -> (keys: Vec<K>) where K: Clone
        ensures
            keys@.len() == self@.entries.len(),
            forall|i: int|
                0 <= i < keys@.len() ==> cloned(self@.entries[i].0, #[trigger] keys@[i]),
    {
        let mut keys: Vec<K> = Vec::new();
        let mut i: usize = 0;
        while i < self.entries.len()
            invariant
                i <= self.entries@.len(),
                keys@.len() == i,
                forall|j: int|
                    0 <= j < i ==> cloned(self.entries@[j].0, #[trigger] keys@[j]),
            decreases self.entries@.len() - i,
        {
            keys.push(self.entries[i].0.clone());
            i = i + 1;
        }
        keys
    }

    fn start<T: Tier<Key = K, Value = V, Error = E>>(
        router: &Router<T>,
        entries: Vec<(K, V)>,
    ) -> (started: (Self, WriteStep<K, V, E>))
        ensures
            started.0.inv(),
            started.0@ == WriteLog::<K, V, E>::begin(router.route(), entries@),
            started.1@ == started.0@.step(),
    {
        let ghost route = router.route();
        let ghost log = WriteLog::<K, V, E>::begin(route, entries@);
        let ghost n = route.lanes.len() as int;
        let next = match router.bottom_writable() {
            None => {
                proof {
                    route.lemma_none_writable();
                }
                WriteNext::done(Err(RouterError::ReadOnly))
            },
            Some(bottom) => {
                proof {
                    route.lemma_bottom(bottom as int);
                }
                match router.policy().write {
                    WriteMode::WriteThrough => {
                        let next = WriteNext::through(router, router.tier_count(), Vec::new());
                        assert forall|s: Seq<Reply<K, V, E>>| #[trigger]
                            log.extended(s).step() == next.play(route, s) by {
                            assert(log.extended(s).replies =~= s);
                            assert(log.extended(s).step() == write_through(
                                route,
                                n,
                                Seq::<(K, V)>::empty(),
                                s,
                            ));
                        }
                        next
                    },
                    WriteMode::WriteAround => {
                        let next = WriteNext {
                            phase: WritePhase::Around { bottom },
                            step: WriteStep::Put { tier: bottom },
                        };
                        assert forall|s: Seq<Reply<K, V, E>>| #[trigger]
                            log.extended(s).step() == next.play(route, s) by {
                            assert(log.extended(s).replies =~= s);
                        }
                        next
                    },
                }
            },
        };
        assert(log.extended(Seq::empty()) =~= log);
        assert(next.step@ == log.step());
        (
            WriteFlow {
                entries,
                phase: next.phase,
                route: Ghost(route),
                replies: Ghost(Seq::empty()),
            },
            next.step,
        )
    }

    /// Installs what `reply` led to.
    fn advance(&mut self, Ghost(reply): Ghost<Reply<K, V, E>>, next: WriteNext<K, V, E>) -> (step:
        WriteStep<K, V, E>)
        requires
            next.inv(old(self)@.route),
            forall|s: Seq<Reply<K, V, E>>|
                s.len() > 0 && s[0] == reply ==> #[trigger] old(self)@.extended(s).step()
                    == next.play(old(self)@.route, s.skip(1)),
        ensures
            final(self).inv(),
            final(self)@ == old(self)@.answered(reply),
            step@ == final(self)@.step(),
    {
        let ghost before = self@;
        self.phase = next.phase;
        self.replies = Ghost(self.replies@.push(reply));
        proof {
            let route = self.route@;
            assert forall|s: Seq<Reply<K, V, E>>| #[trigger] self@.extended(s).step() == next.play(
                route,
                s,
            ) by {
                let all = seq![reply] + s;
                assert(all.skip(1) =~= s);
                assert(self@.extended(s) =~= before.extended(all));
            }
            assert(self@.extended(Seq::empty()) =~= self@);
        }
        next.step
    }

    /// Reports how the tier answered the pending write; returns what to do
    /// next.
    pub fn on_put<T: Tier<Key = K, Value = V, Error = E>>(
        &mut self,
        router: &mut Router<T>,
        reply: Result<Displaced<K, V>, E>,
    ) -> (step: WriteStep<K, V, E>)
        requires
            old(self).inv(),
            old(self)@.route == old(router).route(),
            old(self)@.step() is Put || old(self)@.step() is Demote,
        ensures
            final(self).inv(),
            final(self)@ == old(self)@.answered(rollover::put_reply(reply)),
            step@ == final(self)@.step(),
            final(router).route() == old(router).route(),
            final(router).tiers() == old(router).tiers(),
            final(router).counters() == old(self)@.tally(
                old(router).counters(),
                rollover::put_reply(reply),
            ),
    {
        let ghost route = router.route();
        let ghost log = self@;
        let ghost answer = rollover::put_reply(reply);
        let mut phase = WritePhase::Finished;
        core::mem::swap(&mut self.phase, &mut phase);
        let ghost waiting = phase;
        let count: u64 = self.entries.len() as u64;
        let total = router.tier_count();
        let next = match phase {
            WritePhase::Through { tier, evicted } => match reply {
                Ok(displaced) => {
                    router.record(tier, Count::Puts, count);
                    assert(tier < total);
                    let ghost fallen = evicted@;
                    let ghost more = displaced@;
                    if router.policy().demote_displaced {
                        let rolling = Rollover::sink(router, tier + 1, displaced);
                        let next = WriteNext::roll(router, tier, evicted, rolling);
                        assert forall|s: Seq<Reply<K, V, E>>|
                            s.len() > 0 && s[0] == answer implies #[trigger] waiting.play(route, s)
                            == next.play(route, s.skip(1)) by {
                            let rolled = rollover::sink(route, tier + 1, more, s.skip(1));
                            assert(rolled == rolling.play(route, s.skip(1)));
                            assert(waiting.play(route, s) == roll_through(
                                route,
                                tier as int,
                                fallen,
                                rolled,
                            ));
                        }
                        next
                    } else {
                        let mut evicted = evicted;
                        let mut displaced = displaced;
                        evicted.append(&mut displaced);
                        let next = WriteNext::through(router, tier, evicted);
                        assert(evicted@ =~= fallen + more);
                        assert forall|s: Seq<Reply<K, V, E>>|
                            s.len() > 0 && s[0] == answer implies #[trigger] waiting.play(route, s)
                            == next.play(route, s.skip(1)) by {
                            assert(waiting.play(route, s) == write_through(
                                route,
                                tier as int,
                                fallen + more,
                                s.skip(1),
                            ));
                        }
                        next
                    }
                },
                Err(source) => {
                    router.record(tier, Count::Errors, 1);
                    match router.policy().on_write_error {
                        OnWriteError::FailFast => WriteNext::done(
                            Err(RouterError::Tier(router.failure(tier, source))),
                        ),
                        OnWriteError::BestEffort => {
                            let next = WriteNext::through(router, tier, evicted);
                            assert forall|s: Seq<Reply<K, V, E>>|
                                s.len() > 0 && s[0] == answer implies #[trigger] waiting.play(
                                route,
                                s,
                            ) == next.play(route, s.skip(1)) by {
                                assert(waiting.play(route, s) == write_through(
                                    route,
                                    tier as int,
                                    evicted@,
                                    s.skip(1),
                                ));
                            }
                            next
                        },
                    }
                },
            },
            WritePhase::Rolling { left, evicted, rollover } => {
                let tier = rollover.tier();
                let displaced = match reply {
                    Ok(displaced) => {
                        router.record(tier, Count::Puts, 1);
                        displaced
                    },
                    Err(_) => {
                        router.record(tier, Count::Errors, 1);
                        Vec::new()
                    },
                };
                assert(answer.displaced() == displaced@);
                let rolling = rollover.resume(router, displaced);
                let next = WriteNext::roll(router, left, evicted, rolling);
                assert forall|s: Seq<Reply<K, V, E>>|
                    s.len() > 0 && s[0] == answer implies #[trigger] waiting.play(route, s)
                    == next.play(route, s.skip(1)) by {
                    assert(rollover.continues(route, s) == rolling.play(route, s.skip(1)));
                }
                next
            },
            WritePhase::Around { bottom } => match reply {
                Ok(displaced) => {
                    router.record(bottom, Count::Puts, count);
                    let failures: Vec<TierFailure<E>> = Vec::new();
                    assert(error::failures_of(failures@) =~= Seq::<Failure<E>>::empty());
                    let next = WriteNext::invalidate(router, bottom, 0, displaced, failures);
                    assert forall|s: Seq<Reply<K, V, E>>|
                        s.len() > 0 && s[0] == answer implies #[trigger] waiting.play(route, s)
                        == next.play(route, s.skip(1)) by {
                        assert(waiting.play(route, s) == invalidate(
                            route,
                            bottom as int,
                            0,
                            displaced@,
                            Seq::<Failure<E>>::empty(),
                            s.skip(1),
                        ));
                    }
                    next
                },
                Err(source) => {
                    router.record(bottom, Count::Errors, 1);
                    WriteNext::done(Err(RouterError::Tier(router.failure(bottom, source))))
                },
            },
            _ => {
                assert(false);
                WriteNext::done(Err(RouterError::ReadOnly))
            },
        };
        assert forall|s: Seq<Reply<K, V, E>>|
            s.len() > 0 && s[0] == answer implies #[trigger] log.extended(s).step() == next.play(
            route,
            s.skip(1),
        ) by {
            assert(log.extended(s).step() == waiting.play(route, s));
        }
        self.advance(Ghost(answer), next)
    }

    /// Reports how the tier answered the pending delete; returns what to do
    /// next.
    pub fn on_delete<T: Tier<Key = K, Value = V, Error = E>>(
        &mut self,
        router: &mut Router<T>,
        reply: Result<(), E>,
    ) -> (step: WriteStep<K, V, E>)
        requires
            old(self).inv(),
            old(self)@.route == old(router).route(),
            old(self)@.step() is Delete,
        ensures
            final(self).inv(),
            final(self)@ == old(self)@.answered(Reply::Deleted(reply)),
            step@ == final(self)@.step(),
            final(router).route() == old(router).route(),
            final(router).tiers() == old(router).tiers(),
            final(router).counters() == old(self)@.tally(
                old(router).counters(),
                Reply::Deleted(reply),
            ),
    {
        let ghost route = router.route();
        let ghost log = self@;
        let ghost answer = Reply::Deleted(reply);
        let mut phase = WritePhase::Finished;
        core::mem::swap(&mut self.phase, &mut phase);
        let ghost waiting = phase;
        let count: u64 = self.entries.len() as u64;
        let next = match phase {
            WritePhase::Invalidating { bottom, tier, displaced, failures } => {
                let mut failures = failures;
                match reply {
                    Ok(_) => {
                        router.record(tier, Count::Deletes, count);
                    },
                    Err(source) => {
                        router.record(tier, Count::Errors, 1);
                        let failure = router.failure(tier, source);
                        proof {
                            error::lemma_failures_push(failures@, failure);
                        }
                        failures.push(failure);
                    },
                }
                let next = WriteNext::invalidate(router, bottom, tier + 1, displaced, failures);
                assert forall|s: Seq<Reply<K, V, E>>|
                    s.len() > 0 && s[0] == answer implies #[trigger] waiting.play(route, s)
                    == next.play(route, s.skip(1)) by {
                    assert(waiting.play(route, s) == invalidate(
                        route,
                        bottom as int,
                        tier + 1,
                        displaced@,
                        error::failures_of(failures@),
                        s.skip(1),
                    ));
                }
                next
            },
            _ => {
                assert(false);
                WriteNext::done(Err(RouterError::ReadOnly))
            },
        };
        assert forall|s: Seq<Reply<K, V, E>>|
            s.len() > 0 && s[0] == answer implies #[trigger] log.extended(s).step() == next.play(
            route,
            s.skip(1),
        ) by {
            assert(log.extended(s).step() == waiting.play(route, s));
        }
        self.advance(Ghost(answer), next)
    }
}

impl<T: Tier> Router<T> {
    /// Starts writing one entry through the hierarchy.
    pub fn put(&self, key: T::Key, value: T::Value) -> (started: (
        WriteFlow<T::Key, T::Value, T::Error>,
        WriteStep<T::Key, T::Value, T::Error>,
    ))
        ensures
            started.0.inv(),
            started.0@ == WriteLog::<T::Key, T::Value, T::Error>::begin(
                self.route(),
                seq![(key, value)],
            ),
            started.1@ == started.0@.step(),
    {
        let mut entries: Vec<(T::Key, T::Value)> = Vec::new();
        entries.push((key, value));
        assert(entries@ =~= seq![(key, value)]);
        WriteFlow::start(self, entries)
    }

    /// Starts writing a batch through the hierarchy, with the same
    /// propagation as [`Router::put`].
    pub fn put_many(&self, entries: Vec<(T::Key, T::Value)>) -> (started: (
        WriteFlow<T::Key, T::Value, T::Error>,
        WriteStep<T::Key, T::Value, T::Error>,
    ))
        ensures
            started.0.inv(),
            started.0@ == WriteLog::<T::Key, T::Value, T::Error>::begin(self.route(), entries@),
            started.1@ == started.0@.step(),
    {
        WriteFlow::start(self, entries)
    }
}

} // verus!
