//! Reading one key through the hierarchy.
//!
//! [`GetFlow`] reads a value, promoting it per policy; [`ExistsFlow`] only
//! asks whether some tier holds the key. What either asks for next is a
//! function of the answers it was given so far: [`GetLog::step`] and
//! [`ExistsLog::step`] are those functions.
use vstd::prelude::*;

use crate::error;
use crate::error::{Failure, RouterError, TierFailure, Trouble};
use crate::policy::{OnReadError, Promote, ReadPolicy};
use crate::read::{Probe, ReadFlow, ReadOutcome, ReadStep};
use crate::rollover;
use crate::rollover::{Reply, Rolled, Rolling, Rollover};
use crate::router;
use crate::router::{Count, Counters, Route, Router};
use crate::tier::{Displaced, Tier};

verus! {

/// What a read asks of the driver, as contracts speak of it.
#[verifier::ext_equal]
pub enum GetMove<K, V, E> {
    /// Read the key from `tier`.
    Get {
        /// The tier to read.
        tier: int,
    },
    /// Write the key with the value that was found into `tier`.
    Promote {
        /// The tier to write.
        tier: int,
    },
    /// Write a displaced entry into `tier`.
    Demote {
        /// The tier to write.
        tier: int,
        /// The entry's key.
        key: K,
        /// The entry's value.
        value: V,
    },
    /// The read is over.
    Done(Result<Option<V>, Trouble<E>>),
}

impl<K, V, E> GetMove<K, V, E> {
    /// Whether `reply` can be the answer to this request.
    pub open spec fn fits(self, reply: Reply<K, V, E>) -> bool {
        match self {
            GetMove::Get { .. } => reply is Got,
            GetMove::Promote { .. } => reply is Put,
            GetMove::Demote { .. } => reply is Put,
            GetMove::Done(_) => false,
        }
    }
}

/// What a read asks of the driver.
#[derive(Debug)]
pub enum GetStep<K, V, E> {
    /// Read the key from `tier` and report with [`GetFlow::on_get`].
    Get {
        /// The tier to read.
        tier: usize,
    },
    /// Write the key with a copy of [`GetFlow::hit`] into `tier` and report
    /// with [`GetFlow::on_put`].
    Promote {
        /// The tier to write.
        tier: usize,
    },
    /// Write this displaced entry into `tier` and report with
    /// [`GetFlow::on_put`].
    Demote {
        /// The tier to write.
        tier: usize,
        /// The entry's key.
        key: K,
        /// The entry's value.
        value: V,
    },
    /// The read is over.
    Done(Result<Option<V>, RouterError<E>>),
}

impl<K, V, E> View for GetStep<K, V, E> {
    type V = GetMove<K, V, E>;

    open spec fn view(&self) -> GetMove<K, V, E> {
        match *self {
            GetStep::Get { tier } => GetMove::Get { tier: tier as int },
            GetStep::Promote { tier } => GetMove::Promote { tier: tier as int },
            GetStep::Demote { tier, key, value } => GetMove::Demote {
                tier: tier as int,
                key,
                value,
            },
            GetStep::Done(Ok(value)) => GetMove::Done(Ok(value)),
            GetStep::Done(Err(error)) => GetMove::Done(Err(error@)),
        }
    }
}

/// Probing from `tier` down when the tiers above missed or, those in
/// `failures`, failed.
pub open spec fn probe<K, V, E>(
    route: Route,
    tier: int,
    failures: Seq<Failure<E>>,
    replies: Seq<Reply<K, V, E>>,
) -> GetMove<K, V, E>
    decreases route.lanes.len() - tier,
{
    if tier >= route.lanes.len() {
        if failures.len() == 0 {
            GetMove::Done(Ok(None))
        } else {
            GetMove::Done(Err(Trouble::Inconclusive(failures)))
        }
    } else if replies.len() == 0 {
        GetMove::Get { tier }
    } else {
        match replies[0] {
            Reply::Got(Ok(Some(value))) => promote(
                route,
                route.policy.read.promote.reach(tier),
                0,
                value,
                replies.skip(1),
            ),
            Reply::Got(Ok(None)) => probe(route, tier + 1, failures, replies.skip(1)),
            Reply::Got(Err(source)) => match route.policy.read.on_error {
                OnReadError::FailFast => GetMove::Done(
                    Err(Trouble::Tier(route.failure(tier, source))),
                ),
                OnReadError::FallThrough => probe(
                    route,
                    tier + 1,
                    failures.push(route.failure(tier, source)),
                    replies.skip(1),
                ),
            },
            _ => GetMove::Get { tier },
        }
    }
}

/// Promotion of `value` into the writable tiers from `target` up to `reach`.
/// Failed promotions are skipped, and what a promotion displaces sinks.
pub open spec fn promote<K, V, E>(
    route: Route,
    reach: int,
    target: int,
    value: V,
    replies: Seq<Reply<K, V, E>>,
) -> GetMove<K, V, E>
    decreases reach - target, 0int,
{
    if target >= reach {
        GetMove::Done(Ok(Some(value)))
    } else if !route.writable(target) {
        promote(route, reach, target + 1, value, replies)
    } else if replies.len() == 0 {
        GetMove::Promote { tier: target }
    } else {
        match replies[0] {
            Reply::Put(Ok(displaced)) => if route.policy.demote_displaced {
                roll_up(
                    route,
                    reach,
                    target + 1,
                    value,
                    rollover::sink(route, target + 1, displaced, replies.skip(1)),
                )
            } else {
                promote(route, reach, target + 1, value, replies.skip(1))
            },
            Reply::Put(Err(_)) => promote(route, reach, target + 1, value, replies.skip(1)),
            _ => GetMove::Promote { tier: target },
        }
    }
}

/// Promotion while displaced entries sink: `rolled` says where that stands,
/// and the tiers from `target` up to `reach` come afterwards.
pub open spec fn roll_up<K, V, E>(
    route: Route,
    reach: int,
    target: int,
    value: V,
    rolled: Rolled<K, V, E>,
) -> GetMove<K, V, E>
    decreases reach - target, 1int,
{
    match rolled {
        Rolled::Ask { tier, key, value } => GetMove::Demote { tier, key, value },
        Rolled::Settled { rest, .. } => promote(route, reach, target, value, rest),
    }
}

/// Everything a read has learned: the answers to its calls, in order.
#[verifier::ext_equal]
pub struct GetLog<K, V, E> {
    /// The hierarchy and its policy.
    pub route: Route,
    /// The requested key.
    pub key: K,
    /// The answers so far.
    pub replies: Seq<Reply<K, V, E>>,
}

impl<K, V, E> GetLog<K, V, E> {
    /// The log of a read that was only just requested.
    pub open spec fn begin(route: Route, key: K) -> Self {
        GetLog { route, key, replies: Seq::empty() }
    }

    /// What the read asks for next.
    pub open spec fn step(self) -> GetMove<K, V, E> {
        probe(self.route, 0, Seq::empty(), self.replies)
    }

    /// The log after one more answer.
    pub open spec fn answered(self, reply: Reply<K, V, E>) -> Self {
        GetLog { replies: self.replies.push(reply), ..self }
    }

    /// The log after more answers.
    pub open spec fn extended(self, replies: Seq<Reply<K, V, E>>) -> Self {
        GetLog { replies: self.replies + replies, ..self }
    }

    /// The log when only the first `count` answers had come in.
    pub open spec fn prefix(self, count: int) -> Self {
        GetLog { replies: self.replies.take(count), ..self }
    }

    /// What the read asked for, one request per answer.
    pub open spec fn asked(self) -> Seq<GetMove<K, V, E>> {
        Seq::new(self.replies.len(), |i: int| self.prefix(i).step())
    }

    /// Whether every answer is one to what was asked for.
    pub open spec fn sound(self) -> bool {
        forall|i: int|
            0 <= i < self.replies.len() ==> (#[trigger] self.asked()[i]).fits(self.replies[i])
    }

    /// How the answer `reply` to the pending call is counted.
    pub open spec fn tally(self, counters: Seq<Counters>, reply: Reply<K, V, E>) -> Seq<Counters> {
        match (self.step(), reply) {
            (GetMove::Get { tier }, Reply::Got(Ok(Some(_)))) => router::tallied(
                counters,
                tier,
                Count::Hits,
                1,
            ),
            (GetMove::Get { tier }, Reply::Got(Ok(None))) => router::tallied(
                counters,
                tier,
                Count::Misses,
                1,
            ),
            (GetMove::Promote { tier }, Reply::Put(Ok(_))) => router::tallied(
                counters,
                tier,
                Count::Puts,
                1,
            ),
            (GetMove::Demote { tier, .. }, Reply::Put(Ok(_))) => router::tallied(
                counters,
                tier,
                Count::Puts,
                1,
            ),
            (GetMove::Get { tier }, _) => router::tallied(counters, tier, Count::Errors, 1),
            (GetMove::Promote { tier }, _) => router::tallied(counters, tier, Count::Errors, 1),
            (GetMove::Demote { tier, .. }, _) => router::tallied(counters, tier, Count::Errors, 1),
            _ => counters,
        }
    }
}

/// What a read waits for.
enum GetPhase<K, V, E> {
    Probing { flow: ReadFlow, failures: Vec<TierFailure<E>> },
    Promoting { flow: ReadFlow, hit: V },
    Rolling { flow: ReadFlow, hit: V, rollover: Rollover<K, V> },
    Finished,
}

/// Whether `flow` reads over `route` and found nothing yet.
spec fn searching(flow: ReadFlow, route: Route) -> bool {
    &&& flow.inv()
    &&& flow@.tiers == route.lanes.len()
    &&& flow@.policy == route.policy.read
    &&& flow@.promoted == 0
}

/// Whether `flow` reads over `route` and found the key.
spec fn found(flow: ReadFlow, route: Route) -> bool {
    &&& flow.inv()
    &&& flow@.tiers == route.lanes.len()
    &&& flow@.policy == route.policy.read
    &&& flow@.outcome() is Some
    &&& flow@.outcome().unwrap() is Hit
    &&& 0 < flow@.probes.len() <= route.lanes.len()
    &&& 0 <= flow@.promoted
}

spec fn reach_of(flow: ReadFlow) -> int {
    flow@.policy.promote.reach(flow@.probes.len() - 1)
}

impl<K, V, E> GetPhase<K, V, E> {
    spec fn play(self, route: Route, replies: Seq<Reply<K, V, E>>) -> GetMove<K, V, E> {
        match self {
            GetPhase::Probing { flow, failures } => probe(
                route,
                flow@.probes.len() as int,
                error::failures_of(failures@),
                replies,
            ),
            GetPhase::Promoting { flow, hit } => promote(
                route,
                reach_of(flow),
                flow@.promoted,
                hit,
                replies,
            ),
            GetPhase::Rolling { flow, hit, rollover } => roll_up(
                route,
                reach_of(flow),
                flow@.promoted,
                hit,
                rollover.continues(route, replies),
            ),
            GetPhase::Finished => arbitrary(),
        }
    }

    spec fn awaits(self, route: Route, step: GetMove<K, V, E>) -> bool {
        match self {
            GetPhase::Probing { flow, failures } => {
                &&& searching(flow, route)
                &&& flow@.step() is Get
                &&& flow@.probes.len() < route.lanes.len()
                &&& (failures@.len() > 0) == flow@.probes.contains(Probe::Error)
                &&& step == GetMove::<K, V, E>::Get { tier: flow@.probes.len() as int }
            },
            GetPhase::Promoting { flow, hit } => {
                &&& found(flow, route)
                &&& flow@.step() is Promote
                &&& flow@.promoted < reach_of(flow) < route.lanes.len()
                &&& route.writable(flow@.promoted)
                &&& step == GetMove::<K, V, E>::Promote { tier: flow@.promoted }
            },
            GetPhase::Rolling { flow, hit, rollover } => {
                &&& found(flow, route)
                &&& route.writable(rollover.target())
                &&& step matches GetMove::Demote { tier, .. } && tier == rollover.target()
            },
            GetPhase::Finished => step is Done,
        }
    }

    /// Whether the phase holds `found`, the value found so far.
    spec fn carries(self, found: Option<V>) -> bool {
        match self {
            GetPhase::Probing { .. } => found is None,
            GetPhase::Promoting { hit, .. } => found == Some(hit),
            GetPhase::Rolling { hit, .. } => found == Some(hit),
            GetPhase::Finished => true,
        }
    }
}

/// `contains` after one more probe.
proof fn lemma_pushed(probes: Seq<Probe>, probe: Probe)
    ensures
        probes.push(probe).contains(Probe::Error) <==> probes.contains(Probe::Error) || probe
            == Probe::Error,
{
    if probes.contains(Probe::Error) {
        let i = choose|i: int| 0 <= i < probes.len() && probes[i] == Probe::Error;
        assert(probes.push(probe)[i] == Probe::Error);
    }
    if probe == Probe::Error {
        assert(probes.push(probe)[probes.len() as int] == Probe::Error);
    }
}

/// The next step of a read together with what the read then waits for.
struct GetNext<K, V, E> {
    phase: GetPhase<K, V, E>,
    step: GetStep<K, V, E>,
}

impl<K, V, E> GetNext<K, V, E> {
    spec fn play(self, route: Route, replies: Seq<Reply<K, V, E>>) -> GetMove<K, V, E> {
        if replies.len() == 0 || self.phase is Finished {
            self.step@
        } else {
            self.phase.play(route, replies)
        }
    }

    spec fn inv(self, route: Route) -> bool {
        self.phase.awaits(route, self.step@)
    }

    fn done(result: Result<Option<V>, RouterError<E>>) -> (next: Self)
        ensures
            next.phase is Finished,
            next.step == GetStep::<K, V, E>::Done(result),
    {
        GetNext { phase: GetPhase::Finished, step: GetStep::Done(result) }
    }

    /// Goes on probing.
    fn probe<T: Tier<Key = K, Value = V, Error = E>>(
        router: &Router<T>,
        flow: ReadFlow,
        failures: Vec<TierFailure<E>>,
    ) -> (next: Self)
        requires
            searching(flow, router.route()),
            flow@.outcome() is Some ==> !(flow@.outcome().unwrap() is Hit)
                && !(flow@.outcome().unwrap() is Failed),
            (failures@.len() > 0) == flow@.probes.contains(Probe::Error),
        ensures
            next.inv(router.route()),
            next.phase.carries(None),
            forall|s: Seq<Reply<K, V, E>>| #[trigger]
                probe(
                    router.route(),
                    flow@.probes.len() as int,
                    error::failures_of(failures@),
                    s,
                ) == next.play(router.route(), s),
    {
        match flow.step() {
            ReadStep::Get { tier } => GetNext {
                phase: GetPhase::Probing { flow, failures },
                step: GetStep::Get { tier },
            },
            _ => if failures.is_empty() {
                Self::done(Ok(None))
            } else {
                Self::done(Err(RouterError::Inconclusive(failures)))
            },
        }
    }

    /// Goes on promoting `hit`.
    fn promote<T: Tier<Key = K, Value = V, Error = E>>(
        router: &Router<T>,
        flow: ReadFlow,
        hit: V,
    ) -> (next: Self)
        requires
            found(flow, router.route()),
        ensures
            next.inv(router.route()),
            next.phase.carries(Some(hit)),
            forall|s: Seq<Reply<K, V, E>>| #[trigger]
                promote(router.route(), reach_of(flow), flow@.promoted, hit, s) == next.play(
                    router.route(),
                    s,
                ),
    {
        let ghost route = router.route();
        let ghost start = flow@.promoted;
        let ghost reach = reach_of(flow);
        let total = router.tier_count();
        let mut at = flow;
        loop
            invariant
                total == route.lanes.len(),
                found(at, route),
                route == router.route(),
                reach == reach_of(flow),
                start == flow@.promoted,
                reach == reach_of(at),
                forall|s: Seq<Reply<K, V, E>>| #[trigger]
                    promote(route, reach, start, hit, s) == promote(
                        route,
                        reach,
                        at@.promoted,
                        hit,
                        s,
                    ),
            decreases reach - at@.promoted,
        {
            match at.step() {
                ReadStep::Promote { tier } => {
                    if router.is_writable(tier) {
                        return GetNext {
                            phase: GetPhase::Promoting { flow: at, hit },
                            step: GetStep::Promote { tier },
                        };
                    }
                    at.on_promote();
                },
                _ => {
                    return Self::done(Ok(Some(hit)));
                },
            }
        }
    }

    fn roll<T: Tier<Key = K, Value = V, Error = E>>(
        router: &Router<T>,
        flow: ReadFlow,
        hit: V,
        rolling: Rolling<K, V>,
    ) -> (next: Self)
        requires
            found(flow, router.route()),
            rolling.inv(router.route()),
        ensures
            next.inv(router.route()),
            next.phase.carries(Some(hit)),
            forall|s: Seq<Reply<K, V, E>>|
                roll_up(
                    router.route(),
                    reach_of(flow),
                    flow@.promoted,
                    hit,
                    #[trigger] rolling.play(router.route(), s),
                ) == next.play(router.route(), s),
    {
        let ghost route = router.route();
        match rolling {
            Rolling::Ask { tier, key, value, rollover } => {
                let next = GetNext {
                    phase: GetPhase::Rolling { flow, hit, rollover },
                    step: GetStep::Demote { tier, key, value },
                };
                assert forall|s: Seq<Reply<K, V, E>>|
                    roll_up(
                        route,
                        reach_of(flow),
                        flow@.promoted,
                        hit,
                        #[trigger] rolling.play(route, s),
                    ) == next.play(route, s) by {}
                next
            },
            Rolling::Settled(fallen) => {
                let next = Self::promote(router, flow, hit);
                assert forall|s: Seq<Reply<K, V, E>>|
                    roll_up(
                        route,
                        reach_of(flow),
                        flow@.promoted,
                        hit,
                        #[trigger] rolling.play(route, s),
                    ) == next.play(route, s) by {
                    assert(roll_up(
                        route,
                        reach_of(flow),
                        flow@.promoted,
                        hit,
                        rolling.play(route, s),
                    ) == promote(route, reach_of(flow), flow@.promoted, hit, s));
                }
                next
            },
        }
    }
}

/// The value among the answers to a read, if one was found.
pub open spec fn hit_in<K, V, E>(replies: Seq<Reply<K, V, E>>) -> Option<V>
    decreases replies.len(),
{
    if replies.len() == 0 {
        None
    } else {
        match (hit_in(replies.drop_last()), replies.last()) {
            (None, Reply::Got(Ok(found))) => found,
            (found, _) => found,
        }
    }
}

/// One routed read, waiting for the answer to a tier call.
pub struct GetFlow<'a, K, V, E> {
    key: &'a K,
    phase: GetPhase<K, V, E>,
    route: Ghost<Route>,
    replies: Ghost<Seq<Reply<K, V, E>>>,
}

impl<'a, K, V, E> View for GetFlow<'a, K, V, E> {
    type V = GetLog<K, V, E>;

    closed spec fn view(&self) -> GetLog<K, V, E> {
        GetLog { route: self.route@, key: *self.key, replies: self.replies@ }
    }
}

impl<'a, K, V, E> GetFlow<'a, K, V, E> {
    /// What every flow that [`Router::get`] started satisfies.
    pub closed spec fn inv(&self) -> bool {
        &&& self.phase.awaits(self.route@, self@.step())
        &&& self.phase.carries(hit_in(self.replies@))
        &&& !(self.phase is Finished) ==> forall|s: Seq<Reply<K, V, E>>|
            s.len() > 0 ==> #[trigger] self@.extended(s).step() == self.phase.play(self.route@, s)
    }

    /// The requested key.
    pub fn key(&self) -> (key: &'a K)
        ensures
            *key == self@.key,
    {
        self.key
    }

    /// The value that was found, while the read goes on to promote it.
    pub fn hit(&self) -> (hit: Option<&V>)
        requires
            self.inv(),
        ensures
            hit is Some <==> self@.step() is Promote || self@.step() is Demote,
            hit matches Some(value) ==> hit_in(self@.replies) == Some(*value),
    {
        match &self.phase {
            GetPhase::Promoting { hit, .. } => Some(hit),
            GetPhase::Rolling { hit, .. } => Some(hit),
            _ => None,
        }
    }

    fn start<T: Tier<Key = K, Value = V, Error = E>>(router: &Router<T>, key: &'a K) -> (started: (
        Self,
        GetStep<K, V, E>,
    ))
        ensures
            started.0.inv(),
            started.0@ == GetLog::<K, V, E>::begin(router.route(), *key),
            started.1@ == started.0@.step(),
    {
        let ghost route = router.route();
        let ghost log = GetLog::<K, V, E>::begin(route, *key);
        let flow = ReadFlow::new(router.tier_count(), router.policy().read);
        let failures: Vec<TierFailure<E>> = Vec::new();
        assert(error::failures_of(failures@) =~= Seq::<Failure<E>>::empty());
        let next = GetNext::probe(router, flow, failures);
        assert forall|s: Seq<Reply<K, V, E>>| #[trigger]
            log.extended(s).step() == next.play(route, s) by {
            assert(log.extended(s).replies =~= s);
            assert(log.extended(s).step() == probe(route, 0, Seq::<Failure<E>>::empty(), s));
        }
        assert(log.extended(Seq::empty()) =~= log);
        (
            GetFlow {
                key,
                phase: next.phase,
                route: Ghost(route),
                replies: Ghost(Seq::empty()),
            },
            next.step,
        )
    }

    /// Installs what `reply` led to.
    fn advance(&mut self, Ghost(reply): Ghost<Reply<K, V, E>>, next: GetNext<K, V, E>) -> (step:
        GetStep<K, V, E>)
        requires
            next.inv(old(self)@.route),
            next.phase.carries(hit_in(old(self)@.replies.push(reply))),
            forall|s: Seq<Reply<K, V, E>>|
                s.len() > 0 && s[0] == reply ==> #[trigger] old(self)@.extended(s).step()
                    == next.play(old(self)@.route, s.skip(1)),
        ensures
            final(self).inv(),
            final(self)@ == old(self)@.answered(reply),
            step@ == final(self)@.step(),
    {
        let ghost before = self@;
        self.phase = next.phase;
        self.replies = Ghost(self.replies@.push(reply));
        proof {
            let route = self.route@;
            assert forall|s: Seq<Reply<K, V, E>>| #[trigger] self@.extended(s).step() == next.play(
                route,
                s,
            ) by {
                let all = seq![reply] + s;
                assert(all.skip(1) =~= s);
                assert(self@.extended(s) =~= before.extended(all));
            }
            assert(self@.extended(Seq::empty()) =~= self@);
        }
        next.step
    }

    /// Reports how the probed tier answered; returns what to do next.
    pub fn on_get<T: Tier<Key = K, Value = V, Error = E>>(
        &mut self,
        router: &mut Router<T>,
        reply: Result<Option<V>, E>,
    ) -> (step: GetStep<K, V, E>)
        requires
            old(self).inv(),
            old(self)@.route == old(router).route(),
            old(self)@.step() is Get,
        ensures
            final(self).inv(),
            final(self)@ == old(self)@.answered(Reply::Got(reply)),
            step@ == final(self)@.step(),
            final(router).route() == old(router).route(),
            final(router).tiers() == old(router).tiers(),
            final(router).counters() == old(self)@.tally(old(router).counters(), Reply::Got(reply)),
    {
        let ghost route = router.route();
        let ghost log = self@;
        let ghost answer = Reply::Got(reply);
        assert(self.replies@.push(answer).drop_last() =~= self.replies@);
        let mut phase = GetPhase::Finished;
        core::mem::swap(&mut self.phase, &mut phase);
        let ghost waiting = phase;
        let total = router.tier_count();
        let next = match phase {
            GetPhase::Probing { flow, failures } => {
                let mut flow = flow;
                let mut failures = failures;
                let ghost probes = flow@.probes;
                let ghost before = error::failures_of(failures@);
                match flow.step() {
                    ReadStep::Get { tier } => match reply {
                        Ok(Some(value)) => {
                            router.record(tier, Count::Hits, 1);
                            flow.on_get(Probe::Hit);
                            assert(flow@.probes.last() == Probe::Hit);
                            let next = GetNext::promote(router, flow, value);
                            assert forall|s: Seq<Reply<K, V, E>>|
                                s.len() > 0 && s[0] == answer implies #[trigger] waiting.play(
                                route,
                                s,
                            ) == next.play(route, s.skip(1)) by {
                                assert(waiting.play(route, s) == promote(
                                    route,
                                    reach_of(flow),
                                    0,
                                    value,
                                    s.skip(1),
                                ));
                            }
                            next
                        },
                        Ok(None) => {
                            router.record(tier, Count::Misses, 1);
                            flow.on_get(Probe::Miss);
                            assert(flow@.probes.last() == Probe::Miss);
                            proof {
                                lemma_pushed(probes, Probe::Miss);
                            }
                            let next = GetNext::probe(router, flow, failures);
                            assert forall|s: Seq<Reply<K, V, E>>|
                                s.len() > 0 && s[0] == answer implies #[trigger] waiting.play(
                                route,
                                s,
                            ) == next.play(route, s.skip(1)) by {
                                assert(waiting.play(route, s) == probe(
                                    route,
                                    tier + 1,
                                    before,
                                    s.skip(1),
                                ));
                            }
                            next
                        },
                        Err(source) => {
                            router.record(tier, Count::Errors, 1);
                            flow.on_get(Probe::Error);
                            assert(flow@.probes.last() == Probe::Error);
                            let failure = router.failure(tier, source);
                            proof {
                                lemma_pushed(probes, Probe::Error);
                                error::lemma_failures_push(failures@, failure);
                            }
                            if let ReadStep::Done(ReadOutcome::Failed { .. }) = flow.step() {
                                GetNext::done(Err(RouterError::Tier(failure)))
                            } else {
                                failures.push(failure);
                                let next = GetNext::probe(router, flow, failures);
                                assert forall|s: Seq<Reply<K, V, E>>|
                                    s.len() > 0 && s[0] == answer implies #[trigger] waiting.play(
                                    route,
                                    s,
                                ) == next.play(route, s.skip(1)) by {
                                    assert(waiting.play(route, s) == probe(
                                        route,
                                        tier + 1,
                                        error::failures_of(failures@),
                                        s.skip(1),
                                    ));
                                }
                                next
                            }
                        },
                    },
                    _ => {
                        assert(false);
                        GetNext::done(Ok(None))
                    },
                }
            },
            _ => {
                assert(false);
                GetNext::done(Ok(None))
            },
        };
        assert forall|s: Seq<Reply<K, V, E>>|
            s.len() > 0 && s[0] == answer implies #[trigger] log.extended(s).step() == next.play(
            route,
            s.skip(1),
        ) by {
            assert(log.extended(s).step() == waiting.play(route, s));
        }
        self.advance(Ghost(answer), next)
    }

    /// Reports how the tier answered the pending write (a promotion or a
    /// demotion); returns what to do next. The read does not depend on
    /// whether the write succeeded.
    pub fn on_put<T: Tier<Key = K, Value = V, Error = E>>(
        &mut self,
        router: &mut Router<T>,
        reply: Result<Displaced<K, V>, E>,
    ) -> (step: GetStep<K, V, E>)
        requires
            old(self).inv(),
            old(self)@.route == old(router).route(),
            old(self)@.step() is Promote || old(self)@.step() is Demote,
        ensures
            final(self).inv(),
            final(self)@ == old(self)@.answered(rollover::put_reply(reply)),
            step@ == final(self)@.step(),
            final(router).route() == old(router).route(),
            final(router).tiers() == old(router).tiers(),
            final(router).counters() == old(self)@.tally(
                old(router).counters(),
                rollover::put_reply(reply),
            ),
    {
        let ghost route = router.route();
        let ghost log = self@;
        let ghost answer = rollover::put_reply(reply);
        assert(self.replies@.push(answer).drop_last() =~= self.replies@);
        let mut phase = GetPhase::Finished;
        core::mem::swap(&mut self.phase, &mut phase);
        let ghost waiting = phase;
        let total = router.tier_count();
        let next = match phase {
            GetPhase::Promoting { flow, hit } => {
                let mut flow = flow;
                let ghost reach = reach_of(flow);
                match flow.step() {
                    ReadStep::Promote { tier } => {
                        assert(tier < total);
                        flow.on_promote();
                        match reply {
                            Ok(displaced) => {
                                router.record(tier, Count::Puts, 1);
                                let ghost more = displaced@;
                                if router.policy().demote_displaced {
                                    let rolling = Rollover::sink(router, tier + 1, displaced);
                                    let next = GetNext::roll(router, flow, hit, rolling);
                                    assert forall|s: Seq<Reply<K, V, E>>|
                                        s.len() > 0 && s[0]
                                            == answer implies #[trigger] waiting.play(route, s)
                                        == next.play(route, s.skip(1)) by {
                                        let rolled = rollover::sink(
                                            route,
                                            tier + 1,
                                            more,
                                            s.skip(1),
                                        );
                                        assert(rolled == rolling.play(route, s.skip(1)));
                                        assert(waiting.play(route, s) == roll_up(
                                            route,
                                            reach,
                                            tier + 1,
                                            hit,
                                            rolled,
                                        ));
                                    }
                                    next
                                } else {
                                    let next = GetNext::promote(router, flow, hit);
                                    assert forall|s: Seq<Reply<K, V, E>>|
                                        s.len() > 0 && s[0]
                                            == answer implies #[trigger] waiting.play(route, s)
                                        == next.play(route, s.skip(1)) by {
                                        assert(waiting.play(route, s) == promote(
                                            route,
                                            reach,
                                            tier + 1,
                                            hit,
                                            s.skip(1),
                                        ));
                                    }
                                    next
                                }
                            },
                            Err(_) => {
                                router.record(tier, Count::Errors, 1);
                                let next = GetNext::promote(router, flow, hit);
                                assert forall|s: Seq<Reply<K, V, E>>|
                                    s.len() > 0 && s[0] == answer implies #[trigger] waiting.play(
                                    route,
                                    s,
                                ) == next.play(route, s.skip(1)) by {
                                    assert(waiting.play(route, s) == promote(
                                        route,
                                        reach,
                                        tier + 1,
                                        hit,
                                        s.skip(1),
                                    ));
                                }
                                next
                            },
                        }
                    },
                    _ => {
                        assert(false);
                        GetNext::done(Ok(None))
                    },
                }
            },
            GetPhase::Rolling { flow, hit, rollover } => {
                let tier = rollover.tier();
                let displaced = match reply {
                    Ok(displaced) => {
                        router.record(tier, Count::Puts, 1);
                        displaced
                    },
                    Err(_) => {
                        router.record(tier, Count::Errors, 1);
                        Vec::new()
                    },
                };
                assert(answer.displaced() == displaced@);
                let rolling = rollover.resume(router, displaced);
                let next = GetNext::roll(router, flow, hit, rolling);
                assert forall|s: Seq<Reply<K, V, E>>|
                    s.len() > 0 && s[0] == answer implies #[trigger] waiting.play(route, s)
                    == next.play(route, s.skip(1)) by {
                    assert(rollover.continues(route, s) == rolling.play(route, s.skip(1)));
                }
                next
            },
            _ => {
                assert(false);
                GetNext::done(Ok(None))
            },
        };
        assert forall|s: Seq<Reply<K, V, E>>|
            s.len() > 0 && s[0] == answer implies #[trigger] log.extended(s).step() == next.play(
            route,
            s.skip(1),
        ) by {
            assert(log.extended(s).step() == waiting.play(route, s));
        }
        self.advance(Ghost(answer), next)
    }
}

/// What an existence check asks of the driver, as contracts speak of it.
#[verifier::ext_equal]
pub enum ExistsMove<E> {
    /// Ask `tier` whether it holds the key.
    Exists {
        /// The tier to ask.
        tier: int,
    },
    /// The check is over.
    Done(Result<bool, Trouble<E>>),
}

/// What an existence check asks of the driver.
#[derive(Debug)]
pub enum ExistsStep<E> {
    /// Ask `tier` whether it holds the key and report with
    /// [`ExistsFlow::on_exists`].
    Exists {
        /// The tier to ask.
        tier: usize,
    },
    /// The check is over.
    Done(Result<bool, RouterError<E>>),
}

impl<E> View for ExistsStep<E> {
    type V = ExistsMove<E>;

    open spec fn view(&self) -> ExistsMove<E> {
        match *self {
            ExistsStep::Exists { tier } => ExistsMove::Exists { tier: tier as int },
            ExistsStep::Done(Ok(present)) => ExistsMove::Done(Ok(present)),
            ExistsStep::Done(Err(error)) => ExistsMove::Done(Err(error@)),
        }
    }
}

/// The failures among the answers of the topmost tiers, topmost first.
pub open spec fn failures_among<A, E>(route: Route, replies: Seq<Result<A, E>>) -> Seq<Failure<E>>
    decreases replies.len(),
{
    if replies.len() == 0 {
        Seq::empty()
    } else {
        let above = failures_among(route, replies.drop_last());
        match replies.last() {
            Ok(_) => above,
            Err(source) => above.push(route.failure(replies.len() - 1, source)),
        }
    }
}

/// Everything an existence check has learned: `replies[i]` is the answer of
/// tier `i`.
#[verifier::ext_equal]
pub struct ExistsLog<K, E> {
    /// The hierarchy and its policy.
    pub route: Route,
    /// The requested key.
    pub key: K,
    /// The answers so far, topmost first.
    pub replies: Seq<Result<bool, E>>,
}

impl<K, E> ExistsLog<K, E> {
    /// The log of a check that was only just requested.
    pub open spec fn begin(route: Route, key: K) -> Self {
        ExistsLog { route, key, replies: Seq::empty() }
    }

    /// What the check asks for next: the tiers are asked top-down until one
    /// holds the key, or fails under [`OnReadError::FailFast`]. Absence is
    /// only confirmed when every tier answered.
    pub open spec fn step(self) -> ExistsMove<E> {
        let last = self.replies.len() - 1;
        let failures = failures_among(self.route, self.replies);
        if last >= 0 && self.replies[last] == Ok::<bool, E>(true) {
            ExistsMove::Done(Ok(true))
        } else if last >= 0 && self.replies[last] is Err && self.route.policy.read.on_error
            == OnReadError::FailFast {
            ExistsMove::Done(
                Err(Trouble::Tier(self.route.failure(last, self.replies[last]->Err_0))),
            )
        } else if self.replies.len() < self.route.lanes.len() {
            ExistsMove::Exists { tier: self.replies.len() as int }
        } else if failures.len() == 0 {
            ExistsMove::Done(Ok(false))
        } else {
            ExistsMove::Done(Err(Trouble::Inconclusive(failures)))
        }
    }

    /// The log after one more answer.
    pub open spec fn answered(self, reply: Result<bool, E>) -> Self {
        ExistsLog { replies: self.replies.push(reply), ..self }
    }

    /// The log when only the first `count` answers had come in.
    pub open spec fn prefix(self, count: int) -> Self {
        ExistsLog { replies: self.replies.take(count), ..self }
    }

    /// Whether every answer is one to what was asked for.
    pub open spec fn sound(self) -> bool {
        forall|i: int| 0 <= i < self.replies.len() ==> (#[trigger] self.prefix(i)).step() is Exists
    }

    /// How the answer `reply` to the pending call is counted.
    pub open spec fn tally(self, counters: Seq<Counters>, reply: Result<bool, E>) -> Seq<Counters> {
        router::tallied(
            counters,
            self.replies.len() as int,
            match reply {
                Ok(true) => Count::Hits,
                Ok(false) => Count::Misses,
                Err(_) => Count::Errors,
            },
            1,
        )
    }
}

/// How an answer to an existence check counts as a probe.
spec fn probe_of<E>(reply: Result<bool, E>) -> Probe {
    match reply {
        Ok(true) => Probe::Hit,
        Ok(false) => Probe::Miss,
        Err(_) => Probe::Error,
    }
}

/// One routed existence check.
pub struct ExistsFlow<'a, K, E> {
    key: &'a K,
    flow: ReadFlow,
    failures: Vec<TierFailure<E>>,
    route: Ghost<Route>,
    replies: Ghost<Seq<Result<bool, E>>>,
}

impl<'a, K, E> View for ExistsFlow<'a, K, E> {
    type V = ExistsLog<K, E>;

    closed spec fn view(&self) -> ExistsLog<K, E> {
        ExistsLog { route: self.route@, key: *self.key, replies: self.replies@ }
    }
}

impl<'a, K, E> ExistsFlow<'a, K, E> {
    /// The probe order and error classification are those of a read that
    /// never promotes.
    spec fn follows(&self) -> bool {
        &&& self.flow.inv()
        &&& self.flow@.tiers == self.route@.lanes.len()
        &&& self.flow@.policy == (ReadPolicy {
            promote: Promote::Never,
            on_error: self.route@.policy.read.on_error,
        })
        &&& self.flow@.promoted == 0
        &&& self.flow@.probes.len() == self.replies@.len() <= self.route@.lanes.len()
        &&& forall|i: int|
            0 <= i < self.replies@.len() ==> self.flow@.probes[i] == probe_of(
                #[trigger] self.replies@[i],
            )
    }

    /// What every flow that [`Router::contains`] started satisfies.
    pub closed spec fn inv(&self) -> bool {
        &&& self.follows()
        &&& self@.step() is Exists ==> error::failures_of(self.failures@) == failures_among(
            self.route@,
            self.replies@,
        )
    }

    /// The requested key.
    pub fn key(&self) -> (key: &'a K)
        ensures
            *key == self@.key,
    {
        self.key
    }

    /// Turns the state of the read flow into a step.
    fn settle(&mut self) -> (step: ExistsStep<E>)
        requires
            old(self).follows(),
            error::failures_of(old(self).failures@) == failures_among(
                old(self).route@,
                old(self).replies@,
            ),
        ensures
            final(self).inv(),
            final(self)@ == old(self)@,
            step@ == final(self)@.step(),
    {
        let ghost log = self@;
        let ghost probes = self.flow@.probes;
        let ghost failed = failures_among(self.route@, self.replies@);
        proof {
            lemma_failures_among(self.route@, self.replies@);
            assert(probes.contains(Probe::Error) <==> failed.len() > 0) by {
                if probes.contains(Probe::Error) {
                    let i = choose|i: int| 0 <= i < probes.len() && probes[i] == Probe::Error;
                    assert(self.replies@[i] is Err);
                }
                if failed.len() > 0 {
                    let i = choose|i: int|
                        0 <= i < self.replies@.len() && (#[trigger] self.replies@[i]) is Err;
                    assert(probes[i] == Probe::Error);
                }
            }
            if self.replies@.len() > 0 {
                let last = self.replies@.len() - 1;
                assert(probes[last] == probe_of(self.replies@[last]));
            }
        }
        match self.flow.step() {
            ReadStep::Get { tier } => ExistsStep::Exists { tier },
            ReadStep::Promote { .. } => {
                assert(false);
                ExistsStep::Done(Ok(true))
            },
            ReadStep::Done(outcome) => {
                let mut failures: Vec<TierFailure<E>> = Vec::new();
                core::mem::swap(&mut self.failures, &mut failures);
                match outcome {
                    ReadOutcome::Hit { .. } => ExistsStep::Done(Ok(true)),
                    ReadOutcome::Miss => ExistsStep::Done(Ok(false)),
                    ReadOutcome::Inconclusive => ExistsStep::Done(
                        Err(RouterError::Inconclusive(failures)),
                    ),
                    ReadOutcome::Failed { .. } => {
                        let ghost all = failures@;
                        match failures.pop() {
                            Some(failure) => {
                                assert(error::failures_of(all).last() == failure@);
                                ExistsStep::Done(Err(RouterError::Tier(failure)))
                            },
                            None => {
                                assert(false);
                                ExistsStep::Done(Err(RouterError::Inconclusive(failures)))
                            },
                        }
                    },
                }
            },
        }
    }

    fn start<T: Tier<Key = K, Error = E>>(router: &Router<T>, key: &'a K) -> (started: (
        Self,
        ExistsStep<E>,
    ))
        ensures
            started.0.inv(),
            started.0@ == ExistsLog::<K, E>::begin(router.route(), *key),
            started.1@ == started.0@.step(),
    {
        let flow = ReadFlow::new(
            router.tier_count(),
            ReadPolicy { promote: Promote::Never, on_error: router.policy().read.on_error },
        );
        let mut check = ExistsFlow {
            key,
            flow,
            failures: Vec::new(),
            route: Ghost(router.route()),
            replies: Ghost(Seq::empty()),
        };
        assert(error::failures_of(check.failures@) =~= Seq::<Failure<E>>::empty());
        let step = check.settle();
        (check, step)
    }

    /// Reports how the tier answered; returns what to do next.
    pub fn on_exists<T: Tier<Key = K, Error = E>>(
        &mut self,
        router: &mut Router<T>,
        reply: Result<bool, E>,
    ) -> (step: ExistsStep<E>)
        requires
            old(self).inv(),
            old(self)@.route == old(router).route(),
            old(self)@.step() is Exists,
        ensures
            final(self).inv(),
            final(self)@ == old(self)@.answered(reply),
            step@ == final(self)@.step(),
            final(router).route() == old(router).route(),
            final(router).tiers() == old(router).tiers(),
            final(router).counters() == old(self)@.tally(old(router).counters(), reply),
    {
        let ghost before = self.replies@;
        let ghost log = self@;
        proof {
            assert(before.push(reply).drop_last() =~= before);
            lemma_failures_among(self.route@, before);
            if before.len() > 0 {
                let last = before.len() - 1;
                assert(self.flow@.probes[last] == probe_of(before[last]));
            }
        }
        let total = router.tier_count();
        match self.flow.step() {
            ReadStep::Get { tier } => {
                match reply {
                    Ok(true) => {
                        router.record(tier, Count::Hits, 1);
                        self.flow.on_get(Probe::Hit);
                    },
                    Ok(false) => {
                        router.record(tier, Count::Misses, 1);
                        self.flow.on_get(Probe::Miss);
                    },
                    Err(source) => {
                        router.record(tier, Count::Errors, 1);
                        let failure = router.failure(tier, source);
                        proof {
                            error::lemma_failures_push(self.failures@, failure);
                        }
                        self.failures.push(failure);
                        self.flow.on_get(Probe::Error);
                    },
                }
                self.replies = Ghost(before.push(reply));
            },
            _ => {
                assert(false);
            },
        }
        self.settle()
    }
}

/// There are failures among the answers exactly if some answer is one.
pub proof fn lemma_failures_among<A, E>(route: Route, replies: Seq<Result<A, E>>)
    ensures
        failures_among(route, replies).len() > 0 <==> exists|i: int|
            0 <= i < replies.len() && (#[trigger] replies[i]) is Err,
    decreases replies.len(),
{
    if replies.len() > 0 {
        let above = replies.drop_last();
        lemma_failures_among(route, above);
        if exists|i: int| 0 <= i < above.len() && (#[trigger] above[i]) is Err {
            let i = choose|i: int| 0 <= i < above.len() && (#[trigger] above[i]) is Err;
            assert(replies[i] is Err);
        }
        if exists|i: int| 0 <= i < replies.len() && (#[trigger] replies[i]) is Err {
            let i = choose|i: int| 0 <= i < replies.len() && (#[trigger] replies[i]) is Err;
            if i < above.len() {
                assert(above[i] is Err);
            }
        }
    }
}

impl<T: Tier> Router<T> {
    /// Starts reading `key` through the hierarchy, promoting a hit per
    /// policy.
    pub fn get<'a>(&self, key: &'a T::Key) -> (started: (
        GetFlow<'a, T::Key, T::Value, T::Error>,
        GetStep<T::Key, T::Value, T::Error>,
    ))
        ensures
            started.0.inv(),
            started.0@ == GetLog::<T::Key, T::Value, T::Error>::begin(self.route(), *key),
            started.1@ == started.0@.step(),
    {
        GetFlow::start(self, key)
    }

    /// Starts asking the hierarchy whether it holds `key`. Existence checks
    /// never promote.
    pub fn contains<'a>(&self, key: &'a T::Key) -> (started: (
        ExistsFlow<'a, T::Key, T::Error>,
        ExistsStep<T::Error>,
    ))
        ensures
            started.0.inv(),
            started.0@ == ExistsLog::<T::Key, T::Error>::begin(self.route(), *key),
            started.1@ == started.0@.step(),
    {
        ExistsFlow::start(self, key)
    }
}

} // verus!
