//! Rollover: entries a write displaces sink into the tiers below.
//!
//! [`sink`] says what happens to displaced entries as a function of the
//! tiers' answers; [`Rollover`] carries it out one tier call at a time.
use std::collections::VecDeque;
use vstd::prelude::*;

use crate::router::{Route, Router};
use crate::tier::{Displaced, Tier};

verus! {

/// A tier's answer to one call, as contracts speak of it.
#[verifier::ext_equal]
pub enum Reply<K, V, E> {
    /// The answer to a single-key read.
    Got(Result<Option<V>, E>),
    /// The answer to a batched read: one value per requested key.
    GotMany(Result<Seq<Option<V>>, E>),
    /// The answer to a write: the entries it displaced.
    Put(Result<Seq<(K, V)>, E>),
    /// The answer to a delete.
    Deleted(Result<(), E>),
}

impl<K, V, E> Reply<K, V, E> {
    /// The entries a successful write displaced.
    pub open spec fn displaced(self) -> Seq<(K, V)> {
        match self {
            Reply::Put(Ok(displaced)) => displaced,
            _ => Seq::empty(),
        }
    }
}

/// The answer to a write as contracts speak of it.
pub open spec fn put_reply<K, V, E>(reply: Result<Displaced<K, V>, E>) -> Reply<K, V, E> {
    match reply {
        Ok(displaced) => Reply::Put(Ok(displaced@)),
        Err(source) => Reply::Put(Err(source)),
    }
}

/// Where a rollover stands once some tier calls were answered.
#[verifier::ext_equal]
pub enum Rolled<K, V, E> {
    /// The entry has to be written into `tier` next.
    Ask {
        /// The tier that receives the entry.
        tier: int,
        /// The entry's key.
        key: K,
        /// The entry's value.
        value: V,
    },
    /// Nothing is left to write.
    Settled {
        /// Entries that fell off the bottom of the hierarchy.
        evicted: Seq<(K, V)>,
        /// Answers the rollover did not consume.
        rest: Seq<Reply<K, V, E>>,
    },
}

/// What becomes of the entries `current` that are looking for a place at
/// `target` or below, given the answers `replies` to the writes this takes.
/// Tiers the router never writes are passed over; entries that find no tier
/// fall off the bottom.
pub open spec fn sink<K, V, E>(
    route: Route,
    target: int,
    current: Seq<(K, V)>,
    replies: Seq<Reply<K, V, E>>,
) -> Rolled<K, V, E>
    decreases route.lanes.len() - target, 1int, 0int,
{
    if target < 0 || target >= route.lanes.len() || current.len() == 0 {
        Rolled::Settled { evicted: current, rest: replies }
    } else if !route.writable(target) {
        sink(route, target + 1, current, replies)
    } else {
        offer(route, target, current, Seq::empty(), replies)
    }
}

/// The part of [`sink`] that is played at the writable tier `target`: the
/// entries `rest` are written one by one, and what those writes displace is
/// gathered behind `next`, to sink further. An entry the tier rejects is
/// dropped.
pub open spec fn offer<K, V, E>(
    route: Route,
    target: int,
    rest: Seq<(K, V)>,
    next: Seq<(K, V)>,
    replies: Seq<Reply<K, V, E>>,
) -> Rolled<K, V, E>
    decreases route.lanes.len() - target, 0int, rest.len(),
{
    if target < 0 || target >= route.lanes.len() {
        Rolled::Settled { evicted: next, rest: replies }
    } else if rest.len() == 0 {
        sink(route, target + 1, next, replies)
    } else if replies.len() == 0 {
        Rolled::Ask { tier: target, key: rest[0].0, value: rest[0].1 }
    } else {
        offer(route, target, rest.skip(1), next + replies[0].displaced(), replies.skip(1))
    }
}

/// A rollover that waits for the answer to one write.
pub struct Rollover<K, V> {
    target: usize,
    rest: VecDeque<(K, V)>,
    next: Vec<(K, V)>,
}

/// What a rollover needs next.
pub enum Rolling<K, V> {
    /// Write the entry into `tier`, then resume the rollover with the answer.
    Ask {
        /// The tier that receives the entry.
        tier: usize,
        /// The entry's key.
        key: K,
        /// The entry's value.
        value: V,
        /// The rollover that waits for the answer.
        rollover: Rollover<K, V>,
    },
    /// Nothing is left to write; these entries fell off the bottom.
    Settled(Displaced<K, V>),
}

impl<K, V> Rollover<K, V> {
    /// The tier the awaited write went to.
    pub closed spec fn target(&self) -> int {
        self.target as int
    }

    /// How the rollover continues when the awaited write is answered by the
    /// first of `replies` and later writes by the others.
    pub closed spec fn continues<E>(&self, route: Route, replies: Seq<Reply<K, V, E>>) -> Rolled<
        K,
        V,
        E,
    > {
        offer(
            route,
            self.target as int,
            self.rest@,
            self.next@ + replies[0].displaced(),
            replies.skip(1),
        )
    }
}

impl<K, V> Rolling<K, V> {
    /// Where the rollover stands once `replies` answered the writes from
    /// here on.
    pub open spec fn play<E>(self, route: Route, replies: Seq<Reply<K, V, E>>) -> Rolled<K, V, E> {
        match self {
            Rolling::Ask { tier, key, value, rollover } => if replies.len() == 0 {
                Rolled::Ask { tier: tier as int, key, value }
            } else {
                rollover.continues(route, replies)
            },
            Rolling::Settled(evicted) => Rolled::Settled { evicted: evicted@, rest: replies },
        }
    }

    /// A request goes to a writable tier, and the rollover waits for that
    /// tier.
    pub open spec fn inv(self, route: Route) -> bool {
        self matches Rolling::Ask { tier, rollover, .. } ==> {
            &&& route.writable(tier as int)
            &&& rollover.target() == tier
        }
    }
}

fn queue<A>(items: Vec<A>) -> (queue: VecDeque<A>)
    ensures
        queue@ == items@,
{
    let mut items = items;
    let mut queue: VecDeque<A> = VecDeque::new();
    let ghost all = items@;
    assert(items@ + queue@ =~= all);
    loop
        invariant
            items@ + queue@ == all,
        ensures
            queue@ == all,
        decreases items@.len(),
    {
        let ghost before = items@;
        let ghost tail = queue@;
        match items.pop() {
            Some(item) => {
                queue.push_front(item);
                assert(items@ + queue@ =~= before + tail);
            },
            None => {
                assert(queue@ =~= all);
                break ;
            },
        }
    }
    queue
}

impl<K, V> Rollover<K, V> {
    /// The tier the awaited write went to.
    pub fn tier(&self) -> (tier: usize)
        ensures
            tier == self.target(),
    {
        self.target
    }

    /// Lets `current` sink into the tiers from `target` down.
    pub fn sink<T: Tier<Key = K, Value = V>>(
        router: &Router<T>,
        target: usize,
        current: Displaced<K, V>,
    ) -> (rolling: Rolling<K, V>)
        ensures
            rolling.inv(router.route()),
            forall|s: Seq<Reply<K, V, T::Error>>| #[trigger]
                sink(router.route(), target as int, current@, s) == rolling.play(
                    router.route(),
                    s,
                ),
    {
        let ghost route = router.route();
        let ghost all = current@;
        let count = router.tier_count();
        let mut tier: usize = target;
        if current.is_empty() {
            return Rolling::Settled(current);
        }
        while tier < count
            invariant
                count == route.lanes.len(),
                route == router.route(),
                all == current@,
                current@.len() > 0,
                forall|s: Seq<Reply<K, V, T::Error>>| #[trigger]
                    sink(route, target as int, all, s) == sink(route, tier as int, all, s),
            decreases count - tier,
        {
            if router.is_writable(tier) {
                let mut rest = queue(current);
                match rest.pop_front() {
                    Some((key, value)) => {
                        let rollover = Rollover { target: tier, rest, next: Vec::new() };
                        let rolling = Rolling::Ask { tier, key, value, rollover };
                        assert(rest@ =~= all.skip(1));
                        assert forall|s: Seq<Reply<K, V, T::Error>>| #[trigger]
                            sink(route, target as int, all, s) == rolling.play(route, s) by {
                            assert(sink(route, tier as int, all, s) == offer(
                                route,
                                tier as int,
                                all,
                                Seq::empty(),
                                s,
                            ));
                        }
                        return rolling;
                    },
                    None => {
                        assert(false);
                        return Rolling::Settled(Vec::new());
                    },
                }
            }
            tier = tier + 1;
        }
        Rolling::Settled(current)
    }

    /// Resumes the rollover once the awaited write was answered and displaced
    /// `displaced` (nothing, if it failed).
    pub fn resume<T: Tier<Key = K, Value = V>>(
        self,
        router: &Router<T>,
        displaced: Displaced<K, V>,
    ) -> (rolling: Rolling<K, V>)
        requires
            router.route().writable(self.target()),
        ensures
            rolling.inv(router.route()),
            forall|s: Seq<Reply<K, V, T::Error>>|
                s.len() > 0 && s[0].displaced() == displaced@ ==> #[trigger] self.continues(
                    router.route(),
                    s,
                ) == rolling.play(router.route(), s.skip(1)),
    {
        let ghost route = router.route();
        let count = router.tier_count();
        let target = self.target;
        let mut rest = self.rest;
        let mut next = self.next;
        let mut displaced = displaced;
        let ghost more = displaced@;
        next.append(&mut displaced);
        let ghost before = rest@;
        let ghost gathered = next@;
        assert forall|s: Seq<Reply<K, V, T::Error>>|
            s.len() > 0 && s[0].displaced() == more implies #[trigger] self.continues(route, s)
            == offer(route, target as int, before, gathered, s.skip(1)) by {
            assert(self.next@ + s[0].displaced() =~= gathered);
        }
        assert(target < count);
        let rolling = match rest.pop_front() {
            Some((key, value)) => {
                let rollover = Rollover { target, rest, next };
                let rolling = Rolling::Ask { tier: target, key, value, rollover };
                assert(rest@ =~= before.skip(1));
                assert forall|s: Seq<Reply<K, V, T::Error>>| #[trigger]
                    offer(route, target as int, before, gathered, s) == rolling.play(route, s) by {
                    if s.len() > 0 {
                        assert(offer(route, target as int, before, gathered, s) == offer(
                            route,
                            target as int,
                            rest@,
                            gathered + s[0].displaced(),
                            s.skip(1),
                        ));
                    }
                }
                rolling
            },
            None => {
                let rolling = Rollover::sink(router, target + 1, next);
                assert forall|s: Seq<Reply<K, V, T::Error>>| #[trigger]
                    offer(route, target as int, before, gathered, s) == rolling.play(route, s) by {
                    assert(offer(route, target as int, before, gathered, s) == sink(
                        route,
                        target + 1,
                        gathered,
                        s,
                    ));
                }
                rolling
            },
        };
        rolling
    }
}

} // verus!
