//! Stampede protection: what coalesced lookups spare the lower tiers.
use vstd::prelude::*;

use crate::batch;
use crate::batch::{Probed, ReadManyLog, ReadManyMove};
use crate::cache::{LookupLog, LookupReply, LookupStep};
use crate::error;
use crate::error::{Failure, Trouble};
use crate::laws::history;
use crate::laws::read;
use crate::laws::world;
use crate::policy::Promote;
use crate::report::{KeyStatus, ReadOneReport};
use crate::rollover;
use crate::rollover::{Reply, Rolled};
use crate::router::Route;

verus! {

/// Whether an honest tier answers the request `step` of a read of `key`, for
/// which `found` was found so far, with `reply`, and that turns the world
/// `before` into `after`. The topmost tier accepts what is promoted into it,
/// and keeps it; tiers below may reject what they are given.
pub open spec fn answers<K, V, E>(
    key: K,
    found: Option<V>,
    step: ReadManyMove<K, V, E>,
    reply: Reply<K, V, E>,
    before: Seq<Map<K, V>>,
    after: Seq<Map<K, V>>,
) -> bool {
    match (step, reply) {
        (ReadManyMove::GetMany { tier, pending }, Reply::GotMany(reply)) => after == before
            && read::tells_many(Some(before[tier]), seq![key], pending, reply),
        (ReadManyMove::Promote { tier, .. }, Reply::Put(Ok(displaced))) => found matches Some(
            value,
        ) && (tier == 0 ==> !world::keys(displaced).contains(key)) && world::writes(
            before,
            tier,
            key,
            value,
            displaced,
            after,
        ),
        (ReadManyMove::Promote { tier, .. }, Reply::Put(Err(_))) => tier != 0 && after == before,
        (ReadManyMove::Demote { tier, key, value }, Reply::Put(Ok(displaced))) => world::writes(
            before,
            tier,
            key,
            value,
            displaced,
            after,
        ),
        (ReadManyMove::Demote { .. }, Reply::Put(Err(_))) => after == before,
        _ => false,
    }
}

/// A read of one key with provenance, over honest tiers, with the world
/// before every request and at the end.
#[verifier::reject_recursive_types(K)]
pub struct ReadRun<K, V, E> {
    /// What was asked and answered.
    pub log: ReadManyLog<K, V, E>,
    /// The worlds.
    pub worlds: Seq<Seq<Map<K, V>>>,
}

impl<K, V, E> ReadRun<K, V, E> {
    /// What the first `count` answers found.
    pub open spec fn found(self, count: int) -> Option<V> {
        match self.log.prefix(count).statuses() {
            Some(statuses) => statuses[0].found(),
            None => None,
        }
    }

    /// Whether `key` is read over `route`, every tier is honest and answers,
    /// and the topmost tier keeps what is promoted into it.
    pub open spec fn honest(self, route: Route, key: K) -> bool {
        &&& self.log.route == route
        &&& self.log.keys == seq![key]
        &&& self.worlds.len() == self.log.replies.len() + 1
        &&& self.worlds[0].len() == route.lanes.len()
        &&& forall|i: int|
            0 <= i < self.log.replies.len() ==> answers(
                key,
                self.found(i),
                #[trigger] self.log.asked()[i],
                self.log.replies[i],
                self.worlds[i],
                self.worlds[i + 1],
            )
    }

    /// Whether the `i`-th request asks `tier` for the key.
    pub open spec fn asks(self, i: int, tier: int) -> bool {
        &&& 0 <= i < self.log.replies.len()
        &&& self.log.asked()[i] matches ReadManyMove::GetMany { tier: t, .. }
        &&& t == tier
    }
}

spec fn missing<V>() -> Seq<KeyStatus<V>> {
    seq![KeyStatus::Miss]
}

/// From its `tier`-th answer on, the read is the probing from `tier` down.
spec fn probes<K, V, E>(run: ReadRun<K, V, E>, tier: int) -> bool {
    forall|s: Seq<Reply<K, V, E>>|
        (#[trigger] (ReadManyLog {
            replies: run.log.replies.take(tier) + s,
            ..run.log
        }).probed()) == batch::probe_many(
            run.log.route,
            tier,
            missing::<V>(),
            seq![0int],
            Seq::<Failure<E>>::empty(),
            s,
        )
}

/// The answer of tier `served` has ended the probing.
spec fn resolves<K, V, E>(run: ReadRun<K, V, E>, served: int, value: V) -> bool {
    forall|s: Seq<Reply<K, V, E>>|
        (#[trigger] (ReadManyLog {
            replies: run.log.replies.take(served + 1) + s,
            ..run.log
        }).probed()) == (Probed::<K, V, E>::Resolved {
            statuses: seq![KeyStatus::Hit { tier: served as usize, value }],
            failures: Seq::<Failure<E>>::empty(),
            rest: s,
        })
}

/// What a finished read of a key that tier `served` holds, and none above
/// does, has done.
spec fn fetched<K, V, E>(run: ReadRun<K, V, E>, key: K, served: int, value: V) -> bool {
    let before = run.worlds[0];
    let after = run.worlds.last();
    let replies = run.log.replies;
    &&& run.log.step() == ReadManyMove::<K, V, E>::Done(
        Ok((seq![KeyStatus::Hit { tier: served as usize, value }], Seq::empty())),
    )
    &&& served < replies.len()
    &&& forall|i: int|
        0 <= i < replies.len() ==> match #[trigger] run.log.asked()[i] {
            ReadManyMove::GetMany { tier, .. } => i <= served && tier == i,
            _ => i > served,
        }
    &&& after.len() == before.len()
    &&& after[0].contains_key(key)
    &&& after[0][key] == value
}

/// Where nothing was served, there is nothing to promote.
proof fn lemma_nothing_to_promote<K, V, E>(
    route: Route,
    statuses: Seq<KeyStatus<V>>,
    failures: Seq<Failure<E>>,
    from: int,
    replies: Seq<Reply<K, V, E>>,
)
    requires
        forall|t: int|
            from <= t ==> (#[trigger] batch::served(
                statuses,
                t,
                statuses.len() as int,
            )).len() == 0,
    ensures
        batch::promote_many(route, statuses, failures, from, 0, replies) == ReadManyMove::<
            K,
            V,
            E,
        >::Done(Ok((statuses, failures))),
    decreases route.lanes.len() - from,
{
    if from < route.lanes.len() {
        assert(batch::served(statuses, from, statuses.len() as int).len() == 0);
        lemma_nothing_to_promote(route, statuses, failures, from + 1, replies);
    }
}

/// Promotion starts at the tier that served the key.
proof fn lemma_skip_to<K, V, E>(
    route: Route,
    statuses: Seq<KeyStatus<V>>,
    failures: Seq<Failure<E>>,
    from: int,
    served: int,
    replies: Seq<Reply<K, V, E>>,
)
    requires
        from <= served < route.lanes.len(),
        forall|t: int|
            from <= t < served ==> (#[trigger] batch::served(
                statuses,
                t,
                statuses.len() as int,
            )).len() == 0,
    ensures
        batch::promote_many(route, statuses, failures, from, 0, replies) == batch::promote_many(
            route,
            statuses,
            failures,
            served,
            0,
            replies,
        ),
    decreases served - from,
{
    if from < served {
        assert(batch::served(statuses, from, statuses.len() as int).len() == 0);
        lemma_skip_to(route, statuses, failures, from + 1, served, replies);
    }
}

/// Whether what is asked for next leaves the topmost tier alone.
spec fn lower_down<K, V, E>(next: ReadManyMove<K, V, E>, statuses: Seq<KeyStatus<V>>) -> bool {
    match next {
        ReadManyMove::GetMany { .. } => false,
        ReadManyMove::Promote { tier, .. } => tier >= 1,
        ReadManyMove::Demote { tier, .. } => tier >= 1,
        ReadManyMove::Done(result) => result == Ok::<_, Trouble<E>>(
            (statuses, Seq::<Failure<E>>::empty()),
        ),
    }
}

/// Once the topmost tier has its copy, the promotion goes on below it.
proof fn lemma_promotes_below<K, V, E>(
    route: Route,
    statuses: Seq<KeyStatus<V>>,
    served: int,
    target: int,
    replies: Seq<Reply<K, V, E>>,
)
    requires
        served < route.lanes.len(),
        1 <= target,
        forall|t: int|
            served < t ==> (#[trigger] batch::served(
                statuses,
                t,
                statuses.len() as int,
            )).len() == 0,
    ensures
        lower_down(
            batch::promote_many(
                route,
                statuses,
                Seq::<Failure<E>>::empty(),
                served,
                target,
                replies,
            ),
            statuses,
        ),
    decreases route.policy.read.promote.reach(served) - target,
{
    let none = Seq::<Failure<E>>::empty();
    let hits = batch::served(statuses, served, statuses.len() as int);
    if target >= route.policy.read.promote.reach(served) || hits.len() == 0 {
        lemma_nothing_to_promote(route, statuses, none, served + 1, replies);
    } else if !route.writable(target) {
        lemma_promotes_below(route, statuses, served, target + 1, replies);
    } else if replies.len() > 0 {
        let rest = replies.skip(1);
        match replies[0] {
            Reply::Put(Ok(displaced)) => {
                if route.policy.demote_displaced {
                    let rolled = rollover::sink(route, target + 1, displaced, rest);
                    crate::laws::write::law_displaced_entries_sink(
                        route,
                        target + 1,
                        displaced,
                        rest,
                    );
                    assert(batch::promote_many(route, statuses, none, served, target, replies)
                        == batch::roll_many(route, statuses, none, served, target + 1, rolled));
                    if let Rolled::Settled { rest: left, .. } = rolled {
                        lemma_promotes_below(route, statuses, served, target + 1, left);
                    }
                } else {
                    lemma_promotes_below(route, statuses, served, target + 1, rest);
                }
            },
            Reply::Put(Err(_)) => {
                lemma_promotes_below(route, statuses, served, target + 1, rest);
            },
            _ => {},
        }
    }
}

/// What the promotion of one key that `served` served asks for.
proof fn lemma_promotes_once<K, V, E>(
    route: Route,
    served: int,
    value: V,
    replies: Seq<Reply<K, V, E>>,
)
    requires
        0 <= served < route.lanes.len() <= usize::MAX,
        route.policy.read.promote != Promote::Never,
        route.writable(0),
        replies.len() > 0 ==> (replies[0] matches Reply::Put(result) && result is Ok),
    ensures
        ({
            let statuses = seq![KeyStatus::Hit { tier: served as usize, value }];
            let none = Seq::<Failure<E>>::empty();
            let next = batch::promote_many(route, statuses, none, 1, 0, replies);
            if served > 0 && replies.len() == 0 {
                next == (ReadManyMove::<K, V, E>::Promote { tier: 0, hits: seq![0int] })
            } else {
                lower_down(next, statuses) && (served == 0 ==> next is Done)
            }
        }),
{
    let statuses = seq![KeyStatus::Hit { tier: served as usize, value }];
    let none = Seq::<Failure<E>>::empty();
    reveal_with_fuel(batch::served, 2);
    assert forall|t: int| #[trigger] batch::served(statuses, t, 1) == if t == served {
        seq![0int]
    } else {
        Seq::<int>::empty()
    } by {
        assert(batch::served(statuses, t, 0) =~= Seq::<int>::empty());
        assert(statuses[0].served_by(t) == (t == served));
        assert(Seq::<int>::empty().push(0) =~= seq![0int]);
    }
    if served == 0 {
        lemma_nothing_to_promote(route, statuses, none, 1, replies);
    } else {
        lemma_skip_to(route, statuses, none, 1, served, replies);
        if replies.len() > 0 {
            let displaced = replies[0].displaced();
            let rest = replies.skip(1);
            if route.policy.demote_displaced {
                let rolled = rollover::sink(route, 1, displaced, rest);
                crate::laws::write::law_displaced_entries_sink(route, 1, displaced, rest);
                assert(batch::promote_many(route, statuses, none, served, 0, replies)
                    == batch::roll_many(route, statuses, none, served, 1, rolled));
                if let Rolled::Settled { rest: left, .. } = rolled {
                    lemma_promotes_below(route, statuses, served, 1, left);
                }
            } else {
                assert(batch::promote_many(route, statuses, none, served, 0, replies)
                    == batch::promote_many(route, statuses, none, served, 1, rest));
                lemma_promotes_below(route, statuses, served, 1, rest);
            }
        }
    }
}

/// What one answer tells the probing of one key.
proof fn lemma_probe_step<K, V, E>(
    route: Route,
    tier: int,
    found: Seq<Option<V>>,
    s: Seq<Reply<K, V, E>>,
)
    requires
        0 <= tier < route.lanes.len(),
        found.len() == 1,
    ensures
        ({
            let none = Seq::<Failure<E>>::empty();
            let all = seq![Reply::<K, V, E>::GotMany(Ok(found))] + s;
            let probed = batch::probe_many(route, tier, missing::<V>(), seq![0int], none, all);
            match found[0] {
                None => probed == batch::probe_many(
                    route,
                    tier + 1,
                    missing::<V>(),
                    seq![0int],
                    none,
                    s,
                ),
                Some(value) => probed == (Probed::<K, V, E>::Resolved {
                    statuses: seq![KeyStatus::Hit { tier: tier as usize, value }],
                    failures: none,
                    rest: s,
                }),
            }
        }),
{
    let none = Seq::<Failure<E>>::empty();
    let pending = seq![0int];
    let all = seq![Reply::<K, V, E>::GotMany(Ok(found))] + s;
    assert(all.skip(1) =~= s);
    assert(batch::paired(pending, found) == 1);
    reveal_with_fuel(batch::resolved, 2);
    reveal_with_fuel(batch::missing, 2);
    let after = batch::resolved(missing::<V>(), pending, tier, found, 1);
    let left = batch::missing(pending, found, 1);
    assert(batch::probe_many(route, tier, missing::<V>(), pending, none, all) == batch::probe_many(
        route,
        tier + 1,
        after,
        left,
        none,
        s,
    ));
    match found[0] {
        None => {
            assert(after =~= missing::<V>());
            assert(left =~= pending);
        },
        Some(value) => {
            assert(after =~= seq![KeyStatus::Hit { tier: tier as usize, value }]);
            assert(left =~= Seq::<int>::empty());
        },
    }
}

proof fn lemma_fetched<K, V, E>(
    run: ReadRun<K, V, E>,
    route: Route,
    key: K,
    tier: int,
    served: int,
    value: V,
)
    requires
        run.honest(route, key),
        route.lanes.len() <= usize::MAX,
        route.policy.read.promote != Promote::Never,
        route.writable(0),
        run.log.step() is Done,
        0 <= tier <= served < route.lanes.len(),
        tier <= run.log.replies.len(),
        probes(run, tier),
        run.worlds[tier] == run.worlds[0],
        forall|i: int|
            0 <= i < tier ==> #[trigger] run.log.asked()[i] == (ReadManyMove::<K, V, E>::GetMany {
                tier: i,
                pending: seq![0int],
            }),
        forall|t: int|
            tier <= t < served ==> !(#[trigger] run.worlds[0][t]).contains_key(key),
        run.worlds[0][served].contains_key(key),
        run.worlds[0][served][key] == value,
    ensures
        fetched(run, key, served, value),
    decreases served - tier,
{
    let log = run.log;
    let replies = log.replies;
    let none = Seq::<Reply<K, V, E>>::empty();
    assert(replies.take(tier) + none =~= replies.take(tier));
    assert((ReadManyLog { replies: replies.take(tier) + none, ..log }) =~= log.prefix(tier));
    assert(log.prefix(tier).step() == ReadManyMove::<K, V, E>::GetMany {
        tier,
        pending: seq![0int],
    });
    if tier == replies.len() {
        assert(log.prefix(tier) =~= log);
    } else {
        assert(log.asked()[tier] == log.prefix(tier).step());
        let reply = replies[tier];
        assert(answers(
            key,
            run.found(tier),
            log.asked()[tier],
            reply,
            run.worlds[tier],
            run.worlds[tier + 1],
        ));
        if let Reply::GotMany(Ok(found)) = reply {
            let held = run.worlds[0][tier];
            assert(found[0] == if held.contains_key(seq![key][seq![0int][0]]) {
                Some(held[key])
            } else {
                None
            });
            assert forall|s: Seq<Reply<K, V, E>>| #[trigger] (ReadManyLog {
                replies: replies.take(tier + 1) + s,
                ..log
            }).probed() == batch::probe_many(
                route,
                tier,
                missing::<V>(),
                seq![0int],
                Seq::<Failure<E>>::empty(),
                seq![reply] + s,
            ) by {
                assert(replies.take(tier) + (seq![reply] + s) =~= replies.take(tier + 1) + s);
                assert((ReadManyLog { replies: replies.take(tier) + (seq![reply] + s), ..log })
                    =~= (ReadManyLog { replies: replies.take(tier + 1) + s, ..log }));
            }
            if tier < served {
                assert(!run.worlds[0][tier].contains_key(key));
                assert forall|s: Seq<Reply<K, V, E>>| #[trigger] (ReadManyLog {
                    replies: replies.take(tier + 1) + s,
                    ..log
                }).probed() == batch::probe_many(
                    route,
                    tier + 1,
                    missing::<V>(),
                    seq![0int],
                    Seq::<Failure<E>>::empty(),
                    s,
                ) by {
                    lemma_probe_step(route, tier, found, s);
                }
                lemma_fetched(run, route, key, tier + 1, served, value);
            } else {
                assert forall|s: Seq<Reply<K, V, E>>| #[trigger] (ReadManyLog {
                    replies: replies.take(tier + 1) + s,
                    ..log
                }).probed() == (Probed::<K, V, E>::Resolved {
                    statuses: seq![KeyStatus::Hit { tier: served as usize, value }],
                    failures: Seq::<Failure<E>>::empty(),
                    rest: s,
                }) by {
                    lemma_probe_step(route, tier, found, s);
                }
                lemma_lifted(run, route, key, served, value);
            }
        } else {
            assert(false);
        }
    }
}

/// From the hit on.
proof fn lemma_lifted<K, V, E>(
    run: ReadRun<K, V, E>,
    route: Route,
    key: K,
    served: int,
    value: V,
)
    requires
        run.honest(route, key),
        route.policy.read.promote != Promote::Never,
        route.writable(0),
        run.log.step() is Done,
        0 <= served < route.lanes.len() <= usize::MAX,
        served < run.log.replies.len(),
        run.worlds[served + 1] == run.worlds[0],
        forall|i: int|
            0 <= i <= served ==> #[trigger] run.log.asked()[i] == (ReadManyMove::<
                K,
                V,
                E,
            >::GetMany { tier: i, pending: seq![0int] }),
        resolves(run, served, value),
        run.worlds[0][served].contains_key(key),
        run.worlds[0][served][key] == value,
    ensures
        fetched(run, key, served, value),
{
    let log = run.log;
    let replies = log.replies;
    let at = served + 1;
    let none = Seq::<Reply<K, V, E>>::empty();
    assert(replies.take(at) + none =~= replies.take(at));
    assert((ReadManyLog { replies: replies.take(at) + none, ..log }) =~= log.prefix(at));
    lemma_promotes_once(route, served, value, none);
    assert(run.found(at) == Some(value));
    if at == replies.len() {
        assert(log.prefix(at) =~= log);
    } else {
        assert(log.asked()[at] == log.prefix(at).step());
        let written = replies[at];
        assert(answers(
            key,
            run.found(at),
            log.asked()[at],
            written,
            run.worlds[at],
            run.worlds[at + 1],
        ));
        assert(served > 0);
        assert(run.worlds[at + 1][0].contains_key(key));
        lemma_top_keeps(run, route, key, served, value, replies.len() as int);
        assert forall|i: int| 0 <= i < replies.len() implies match #[trigger] log.asked()[i] {
            ReadManyMove::GetMany { tier, .. } => i <= served && tier == i,
            _ => i > served,
        } by {
            if i > at {
                lemma_top_keeps(run, route, key, served, value, i);
                assert(log.asked()[i] == log.prefix(i).step());
            }
        }
        assert(log.prefix(replies.len() as int) =~= log);
    }
}

/// Once the key is in the topmost tier it stays there.
proof fn lemma_top_keeps<K, V, E>(
    run: ReadRun<K, V, E>,
    route: Route,
    key: K,
    served: int,
    value: V,
    count: int,
)
    requires
        run.honest(route, key),
        route.policy.read.promote != Promote::Never,
        route.writable(0),
        0 < served < route.lanes.len() <= usize::MAX,
        served + 1 < count <= run.log.replies.len(),
        run.log.asked()[served + 1] matches ReadManyMove::Promote { tier, .. } && tier == 0,
        resolves(run, served, value),
        run.worlds[served + 2].len() == run.worlds[0].len(),
        run.worlds[served + 2][0].contains_key(key),
        run.worlds[served + 2][0][key] == value,
    ensures
        run.worlds[count].len() == run.worlds[0].len(),
        run.worlds[count][0].contains_key(key),
        run.worlds[count][0][key] == value,
        lower_down(
            run.log.prefix(count).step(),
            seq![KeyStatus::Hit { tier: served as usize, value }],
        ),
    decreases count,
{
    let log = run.log;
    let replies = log.replies;
    let at = served + 1;
    assert(answers(
        key,
        run.found(at),
        log.asked()[at],
        replies[at],
        run.worlds[at],
        run.worlds[at + 1],
    ));
    let s = replies.take(count).skip(at);
    assert(replies.take(at) + s =~= replies.take(count));
    assert((ReadManyLog { replies: replies.take(at) + s, ..log }) =~= log.prefix(count));
    assert(s[0] == replies[at]);
    lemma_promotes_once(route, served, value, s);
    if count > at + 1 {
        lemma_top_keeps(run, route, key, served, value, count - 1);
        assert(log.asked()[count - 1] == log.prefix(count - 1).step());
        assert(answers(
            key,
            run.found(count - 1),
            log.asked()[count - 1],
            replies[count - 1],
            run.worlds[count - 1],
            run.worlds[count],
        ));
    }
}

/// A finished read serves the key from the topmost tier that holds it, and
/// leaves it in the topmost tier of all.
proof fn lemma_one_read<K, V, E>(
    run: ReadRun<K, V, E>,
    route: Route,
    key: K,
    served: int,
    value: V,
)
    requires
        run.honest(route, key),
        route.lanes.len() <= usize::MAX,
        route.policy.read.promote != Promote::Never,
        route.writable(0),
        run.log.step() is Done,
        0 <= served < route.lanes.len(),
        forall|t: int|
            0 <= t < served ==> !(#[trigger] run.worlds[0][t]).contains_key(key),
        run.worlds[0][served].contains_key(key),
        run.worlds[0][served][key] == value,
    ensures
        fetched(run, key, served, value),
{
    let log = run.log;
    assert forall|s: Seq<Reply<K, V, E>>| #[trigger] (ReadManyLog {
        replies: log.replies.take(0) + s,
        ..log
    }).probed() == batch::probe_many(
        route,
        0,
        missing::<V>(),
        seq![0int],
        Seq::<Failure<E>>::empty(),
        s,
    ) by {
        assert(log.replies.take(0) + s =~= s);
        assert(Seq::new(log.keys.len(), |i: int| KeyStatus::<V>::Miss) =~= missing::<V>());
        assert(Seq::new(log.keys.len(), |i: int| i) =~= seq![0int]);
    }
    lemma_fetched(run, route, key, 0, served, value);
}

/// Whether a lookup holds the lock.
pub open spec fn holds<K, V, E>(log: LookupLog<K, V, E>) -> bool {
    1 <= log.replies.len() <= 2
}

/// One answer to one of many lookups. A read comes with what it did.
#[verifier::reject_recursive_types(K)]
pub struct Turn<K, V, E> {
    /// Which lookup is answered.
    pub who: int,
    /// The answer.
    pub reply: LookupReply<V, E>,
    /// The read that gave the answer, if it is that of a read.
    pub read: Option<ReadRun<K, V, E>>,
}

/// Whether `result` is the result of a read of one key as a batch of one.
pub open spec fn unpacks<V, E>(
    result: Result<ReadOneReport<V, E>, crate::error::RouterError<E>>,
    outcome: Result<(Seq<KeyStatus<V>>, Seq<Failure<E>>), Trouble<E>>,
) -> bool {
    match (result, outcome) {
        (Ok(report), Ok((statuses, failures))) => statuses.len() > 0 && report.status
            == statuses.last() && error::failures_of(report.failures@) == failures,
        (Err(error), Err(trouble)) => error@ == trouble,
        _ => false,
    }
}

/// Whether `turn` may come when the lookups stand at `lookups` and the tiers
/// hold `before`, and the tiers then hold `after`. The lock is given only when
/// nobody holds it; reads run over honest tiers; nothing else touches them.
pub open spec fn may_come<K, V, E>(
    route: Route,
    key: K,
    lookups: Seq<LookupLog<K, V, E>>,
    turn: Turn<K, V, E>,
    before: Seq<Map<K, V>>,
    after: Seq<Map<K, V>>,
) -> bool {
    &&& 0 <= turn.who < lookups.len()
    &&& lookups[turn.who].step().fits(turn.reply)
    &&& match turn.reply {
        LookupReply::Acquired => turn.read is None && after == before && forall|i: int|
            0 <= i < lookups.len() ==> !holds(#[trigger] lookups[i]),
        LookupReply::Read(result) => turn.read matches Some(run) && {
            &&& run.honest(route, key)
            &&& run.worlds[0] == before
            &&& run.worlds.last() == after
            &&& run.log.step() matches ReadManyMove::Done(outcome) && unpacks(result, outcome)
        },
        LookupReply::Released => turn.read is None && after == before,
    }
}

/// Any number of coalesced lookups of one key: the logs of all of them, and
/// what the tiers hold, at the start and after every answer.
#[verifier::reject_recursive_types(K)]
pub struct LookupParty<K, V, E> {
    /// The logs.
    pub states: Seq<Seq<LookupLog<K, V, E>>>,
    /// What the tiers hold.
    pub worlds: Seq<Seq<Map<K, V>>>,
    /// The answers.
    pub turns: Seq<Turn<K, V, E>>,
}

impl<K, V, E> LookupParty<K, V, E> {
    /// Whether everyone starts afresh, and every answer is one that may come.
    pub open spec fn goes_by_the_lock(self, route: Route, key: K) -> bool {
        &&& self.states.len() == self.turns.len() + 1
        &&& self.worlds.len() == self.turns.len() + 1
        &&& self.worlds[0].len() == route.lanes.len()
        &&& forall|i: int|
            0 <= i < self.states[0].len() ==> #[trigger] self.states[0][i] == LookupLog::<
                K,
                V,
                E,
            >::begin(key, true)
        &&& forall|t: int|
            0 <= t < self.turns.len() ==> {
                let turn = #[trigger] self.turns[t];
                &&& may_come(
                    route,
                    key,
                    self.states[t],
                    turn,
                    self.worlds[t],
                    self.worlds[t + 1],
                )
                &&& self.states[t + 1] == self.states[t].update(
                    turn.who,
                    self.states[t][turn.who].answered(turn.reply),
                )
            }
    }

    /// Whether the `t`-th answer is that of a read whose `i`-th request asked
    /// `tier`.
    pub open spec fn asks(self, t: int, i: int, tier: int) -> bool {
        &&& 0 <= t < self.turns.len()
        &&& self.turns[t].read matches Some(run)
        &&& run.asks(i, tier)
    }

    /// Whether some read has ended before the `t`-th answer.
    spec fn started(self, t: int) -> bool {
        exists|u: int| 0 <= u < t && (#[trigger] self.turns[u]).read is Some
    }
}

/// At most one lookup holds the lock at any time.
spec fn exclusive<K, V, E>(lookups: Seq<LookupLog<K, V, E>>) -> bool {
    &&& forall|i: int|
        0 <= i < lookups.len() ==> (#[trigger] lookups[i]).sound() && lookups[i].coalesced
    &&& forall|i: int, j: int|
        0 <= i < lookups.len() && 0 <= j < lookups.len() && #[trigger] holds(lookups[i])
            && #[trigger] holds(lookups[j]) ==> i == j
}

/// Whoever has read found `value`.
spec fn found_by_all<K, V, E>(lookups: Seq<LookupLog<K, V, E>>, value: V) -> bool {
    forall|i: int|
        0 <= i < lookups.len() ==> ((#[trigger] lookups[i]).result() matches Some(result) ==> (
        result matches Ok(report) && report.status.found() == Some(value)))
}

/// What the tiers hold at time `t`: what they held at the start, until a read
/// has ended; from then on the topmost tier holds the key.
spec fn warmed<K, V, E>(party: LookupParty<K, V, E>, key: K, value: V, t: int) -> bool {
    &&& party.worlds[t].len() == party.worlds[0].len()
    &&& if party.started(t) {
        party.worlds[t][0].contains_key(key) && party.worlds[t][0][key] == value
    } else {
        party.worlds[t] == party.worlds[0]
    }
}

/// Whether `cold` is the topmost tier that holds `key`, below the topmost of
/// all, with `value`.
pub open spec fn only_below<K, V>(
    contents: Seq<Map<K, V>>,
    key: K,
    cold: int,
    value: V,
) -> bool {
    &&& 0 < cold < contents.len()
    &&& contents[cold].contains_key(key)
    &&& contents[cold][key] == value
    &&& forall|t: int| 0 <= t < cold ==> !(#[trigger] contents[t]).contains_key(key)
}

/// What one more read does.
proof fn lemma_read_turn<K, V, E>(
    party: LookupParty<K, V, E>,
    route: Route,
    key: K,
    cold: int,
    value: V,
    t: int,
)
    requires
        party.goes_by_the_lock(route, key),
        route.lanes.len() <= usize::MAX,
        route.policy.read.promote != Promote::Never,
        route.writable(0),
        only_below(party.worlds[0], key, cold, value),
        0 <= t < party.turns.len(),
        warmed(party, key, value, t),
        party.turns[t].read is Some,
    ensures
        ({
            let run = party.turns[t].read.unwrap();
            &&& fetched(
                run,
                key,
                if party.started(t) {
                    0
                } else {
                    cold
                },
                value,
            )
            &&& forall|i: int| #[trigger]
                party.asks(t, i, cold) <==> !party.started(t) && i == cold
            &&& warmed(party, key, value, t + 1)
        }),
{
    let run = party.turns[t].read.unwrap();
    let served = if party.started(t) {
        0int
    } else {
        cold
    };
    assert(may_come(
        route,
        key,
        party.states[t],
        party.turns[t],
        party.worlds[t],
        party.worlds[t + 1],
    ));
    lemma_one_read(run, route, key, served, value);
    assert(party.started(t + 1)) by {
        assert(party.turns[t].read is Some);
    }
    assert forall|i: int| #[trigger]
        party.asks(t, i, cold) <==> !party.started(t) && i == cold by {
        if 0 <= i < run.log.replies.len() {
            assert(match run.log.asked()[i] {
                ReadManyMove::GetMany { tier, .. } => i <= served && tier == i,
                _ => i > served,
            });
        }
    }
}

proof fn lemma_exclusive<K, V, E>(
    party: LookupParty<K, V, E>,
    route: Route,
    key: K,
    t: int,
)
    requires
        party.goes_by_the_lock(route, key),
        0 <= t < party.states.len(),
    ensures
        exclusive(party.states[t]),
        party.states[t].len() == party.states[0].len(),
    decreases t,
{
    if t == 0 {
        let lookups = party.states[0];
        assert forall|i: int| 0 <= i < lookups.len() implies (
        #[trigger] lookups[i]).replies.len() == 0 && lookups[i].coalesced by {
            assert(lookups[i] == LookupLog::<K, V, E>::begin(key, true));
        }
    } else {
        let u = t - 1;
        lemma_exclusive(party, route, key, u);
        let turn = party.turns[u];
        let before = party.states[u];
        let after = party.states[t];
        let old = before[turn.who];
        let new = old.answered(turn.reply);
        assert(may_come(route, key, before, turn, party.worlds[u], party.worlds[t]));
        assert(old.sound());
        history::law_lookup_logs_are_sound(old.key, old.coalesced, old, turn.reply);
        assert forall|i: int| 0 <= i < after.len() implies (#[trigger] after[i]).sound()
            && after[i].coalesced by {
            assert(before[i].sound());
        }
        assert forall|i: int, j: int|
            0 <= i < after.len() && 0 <= j < after.len() && #[trigger] holds(after[i])
                && #[trigger] holds(after[j]) implies i == j by {
            if i != j {
                if i == turn.who {
                    assert(holds(before[j]));
                    if !holds(old) {
                        assert(turn.reply is Acquired);
                    }
                } else if j == turn.who {
                    assert(holds(before[i]));
                    if !holds(old) {
                        assert(turn.reply is Acquired);
                    }
                } else {
                    assert(holds(before[i]) && holds(before[j]));
                }
            }
        }
    }
}

proof fn lemma_party<K, V, E>(
    party: LookupParty<K, V, E>,
    route: Route,
    key: K,
    cold: int,
    value: V,
    t: int,
)
    requires
        party.goes_by_the_lock(route, key),
        route.lanes.len() <= usize::MAX,
        route.policy.read.promote != Promote::Never,
        route.writable(0),
        only_below(party.worlds[0], key, cold, value),
        0 <= t < party.states.len(),
    ensures
        found_by_all(party.states[t], value),
        warmed(party, key, value, t),
    decreases t,
{
    if t == 0 {
        let lookups = party.states[0];
        assert forall|i: int| 0 <= i < lookups.len() implies (
        #[trigger] lookups[i]).replies.len() == 0 by {
            assert(lookups[i] == LookupLog::<K, V, E>::begin(key, true));
        }
    } else {
        let u = t - 1;
        lemma_party(party, route, key, cold, value, u);
        lemma_exclusive(party, route, key, u);
        let turn = party.turns[u];
        let before = party.states[u];
        let after = party.states[t];
        let old = before[turn.who];
        let new = old.answered(turn.reply);
        assert(may_come(route, key, before, turn, party.worlds[u], party.worlds[t]));
        assert(old.sound());
        if turn.read is Some {
            lemma_read_turn(party, route, key, cold, value, u);
        } else {
            assert(party.started(t) == party.started(u)) by {
                if party.started(t) {
                    let w = choose|w: int| 0 <= w < t && (#[trigger] party.turns[w]).read is Some;
                    assert(w < u);
                }
                if party.started(u) {
                    let w = choose|w: int| 0 <= w < u && (#[trigger] party.turns[w]).read is Some;
                    assert(party.turns[w].read is Some);
                }
            }
        }
        let n = old.replies.len() as int;
        assert(forall|k: int| 0 <= k < n ==> #[trigger] new.replies[k] == old.replies[k]);
        assert(new.replies[n] == turn.reply);
        assert forall|i: int| 0 <= i < after.len() implies ((
        #[trigger] after[i]).result() matches Some(result) ==> (result matches Ok(report)
            && report.status.found() == Some(value))) by {
            assert(before[i].result() is Some ==> after[i].result() == before[i].result());
        }
    }
}

/// If a read has ended, there was a first one.
proof fn lemma_first_read<K, V, E>(party: LookupParty<K, V, E>, t: int) -> (first: int)
    requires
        party.started(t),
    ensures
        0 <= first < t,
        party.turns[first].read is Some,
        !party.started(first),
    decreases t,
{
    let u = choose|u: int| 0 <= u < t && (#[trigger] party.turns[u]).read is Some;
    if party.started(u) {
        lemma_first_read(party, u)
    } else {
        u
    }
}

/// Concurrent lookups of one key read one at a time, under any policy: however
/// the answers to any number of lookups are interleaved, at most one of them
/// is reading.
pub proof fn law_one_lookup_reads_at_a_time<K, V, E>(
    party: LookupParty<K, V, E>,
    route: Route,
    key: K,
    i: int,
    j: int,
)
    requires
        party.goes_by_the_lock(route, key),
        0 <= i < party.states.last().len(),
        0 <= j < party.states.last().len(),
        party.states.last()[i].step() is Read,
        party.states.last()[j].step() is Read,
    ensures
        i == j,
{
    let lookups = party.states.last();
    lemma_exclusive(party, route, key, party.states.len() - 1);
    lemma_reading_holds(lookups[i]);
    lemma_reading_holds(lookups[j]);
    assert(holds(lookups[i]) && holds(lookups[j]));
}

/// Concurrent lookups of one key coalesce. However the answers to any number
/// of lookups of a key that only lower tiers hold are interleaved, under any
/// policy that promotes into a writable topmost tier that keeps what it is
/// given: whoever is done found the value; the tier that held it was asked
/// once, by one read only; and if anyone is done it was asked.
pub proof fn law_concurrent_lookups_share_one_fetch<K, V, E>(
    party: LookupParty<K, V, E>,
    route: Route,
    key: K,
    cold: int,
    value: V,
)
    requires
        party.goes_by_the_lock(route, key),
        route.lanes.len() <= usize::MAX,
        route.policy.read.promote != Promote::Never,
        route.writable(0),
        only_below(party.worlds[0], key, cold, value),
    ensures
        ({
            let lookups = party.states.last();
            &&& forall|i: int|
                0 <= i < lookups.len() ==> ((#[trigger] lookups[i]).step() matches LookupStep::Done(
                    result,
                ) ==> (result matches Ok(report) && report.status.found() == Some(value)))
            &&& forall|t: int, i: int, u: int, j: int| #[trigger]
                party.asks(t, i, cold) && #[trigger] party.asks(u, j, cold) ==> t == u && i == j
            &&& (exists|i: int| 0 <= i < lookups.len() && (#[trigger] lookups[i]).step() is Done)
                ==> exists|t: int, i: int| #[trigger] party.asks(t, i, cold)
        }),
{
    let last = party.states.len() - 1;
    let lookups = party.states.last();
    lemma_party(party, route, key, cold, value, last);
    lemma_exclusive(party, route, key, last);
    assert forall|i: int| 0 <= i < lookups.len() implies ((
    #[trigger] lookups[i]).step() matches LookupStep::Done(result) ==> (result matches Ok(report)
        && report.status.found() == Some(value))) by {
        assert(lookups[i].sound());
    }
    assert forall|t: int, i: int, u: int, j: int| #[trigger]
        party.asks(t, i, cold) && #[trigger] party.asks(u, j, cold) implies t == u && i == j by {
        lemma_party(party, route, key, cold, value, t);
        lemma_party(party, route, key, cold, value, u);
        lemma_read_turn(party, route, key, cold, value, t);
        lemma_read_turn(party, route, key, cold, value, u);
        assert(party.turns[t].read is Some);
        assert(party.turns[u].read is Some);
    }
    if exists|i: int| 0 <= i < lookups.len() && (#[trigger] lookups[i]).step() is Done {
        let i = choose|i: int| 0 <= i < lookups.len() && (#[trigger] lookups[i]).step() is Done;
        lemma_done_means_read(party, route, key, last, i);
        let first = lemma_first_read(party, last);
        lemma_party(party, route, key, cold, value, first);
        lemma_read_turn(party, route, key, cold, value, first);
        assert(party.asks(first, cold, cold));
    }
}

/// Who is reading holds the lock.
proof fn lemma_reading_holds<K, V, E>(log: LookupLog<K, V, E>)
    requires
        log.sound(),
        log.coalesced,
        log.step() is Read,
    ensures
        holds(log),
{
    crate::laws::cache::law_lookup_holds_the_lock_around_its_read(log);
}

/// A lookup that has a result has read.
proof fn lemma_done_means_read<K, V, E>(
    party: LookupParty<K, V, E>,
    route: Route,
    key: K,
    t: int,
    i: int,
)
    requires
        party.goes_by_the_lock(route, key),
        0 <= t < party.states.len(),
        0 <= i < party.states[t].len(),
        party.states[t][i].result() is Some,
    ensures
        party.started(t),
    decreases t,
{
    if t == 0 {
        assert(party.states[0][i] == LookupLog::<K, V, E>::begin(key, true));
    } else {
        let turn = party.turns[t - 1];
        assert(may_come(
            route,
            key,
            party.states[t - 1],
            turn,
            party.worlds[t - 1],
            party.worlds[t],
        ));
        if turn.read is Some {
            assert(party.turns[t - 1].read is Some);
        } else {
            let old = party.states[t - 1][i];
            if turn.who == i {
                let n = old.replies.len() as int;
                let new = party.states[t][i];
                assert(forall|k: int| 0 <= k < n ==> #[trigger] new.replies[k] == old.replies[k]);
                assert(new.replies[n] == turn.reply);
            }
            lemma_done_means_read(party, route, key, t - 1, i);
            let u = choose|u: int| 0 <= u < t - 1 && (#[trigger] party.turns[u]).read is Some;
            assert(party.turns[u].read is Some);
        }
    }
}

} // verus!
