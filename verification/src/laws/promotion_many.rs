//! Batched promotion, over worlds of tiers.
use vstd::prelude::*;

use crate::batch;
use crate::batch::{Probed, ReadManyLog, ReadManyMove};
use crate::error::Failure;
use crate::laws::fills;
use crate::laws::read;
use crate::laws::readback;
use crate::laws::world;
use crate::report::KeyStatus;
use crate::rollover;
use crate::rollover::{Reply, Rolled};
use crate::router::Route;

verus! {

/// The entries that were found for the keys at positions `hits`.
pub open spec fn entries_at<K, V>(
    keys: Seq<K>,
    statuses: Seq<KeyStatus<V>>,
    hits: Seq<int>,
) -> Seq<(K, V)> {
    Seq::new(hits.len(), |p: int| (keys[hits[p]], statuses[hits[p]].found()->0))
}

/// Whether an honest tier answers the request `step` of a batched read, for
/// which `statuses` are known so far, with `reply`, and that turns the world
/// `before` into `after`.
pub open spec fn answers<K, V, E>(
    keys: Seq<K>,
    statuses: Option<Seq<KeyStatus<V>>>,
    step: ReadManyMove<K, V, E>,
    reply: Reply<K, V, E>,
    before: Seq<Map<K, V>>,
    after: Seq<Map<K, V>>,
) -> bool {
    match (step, reply) {
        (ReadManyMove::GetMany { tier, pending }, Reply::GotMany(reply)) => after == before
            && read::tells_many(Some(before[tier]), keys, pending, reply),
        (ReadManyMove::Promote { tier, hits }, Reply::Put(Ok(displaced))) => statuses matches Some(
            statuses,
        ) && world::writes_all(before, tier, entries_at(keys, statuses, hits), displaced, after),
        (ReadManyMove::Demote { tier, key, value }, Reply::Put(Ok(displaced))) => world::writes(
            before,
            tier,
            key,
            value,
            displaced,
            after,
        ),
        _ => false,
    }
}

/// A batched read over honest tiers, with the world before every request and
/// at the end.
#[verifier::reject_recursive_types(K)]
pub struct ReadManyRun<K, V, E> {
    /// What was asked and answered.
    pub log: ReadManyLog<K, V, E>,
    /// The worlds.
    pub worlds: Seq<Seq<Map<K, V>>>,
}

impl<K, V, E> ReadManyRun<K, V, E> {
    /// Whether every tier is honest, answers, and accepts every write.
    pub open spec fn honest(self) -> bool {
        &&& self.worlds.len() == self.log.replies.len() + 1
        &&& self.worlds[0].len() == self.log.route.lanes.len()
        &&& forall|i: int|
            0 <= i < self.log.replies.len() ==> answers(
                self.log.keys,
                self.log.prefix(i).statuses(),
                #[trigger] self.log.asked()[i],
                self.log.replies[i],
                self.worlds[i],
                self.worlds[i + 1],
            )
    }
}

/// How many answers a rollover that has settled consumed.
proof fn lemma_sink_settles<K, V, E>(
    route: Route,
    target: int,
    current: Seq<(K, V)>,
    replies: Seq<Reply<K, V, E>>,
) -> (used: int)
    requires
        rollover::sink(route, target, current, replies) is Settled,
    ensures
        0 <= used <= replies.len(),
        rollover::sink(route, target, current, replies) matches Rolled::Settled { rest, .. } && rest
            == replies.skip(used),
        forall|x: Seq<Reply<K, V, E>>|
            (#[trigger] rollover::sink(route, target, current, replies.take(used) + x)) matches
                Rolled::Settled { rest, .. } && rest == x,
    decreases route.lanes.len() - target, 1int, 0int,
{
    if target < 0 || target >= route.lanes.len() || current.len() == 0 {
        assert(replies.skip(0) =~= replies);
        assert forall|x: Seq<Reply<K, V, E>>|
            (#[trigger] rollover::sink(route, target, current, replies.take(0) + x)) matches
                Rolled::Settled { rest, .. } && rest == x by {
            assert(replies.take(0) + x =~= x);
        }
        0
    } else if !route.writable(target) {
        let used = lemma_sink_settles(route, target + 1, current, replies);
        assert forall|x: Seq<Reply<K, V, E>>|
            (#[trigger] rollover::sink(route, target, current, replies.take(used) + x)) matches
                Rolled::Settled { rest, .. } && rest == x by {
            assert(rollover::sink(route, target + 1, current, replies.take(used) + x) is Settled);
        }
        used
    } else {
        let used = lemma_offer_settles(route, target, current, Seq::empty(), replies);
        assert forall|x: Seq<Reply<K, V, E>>|
            (#[trigger] rollover::sink(route, target, current, replies.take(used) + x)) matches
                Rolled::Settled { rest, .. } && rest == x by {
            assert(rollover::offer(
                route,
                target,
                current,
                Seq::empty(),
                replies.take(used) + x,
            ) is Settled);
        }
        used
    }
}

proof fn lemma_offer_settles<K, V, E>(
    route: Route,
    target: int,
    rest: Seq<(K, V)>,
    next: Seq<(K, V)>,
    replies: Seq<Reply<K, V, E>>,
) -> (used: int)
    requires
        0 <= target < route.lanes.len(),
        rollover::offer(route, target, rest, next, replies) is Settled,
    ensures
        0 <= used <= replies.len(),
        rollover::offer(route, target, rest, next, replies) matches Rolled::Settled {
            rest: left,
            ..
        } && left == replies.skip(used),
        forall|x: Seq<Reply<K, V, E>>|
            (#[trigger] rollover::offer(route, target, rest, next, replies.take(used) + x)) matches
                Rolled::Settled { rest: left, .. } && left == x,
    decreases route.lanes.len() - target, 0int, rest.len(),
{
    if rest.len() == 0 {
        let used = lemma_sink_settles(route, target + 1, next, replies);
        assert forall|x: Seq<Reply<K, V, E>>|
            (#[trigger] rollover::offer(route, target, rest, next, replies.take(used) + x)) matches
                Rolled::Settled { rest: left, .. } && left == x by {
            assert(rollover::sink(route, target + 1, next, replies.take(used) + x) is Settled);
        }
        used
    } else {
        let others = rest.skip(1);
        let gathered = next + replies[0].displaced();
        let later = replies.skip(1);
        let used = lemma_offer_settles(route, target, others, gathered, later) + 1;
        assert(replies.skip(used) =~= later.skip(used - 1));
        assert forall|x: Seq<Reply<K, V, E>>|
            (#[trigger] rollover::offer(route, target, rest, next, replies.take(used) + x)) matches
                Rolled::Settled { rest: left, .. } && left == x by {
            let all = replies.take(used) + x;
            assert(all[0] == replies[0]);
            assert(all.skip(1) =~= later.take(used - 1) + x);
            assert(rollover::offer(route, target, others, gathered, later.take(used - 1) + x)
                is Settled);
        }
        used
    }
}

/// A finished batched promotion has asked for every copy that is due: those of
/// what tier `from` served into the tiers from `target` on, and those of what
/// the tiers below served.
proof fn lemma_asks_for_copy<K, V, E>(
    route: Route,
    statuses: Seq<KeyStatus<V>>,
    failures: Seq<Failure<E>>,
    from: int,
    target: int,
    replies: Seq<Reply<K, V, E>>,
    served: int,
    tier: int,
) -> (at: int)
    requires
        batch::promote_many(route, statuses, failures, from, target, replies) is Done,
        0 <= target,
        from <= served < route.lanes.len(),
        batch::served(statuses, served, statuses.len() as int).len() > 0,
        0 <= tier < route.policy.read.promote.reach(served),
        route.writable(tier),
        from == served ==> target <= tier,
    ensures
        0 <= at < replies.len(),
        batch::promote_many(route, statuses, failures, from, target, replies.take(at)) == (
        ReadManyMove::<K, V, E>::Promote {
            tier,
            hits: batch::served(statuses, served, statuses.len() as int),
        }),
    decreases
            route.lanes.len() - from,
            route.policy.read.promote.reach(from) - target,
{
    let hits = batch::served(statuses, from, statuses.len() as int);
    if target >= route.policy.read.promote.reach(from) || hits.len() == 0 {
        lemma_asks_for_copy(route, statuses, failures, from + 1, 0, replies, served, tier)
    } else if !route.writable(target) {
        lemma_asks_for_copy(route, statuses, failures, from, target + 1, replies, served, tier)
    } else if from == served && tier == target {
        assert(replies.take(0) =~= Seq::empty());
        0
    } else {
        let rest = replies.skip(1);
        let sunk = match replies[0] {
            Reply::Put(Ok(_)) => route.policy.demote_displaced,
            _ => false,
        };
        if sunk {
            let displaced = replies[0].displaced();
            let rolled = rollover::sink(route, target + 1, displaced, rest);
            assert(batch::promote_many(route, statuses, failures, from, target, replies)
                == batch::roll_many(route, statuses, failures, from, target + 1, rolled));
            let used = lemma_sink_settles(route, target + 1, displaced, rest);
            let left = rest.skip(used);
            let later = lemma_asks_for_copy(
                route,
                statuses,
                failures,
                from,
                target + 1,
                left,
                served,
                tier,
            );
            let at = 1 + used + later;
            let taken = replies.take(at);
            assert(taken[0] == replies[0]);
            assert(taken.skip(1) =~= rest.take(used) + left.take(later));
            let again = rollover::sink(route, target + 1, displaced, taken.skip(1));
            assert(again matches Rolled::Settled { rest, .. } && rest == left.take(later));
            assert(batch::promote_many(route, statuses, failures, from, target, taken)
                == batch::roll_many(route, statuses, failures, from, target + 1, again));
            at
        } else {
            let later = lemma_asks_for_copy(
                route,
                statuses,
                failures,
                from,
                target + 1,
                rest,
                served,
                tier,
            );
            let taken = replies.take(later + 1);
            assert(taken[0] == replies[0]);
            assert(taken.skip(1) =~= rest.take(later));
            later + 1
        }
    }
}

/// A batched promotion that displaces no entry for the key demotes none.
proof fn lemma_promote_spares<K, V, E>(
    route: Route,
    statuses: Seq<KeyStatus<V>>,
    failures: Seq<Failure<E>>,
    from: int,
    target: int,
    replies: Seq<Reply<K, V, E>>,
    key: K,
)
    requires
        fills::spares(replies, key),
    ensures
        batch::promote_many(route, statuses, failures, from, target, replies) matches
            ReadManyMove::Demote { key: k, .. } ==> k != key,
    decreases
            route.lanes.len() - from,
            route.policy.read.promote.reach(from) - target,
{
    let hits = batch::served(statuses, from, statuses.len() as int);
    if from >= route.lanes.len() {
    } else if target >= route.policy.read.promote.reach(from) || hits.len() == 0 {
        lemma_promote_spares(route, statuses, failures, from + 1, 0, replies, key);
    } else if !route.writable(target) {
        lemma_promote_spares(route, statuses, failures, from, target + 1, replies, key);
    } else if replies.len() > 0 {
        fills::lemma_spares_rest(replies, key);
        let rest = replies.skip(1);
        assert(fills::lacks(replies[0].displaced(), key));
        match replies[0] {
            Reply::Put(Ok(displaced)) => {
                if route.policy.demote_displaced {
                    let rolled = rollover::sink(route, target + 1, displaced, rest);
                    fills::lemma_sink_spares(route, target + 1, displaced, rest, key);
                    assert(batch::promote_many(route, statuses, failures, from, target, replies)
                        == batch::roll_many(route, statuses, failures, from, target + 1, rolled));
                    if let Rolled::Settled { rest: left, .. } = rolled {
                        lemma_promote_spares(
                            route,
                            statuses,
                            failures,
                            from,
                            target + 1,
                            left,
                            key,
                        );
                    }
                } else {
                    lemma_promote_spares(route, statuses, failures, from, target + 1, rest, key);
                }
            },
            Reply::Put(Err(_)) => {
                lemma_promote_spares(route, statuses, failures, from, target + 1, rest, key);
            },
            _ => {},
        }
    }
}

/// Probing asks tiers that there are.
proof fn lemma_asks_a_tier<K, V, E>(
    route: Route,
    tier: int,
    statuses: Seq<KeyStatus<V>>,
    pending: Seq<int>,
    failures: Seq<Failure<E>>,
    replies: Seq<Reply<K, V, E>>,
)
    ensures
        batch::probe_many(route, tier, statuses, pending, failures, replies) matches Probed::Ask {
            tier: t,
            ..
        } ==> tier <= t < route.lanes.len(),
    decreases route.lanes.len() - tier,
{
    if tier < route.lanes.len() && pending.len() > 0 && replies.len() > 0 {
        let rest = replies.skip(1);
        match replies[0] {
            Reply::GotMany(Ok(found)) => {
                let pairs = batch::paired(pending, found);
                lemma_asks_a_tier(
                    route,
                    tier + 1,
                    batch::resolved(statuses, pending, tier, found, pairs),
                    batch::missing(pending, found, pairs),
                    failures,
                    rest,
                );
            },
            Reply::GotMany(Err(source)) => {
                lemma_asks_a_tier(
                    route,
                    tier + 1,
                    statuses,
                    pending,
                    failures.push(route.failure(tier, source)),
                    rest,
                );
            },
            _ => {},
        }
    }
}

/// How many answers a probing that has ended consumed.
proof fn lemma_probing_ends<K, V, E>(
    route: Route,
    tier: int,
    statuses: Seq<KeyStatus<V>>,
    pending: Seq<int>,
    failures: Seq<Failure<E>>,
    replies: Seq<Reply<K, V, E>>,
) -> (used: int)
    requires
        batch::probe_many(route, tier, statuses, pending, failures, replies) is Resolved,
    ensures
        0 <= used <= replies.len(),
        batch::probe_many(route, tier, statuses, pending, failures, replies) matches
            Probed::Resolved { statuses: st, failures: fs, rest } && {
            &&& rest == replies.skip(used)
            &&& forall|x: Seq<Reply<K, V, E>>|
                (#[trigger] batch::probe_many(
                    route,
                    tier,
                    statuses,
                    pending,
                    failures,
                    replies.take(used) + x,
                )) == (Probed::<K, V, E>::Resolved { statuses: st, failures: fs, rest: x })
        },
    decreases route.lanes.len() - tier,
{
    if tier >= route.lanes.len() || pending.len() == 0 {
        assert(replies.skip(0) =~= replies);
        assert forall|x: Seq<Reply<K, V, E>>| #[trigger]
            batch::probe_many(route, tier, statuses, pending, failures, replies.take(0) + x) == (
            Probed::<K, V, E>::Resolved {
                statuses: batch::settled(statuses, pending, failures),
                failures,
                rest: x,
            }) by {
            assert(replies.take(0) + x =~= x);
        }
        0
    } else {
        let later = replies.skip(1);
        let (st, left, fs) = match replies[0] {
            Reply::GotMany(Ok(found)) => {
                let pairs = batch::paired(pending, found);
                (
                    batch::resolved(statuses, pending, tier, found, pairs),
                    batch::missing(pending, found, pairs),
                    failures,
                )
            },
            Reply::GotMany(Err(source)) => (
                statuses,
                pending,
                failures.push(route.failure(tier, source)),
            ),
            _ => (statuses, pending, failures),
        };
        let used = lemma_probing_ends(route, tier + 1, st, left, fs, later) + 1;
        assert(replies.skip(used) =~= later.skip(used - 1));
        let whole = batch::probe_many(route, tier, statuses, pending, failures, replies);
        assert forall|x: Seq<Reply<K, V, E>>|
            (#[trigger] batch::probe_many(
                route,
                tier,
                statuses,
                pending,
                failures,
                replies.take(used) + x,
            )) == (Probed::<K, V, E>::Resolved {
                statuses: whole->statuses,
                failures: whole->failures,
                rest: x,
            }) by {
            let all = replies.take(used) + x;
            assert(all[0] == replies[0]);
            assert(all.skip(1) =~= later.take(used - 1) + x);
            assert(batch::probe_many(route, tier + 1, st, left, fs, later.take(used - 1) + x) == (
            Probed::<K, V, E>::Resolved {
                statuses: whole->statuses,
                failures: whole->failures,
                rest: x,
            }));
        }
        used
    }
}

/// Where a batched read that has all its statuses stopped probing.
spec fn probed_until<K, V, E>(
    run: ReadManyRun<K, V, E>,
    statuses: Seq<KeyStatus<V>>,
    failures: Seq<Failure<E>>,
    end: int,
) -> bool {
    let log = run.log;
    &&& 0 <= end <= log.replies.len()
    &&& forall|count: int|
        #![trigger log.prefix(count)]
        end <= count <= log.replies.len() ==> log.prefix(count).probed() == (Probed::<
            K,
            V,
            E,
        >::Resolved { statuses, failures, rest: log.replies.subrange(end, count) })
    &&& forall|i: int| 0 <= i < end ==> #[trigger] log.asked()[i] is GetMany
}

proof fn lemma_probed_until<K, V, E>(
    run: ReadManyRun<K, V, E>,
    statuses: Seq<KeyStatus<V>>,
    failures: Seq<Failure<E>>,
) -> (end: int)
    requires
        run.honest(),
        run.log.probed() matches Probed::Resolved { statuses: st, failures: fs, .. } && st
            == statuses && fs == failures,
    ensures
        probed_until(run, statuses, failures, end),
{
    let log = run.log;
    let replies = log.replies;
    let none = Seq::<Failure<E>>::empty();
    let misses = Seq::new(log.keys.len(), |i: int| KeyStatus::<V>::Miss);
    let all = Seq::new(log.keys.len(), |i: int| i);
    let end = lemma_probing_ends(log.route, 0, misses, all, none, replies);
    assert forall|count: int|
        #![trigger log.prefix(count)]
        end <= count <= replies.len() implies log.prefix(count).probed() == (Probed::<
        K,
        V,
        E,
    >::Resolved { statuses, failures, rest: replies.subrange(end, count) }) by {
        assert(replies.take(end) + replies.subrange(end, count) =~= replies.take(count));
    }
    assert forall|i: int| 0 <= i < end implies #[trigger] log.asked()[i] is GetMany by {
        let early = replies.take(i);
        assert(log.asked()[i] == log.prefix(i).step());
        if log.prefix(i).probed() is Resolved {
            // Then no more answers would have been consumed.
            let used = lemma_probing_ends(log.route, 0, misses, all, none, early);
            assert(early.take(used) + replies.skip(used) =~= replies);
            assert(replies.skip(used).len() == replies.skip(end).len());
        } else {
            assert(answers(
                log.keys,
                log.prefix(i).statuses(),
                log.asked()[i],
                replies[i],
                run.worlds[i],
                run.worlds[i + 1],
            ));
        }
    }
    end
}

/// The tiers stay as they are while they are probed.
proof fn lemma_unchanged<K, V, E>(
    run: ReadManyRun<K, V, E>,
    statuses: Seq<KeyStatus<V>>,
    failures: Seq<Failure<E>>,
    end: int,
    count: int,
)
    requires
        run.honest(),
        probed_until(run, statuses, failures, end),
        0 <= count <= end,
    ensures
        run.worlds[count] == run.worlds[0],
    decreases count,
{
    if count > 0 {
        lemma_unchanged(run, statuses, failures, end, count - 1);
        assert(answers(
            run.log.keys,
            run.log.prefix(count - 1).statuses(),
            run.log.asked()[count - 1],
            run.log.replies[count - 1],
            run.worlds[count - 1],
            run.worlds[count],
        ));
    }
}

/// The statuses are what the tiers held: keys that are the same have the same
/// status, and hits come from tiers that there are.
proof fn lemma_same_key_same_status<K, V, E>(
    run: ReadManyRun<K, V, E>,
    statuses: Seq<KeyStatus<V>>,
    failures: Seq<Failure<E>>,
    end: int,
    i: int,
    j: int,
)
    requires
        run.honest(),
        run.log.route.lanes.len() <= usize::MAX,
        run.log.step() == ReadManyMove::<K, V, E>::Done(Ok((statuses, failures))),
        probed_until(run, statuses, failures, end),
        0 <= i < run.log.keys.len(),
        0 <= j < run.log.keys.len(),
        run.log.keys[i] == run.log.keys[j],
        statuses[i] is Hit,
    ensures
        statuses.len() == run.log.keys.len(),
        statuses[j] == statuses[i],
        statuses[i] matches KeyStatus::Hit { tier, .. } && tier < run.log.route.lanes.len(),
{
    let log = run.log;
    let replies = log.replies;
    let contents = run.worlds[0];
    let snapshot = readback::snapshot(contents);
    assert forall|k: int| 0 <= k < replies.len() implies (#[trigger] log.asked()[k]).fits(
        replies[k],
    ) && ((log.asked()[k], replies[k]) matches (
        ReadManyMove::GetMany { tier, pending },
        Reply::GotMany(reply),
    ) ==> read::tells_many(snapshot[tier], log.keys, pending, reply)) by {
        assert(answers(
            log.keys,
            log.prefix(k).statuses(),
            log.asked()[k],
            replies[k],
            run.worlds[k],
            run.worlds[k + 1],
        ));
        let misses = Seq::new(log.keys.len(), |i: int| KeyStatus::<V>::Miss);
        let all = Seq::new(log.keys.len(), |i: int| i);
        lemma_asks_a_tier(
            log.route,
            0,
            misses,
            all,
            Seq::<Failure<E>>::empty(),
            replies.take(k),
        );
        assert(log.asked()[k] == log.prefix(k).step());
        if let Probed::Resolved { statuses: st, failures: fs, rest } = log.prefix(k).probed() {
            read::lemma_promote_many_result(log.route, st, fs, 1, 0, rest);
        }
        if k < end {
            lemma_unchanged(run, statuses, failures, end, k);
        }
        if let ReadManyMove::GetMany { tier, .. } = log.asked()[k] {
            assert(0 <= tier < log.route.lanes.len());
            assert(snapshot[tier] == Some(contents[tier]));
        }
    }
    assert(log.sound());
    read::law_batched_read_returns_what_tiers_hold(log, snapshot);
    let on_error = log.route.policy.read.on_error;
    assert(read::describes(read::find(on_error, snapshot, log.keys[i], 0, false), statuses[i]));
    assert(read::describes(read::find(on_error, snapshot, log.keys[j], 0, false), statuses[j]));
    let depth = choose|depth: int| #[trigger]
        read::went_to(snapshot.len() as int, statuses, depth) && read::tiers_of(failures)
            == read::failing(snapshot, depth);
    assert(read::went_to(snapshot.len() as int, statuses, depth));
}

/// A write of entries that give the key no other value, and that displaces no
/// entry for the key, leaves the key there with the value.
proof fn lemma_batch_keeps<K, V>(
    before: Map<K, V>,
    entries: Seq<(K, V)>,
    displaced: Seq<(K, V)>,
    after: Map<K, V>,
    key: K,
    value: V,
)
    requires
        world::accepts_all(before, entries, displaced, after),
        fills::lacks(displaced, key),
        forall|p: int|
            0 <= p < entries.len() && (#[trigger] entries[p]).0 == key ==> entries[p].1 == value,
        (before.contains_key(key) && before[key] == value) || exists|p: int|
            0 <= p < entries.len() && (#[trigger] entries[p]).0 == key,
    ensures
        after.contains_key(key),
        after[key] == value,
    decreases entries.len(),
{
    if entries.len() > 0 {
        let earlier = entries.drop_last();
        let last = entries.last();
        let (count, between) = choose|count: int, between: Map<K, V>|
            0 <= count <= displaced.len() && world::accepts_all(
                before,
                earlier,
                displaced.take(count),
                between,
            ) && #[trigger] world::accepts(
                between,
                last.0,
                last.1,
                displaced.skip(count),
                after,
            );
        let pushed = displaced.skip(count);
        assert(!world::keys(pushed).contains(key)) by {
            if world::keys(pushed).contains(key) {
                let i = choose|i: int|
                    0 <= i < world::keys(pushed).len() && world::keys(pushed)[i] == key;
                assert(pushed[i] == displaced[count + i]);
                assert(displaced[count + i].0 == key);
            }
        }
        assert(entries[entries.len() - 1] == last);
        if last.0 != key {
            assert forall|p: int|
                0 <= p < earlier.len() && (#[trigger] earlier[p]).0 == key implies earlier[p].1
                == value by {
                assert(entries[p] == earlier[p]);
            }
            if exists|p: int| 0 <= p < entries.len() && (#[trigger] entries[p]).0 == key {
                let p = choose|p: int| 0 <= p < entries.len() && (#[trigger] entries[p]).0 == key;
                assert(earlier[p].0 == key);
            }
            assert(fills::lacks(displaced.take(count), key));
            lemma_batch_keeps(before, earlier, displaced.take(count), between, key, value);
        }
        let full = between.insert(last.0, last.1);
        assert(full.contains_key(key) && full[key] == value);
        assert(after.contains_key(key));
    }
}

/// Once a tier was sent its copy it keeps it.
proof fn lemma_copy_stays<K, V, E>(
    run: ReadManyRun<K, V, E>,
    statuses: Seq<KeyStatus<V>>,
    failures: Seq<Failure<E>>,
    end: int,
    i: int,
    value: V,
    tier: int,
    at: int,
    count: int,
)
    requires
        run.honest(),
        run.log.route.lanes.len() <= usize::MAX,
        run.log.step() == ReadManyMove::<K, V, E>::Done(Ok((statuses, failures))),
        probed_until(run, statuses, failures, end),
        fills::spares(run.log.replies, run.log.keys[i]),
        0 <= i < run.log.keys.len(),
        statuses[i] is Hit,
        statuses[i].found() == Some(value),
        0 <= tier < run.log.route.lanes.len(),
        end <= at < count <= run.log.replies.len(),
        run.log.asked()[at] matches ReadManyMove::Promote { tier: t, hits } && t == tier
            && hits.contains(i),
    ensures
        run.worlds[count].len() == run.worlds[0].len(),
        run.worlds[count][tier].contains_key(run.log.keys[i]),
        run.worlds[count][tier][run.log.keys[i]] == value,
    decreases count,
{
    let log = run.log;
    let replies = log.replies;
    let key = log.keys[i];
    let last = count - 1;
    let before = run.worlds[last];
    let after = run.worlds[count];
    let step = log.asked()[last];
    if at < last {
        lemma_copy_stays(run, statuses, failures, end, i, value, tier, at, last);
    } else {
        lemma_len(run, last);
    }
    assert(answers(
        log.keys,
        log.prefix(last).statuses(),
        step,
        replies[last],
        before,
        after,
    ));
    assert(log.prefix(last).probed() is Resolved);
    let s = replies.subrange(end, last);
    assert(step == log.prefix(last).step());
    read::lemma_promote_many_result(log.route, statuses, failures, 1, 0, s);
    assert(fills::lacks(replies[last].displaced(), key));
    match (step, replies[last]) {
        (ReadManyMove::Promote { tier: t, hits }, Reply::Put(Ok(displaced))) => {
            if t == tier {
                let entries = entries_at(log.keys, statuses, hits);
                let from = choose|from: int|
                    1 <= from < log.route.lanes.len() && t < log.route.policy.read.promote.reach(
                        from,
                    ) && hits == #[trigger] batch::served(statuses, from, statuses.len() as int);
                lemma_same_key_same_status(run, statuses, failures, end, i, i);
                batch::lemma_served(statuses, from, statuses.len() as int);
                assert forall|p: int|
                    0 <= p < entries.len() && (#[trigger] entries[p]).0 == key implies entries[p].1
                    == value by {
                    let j = hits[p];
                    assert(0 <= j < statuses.len());
                    lemma_same_key_same_status(run, statuses, failures, end, i, j);
                }
                if last == at {
                    let p = choose|p: int| 0 <= p < hits.len() && hits[p] == i;
                    assert(entries[p].0 == key);
                }
                lemma_batch_keeps(before[tier], entries, displaced, after[tier], key, value);
            } else {
                assert(after[tier] == before[tier]);
            }
        },
        (ReadManyMove::Demote { tier: t, key: k, .. }, Reply::Put(Ok(displaced))) => {
            assert(fills::spares(s, key)) by {
                assert forall|p: int| 0 <= p < s.len() implies fills::lacks(
                    #[trigger] s[p].displaced(),
                    key,
                ) by {
                    assert(fills::lacks(replies[end + p].displaced(), key));
                }
            }
            lemma_promote_spares(log.route, statuses, failures, 1, 0, s, key);
            if t == tier {
                assert(!world::keys(displaced).contains(key)) by {
                    if world::keys(displaced).contains(key) {
                        let p = choose|p: int|
                            0 <= p < world::keys(displaced).len() && world::keys(displaced)[p]
                                == key;
                        assert(displaced[p].0 == key);
                    }
                }
                assert(after[tier].contains_key(key));
            } else {
                assert(after[tier] == before[tier]);
            }
        },
        _ => {},
    }
}

proof fn lemma_len<K, V, E>(run: ReadManyRun<K, V, E>, count: int)
    requires
        run.honest(),
        0 <= count <= run.log.replies.len(),
    ensures
        run.worlds[count].len() == run.worlds[0].len(),
    decreases count,
{
    if count > 0 {
        lemma_len(run, count - 1);
        assert(answers(
            run.log.keys,
            run.log.prefix(count - 1).statuses(),
            run.log.asked()[count - 1],
            run.log.replies[count - 1],
            run.worlds[count - 1],
            run.worlds[count],
        ));
    }
}

/// Batched promotion copies values upward, under any policy. Over honest
/// tiers, when a batched read ends with a hit for a key, every writable tier
/// that the policy reaches from the tier that served it ends up holding the
/// key with the value, unless some write displaced the key. Inclusive
/// promotion reaches every tier above the serving one.
pub proof fn law_batched_promotion_copies_values_upward<K, V, E>(
    run: ReadManyRun<K, V, E>,
    statuses: Seq<KeyStatus<V>>,
    failures: Seq<Failure<E>>,
    i: int,
    served: usize,
    value: V,
    tier: int,
)
    requires
        run.honest(),
        run.log.route.lanes.len() <= usize::MAX,
        run.log.step() == ReadManyMove::<K, V, E>::Done(Ok((statuses, failures))),
        0 <= i < run.log.keys.len(),
        statuses[i] == (KeyStatus::Hit { tier: served, value }),
        fills::spares(run.log.replies, run.log.keys[i]),
        0 <= tier < run.log.route.policy.read.promote.reach(served as int),
        run.log.route.writable(tier),
    ensures
        run.worlds.last()[tier].contains_key(run.log.keys[i]),
        run.worlds.last()[tier][run.log.keys[i]] == value,
{
    let log = run.log;
    let route = log.route;
    let replies = log.replies;
    if let Probed::Resolved { statuses: st, failures: fs, rest } = log.probed() {
        read::lemma_promote_many_result(route, st, fs, 1, 0, rest);
    }
    let end = lemma_probed_until(run, statuses, failures);
    assert(log.prefix(replies.len() as int) =~= log);
    lemma_same_key_same_status(run, statuses, failures, end, i, i);
    let c = served as int;
    let s = replies.subrange(end, replies.len() as int);
    batch::lemma_served(statuses, c, statuses.len() as int);
    assert(statuses[i].served_by(c));
    let hits = batch::served(statuses, c, statuses.len() as int);
    assert(hits.contains(i));
    let later = lemma_asks_for_copy(route, statuses, failures, 1, 0, s, c, tier);
    let at = end + later;
    assert(s.take(later) =~= replies.subrange(end, at));
    assert(log.asked()[at] == log.prefix(at).step());
    lemma_copy_stays(
        run,
        statuses,
        failures,
        end,
        i,
        value,
        tier,
        at,
        replies.len() as int,
    );
}

} // verus!
