//! What a batched read asks for and returns, said of the answers that the
//! tiers gave.
use vstd::prelude::*;

use crate::batch;
use crate::batch::{ReadManyLog, ReadManyMove};
use crate::error::{Failure, Trouble};
use crate::fetch;
use crate::laws::outcomes;
use crate::laws::read;
use crate::laws::rolling;
use crate::policy::OnReadError;
use crate::report::KeyStatus;
use crate::rollover;
use crate::rollover::{Reply, Rolled};

verus! {

/// Whether the `i`-th answer gave `value` for the key at position `j`.
pub open spec fn found_at<K, V, E>(log: ReadManyLog<K, V, E>, i: int, j: int, value: V) -> bool {
    &&& 0 <= i < log.replies.len()
    &&& match (log.asked()[i], log.replies[i]) {
        (ReadManyMove::GetMany { pending, .. }, Reply::GotMany(Ok(found))) => exists|p: int|
            0 <= p < pending.len() && #[trigger] pending[p] == j && found[p] == Some(value),
        _ => false,
    }
}

/// Whether one of the first `i` answers gave a value for the key at position
/// `j`.
pub open spec fn found_above<K, V, E>(log: ReadManyLog<K, V, E>, i: int, j: int) -> bool {
    exists|t: int, value: V| 0 <= t < i && #[trigger] found_at(log, t, j, value)
}

/// Whether `hits` are the positions, in order, of the keys that the `i`-th
/// answer gave values for.
pub open spec fn are_found_at<K, V, E>(log: ReadManyLog<K, V, E>, hits: Seq<int>, i: int) -> bool {
    &&& forall|a: int, b: int| 0 <= a < b < hits.len() ==> hits[a] < hits[b]
    &&& forall|j: int| #[trigger]
        hits.contains(j) <==> exists|value: V| #[trigger] found_at(log, i, j, value)
}

/// Whether `pending` are the positions, in order, of the keys that none of
/// the first `i` answers gave a value for, and there are some.
pub open spec fn are_not_found<K, V, E>(
    log: ReadManyLog<K, V, E>,
    pending: Seq<int>,
    i: int,
) -> bool {
    &&& pending.len() > 0
    &&& forall|a: int, b: int| 0 <= a < b < pending.len() ==> pending[a] < pending[b]
    &&& forall|j: int| #[trigger]
        pending.contains(j) <==> 0 <= j < log.keys.len() && !found_above(log, i, j)
}

/// Whether the first `count` requests of a batched read are its probes: one
/// tier after the other, topmost first, is asked for the keys that are still
/// missing, and goes on past a tier that fails only if the policy says so.
pub open spec fn probes<K, V, E>(log: ReadManyLog<K, V, E>, count: int) -> bool {
    &&& 0 <= count <= log.replies.len()
    &&& count <= log.route.lanes.len()
    &&& forall|i: int|
        0 <= i < count ==> {
            &&& #[trigger] log.asked()[i] matches ReadManyMove::GetMany { tier, pending }
            &&& tier == i
            &&& are_not_found(log, pending, i)
            &&& log.route.policy.read.on_error == OnReadError::FailFast ==> !(
            log.replies[i] matches Reply::GotMany(Err(_)))
        }
}

/// Whether a batched read probed `count` tiers and nothing more is to be
/// probed: no tier is left, or no key.
pub open spec fn has_probed<K, V, E>(log: ReadManyLog<K, V, E>, count: int) -> bool {
    &&& probes(log, count)
    &&& count == log.route.lanes.len() || forall|j: int|
        0 <= j < log.keys.len() ==> #[trigger] found_above(log, count, j)
    &&& forall|i: int|
        count <= i < log.replies.len() ==> #[trigger] log.asked()[i] is Promote
            || log.asked()[i] is Demote
}

/// Whether what tier `from` found is to be copied into `tier`.
pub open spec fn wanted<K, V, E>(log: ReadManyLog<K, V, E>, from: int, tier: int) -> bool {
    &&& rolling::open_to_writes(log.route, tier)
    &&& outcomes::due(log.route.policy.read.promote, from, tier)
    &&& exists|j: int, value: V| #[trigger] found_at(log, from, j, value)
}

/// Whether a batched read asked for a copy of what tier `from` found into
/// `tier` among its first `count` requests.
pub open spec fn copied<K, V, E>(
    log: ReadManyLog<K, V, E>,
    from: int,
    tier: int,
    count: int,
) -> bool {
    exists|i: int|
        0 <= i < count && (#[trigger] log.asked()[i] matches ReadManyMove::Promote {
            tier: target,
            hits,
        } && target == tier && are_found_at(log, hits, from))
}

/// Whether the copies that the first `count` requests asked for are those of
/// what the tiers above `from` found, and those of what `from` found into the
/// tiers above `tier`.
pub open spec fn copied_until<K, V, E>(
    log: ReadManyLog<K, V, E>,
    from: int,
    tier: int,
    count: int,
) -> bool {
    forall|source: int, target: int| #[trigger]
        wanted(log, source, target) ==> (copied(log, source, target, count) <==> source < from || (
        source == from && target < tier))
}

/// Whether the next copy in turn is that of what tier `from` found, the
/// entries at positions `hits` with the values that it gave, into `tier`.
pub open spec fn copies_next<K, V, E>(
    log: ReadManyLog<K, V, E>,
    from: int,
    tier: int,
    hits: Seq<int>,
) -> bool {
    &&& wanted(log, from, tier)
    &&& are_found_at(log, hits, from)
    &&& copied_until(log, from, tier, log.replies.len() as int)
    &&& log.statuses() matches Some(statuses) && forall|j: int| #[trigger]
        hits.contains(j) ==> exists|value: V| #[trigger]
            found_at(log, from, j, value) && statuses[j].found() == Some(value)
}

/// Whether `statuses` tell of each key what the answers say: which tier gave
/// which value, or else that it is absent, if no tier failed, or else that
/// this is not known.
pub open spec fn tell_what_was_found<K, V, E>(
    log: ReadManyLog<K, V, E>,
    statuses: Seq<KeyStatus<V>>,
    failures: Seq<Failure<E>>,
) -> bool {
    &&& statuses.len() == log.keys.len()
    &&& forall|j: int|
        0 <= j < statuses.len() ==> match #[trigger] statuses[j] {
            KeyStatus::Hit { tier, value } => found_at(log, tier as int, j, value),
            KeyStatus::Miss => failures.len() == 0 && !found_above(
                log,
                log.replies.len() as int,
                j,
            ),
            KeyStatus::Inconclusive => failures.len() > 0 && !found_above(
                log,
                log.replies.len() as int,
                j,
            ),
        }
}

/// Which tiers failed a batched read, and with what.
pub open spec fn failed_in<K, V, E>(log: ReadManyLog<K, V, E>) -> spec_fn(int, E) -> bool {
    |tier: int, source: E|
        0 <= tier < log.replies.len() && log.replies[tier] == Reply::<K, V, E>::GotMany(
            Err(source),
        )
}

/// How a batched read stands.
pub open spec fn stands<K, V, E>(log: ReadManyLog<K, V, E>) -> bool {
    let asked = log.replies.len() as int;
    match log.step() {
        ReadManyMove::GetMany { tier, pending } => {
            &&& probes(log, asked)
            &&& tier == asked < log.route.lanes.len()
            &&& are_not_found(log, pending, asked)
        },
        ReadManyMove::Promote { tier, hits } => {
            &&& exists|count: int| has_probed(log, count)
            &&& exists|from: int| #[trigger] copies_next(log, from, tier, hits)
        },
        ReadManyMove::Demote { .. } => {
            &&& exists|count: int| has_probed(log, count)
            &&& log.route.policy.demote_displaced
        },
        ReadManyMove::Done(Ok((statuses, failures))) => {
            &&& exists|count: int| has_probed(log, count)
            &&& tell_what_was_found(log, statuses, failures)
            &&& outcomes::are_the_failures(log.route, failures, failed_in(log))
            &&& forall|from: int, tier: int| #[trigger]
                wanted(log, from, tier) ==> copied(log, from, tier, asked)
        },
        ReadManyMove::Done(Err(Trouble::Tier(failure))) => {
            &&& log.route.policy.read.on_error == OnReadError::FailFast
            &&& 0 < asked <= log.route.lanes.len()
            &&& probes(log, asked - 1)
            &&& failure.tier == asked - 1
            &&& failure.name == log.route.lanes[asked - 1].name
            &&& log.replies[asked - 1] == Reply::<K, V, E>::GotMany(Err(failure.source))
        },
        ReadManyMove::Done(Err(_)) => false,
    }
}

/// The answers to batched gets.
spec fn gets<K, V, E>(replies: Seq<Reply<K, V, E>>) -> Seq<Result<Seq<Option<V>>, E>> {
    replies.map_values(
        |reply: Reply<K, V, E>|
            match reply {
                Reply::GotMany(result) => result,
                _ => Ok(Seq::empty()),
            },
    )
}

/// The statuses hold what the first `count` answers gave.
spec fn known<K, V, E>(
    log: ReadManyLog<K, V, E>,
    statuses: Seq<KeyStatus<V>>,
    count: int,
) -> bool {
    &&& statuses.len() == log.keys.len()
    &&& forall|j: int|
        0 <= j < statuses.len() ==> match #[trigger] statuses[j] {
            KeyStatus::Hit { tier, value } => tier < count && found_at(log, tier as int, j, value),
            _ => !found_above(log, count, j),
        }
    &&& forall|t: int, j: int, value: V|
        t < count && #[trigger] found_at(log, t, j, value) ==> 0 <= j < statuses.len()
            && statuses[j] == (KeyStatus::Hit { tier: t as usize, value })
}

spec fn probed_to<K, V, E>(
    log: ReadManyLog<K, V, E>,
    tier: int,
    statuses: Seq<KeyStatus<V>>,
    pending: Seq<int>,
    failures: Seq<Failure<E>>,
) -> bool {
    &&& probes(log, tier)
    &&& known(log, statuses, tier)
    &&& forall|a: int, b: int| 0 <= a < b < pending.len() ==> pending[a] < pending[b]
    &&& forall|j: int| #[trigger]
        pending.contains(j) <==> 0 <= j < statuses.len() && statuses[j] is Miss
    &&& forall|j: int| 0 <= j < statuses.len() ==> !(#[trigger] statuses[j] is Inconclusive)
    &&& failures == fetch::failures_among(log.route, gets(log.replies.take(tier)))
    &&& forall|x: Seq<Reply<K, V, E>>|
        (#[trigger] (ReadManyLog { replies: log.replies.take(tier) + x, ..log }).probed())
            == batch::probe_many(log.route, tier, statuses, pending, failures, x)
}

proof fn lemma_finds<K, V, E>(
    log: ReadManyLog<K, V, E>,
    tier: int,
    pending: Seq<int>,
    found: Seq<Option<V>>,
    p: int,
    value: V,
)
    requires
        0 <= tier < log.replies.len(),
        log.asked()[tier] == (ReadManyMove::<K, V, E>::GetMany { tier, pending }),
        log.replies[tier] == Reply::<K, V, E>::GotMany(Ok(found)),
        0 <= p < pending.len(),
        found[p] == Some(value),
    ensures
        found_at(log, tier, pending[p], value),
{
    assert(log.asked()[tier]->GetMany_pending[p] == pending[p]);
    assert((log.asked()[tier], log.replies[tier]) == (
        ReadManyMove::<K, V, E>::GetMany { tier, pending },
        Reply::<K, V, E>::GotMany(Ok(found)),
    ));
}

proof fn lemma_learns<K, V, E>(
    log: ReadManyLog<K, V, E>,
    tier: int,
    statuses: Seq<KeyStatus<V>>,
    pending: Seq<int>,
    found: Seq<Option<V>>,
)
    requires
        0 <= tier < log.replies.len(),
        tier <= usize::MAX,
        known(log, statuses, tier),
        forall|a: int, b: int| 0 <= a < b < pending.len() ==> pending[a] < pending[b],
        forall|j: int| #[trigger]
            pending.contains(j) <==> 0 <= j < statuses.len() && statuses[j] is Miss,
        forall|j: int| 0 <= j < statuses.len() ==> !(#[trigger] statuses[j] is Inconclusive),
        log.asked()[tier] == (ReadManyMove::<K, V, E>::GetMany { tier, pending }),
        log.replies[tier] == Reply::<K, V, E>::GotMany(Ok(found)),
        found.len() == pending.len(),
    ensures
        ({
            let upto = pending.len() as int;
            let after = batch::resolved(statuses, pending, tier, found, upto);
            let left = batch::missing(pending, found, upto);
            &&& known(log, after, tier + 1)
            &&& forall|a: int, b: int| 0 <= a < b < left.len() ==> left[a] < left[b]
            &&& forall|j: int| #[trigger]
                left.contains(j) <==> 0 <= j < after.len() && after[j] is Miss
            &&& forall|j: int| 0 <= j < after.len() ==> !(#[trigger] after[j] is Inconclusive)
        }),
{
    let upto = pending.len() as int;
    let after = batch::resolved(statuses, pending, tier, found, upto);
    let left = batch::missing(pending, found, upto);
    assert(pending.no_duplicates());
    assert(batch::within(pending, statuses.len() as int)) by {
        assert forall|k: int| 0 <= k < pending.len() implies 0 <= #[trigger] pending[k]
            < statuses.len() by {
            assert(pending.contains(pending[k]));
        }
    }
    read::lemma_learned(statuses, pending, tier, found, upto);
    read::lemma_missing_ascends(pending, found, upto);
    assert(pending.take(upto) =~= pending);
    assert forall|j: int| 0 <= j < after.len() implies {
        &&& !(#[trigger] after[j] is Inconclusive)
        &&& left.contains(j) <==> after[j] is Miss
        &&& match after[j] {
            KeyStatus::Hit { tier: t, value } => t < tier + 1 && found_at(log, t as int, j, value),
            _ => !found_above(log, tier + 1, j),
        }
    } by {
        if pending.contains(j) {
            let p = choose|p: int| 0 <= p < pending.len() && pending[p] == j;
            assert(after[pending[p]] == match found[p] {
                Some(value) => KeyStatus::Hit { tier: tier as usize, value },
                None => statuses[j],
            });
            match found[p] {
                Some(value) => {
                    lemma_finds(log, tier, pending, found, p, value);
                    if left.contains(j) {
                        let q = choose|q: int|
                            0 <= q < upto && #[trigger] pending[q] == j && found[q] is None;
                        assert(p == q);
                    }
                },
                None => {
                    assert(left.contains(j));
                    if found_above(log, tier + 1, j) {
                        let (t, value) = choose|t: int, value: V|
                            0 <= t < tier + 1 && #[trigger] found_at(log, t, j, value);
                        if t < tier {
                            assert(found_above(log, tier, j));
                        } else {
                            let q = choose|q: int|
                                0 <= q < pending.len() && #[trigger] pending[q] == j && found[q]
                                    == Some(value);
                            assert(p == q);
                        }
                    }
                },
            }
        } else {
            assert(after[j] == statuses[j]);
            assert(statuses[j] is Hit);
            if left.contains(j) {
                let q = choose|q: int|
                    0 <= q < upto && #[trigger] pending[q] == j && found[q] is None;
                assert(pending.contains(j));
            }
        }
    }
    assert forall|j: int| #[trigger] left.contains(j) implies 0 <= j < after.len() by {
        let q = choose|q: int| 0 <= q < upto && #[trigger] pending[q] == j && found[q] is None;
        assert(pending.contains(j));
    }
    assert forall|t: int, j: int, value: V|
        t < tier + 1 && #[trigger] found_at(log, t, j, value) implies 0 <= j < after.len()
        && after[j] == (KeyStatus::Hit { tier: t as usize, value }) by {
        if t < tier {
            assert(statuses[j] is Hit);
            assert(!pending.contains(j));
            assert(after[j] == statuses[j]);
        } else {
            let q = choose|q: int|
                0 <= q < pending.len() && #[trigger] pending[q] == j && found[q] == Some(value);
            assert(pending.contains(j));
            assert(after[pending[q]] == (KeyStatus::Hit { tier: tier as usize, value }));
        }
    }
}

/// What a rollover in the middle of a batched read asks for, and where the
/// read goes on.
proof fn lemma_rolls<K, V, E>(
    log: ReadManyLog<K, V, E>,
    start: int,
    statuses: Seq<KeyStatus<V>>,
    failures: Seq<Failure<E>>,
    from: int,
    target: int,
    displaced: Seq<(K, V)>,
) -> (next: int)
    requires
        0 <= start <= log.replies.len(),
        forall|x: Seq<Reply<K, V, E>>|
            (#[trigger] (ReadManyLog { replies: log.replies.take(start) + x, ..log }).step())
                == batch::roll_many(
                log.route,
                statuses,
                failures,
                from,
                target,
                rollover::sink(log.route, target, displaced, x),
            ),
    ensures
        start <= next <= log.replies.len(),
        forall|i: int| start <= i < next ==> #[trigger] log.asked()[i] is Demote,
        match rollover::sink(log.route, target, displaced, log.replies.skip(start)) {
            Rolled::Ask { .. } => next == log.replies.len() && log.step() is Demote,
            Rolled::Settled { .. } => forall|x: Seq<Reply<K, V, E>>|
                (#[trigger] (ReadManyLog { replies: log.replies.take(next) + x, ..log }).step())
                    == batch::promote_many(log.route, statuses, failures, from, target, x),
        },
{
    let route = log.route;
    let replies = log.replies;
    let s = replies.skip(start);
    let play = rolling::sink_from::<K, V, E>(route, target, displaced);
    let used = rolling::lemma_sink_consumes(route, target, displaced, s);
    let next = start + used;
    assert forall|i: int| start <= i < next implies #[trigger] log.asked()[i] is Demote by {
        assert(replies.take(start) + s.take(i - start) =~= replies.take(i));
        assert((ReadManyLog { replies: replies.take(start) + s.take(i - start), ..log })
            =~= log.prefix(i));
        assert(play(s.take(i - start)) is Ask);
    }
    assert(replies.take(start) + s =~= replies);
    assert((ReadManyLog { replies: replies.take(start) + s, ..log }) =~= log);
    if let Rolled::Settled { evicted, .. } = play(s) {
        assert forall|x: Seq<Reply<K, V, E>>|
            (#[trigger] (ReadManyLog { replies: replies.take(next) + x, ..log }).step())
                == batch::promote_many(route, statuses, failures, from, target, x) by {
            assert(replies.take(start) + (s.take(used) + x) =~= replies.take(next) + x);
            assert((ReadManyLog { replies: replies.take(start) + (s.take(used) + x), ..log })
                =~= (ReadManyLog { replies: replies.take(next) + x, ..log }));
            assert(play(s.take(used) + x) == (Rolled::<K, V, E>::Settled { evicted, rest: x }));
        }
    }
    next
}

/// What tier `from` served is what its answer gave.
proof fn lemma_served_is_found<K, V, E>(
    log: ReadManyLog<K, V, E>,
    statuses: Seq<KeyStatus<V>>,
    count: int,
    from: int,
)
    requires
        known(log, statuses, count),
        count <= usize::MAX,
        0 <= from < log.route.lanes.len(),
        forall|i: int|
            count <= i < log.replies.len() ==> !(#[trigger] log.asked()[i] is GetMany),
    ensures
        are_found_at(log, batch::served(statuses, from, statuses.len() as int), from),
{
    let hits = batch::served(statuses, from, statuses.len() as int);
    batch::lemma_served(statuses, from, statuses.len() as int);
    assert forall|j: int| #[trigger] hits.contains(j) <==> exists|value: V| #[trigger]
        found_at(log, from, j, value) by {
        if hits.contains(j) {
            let k = choose|k: int| 0 <= k < hits.len() && hits[k] == j;
            assert(statuses[hits[k]].served_by(from));
            if let KeyStatus::Hit { tier, value } = statuses[j] {
                assert(found_at(log, from, j, value));
            }
        }
        if exists|value: V| #[trigger] found_at(log, from, j, value) {
            let value = choose|value: V| #[trigger] found_at(log, from, j, value);
            if from >= count {
                assert(!(log.asked()[from] is GetMany));
            }
            assert(statuses[j] == (KeyStatus::Hit { tier: from as usize, value }));
            assert(statuses[j].served_by(from));
        }
    }
}

proof fn lemma_copied_more<K, V, E>(
    log: ReadManyLog<K, V, E>,
    statuses: Seq<KeyStatus<V>>,
    count: int,
    from: int,
    target: int,
    start: int,
    next: int,
)
    requires
        known(log, statuses, count),
        count <= usize::MAX,
        0 <= count <= start < next <= log.replies.len(),
        0 <= from < log.route.lanes.len(),
        forall|i: int|
            count <= i < log.replies.len() ==> !(#[trigger] log.asked()[i] is GetMany),
        forall|i: int| start < i < next ==> #[trigger] log.asked()[i] is Demote,
        copied_until(log, from, target, start),
        log.asked()[start] matches ReadManyMove::Promote { tier, hits } && tier == target
            && are_found_at(log, hits, from) && hits.len() > 0,
    ensures
        copied_until(log, from, target + 1, next),
{
    let hits = log.asked()[start]->Promote_hits;
    assert forall|source: int, tier: int| #[trigger] wanted(log, source, tier) implies (copied(
        log,
        source,
        tier,
        next,
    ) <==> source < from || (source == from && tier < target + 1)) by {
        assert(copied(log, source, tier, start) <==> source < from || (source == from && tier
            < target));
        if copied(log, source, tier, start) {
            let i = choose|i: int|
                0 <= i < start && (#[trigger] log.asked()[i] matches ReadManyMove::Promote {
                    tier: into,
                    hits,
                } && into == tier && are_found_at(log, hits, source));
            assert(log.asked()[i] is Promote);
        }
        if source == from && tier == target {
            assert(log.asked()[start] is Promote);
        }
        if copied(log, source, tier, next) {
            let i = choose|i: int|
                0 <= i < next && (#[trigger] log.asked()[i] matches ReadManyMove::Promote {
                    tier: into,
                    hits,
                } && into == tier && are_found_at(log, hits, source));
            if i > start {
                assert(log.asked()[i] is Demote);
            } else if i < start {
                assert(log.asked()[i] is Promote);
                assert(copied(log, source, tier, start));
            } else {
                let j = hits[0];
                assert(hits.contains(j));
                let first = choose|value: V| #[trigger] found_at(log, from, j, value);
                let second = choose|value: V| #[trigger] found_at(log, source, j, value);
                assert(found_at(log, from, j, first));
                assert(found_at(log, source, j, second));
                lemma_found_above(log, statuses, count, from, j, first);
                lemma_found_above(log, statuses, count, source, j, second);
                assert(from == source);
            }
        }
    }
}

/// A value is found only by the probes.
proof fn lemma_found_above<K, V, E>(
    log: ReadManyLog<K, V, E>,
    statuses: Seq<KeyStatus<V>>,
    count: int,
    t: int,
    j: int,
    value: V,
)
    requires
        known(log, statuses, count),
        count <= usize::MAX,
        forall|i: int|
            count <= i < log.replies.len() ==> !(#[trigger] log.asked()[i] is GetMany),
        found_at(log, t, j, value),
    ensures
        t < count,
        statuses[j] == (KeyStatus::Hit { tier: t as usize, value }),
{
    if t >= count {
        assert(!(log.asked()[t] is GetMany));
    }
}

/// Where a batched read stands that has probed `count` tiers.
spec fn copying<K, V, E>(
    log: ReadManyLog<K, V, E>,
    count: int,
    statuses: Seq<KeyStatus<V>>,
    failures: Seq<Failure<E>>,
) -> bool {
    &&& log.sound()
    &&& count <= usize::MAX
    &&& has_probed(log, count)
    &&& log.statuses() == Some(statuses)
    &&& known(log, statuses, count)
    &&& tell_what_was_found(log, statuses, failures)
    &&& outcomes::are_the_failures(log.route, failures, failed_in(log))
}

proof fn lemma_asks_for_copy<K, V, E>(
    log: ReadManyLog<K, V, E>,
    count: int,
    statuses: Seq<KeyStatus<V>>,
    from: int,
    target: int,
    hits: Seq<int>,
)
    requires
        has_probed(log, count),
        log.step() == (ReadManyMove::<K, V, E>::Promote { tier: target, hits }),
        wanted(log, from, target),
        are_found_at(log, hits, from),
        copied_until(log, from, target, log.replies.len() as int),
        log.statuses() == Some(statuses),
        known(log, statuses, count),
        count <= usize::MAX,
        forall|i: int|
            count <= i < log.replies.len() ==> !(#[trigger] log.asked()[i] is GetMany),
    ensures
        stands(log),
{
    assert forall|j: int| #[trigger] hits.contains(j) implies exists|value: V| #[trigger]
        found_at(log, from, j, value) && statuses[j].found() == Some(value) by {
        let value = choose|value: V| #[trigger] found_at(log, from, j, value);
        lemma_found_above(log, statuses, count, from, j, value);
        assert(found_at(log, from, j, value));
    }
    let step = log.step();
    assert(copies_next(log, from, step->Promote_tier, step->Promote_hits));
}

proof fn lemma_copies<K, V, E>(
    log: ReadManyLog<K, V, E>,
    count: int,
    statuses: Seq<KeyStatus<V>>,
    failures: Seq<Failure<E>>,
    from: int,
    target: int,
    start: int,
)
    requires
        copying(log, count, statuses, failures),
        count <= start <= log.replies.len(),
        1 <= from,
        0 <= target,
        copied_until(log, from, target, start),
        forall|x: Seq<Reply<K, V, E>>|
            (#[trigger] (ReadManyLog { replies: log.replies.take(start) + x, ..log }).step())
                == batch::promote_many(log.route, statuses, failures, from, target, x),
    ensures
        stands(log),
    decreases
            log.route.lanes.len() - from,
            log.route.policy.read.promote.reach(from) - target,
            1int,
{
    let route = log.route;
    let replies = log.replies;
    let promote = route.policy.read.promote;
    let none = Seq::<Reply<K, V, E>>::empty();
    assert(replies.take(start) + none =~= replies.take(start));
    assert((ReadManyLog { replies: replies.take(start) + none, ..log }) =~= log.prefix(start));
    let step = log.prefix(start).step();
    assert(step == batch::promote_many(route, statuses, failures, from, target, none));
    assert(log.prefix(replies.len() as int) =~= log);
    if start < replies.len() {
        assert(log.asked()[start] == step);
        assert(step.fits(replies[start]));
    }
    let hits = batch::served(statuses, from, statuses.len() as int);
    if from >= route.lanes.len() {
        assert forall|source: int, tier: int| #[trigger] wanted(log, source, tier) implies copied(
            log,
            source,
            tier,
            replies.len() as int,
        ) by {
            let (j, value) = choose|j: int, value: V| #[trigger] found_at(log, source, j, value);
            lemma_found_above(log, statuses, count, source, j, value);
        }
        assert(has_probed(log, count));
        assert(stands(log));
    } else {
        lemma_served_is_found(log, statuses, count, from);
        if target >= promote.reach(from) || hits.len() == 0 {
            assert forall|source: int, tier: int| #[trigger] wanted(log, source, tier) implies (
            copied(log, source, tier, start) <==> source < from + 1 || (source == from + 1 && tier
                < 0)) by {
                if source == from && hits.len() == 0 {
                    let (j, value) = choose|j: int, value: V| #[trigger]
                        found_at(log, source, j, value);
                    assert(hits.contains(j));
                }
            }
            assert(copied_until(log, from + 1, 0, start));
            lemma_copies(log, count, statuses, failures, from + 1, 0, start);
        } else if !route.writable(target) {
            assert(!rolling::open_to_writes(route, target));
            assert(copied_until(log, from, target + 1, start));
            lemma_copies(log, count, statuses, failures, from, target + 1, start);
        } else {
            assert(wanted(log, from, target)) by {
                assert(hits.contains(hits[0]));
                let value = choose|value: V| #[trigger] found_at(log, from, hits[0], value);
                assert(found_at(log, from, hits[0], value));
            }
            if start < replies.len() {
                lemma_copies_one(log, count, statuses, failures, from, target, start);
            } else {
                lemma_asks_for_copy(log, count, statuses, from, target, hits);
            }
        }
    }
}

proof fn lemma_copies_one<K, V, E>(
    log: ReadManyLog<K, V, E>,
    count: int,
    statuses: Seq<KeyStatus<V>>,
    failures: Seq<Failure<E>>,
    from: int,
    target: int,
    start: int,
)
    requires
        copying(log, count, statuses, failures),
        count <= start < log.replies.len(),
        1 <= from < log.route.lanes.len(),
        0 <= target < log.route.policy.read.promote.reach(from),
        log.route.writable(target),
        batch::served(statuses, from, statuses.len() as int).len() > 0,
        are_found_at(log, batch::served(statuses, from, statuses.len() as int), from),
        copied_until(log, from, target, start),
        log.asked()[start] == (ReadManyMove::<K, V, E>::Promote {
            tier: target,
            hits: batch::served(statuses, from, statuses.len() as int),
        }),
        forall|x: Seq<Reply<K, V, E>>|
            (#[trigger] (ReadManyLog { replies: log.replies.take(start) + x, ..log }).step())
                == batch::promote_many(log.route, statuses, failures, from, target, x),
    ensures
        stands(log),
    decreases
            log.route.lanes.len() - from,
            log.route.policy.read.promote.reach(from) - target,
            0int,
{
    let route = log.route;
    let replies = log.replies;
    let reply = replies[start];
    assert(log.asked()[start].fits(reply));
    assert forall|x: Seq<Reply<K, V, E>>|
        (#[trigger] (ReadManyLog { replies: replies.take(start + 1) + x, ..log }).step())
            == batch::promote_many(route, statuses, failures, from, target, seq![reply] + x) by {
        assert(replies.take(start) + (seq![reply] + x) =~= replies.take(start + 1) + x);
        assert((ReadManyLog { replies: replies.take(start) + (seq![reply] + x), ..log })
            =~= (ReadManyLog { replies: replies.take(start + 1) + x, ..log }));
        assert((seq![reply] + x).skip(1) =~= x);
    }
    let sunk = match reply {
        Reply::Put(Ok(_)) => route.policy.demote_displaced,
        _ => false,
    };
    let next = if sunk {
        let displaced = reply.displaced();
        assert forall|x: Seq<Reply<K, V, E>>|
            (#[trigger] (ReadManyLog { replies: replies.take(start + 1) + x, ..log }).step())
                == batch::roll_many(
                route,
                statuses,
                failures,
                from,
                target + 1,
                rollover::sink(route, target + 1, displaced, x),
            ) by {
            assert((seq![reply] + x).skip(1) =~= x);
        }
        lemma_rolls(log, start + 1, statuses, failures, from, target + 1, displaced)
    } else {
        assert forall|x: Seq<Reply<K, V, E>>|
            (#[trigger] (ReadManyLog { replies: replies.take(start + 1) + x, ..log }).step())
                == batch::promote_many(route, statuses, failures, from, target + 1, x) by {
            assert((seq![reply] + x).skip(1) =~= x);
        }
        start + 1
    };
    lemma_copied_more(log, statuses, count, from, target, start, next);
    let rolled = rollover::sink(route, target + 1, reply.displaced(), replies.skip(start + 1));
    if !(sunk && rolled is Ask) {
        lemma_copies(log, count, statuses, failures, from, target + 1, next);
    } else {
        assert(has_probed(log, count));
        assert(stands(log));
    }
}

/// From the last probe to the copies.
proof fn lemma_settles<K, V, E>(
    log: ReadManyLog<K, V, E>,
    tier: int,
    statuses: Seq<KeyStatus<V>>,
    pending: Seq<int>,
    failures: Seq<Failure<E>>,
)
    requires
        log.sound(),
        log.route.lanes.len() <= usize::MAX,
        probed_to(log, tier, statuses, pending, failures),
        tier == log.route.lanes.len() || pending.len() == 0,
    ensures
        stands(log),
{
    let route = log.route;
    let replies = log.replies;
    let all = batch::settled(statuses, pending, failures);
    assert forall|x: Seq<Reply<K, V, E>>|
        (#[trigger] (ReadManyLog { replies: replies.take(tier) + x, ..log }).step())
            == batch::promote_many(route, all, failures, 1, 0, x) by {
        assert((ReadManyLog { replies: replies.take(tier) + x, ..log }).probed()
            == batch::probe_many(route, tier, statuses, pending, failures, x));
    }
    assert(log.statuses() == Some(all)) by {
        let x = replies.skip(tier);
        assert(replies.take(tier) + x =~= replies);
        assert((ReadManyLog { replies: replies.take(tier) + x, ..log }) =~= log);
        assert((ReadManyLog { replies: replies.take(tier) + x, ..log }).probed()
            == batch::probe_many(route, tier, statuses, pending, failures, x));
    }
    assert forall|i: int| tier <= i < replies.len() implies #[trigger] log.asked()[i] is Promote
        || log.asked()[i] is Demote by {
        let x = replies.subrange(tier, i);
        assert(replies.take(tier) + x =~= replies.take(i));
        assert((ReadManyLog { replies: replies.take(tier) + x, ..log }) =~= log.prefix(i));
        read::lemma_promote_many_result(route, all, failures, 1, 0, x);
        assert(log.asked()[i].fits(replies[i]));
    }
    assert forall|j: int| 0 <= j < statuses.len() implies (#[trigger] pending.contains(j)
        <==> !found_above(log, tier, j)) by {
        if let KeyStatus::Hit { tier: t, value } = statuses[j] {
            assert(found_at(log, t as int, j, value));
        }
    }
    assert(has_probed(log, tier)) by {
        assert forall|j: int| tier < route.lanes.len() && 0 <= j < log.keys.len() implies #[trigger]
            found_above(log, tier, j) by {
            assert(!pending.contains(j));
        }
    }
    assert forall|j: int| 0 <= j < all.len() implies (found_above(log, tier, j) <==> #[trigger]
        found_above(log, replies.len() as int, j)) by {
        if found_above(log, replies.len() as int, j) {
            let (t, value) = choose|t: int, value: V|
                0 <= t < replies.len() && #[trigger] found_at(log, t, j, value);
            lemma_found_above(log, statuses, tier, t, j, value);
            assert(found_at(log, t, j, value));
        }
        if found_above(log, tier, j) {
            let (t, value) = choose|t: int, value: V|
                0 <= t < tier && #[trigger] found_at(log, t, j, value);
            assert(found_at(log, t, j, value));
        }
    }
    let failed = failed_in(log);
    let answers = gets(replies.take(tier));
    assert forall|t: int, source: E| #[trigger]
        failed(t, source) <==> 0 <= t < answers.len() && answers[t] == Err::<Seq<Option<V>>, E>(
        source,
    ) by {
        if 0 <= t < replies.len() {
            assert(log.asked()[t].fits(replies[t]));
        }
    }
    outcomes::lemma_failures_among(route, answers, failed);
    assert(known(log, all, tier)) by {
        assert forall|j: int| 0 <= j < all.len() implies match #[trigger] all[j] {
            KeyStatus::Hit { tier: t, value } => t < tier && found_at(log, t as int, j, value),
            _ => !found_above(log, tier, j),
        } by {
            if pending.contains(j) {
                assert(statuses[j] is Miss);
            }
            assert(all[j] == statuses[j] || (all[j] is Inconclusive && pending.contains(j)));
        }
        assert forall|t: int, j: int, value: V|
            t < tier && #[trigger] found_at(log, t, j, value) implies 0 <= j < all.len() && all[j]
            == (KeyStatus::Hit { tier: t as usize, value }) by {
            assert(statuses[j] is Hit);
            assert(!pending.contains(j));
        }
    }
    assert(tell_what_was_found(log, all, failures)) by {
        assert forall|j: int| 0 <= j < all.len() implies match #[trigger] all[j] {
            KeyStatus::Hit { tier: t, value } => found_at(log, t as int, j, value),
            KeyStatus::Miss => failures.len() == 0 && !found_above(log, replies.len() as int, j),
            KeyStatus::Inconclusive => failures.len() > 0 && !found_above(
                log,
                replies.len() as int,
                j,
            ),
        } by {
            assert(pending.contains(j) <==> statuses[j] is Miss);
            assert(!(statuses[j] is Inconclusive));
            assert(found_above(log, tier, j) <==> found_above(log, replies.len() as int, j));
        }
    }
    assert(copied_until(log, 1, 0, tier)) by {
        assert forall|source: int, target: int| #[trigger] wanted(log, source, target) implies (
        copied(log, source, target, tier) <==> source < 1 || (source == 1 && target < 0)) by {
            if copied(log, source, target, tier) {
                let i = choose|i: int|
                    0 <= i < tier && (#[trigger] log.asked()[i] matches ReadManyMove::Promote {
                        tier: into,
                        hits,
                    } && into == target && are_found_at(log, hits, source));
                assert(log.asked()[i] is GetMany);
            }
        }
    }
    lemma_copies(log, tier, all, failures, 1, 0, tier);
}

proof fn lemma_stands<K, V, E>(
    log: ReadManyLog<K, V, E>,
    tier: int,
    statuses: Seq<KeyStatus<V>>,
    pending: Seq<int>,
    failures: Seq<Failure<E>>,
)
    requires
        log.sound(),
        log.route.lanes.len() <= usize::MAX,
        probed_to(log, tier, statuses, pending, failures),
    ensures
        stands(log),
    decreases log.route.lanes.len() - tier,
{
    let route = log.route;
    let replies = log.replies;
    let n = route.lanes.len() as int;
    if tier >= n || pending.len() == 0 {
        lemma_settles(log, tier, statuses, pending, failures);
    } else {
        let none = Seq::<Reply<K, V, E>>::empty();
        assert(replies.take(tier) + none =~= replies.take(tier));
        assert((ReadManyLog { replies: replies.take(tier) + none, ..log }) =~= log.prefix(tier));
        let step = log.prefix(tier).step();
        assert((ReadManyLog { replies: replies.take(tier) + none, ..log }).probed()
            == batch::probe_many(route, tier, statuses, pending, failures, none));
        assert(step == (ReadManyMove::<K, V, E>::GetMany { tier, pending }));
        assert(log.prefix(replies.len() as int) =~= log);
        assert(are_not_found(log, pending, tier)) by {
            assert forall|j: int| #[trigger] pending.contains(j) <==> 0 <= j < log.keys.len()
                && !found_above(log, tier, j) by {
                if 0 <= j < statuses.len() {
                    if let KeyStatus::Hit { tier: t, value } = statuses[j] {
                        assert(found_at(log, t as int, j, value));
                    }
                }
            }
        }
        if tier < replies.len() {
            assert(log.asked()[tier] == step);
            assert(step.fits(replies[tier]));
            let reply = replies[tier];
            assert forall|x: Seq<Reply<K, V, E>>|
                (#[trigger] (ReadManyLog { replies: replies.take(tier + 1) + x, ..log }).probed())
                    == batch::probe_many(
                    route,
                    tier,
                    statuses,
                    pending,
                    failures,
                    seq![reply] + x,
                ) by {
                assert(replies.take(tier) + (seq![reply] + x) =~= replies.take(tier + 1) + x);
                assert((ReadManyLog {
                    replies: replies.take(tier) + (seq![reply] + x),
                    ..log
                }).probed() == batch::probe_many(
                    route,
                    tier,
                    statuses,
                    pending,
                    failures,
                    seq![reply] + x,
                ));
                assert((ReadManyLog { replies: replies.take(tier) + (seq![reply] + x), ..log })
                    =~= (ReadManyLog { replies: replies.take(tier + 1) + x, ..log }));
                assert((seq![reply] + x).skip(1) =~= x);
            }
            let taken = gets(replies.take(tier + 1));
            assert(taken.drop_last() =~= gets(replies.take(tier)));
            match reply {
                Reply::GotMany(Ok(found)) => {
                    let upto = pending.len() as int;
                    let after = batch::resolved(statuses, pending, tier, found, upto);
                    let left = batch::missing(pending, found, upto);
                    lemma_learns(log, tier, statuses, pending, found);
                    assert forall|x: Seq<Reply<K, V, E>>|
                        (#[trigger] (ReadManyLog {
                            replies: replies.take(tier + 1) + x,
                            ..log
                        }).probed()) == batch::probe_many(
                            route,
                            tier + 1,
                            after,
                            left,
                            failures,
                            x,
                        ) by {
                        assert((seq![reply] + x).skip(1) =~= x);
                    }
                    assert(probed_to(log, tier + 1, after, left, failures));
                    lemma_stands(log, tier + 1, after, left, failures);
                },
                Reply::GotMany(Err(source)) => {
                    if route.policy.read.on_error == OnReadError::FallThrough {
                        let more = failures.push(route.failure(tier, source));
                        assert forall|x: Seq<Reply<K, V, E>>|
                            (#[trigger] (ReadManyLog {
                                replies: replies.take(tier + 1) + x,
                                ..log
                            }).probed()) == batch::probe_many(
                                route,
                                tier + 1,
                                statuses,
                                pending,
                                more,
                                x,
                            ) by {
                            assert((seq![reply] + x).skip(1) =~= x);
                        }
                        lemma_learns_nothing(log, tier, statuses);
                        assert(probed_to(log, tier + 1, statuses, pending, more));
                        lemma_stands(log, tier + 1, statuses, pending, more);
                    } else {
                        assert(replies.take(tier + 1) + none =~= replies.take(tier + 1));
                        assert((ReadManyLog { replies: replies.take(tier + 1) + none, ..log })
                            =~= log.prefix(tier + 1));
                        assert((ReadManyLog {
                            replies: replies.take(tier + 1) + none,
                            ..log
                        }).probed() is Failed);
                        assert(log.prefix(tier + 1).step() is Done);
                        if tier + 1 < replies.len() {
                            assert(log.asked()[tier + 1].fits(replies[tier + 1]));
                        }
                    }
                },
                _ => {},
            }
        }
    }
}

proof fn lemma_learns_nothing<K, V, E>(
    log: ReadManyLog<K, V, E>,
    tier: int,
    statuses: Seq<KeyStatus<V>>,
)
    requires
        0 <= tier < log.replies.len(),
        known(log, statuses, tier),
        log.replies[tier] matches Reply::GotMany(Err(_)),
    ensures
        known(log, statuses, tier + 1),
{
    assert forall|j: int| #[trigger] found_above(log, tier + 1, j) implies found_above(
        log,
        tier,
        j,
    ) by {
        let (t, value) = choose|t: int, value: V|
            0 <= t < tier + 1 && #[trigger] found_at(log, t, j, value);
        assert(t < tier);
    }
    assert forall|t: int, j: int, value: V|
        t < tier + 1 && #[trigger] found_at(log, t, j, value) implies t < tier by {}
}

/// What a batched read asks for and returns, said of the tiers' answers. It
/// asks the tiers top-down, each for the keys that none above it gave a value
/// for, until no key or no tier is left; a tier's failure ends it at once if
/// the policy is to stop at the first, and is passed over otherwise. Then
/// what each tier found is copied into the writable tiers that are due, in
/// turn, whether or not they accept it. The report tells of every key which
/// tier gave which value for it, or that it is absent, which is confirmed only
/// if no tier failed; and it names each failing tier with what it reported.
pub proof fn law_batched_read_tells_what_the_tiers_answered<K, V, E>(log: ReadManyLog<K, V, E>)
    requires
        log.sound(),
        log.route.lanes.len() <= usize::MAX,
    ensures
        stands(log),
{
    let statuses = Seq::new(log.keys.len(), |i: int| KeyStatus::<V>::Miss);
    let pending = Seq::new(log.keys.len(), |i: int| i);
    let none = Seq::<Failure<E>>::empty();
    assert(probed_to(log, 0, statuses, pending, none)) by {
        assert forall|x: Seq<Reply<K, V, E>>|
            (#[trigger] (ReadManyLog { replies: log.replies.take(0) + x, ..log }).probed())
                == batch::probe_many(log.route, 0, statuses, pending, none, x) by {
            assert(log.replies.take(0) + x =~= x);
        }
        assert forall|j: int| #[trigger] pending.contains(j) <==> 0 <= j < statuses.len()
            && statuses[j] is Miss by {
            if 0 <= j < statuses.len() {
                assert(pending[j] == j);
            }
        }
    }
    lemma_stands(log, 0, statuses, pending, none);
}

/// What a batched read learns from one answer, even from one that is too
/// short: a key that the answer gives a value for is a hit of that tier, a key
/// that it gives none for stays missing, and a key that it says nothing of is
/// asked for no more and keeps its status, as every other key does.
pub proof fn law_batched_read_learns_what_an_answer_says<V>(
    statuses: Seq<KeyStatus<V>>,
    pending: Seq<int>,
    tier: usize,
    found: Seq<Option<V>>,
    p: int,
    j: int,
)
    requires
        pending.no_duplicates(),
        forall|k: int| 0 <= k < pending.len() ==> 0 <= #[trigger] pending[k] < statuses.len(),
        0 <= p < pending.len(),
        0 <= j < statuses.len(),
    ensures
        ({
            let upto = batch::paired(pending, found);
            let after = batch::resolved(statuses, pending, tier as int, found, upto);
            let left = batch::missing(pending, found, upto);
            &&& after.len() == statuses.len()
            &&& !pending.contains(j) ==> after[j] == statuses[j] && !left.contains(j)
            &&& if p < found.len() {
                match found[p] {
                    Some(value) => after[pending[p]] == (KeyStatus::Hit { tier, value })
                        && !left.contains(pending[p]),
                    None => after[pending[p]] == statuses[pending[p]] && left.contains(pending[p]),
                }
            } else {
                after[pending[p]] == statuses[pending[p]] && !left.contains(pending[p])
            }
        }),
{
    let upto = batch::paired(pending, found);
    let after = batch::resolved(statuses, pending, tier as int, found, upto);
    let left = batch::missing(pending, found, upto);
    assert(batch::within(pending, statuses.len() as int));
    read::lemma_learned(statuses, pending, tier as int, found, upto);
    let at = pending[p];
    if left.contains(at) {
        let q = choose|q: int| 0 <= q < upto && #[trigger] pending[q] == at && found[q] is None;
        assert(p == q);
    }
    if left.contains(j) {
        let q = choose|q: int| 0 <= q < upto && #[trigger] pending[q] == j && found[q] is None;
        assert(pending.contains(j));
    }
    if p >= found.len() {
        if pending.take(upto).contains(at) {
            let q = choose|q: int| 0 <= q < upto && pending.take(upto)[q] == at;
            assert(pending[q] == pending[p]);
        }
        assert(after[at] == statuses[at]);
    }
    if !pending.contains(j) {
        if pending.take(upto).contains(j) {
            let q = choose|q: int| 0 <= q < upto && pending.take(upto)[q] == j;
            assert(pending[q] == j);
        }
        assert(after[j] == statuses[j]);
    }
}

} // verus!
