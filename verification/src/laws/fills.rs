//! Single-flight over tiers: the probes and fills of concurrent loads.
use vstd::prelude::*;

use crate::cache::{LoadLog, LoadReply, LoadStep};
use crate::error::{Failure, RouterError, Trouble};
use crate::fetch;
use crate::fetch::{GetLog, GetMove};
use crate::laws::cache;
use crate::laws::flights;
use crate::laws::flights::LoadParty;
use crate::laws::promotion;
use crate::laws::promotion::GetRun;
use crate::laws::read;
use crate::laws::readback;
use crate::laws::readback::WriteRun;
use crate::laws::world;
use crate::policy::WriteMode;
use crate::rollover;
use crate::rollover::{Reply, Rolled};
use crate::router::Route;
use crate::write::{WriteLog, WriteMove};

verus! {

/// Whether no entry is one for `key`.
pub open spec fn lacks<K, V>(entries: Seq<(K, V)>, key: K) -> bool {
    forall|i: int| 0 <= i < entries.len() ==> (#[trigger] entries[i]).0 != key
}

/// Whether no write displaced `key`.
pub open spec fn spares<K, V, E>(replies: Seq<Reply<K, V, E>>, key: K) -> bool {
    forall|i: int| 0 <= i < replies.len() ==> lacks(#[trigger] replies[i].displaced(), key)
}

/// Whether every tier that holds `key` holds it with `value`.
pub open spec fn agree<K, V>(contents: Seq<Map<K, V>>, key: K, value: V) -> bool {
    forall|t: int|
        0 <= t < contents.len() && (#[trigger] contents[t]).contains_key(key) ==> contents[t][key]
            == value
}

/// Whether some tier holds `key`.
pub open spec fn present<K, V>(contents: Seq<Map<K, V>>, key: K) -> bool {
    exists|t: int| 0 <= t < contents.len() && (#[trigger] contents[t]).contains_key(key)
}

pub(crate) proof fn lemma_sink_spares<K, V, E>(
    route: Route,
    target: int,
    current: Seq<(K, V)>,
    replies: Seq<Reply<K, V, E>>,
    key: K,
)
    requires
        lacks(current, key),
        spares(replies, key),
    ensures
        match rollover::sink(route, target, current, replies) {
            Rolled::Ask { key: k, .. } => k != key,
            Rolled::Settled { evicted, rest } => lacks(evicted, key) && spares(rest, key),
        },
    decreases route.lanes.len() - target, 1int, 0int,
{
    if target < 0 || target >= route.lanes.len() || current.len() == 0 {
    } else if !route.writable(target) {
        lemma_sink_spares(route, target + 1, current, replies, key);
    } else {
        lemma_offer_spares(route, target, current, Seq::empty(), replies, key);
    }
}

proof fn lemma_offer_spares<K, V, E>(
    route: Route,
    target: int,
    rest: Seq<(K, V)>,
    next: Seq<(K, V)>,
    replies: Seq<Reply<K, V, E>>,
    key: K,
)
    requires
        lacks(rest, key),
        lacks(next, key),
        spares(replies, key),
    ensures
        match rollover::offer(route, target, rest, next, replies) {
            Rolled::Ask { key: k, .. } => k != key,
            Rolled::Settled { evicted, rest } => lacks(evicted, key) && spares(rest, key),
        },
    decreases route.lanes.len() - target, 0int, rest.len(),
{
    if target < 0 || target >= route.lanes.len() {
    } else if rest.len() == 0 {
        lemma_sink_spares(route, target + 1, next, replies, key);
    } else if replies.len() == 0 {
        assert(rest[0].0 != key);
    } else {
        lemma_spares_rest(replies, key);
        assert(lacks(replies[0].displaced(), key));
        lemma_offer_spares(
            route,
            target,
            rest.skip(1),
            next + replies[0].displaced(),
            replies.skip(1),
            key,
        );
    }
}

pub(crate) proof fn lemma_spares_rest<K, V, E>(replies: Seq<Reply<K, V, E>>, key: K)
    requires
        spares(replies, key),
        replies.len() > 0,
    ensures
        spares(replies.skip(1), key),
{
    assert forall|i: int| 0 <= i < replies.skip(1).len() implies lacks(
        #[trigger] replies.skip(1)[i].displaced(),
        key,
    ) by {
        assert(lacks(replies[i + 1].displaced(), key));
    }
}

/// A promotion that displaces no entry for the key demotes none.
proof fn lemma_promote_spares<K, V, E>(
    route: Route,
    reach: int,
    target: int,
    value: V,
    replies: Seq<Reply<K, V, E>>,
    key: K,
)
    requires
        spares(replies, key),
    ensures
        fetch::promote(route, reach, target, value, replies) matches GetMove::Demote {
            key: k,
            ..
        } ==> k != key,
    decreases reach - target,
{
    if target >= reach {
    } else if !route.writable(target) {
        lemma_promote_spares(route, reach, target + 1, value, replies, key);
    } else if replies.len() > 0 {
        lemma_spares_rest(replies, key);
        let rest = replies.skip(1);
        assert(lacks(replies[0].displaced(), key));
        match replies[0] {
            Reply::Put(Ok(displaced)) => {
                if route.policy.demote_displaced {
                    let rolled = rollover::sink(route, target + 1, displaced, rest);
                    lemma_sink_spares(route, target + 1, displaced, rest, key);
                    assert(fetch::promote(route, reach, target, value, replies) == fetch::roll_up(
                        route,
                        reach,
                        target + 1,
                        value,
                        rolled,
                    ));
                    if let Rolled::Settled { rest: left, .. } = rolled {
                        lemma_promote_spares(route, reach, target + 1, value, left, key);
                    }
                } else {
                    lemma_promote_spares(route, reach, target + 1, value, rest, key);
                }
            },
            Reply::Put(Err(_)) => {
                lemma_promote_spares(route, reach, target + 1, value, rest, key);
            },
            _ => {},
        }
    }
}

proof fn lemma_probe_spares<K, V, E>(
    route: Route,
    tier: int,
    failures: Seq<Failure<E>>,
    replies: Seq<Reply<K, V, E>>,
    key: K,
)
    requires
        spares(replies, key),
    ensures
        match fetch::probe(route, tier, failures, replies) {
            GetMove::Get { tier: t } => tier <= t < route.lanes.len(),
            GetMove::Demote { key: k, .. } => k != key,
            _ => true,
        },
    decreases route.lanes.len() - tier,
{
    if tier < route.lanes.len() && replies.len() > 0 {
        lemma_spares_rest(replies, key);
        let rest = replies.skip(1);
        match replies[0] {
            Reply::Got(Ok(Some(value))) => {
                let reach = route.policy.read.promote.reach(tier);
                lemma_promote_spares(route, reach, 0, value, rest, key);
                read::lemma_promote_result(route, reach, 0, value, rest);
            },
            Reply::Got(Ok(None)) => {
                lemma_probe_spares(route, tier + 1, failures, rest, key);
            },
            Reply::Got(Err(source)) => {
                lemma_probe_spares(
                    route,
                    tier + 1,
                    failures.push(route.failure(tier, source)),
                    rest,
                    key,
                );
            },
            _ => {},
        }
    }
}

/// What one write of another key, or of the key itself with `value`, does to
/// the tiers' agreement on the key.
proof fn lemma_write_agrees<K, V>(
    before: Seq<Map<K, V>>,
    tier: int,
    written: K,
    with: V,
    displaced: Seq<(K, V)>,
    after: Seq<Map<K, V>>,
    key: K,
    value: V,
)
    requires
        world::writes(before, tier, written, with, displaced, after),
        lacks(displaced, key),
        agree(before, key, value),
        written == key ==> with == value,
    ensures
        agree(after, key, value),
        present(after, key) == (present(before, key) || written == key),
{
    assert(!world::keys(displaced).contains(key)) by {
        if world::keys(displaced).contains(key) {
            let i = choose|i: int|
                0 <= i < world::keys(displaced).len() && world::keys(displaced)[i] == key;
            assert(displaced[i].0 == key);
        }
    }
    let full = before[tier].insert(written, with);
    assert(after[tier].contains_key(key) <==> full.contains_key(key));
    assert forall|t: int| 0 <= t < after.len() && (#[trigger] after[t]).contains_key(
        key,
    ) implies after[t][key] == value by {
        if t == tier {
            assert(after[t][key] == full[key]);
            assert(written != key ==> before[tier].contains_key(key));
        } else {
            assert(after[t] == before[t]);
        }
    }
    if present(before, key) {
        let t = choose|t: int| 0 <= t < before.len() && (#[trigger] before[t]).contains_key(key);
        assert(t != tier ==> after[t] == before[t]);
        assert(after[t].contains_key(key));
    }
    if written == key {
        assert(after[tier].contains_key(key));
    }
    if present(after, key) && written != key {
        let t = choose|t: int| 0 <= t < after.len() && (#[trigger] after[t]).contains_key(key);
        assert(t != tier ==> after[t] == before[t]);
        assert(before[t].contains_key(key));
    }
}

/// A read changes neither where the tiers agree on a key nor whether they
/// have it.
proof fn lemma_get_keeps<K, V, E>(run: GetRun<K, V, E>, value: V, count: int)
    requires
        run.honest(),
        spares(run.log.replies, run.log.key),
        agree(run.worlds[0], run.log.key, value),
        0 <= count <= run.log.replies.len(),
    ensures
        run.worlds[count].len() == run.worlds[0].len(),
        agree(run.worlds[count], run.log.key, value),
        present(run.worlds[count], run.log.key) == present(run.worlds[0], run.log.key),
        fetch::hit_in(run.log.replies.take(count)) matches Some(found) ==> found == value
            && present(run.worlds[0], run.log.key),
    decreases count,
{
    if count > 0 {
        let at = count - 1;
        let log = run.log;
        let replies = log.replies;
        lemma_get_keeps(run, value, at);
        let before = run.worlds[at];
        let after = run.worlds[count];
        let step = log.asked()[at];
        let reply = replies[at];
        assert(promotion::answers(
            log.key,
            fetch::hit_in(replies.take(at)),
            step,
            reply,
            before,
            after,
        ));
        assert(spares(replies.take(at), log.key)) by {
            assert forall|i: int| 0 <= i < at implies lacks(
                #[trigger] replies.take(at)[i].displaced(),
                log.key,
            ) by {
                assert(lacks(replies[i].displaced(), log.key));
            }
        }
        lemma_probe_spares(log.route, 0, Seq::<Failure<E>>::empty(), replies.take(at), log.key);
        assert(step == log.prefix(at).step());
        assert(replies.take(count).drop_last() =~= replies.take(at));
        assert(replies.take(count).last() == reply);
        assert(lacks(reply.displaced(), log.key));
        match (step, reply) {
            (GetMove::Get { tier }, Reply::Got(Ok(Some(found)))) => {
                assert(before[tier].contains_key(log.key));
            },
            (GetMove::Promote { tier }, Reply::Put(Ok(displaced))) => {
                lemma_write_agrees(
                    before,
                    tier,
                    log.key,
                    fetch::hit_in(replies.take(at))->0,
                    displaced,
                    after,
                    log.key,
                    value,
                );
            },
            (GetMove::Demote { tier, key, value: with }, Reply::Put(Ok(displaced))) => {
                lemma_write_agrees(before, tier, key, with, displaced, after, log.key, value);
            },
            _ => {},
        }
    }
}

/// What a finished read returns: from tier `tier` on, when the tiers above do
/// not hold the key.
proof fn lemma_get_returns<K, V, E>(run: GetRun<K, V, E>, value: V, tier: int)
    requires
        run.honest(),
        run.log.step() is Done,
        agree(run.worlds[0], run.log.key, value),
        0 <= tier <= run.log.replies.len(),
        tier <= run.log.route.lanes.len(),
        promotion::plays(run, tier, promotion::probing(run.log.route, tier)),
        run.worlds[tier] == run.worlds[0],
        forall|t: int|
            0 <= t < tier ==> !(#[trigger] run.worlds[0][t]).contains_key(run.log.key),
    ensures
        run.log.step() == GetMove::<K, V, E>::Done(
            Ok(
                if present(run.worlds[0], run.log.key) {
                    Some(value)
                } else {
                    None
                },
            ),
        ),
    decreases run.log.route.lanes.len() - tier,
{
    let log = run.log;
    let route = log.route;
    let replies = log.replies;
    let play = promotion::probing::<K, V, E>(route, tier);
    assert(replies.take(tier) + Seq::empty() =~= replies.take(tier));
    if tier == replies.len() {
        assert(replies.take(tier) =~= replies);
        assert(log.step() == play(Seq::empty()));
    } else if tier >= route.lanes.len() {
        assert(log.asked()[tier] == play(Seq::empty()));
        assert(false);
    } else {
        let reply = replies[tier];
        let next = |s: Seq<Reply<K, V, E>>| play(seq![reply] + s);
        promotion::lemma_advance(run, tier, play, next);
        assert(play(Seq::empty()) == GetMove::<K, V, E>::Get { tier });
        match reply {
            Reply::Got(Ok(None)) => {
                let onward = promotion::probing::<K, V, E>(route, tier + 1);
                assert(next =~= onward) by {
                    assert forall|s: Seq<Reply<K, V, E>>| #[trigger] next(s) == onward(s) by {
                        assert((seq![reply] + s).skip(1) =~= s);
                    }
                }
                assert(!run.worlds[0][tier].contains_key(log.key));
                lemma_get_returns(run, value, tier + 1);
            },
            Reply::Got(Ok(Some(found))) => {
                assert(run.worlds[0][tier].contains_key(log.key));
                let s = replies.skip(tier + 1);
                assert(replies.take(tier + 1) + s =~= replies);
                assert(GetLog { replies: replies.take(tier + 1) + s, ..log } =~= log);
                assert(log.step() == next(s));
                assert((seq![reply] + s).skip(1) =~= s);
                read::lemma_promote_result(
                    route,
                    route.policy.read.promote.reach(tier),
                    0,
                    found,
                    s,
                );
            },
            _ => {
                assert(false);
            },
        }
    }
}

/// What a read over honest tiers that agree on its key does.
proof fn lemma_probe<K, V, E>(run: GetRun<K, V, E>, value: V)
    requires
        run.honest(),
        run.log.step() is Done,
        spares(run.log.replies, run.log.key),
        agree(run.worlds[0], run.log.key, value),
    ensures
        run.worlds.last().len() == run.worlds[0].len(),
        agree(run.worlds.last(), run.log.key, value),
        present(run.worlds.last(), run.log.key) == present(run.worlds[0], run.log.key),
        run.log.step() == GetMove::<K, V, E>::Done(
            Ok(
                if present(run.worlds[0], run.log.key) {
                    Some(value)
                } else {
                    None
                },
            ),
        ),
{
    let play = promotion::probing::<K, V, E>(run.log.route, 0);
    assert forall|s: Seq<Reply<K, V, E>>| #[trigger] play(s) == (GetLog {
        replies: run.log.replies.take(0) + s,
        ..run.log
    }).step() by {
        assert(run.log.replies.take(0) + s =~= s);
    }
    lemma_get_keeps(run, value, run.log.replies.len() as int);
    lemma_get_returns(run, value, 0);
}

proof fn lemma_through_spares<K, V, E>(
    route: Route,
    left: int,
    evicted: Seq<(K, V)>,
    replies: Seq<Reply<K, V, E>>,
    key: K,
)
    requires
        lacks(evicted, key),
        spares(replies, key),
    ensures
        match crate::write::write_through(route, left, evicted, replies) {
            WriteMove::Demote { key: k, .. } => k != key,
            WriteMove::Done(Ok(evicted)) => lacks(evicted, key),
            _ => true,
        },
    decreases left,
{
    if left <= 0 {
    } else if !route.writable(left - 1) {
        lemma_through_spares(route, left - 1, evicted, replies, key);
    } else if replies.len() > 0 {
        lemma_spares_rest(replies, key);
        let rest = replies.skip(1);
        assert(lacks(replies[0].displaced(), key));
        match replies[0] {
            Reply::Put(Ok(displaced)) => {
                if route.policy.demote_displaced {
                    let rolled = rollover::sink(route, left, displaced, rest);
                    lemma_sink_spares(route, left, displaced, rest, key);
                    assert(crate::write::write_through(route, left, evicted, replies)
                        == crate::write::roll_through(route, left - 1, evicted, rolled));
                    if let Rolled::Settled { evicted: fallen, rest: more } = rolled {
                        lemma_through_spares(route, left - 1, evicted + fallen, more, key);
                    }
                } else {
                    lemma_through_spares(route, left - 1, evicted + displaced, rest, key);
                }
            },
            Reply::Put(Err(_)) => {
                lemma_through_spares(route, left - 1, evicted, rest, key);
            },
            _ => {},
        }
    }
}

proof fn lemma_invalidate_spares<K, V, E>(
    route: Route,
    bottom: int,
    tier: int,
    displaced: Seq<(K, V)>,
    failures: Seq<Failure<E>>,
    replies: Seq<Reply<K, V, E>>,
    key: K,
)
    requires
        lacks(displaced, key),
    ensures
        match crate::write::invalidate(route, bottom, tier, displaced, failures, replies) {
            WriteMove::Demote { .. } => false,
            WriteMove::Done(Ok(evicted)) => lacks(evicted, key),
            _ => true,
        },
    decreases bottom - tier,
{
    if tier >= bottom {
    } else if !route.writable(tier) {
        lemma_invalidate_spares(route, bottom, tier + 1, displaced, failures, replies, key);
    } else if replies.len() > 0 {
        match replies[0] {
            Reply::Deleted(Ok(_)) => {
                lemma_invalidate_spares(
                    route,
                    bottom,
                    tier + 1,
                    displaced,
                    failures,
                    replies.skip(1),
                    key,
                );
            },
            Reply::Deleted(Err(source)) => {
                lemma_invalidate_spares(
                    route,
                    bottom,
                    tier + 1,
                    displaced,
                    failures.push(route.failure(tier, source)),
                    replies.skip(1),
                    key,
                );
            },
            _ => {},
        }
    }
}

/// A write that displaces no entry for a key neither demotes nor evicts one.
proof fn lemma_write_spares<K, V, E>(log: WriteLog<K, V, E>, key: K)
    requires
        spares(log.replies, key),
    ensures
        match log.step() {
            WriteMove::Demote { key: k, .. } => k != key,
            WriteMove::Done(Ok(evicted)) => lacks(evicted, key),
            _ => true,
        },
{
    let route = log.route;
    let n = route.lanes.len() as int;
    match route.policy.write {
        WriteMode::WriteThrough => {
            lemma_through_spares(route, n, Seq::<(K, V)>::empty(), log.replies, key);
        },
        WriteMode::WriteAround => {
            if log.replies.len() > 0 {
                assert(lacks(log.replies[0].displaced(), key));
                if let Reply::Put(Ok(displaced)) = log.replies[0] {
                    lemma_invalidate_spares(
                        route,
                        route.writables(n).last(),
                        0,
                        displaced,
                        Seq::<Failure<E>>::empty(),
                        log.replies.skip(1),
                        key,
                    );
                }
            }
        },
    }
}

proof fn lemma_put_keeps<K, V, E>(run: WriteRun<K, V, E>, count: int)
    requires
        run.honest(),
        spares(run.log.replies, run.log.entries[0].0),
        agree(run.worlds[0], run.log.entries[0].0, run.log.entries[0].1),
        0 <= count <= run.log.replies.len(),
    ensures
        run.worlds[count].len() == run.worlds[0].len(),
        agree(run.worlds[count], run.log.entries[0].0, run.log.entries[0].1),
    decreases count,
{
    if count > 0 {
        let at = count - 1;
        let log = run.log;
        let replies = log.replies;
        let (key, value) = log.entries[0];
        lemma_put_keeps(run, at);
        let before = run.worlds[at];
        let after = run.worlds[count];
        let step = log.asked()[at];
        let reply = replies[at];
        assert(readback::answers(log.entries[0], step, reply, before, after));
        assert(spares(log.prefix(at).replies, key)) by {
            assert forall|i: int| 0 <= i < at implies lacks(
                #[trigger] log.prefix(at).replies[i].displaced(),
                key,
            ) by {
                assert(lacks(replies[i].displaced(), key));
            }
        }
        lemma_write_spares(log.prefix(at), key);
        assert(step == log.prefix(at).step());
        assert(lacks(reply.displaced(), key));
        match (step, reply) {
            (WriteMove::Put { tier }, Reply::Put(Ok(displaced))) => {
                lemma_write_agrees(before, tier, key, value, displaced, after, key, value);
            },
            (WriteMove::Demote { tier, key: k, value: with }, Reply::Put(Ok(displaced))) => {
                lemma_write_agrees(before, tier, k, with, displaced, after, key, value);
            },
            (WriteMove::Delete { tier }, _) => {
                assert forall|t: int| 0 <= t < after.len() && (#[trigger] after[t]).contains_key(
                    key,
                ) implies after[t][key] == value by {
                    assert(t != tier);
                    assert(before[t].contains_key(key));
                }
            },
            _ => {},
        }
    }
}

/// What a fill over honest tiers that have no other value for its key does.
proof fn lemma_fill<K, V, E>(run: WriteRun<K, V, E>)
    requires
        run.honest(),
        run.log.step() is Done,
        exists|tier: int| run.log.route.writable(tier),
        spares(run.log.replies, run.log.entries[0].0),
        agree(run.worlds[0], run.log.entries[0].0, run.log.entries[0].1),
    ensures
        run.worlds.last().len() == run.worlds[0].len(),
        agree(run.worlds.last(), run.log.entries[0].0, run.log.entries[0].1),
        present(run.worlds.last(), run.log.entries[0].0),
{
    let (key, value) = run.log.entries[0];
    let contents = run.worlds.last();
    lemma_put_keeps(run, run.log.replies.len() as int);
    readback::law_written_entry_is_kept(run);
    lemma_write_spares(run.log, key);
    if let WriteMove::Done(Ok(evicted)) = run.log.step() {
        assert(!evicted.contains((key, value))) by {
            if evicted.contains((key, value)) {
                let i = choose|i: int| 0 <= i < evicted.len() && evicted[i] == (key, value);
                assert(evicted[i].0 == key);
            }
        }
        let t = choose|t: int|
            run.log.route.writable(t) && (#[trigger] contents[t]).contains_key(key);
        assert(0 <= t < contents.len() && contents[t].contains_key(key));
    }
}

/// One answer to one of many loads. A probe and a fill come with what they
/// did.
#[verifier::reject_recursive_types(K)]
#[verifier::reject_recursive_types(V)]
pub struct LoadTurn<K, V, E, L> {
    /// Which load is answered.
    pub who: int,
    /// The answer.
    pub reply: LoadReply<V, E, L>,
    /// The read that gave the answer, if it is that of a probe.
    pub probe: Option<GetRun<K, V, E>>,
    /// The write that gave the answer, if it is that of a fill.
    pub fill: Option<WriteRun<K, V, E>>,
}

/// Whether `result` is what a read that ended with `outcome` returns.
pub open spec fn returned<V, E>(
    result: Result<Option<V>, RouterError<E>>,
    outcome: Result<Option<V>, Trouble<E>>,
) -> bool {
    match (result, outcome) {
        (Ok(found), Ok(value)) => found == value,
        (Err(error), Err(trouble)) => error@ == trouble,
        _ => false,
    }
}

/// Whether `turn` may come when the loads stand at `loads` and the tiers hold
/// `before`, and the tiers then hold `after`. The lock is given only when
/// nobody holds it; loaders return values; probes and fills run over honest
/// tiers that displace no entry for the key; nothing else touches them.
pub open spec fn may_come<K, V, E, L>(
    route: Route,
    key: K,
    loads: Seq<LoadLog<K, V, E, L>>,
    turn: LoadTurn<K, V, E, L>,
    before: Seq<Map<K, V>>,
    after: Seq<Map<K, V>>,
) -> bool {
    &&& 0 <= turn.who < loads.len()
    &&& loads[turn.who].step().fits(turn.reply)
    &&& match turn.reply {
        LoadReply::Probed(result) => turn.probe matches Some(run) && {
            &&& run.honest()
            &&& run.log.route == route
            &&& run.log.key == key
            &&& spares(run.log.replies, key)
            &&& run.worlds[0] == before
            &&& run.worlds.last() == after
            &&& run.log.step() matches GetMove::Done(outcome)
            &&& returned(result, outcome)
        },
        LoadReply::Filled => turn.fill matches Some(run) && {
            &&& run.honest()
            &&& run.log.route == route
            &&& loads[turn.who].value() matches Some(value)
            &&& run.log.entries == seq![(key, value)]
            &&& spares(run.log.replies, key)
            &&& run.worlds[0] == before
            &&& run.worlds.last() == after
            &&& run.log.step() is Done
        },
        LoadReply::Acquired => after == before && forall|i: int|
            0 <= i < loads.len() ==> !flights::holds(#[trigger] loads[i]),
        LoadReply::Loaded(result) => after == before && result is Ok,
        LoadReply::Released => after == before,
    }
}

/// Any number of coalesced loads of one key over tiers: the logs of all of
/// them, and what the tiers hold, at the start and after every answer.
#[verifier::reject_recursive_types(K)]
#[verifier::reject_recursive_types(V)]
pub struct FillParty<K, V, E, L> {
    /// The logs.
    pub states: Seq<Seq<LoadLog<K, V, E, L>>>,
    /// What the tiers hold.
    pub worlds: Seq<Seq<Map<K, V>>>,
    /// The answers.
    pub turns: Seq<LoadTurn<K, V, E, L>>,
}

impl<K, V, E, L> FillParty<K, V, E, L> {
    /// Whether everyone starts afresh, and every answer is one that may come.
    pub open spec fn goes_by_the_lock(self, route: Route, key: K) -> bool {
        &&& self.states.len() == self.turns.len() + 1
        &&& self.worlds.len() == self.turns.len() + 1
        &&& self.worlds[0].len() == route.lanes.len()
        &&& forall|i: int|
            0 <= i < self.states[0].len() ==> #[trigger] self.states[0][i]
                == LoadLog::<K, V, E, L>::begin(key, true)
        &&& forall|t: int|
            0 <= t < self.turns.len() ==> {
                let turn = #[trigger] self.turns[t];
                &&& may_come(
                    route,
                    key,
                    self.states[t],
                    turn,
                    self.worlds[t],
                    self.worlds[t + 1],
                )
                &&& self.states[t + 1] == self.states[t].update(
                    turn.who,
                    self.states[t][turn.who].answered(turn.reply),
                )
            }
    }

    /// The same loads without the tiers.
    pub open spec fn loads(self) -> LoadParty<K, V, E, L> {
        LoadParty {
            states: self.states,
            turns: Seq::new(
                self.turns.len(),
                |t: int| (self.turns[t].who, self.turns[t].reply),
            ),
        }
    }
}

/// The tiers hold the loaded value once a load has filled them, and have no
/// value for the key before.
spec fn stocked<K, V, E, L>(
    loads: Seq<LoadLog<K, V, E, L>>,
    key: K,
    contents: Seq<Map<K, V>>,
) -> bool {
    if exists|i: int| 0 <= i < loads.len() && #[trigger] flights::filled(loads[i]) {
        &&& present(contents, key)
        &&& forall|i: int|
            0 <= i < loads.len() && #[trigger] flights::filled(loads[i]) ==> (
            loads[i].value() matches Some(value) && agree(contents, key, value))
    } else {
        !present(contents, key)
    }
}

/// Tiers without a value for a key agree on every value for it.
proof fn lemma_absent_agrees<K, V>(contents: Seq<Map<K, V>>, key: K, value: V)
    requires
        !present(contents, key),
    ensures
        agree(contents, key, value),
{
    assert forall|t: int| 0 <= t < contents.len() && (#[trigger] contents[t]).contains_key(
        key,
    ) implies contents[t][key] == value by {
        assert(present(contents, key));
    }
}

/// One more answer over the tiers.
proof fn lemma_turn<K, V, E, L>(
    route: Route,
    key: K,
    loads: Seq<LoadLog<K, V, E, L>>,
    turn: LoadTurn<K, V, E, L>,
    before: Seq<Map<K, V>>,
    after: Seq<Map<K, V>>,
)
    requires
        flights::orderly(loads),
        may_come(route, key, loads, turn, before, after),
        stocked(loads, key, before),
        before.len() == route.lanes.len(),
        exists|tier: int| route.writable(tier),
    ensures
        flights::may_answer(loads, turn.who, turn.reply),
        stocked(
            loads.update(turn.who, loads[turn.who].answered(turn.reply)),
            key,
            after,
        ),
        after.len() == before.len(),
{
    let who = turn.who;
    let old = loads[who];
    let new = old.answered(turn.reply);
    let next = loads.update(who, new);
    let n = old.replies.len() as int;
    assert(old.sound() && old.coalesced);
    cache::lemma_shaped(old);
    assert(forall|k: int| 0 <= k < n ==> #[trigger] new.replies[k] == old.replies[k]);
    assert(new.replies[n] == turn.reply);
    assert(old.value() is Some ==> new.value() == old.value());
    assert forall|i: int| 0 <= i < loads.len() && #[trigger] flights::filled(
        loads[i],
    ) implies flights::filled(next[i]) && next[i].value() == loads[i].value() by {
        assert(loads[i].value() is Some);
    }
    if turn.reply is Filled {
        let run = turn.fill->0;
        let value = old.value()->0;
        assert(n == 4);
        assert(!flights::filled(old));
        assert forall|i: int| 0 <= i < loads.len() implies !(#[trigger] flights::filled(
            loads[i],
        )) by {
            if flights::filled(loads[i]) {
                assert(loads[i].value() is Some);
                assert(loads[who].value() is Some);
            }
        }
        lemma_absent_agrees(before, key, value);
        assert(run.log.entries[0] == (key, value));
        lemma_fill(run);
        assert(flights::filled(next[who]));
        assert forall|i: int| 0 <= i < next.len() && #[trigger] flights::filled(next[i]) implies (
        next[i].value() matches Some(value) && agree(after, key, value)) by {
            if i != who {
                assert(!flights::filled(loads[i]));
            }
        }
    } else {
        assert forall|i: int| 0 <= i < next.len() && #[trigger] flights::filled(
            next[i],
        ) implies flights::filled(loads[i]) by {
            if i == who {
                assert(n != 4 ==> flights::filled(old));
            }
        }
        if turn.reply is Probed {
            let run = turn.probe->0;
            if exists|i: int| 0 <= i < loads.len() && #[trigger] flights::filled(loads[i]) {
                let i = choose|i: int|
                    0 <= i < loads.len() && #[trigger] flights::filled(loads[i]);
                let value = loads[i].value()->0;
                assert(loads[i].value() == Some(value));
                assert(agree(before, key, value));
                lemma_probe(run, value);
                assert(turn.reply.hit() == Some(value));
                assert(flights::filled(next[i]));
                assert forall|j: int| 0 <= j < next.len() && #[trigger] flights::filled(
                    next[j],
                ) implies (next[j].value() matches Some(value) && agree(after, key, value)) by {
                    assert(flights::filled(loads[j]));
                    assert(loads[j].value() is Some && loads[i].value() is Some);
                }
            } else {
                // Any value will do: the tiers have none.
                let value = arbitrary();
                lemma_absent_agrees(before, key, value);
                lemma_probe(run, value);
                assert(turn.reply.hit() is None);
            }
        } else {
            if exists|i: int| 0 <= i < loads.len() && #[trigger] flights::filled(loads[i]) {
                let i = choose|i: int|
                    0 <= i < loads.len() && #[trigger] flights::filled(loads[i]);
                assert(flights::filled(next[i]));
            }
        }
    }
}

proof fn lemma_party<K, V, E, L>(party: FillParty<K, V, E, L>, route: Route, key: K, at: int)
    requires
        party.goes_by_the_lock(route, key),
        !present(party.worlds[0], key),
        exists|tier: int| route.writable(tier),
        0 <= at < party.states.len(),
    ensures
        flights::orderly(party.states[at]),
        stocked(party.states[at], key, party.worlds[at]),
        party.worlds[at].len() == route.lanes.len(),
        forall|t: int|
            0 <= t < at ==> flights::may_answer(
                party.states[t],
                (#[trigger] party.turns[t]).who,
                party.turns[t].reply,
            ),
    decreases at,
{
    if at > 0 {
        lemma_party(party, route, key, at - 1);
        let turn = party.turns[at - 1];
        lemma_turn(
            route,
            key,
            party.states[at - 1],
            turn,
            party.worlds[at - 1],
            party.worlds[at],
        );
        flights::lemma_orderly(party.states[at - 1], turn.who, turn.reply);
    } else {
        let loads = party.states[0];
        assert forall|i: int| 0 <= i < loads.len() implies (#[trigger] loads[i]).replies.len() == 0
            && loads[i].coalesced by {
            assert(loads[i] == LoadLog::<K, V, E, L>::begin(key, true));
        }
    }
}

/// Concurrent misses for one key share a single load, over tiers. However the
/// answers to any number of loads of a key that no tier holds are interleaved,
/// and under any policy, as long as the tiers are honest and displace no entry
/// for the key: one loader runs at most, in all of the loads together; whoever
/// is done returns the value that it loaded; and if anyone is done, it has
/// run.
pub proof fn law_concurrent_loads_over_tiers_share_one_loader<K, V, E, L>(
    party: FillParty<K, V, E, L>,
    route: Route,
    key: K,
)
    requires
        party.goes_by_the_lock(route, key),
        !present(party.worlds[0], key),
        exists|tier: int| route.writable(tier),
    ensures
        ({
            let loads = party.states.last();
            &&& forall|i: int, j: int|
                0 <= i < loads.len() && 0 <= j < loads.len() && cache::loads(
                    #[trigger] loads[i].replies,
                ) > 0 && cache::loads(#[trigger] loads[j].replies) > 0 ==> i == j
            &&& forall|i: int|
                0 <= i < loads.len() ==> cache::loads(#[trigger] loads[i].replies) <= 1
            &&& forall|i: int|
                0 <= i < loads.len() ==> ((#[trigger] loads[i]).step() matches LoadStep::Done(
                    result,
                ) ==> exists|j: int|
                    0 <= j < loads.len() && result == Ok::<V, L>((#[trigger] loads[j]).value()->0)
                        && loads[j].value() is Some)
        }),
{
    let plain = party.loads();
    lemma_party(party, route, key, party.states.len() - 1);
    assert forall|t: int| 0 <= t < plain.turns.len() implies {
        let (who, reply) = #[trigger] plain.turns[t];
        &&& flights::may_answer(plain.states[t], who, reply)
        &&& plain.states[t + 1] == plain.states[t].update(
            who,
            plain.states[t][who].answered(reply),
        )
    } by {
        assert(flights::may_answer(
            party.states[t],
            party.turns[t].who,
            party.turns[t].reply,
        ));
    }
    flights::law_concurrent_loads_share_one_loader(plain, key);
}

} // verus!
