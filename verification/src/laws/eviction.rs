//! Eviction is never silent.
use vstd::prelude::*;

use crate::error::Failure;
use crate::laws::readback_many;
use crate::laws::readback_many::BatchRun;
use crate::laws::world;
use crate::policy::WriteMode;
use crate::rollover::Reply;
use crate::router::Route;
use crate::write::{WriteLog, WriteMove};

verus! {

/// Whether some writable tier holds `key`.
pub open spec fn held<K, V>(route: Route, contents: Seq<Map<K, V>>, key: K) -> bool {
    exists|t: int| route.writable(t) && (#[trigger] contents[t]).contains_key(key)
}

/// Whether some writable tier holds `key`, or `pool` has an entry of it.
spec fn survives<K, V>(
    route: Route,
    contents: Seq<Map<K, V>>,
    pool: Seq<(K, V)>,
    key: K,
) -> bool {
    held(route, contents, key) || world::keys(pool).contains(key)
}

/// The keys of entries after one another.
proof fn lemma_keys_sum<K, V>(first: Seq<(K, V)>, second: Seq<(K, V)>, key: K)
    ensures
        world::keys(first + second).contains(key) <==> world::keys(first).contains(key)
            || world::keys(second).contains(key),
{
    let all = world::keys(first + second);
    if all.contains(key) {
        let i = choose|i: int| 0 <= i < all.len() && all[i] == key;
        if i < first.len() {
            assert(world::keys(first)[i] == key);
        } else {
            assert(world::keys(second)[i - first.len()] == key);
        }
    }
    if world::keys(first).contains(key) {
        let i = choose|i: int| 0 <= i < first.len() && world::keys(first)[i] == key;
        assert(all[i] == key);
    }
    if world::keys(second).contains(key) {
        let i = choose|i: int| 0 <= i < second.len() && world::keys(second)[i] == key;
        assert(all[first.len() + i] == key);
    }
}

/// A batch of writes loses no key: what the tier held, and what was written,
/// it holds or reports.
pub(crate) proof fn lemma_accepted_all<K, V>(
    before: Map<K, V>,
    entries: Seq<(K, V)>,
    displaced: Seq<(K, V)>,
    after: Map<K, V>,
    key: K,
)
    requires
        world::accepts_all(before, entries, displaced, after),
        before.contains_key(key) || world::keys(entries).contains(key),
    ensures
        after.contains_key(key) || world::keys(displaced).contains(key),
    decreases entries.len(),
{
    if entries.len() > 0 {
        let (count, between) = choose|count: int, between: Map<K, V>|
            0 <= count <= displaced.len() && world::accepts_all(
                before,
                entries.drop_last(),
                displaced.take(count),
                between,
            ) && #[trigger] world::accepts(
                between,
                entries.last().0,
                entries.last().1,
                displaced.skip(count),
                after,
            );
        assert(entries =~= entries.drop_last() + seq![entries.last()]);
        lemma_keys_sum(entries.drop_last(), seq![entries.last()], key);
        assert(displaced =~= displaced.take(count) + displaced.skip(count));
        lemma_keys_sum(displaced.take(count), displaced.skip(count), key);
        if before.contains_key(key) || world::keys(entries.drop_last()).contains(key) {
            lemma_accepted_all(before, entries.drop_last(), displaced.take(count), between, key);
        } else {
            let one = world::keys(seq![entries.last()]);
            let i = choose|i: int| 0 <= i < one.len() && one[i] == key;
            assert(entries.last().0 == key);
        }
        let full = between.insert(entries.last().0, entries.last().1);
        assert(full.contains_key(key) ==> (after.contains_key(key) || world::keys(
            displaced.skip(count),
        ).contains(key)));
    }
}

/// A write at one tier loses no key.
proof fn lemma_written<K, V>(
    route: Route,
    before: Seq<Map<K, V>>,
    after: Seq<Map<K, V>>,
    tier: int,
    entries: Seq<(K, V)>,
    displaced: Seq<(K, V)>,
    pool: Seq<(K, V)>,
    key: K,
)
    requires
        before.len() == route.lanes.len(),
        route.writable(tier),
        world::writes_all(before, tier, entries, displaced, after),
        survives(route, before, pool, key) || world::keys(entries).contains(key),
    ensures
        survives(route, after, pool + displaced, key),
{
    lemma_keys_sum(pool, displaced, key);
    if before[tier].contains_key(key) || world::keys(entries).contains(key) {
        lemma_accepted_all(before[tier], entries, displaced, after[tier], key);
        if after[tier].contains_key(key) {
            assert(held(route, after, key));
        }
    } else if held(route, before, key) {
        let t = choose|t: int| route.writable(t) && (#[trigger] before[t]).contains_key(key);
        assert(after[t] == before[t]);
        assert(held(route, after, key));
    }
}

/// A write of one entry is a batch of one.
pub proof fn lemma_one_is_a_batch<K, V>(
    before: Map<K, V>,
    entry: (K, V),
    displaced: Seq<(K, V)>,
    after: Map<K, V>,
)
    ensures
        world::accepts_all(before, seq![entry], displaced, after) <==> world::accepts(
            before,
            entry.0,
            entry.1,
            displaced,
            after,
        ),
{
    let one = seq![entry];
    let none = one.drop_last();
    assert(none =~= Seq::<(K, V)>::empty());
    assert(one.last() == entry);
    if world::accepts(before, entry.0, entry.1, displaced, after) {
        assert(displaced.skip(0) =~= displaced);
        assert(displaced.take(0) =~= Seq::<(K, V)>::empty());
        assert(world::accepts_all(before, none, displaced.take(0), before));
        assert(world::accepts(before, one.last().0, one.last().1, displaced.skip(0), after));
    }
    if world::accepts_all(before, one, displaced, after) {
        let (count, between) = choose|count: int, between: Map<K, V>|
            0 <= count <= displaced.len() && world::accepts_all(
                before,
                one.drop_last(),
                displaced.take(count),
                between,
            ) && #[trigger] world::accepts(
                between,
                one.last().0,
                one.last().1,
                displaced.skip(count),
                after,
            );
        assert(world::accepts_all(before, none, displaced.take(count), between));
        assert(count == 0);
        assert(displaced.skip(0) =~= displaced);
    }
}

/// What a finished play has to show.
spec fn delivers<K, V, E>(
    route: Route,
    play: spec_fn(Seq<Reply<K, V, E>>) -> WriteMove<K, V, E>,
    key: K,
    replies: Seq<Reply<K, V, E>>,
    worlds: Seq<Seq<Map<K, V>>>,
) -> bool {
    play(replies) matches WriteMove::Done(Ok(out)) ==> survives(route, worlds.last(), out, key)
}

/// A sound play that is over at the start has no answers.
proof fn lemma_over<K, V, E>(
    play: spec_fn(Seq<Reply<K, V, E>>) -> WriteMove<K, V, E>,
    entries: Seq<(K, V)>,
    replies: Seq<Reply<K, V, E>>,
    worlds: Seq<Seq<Map<K, V>>>,
)
    requires
        readback_many::runs_by(play, entries, replies, worlds),
        play(Seq::empty()) is Done,
    ensures
        replies.len() == 0,
{
    if replies.len() > 0 {
        assert(replies.take(0) =~= Seq::empty());
        assert(crate::laws::write::asked_by(play, replies)[0] == play(Seq::empty()));
    }
}

proof fn lemma_through<K, V, E>(
    route: Route,
    left: int,
    evicted: Seq<(K, V)>,
    entries: Seq<(K, V)>,
    key: K,
    replies: Seq<Reply<K, V, E>>,
    worlds: Seq<Seq<Map<K, V>>>,
)
    requires
        0 <= left <= route.lanes.len(),
        readback_many::runs_by(
            crate::laws::write::through(route, left, evicted),
            entries,
            replies,
            worlds,
        ),
        worlds[0].len() == route.lanes.len(),
        survives(route, worlds[0], evicted, key) || world::keys(entries).contains(key) && exists|
            t: int,
        |
            0 <= t < left && #[trigger] route.writable(t),
    ensures
        delivers(route, crate::laws::write::through(route, left, evicted), key, replies, worlds),
    decreases replies.len(), left, 0int,
{
    let play = crate::laws::write::through::<K, V, E>(route, left, evicted);
    if left <= 0 {
        lemma_over(play, entries, replies, worlds);
    } else if !route.writable(left - 1) {
        let next = crate::laws::write::through::<K, V, E>(route, left - 1, evicted);
        assert(play =~= next);
        if exists|t: int| 0 <= t < left && #[trigger] route.writable(t) {
            let t = choose|t: int| 0 <= t < left && #[trigger] route.writable(t);
            assert(0 <= t < left - 1 && route.writable(t));
        }
        lemma_through(route, left - 1, evicted, entries, key, replies, worlds);
    } else if replies.len() == 0 {
        assert(play(replies) is Put);
    } else {
        let reply = replies[0];
        let at = left - 1;
        let next = crate::laws::write::after(play, reply);
        readback_many::lemma_first(play, next, entries, replies, worlds);
        assert(play(Seq::empty()) == WriteMove::<K, V, E>::Put { tier: at });
        if let Reply::Put(Ok(more)) = reply {
            lemma_written(route, worlds[0], worlds[1], at, entries, more, evicted, key);
            if route.policy.demote_displaced {
                let onward = crate::laws::write::sinking::<K, V, E>(route, at, evicted, left, more);
                assert(next =~= onward) by {
                    assert forall|s: Seq<Reply<K, V, E>>| #[trigger] next(s) == onward(s) by {
                        assert((seq![reply] + s).skip(1) =~= s);
                    }
                }
                lemma_sinking(
                    route,
                    at,
                    evicted,
                    left,
                    more,
                    entries,
                    key,
                    replies.skip(1),
                    worlds.skip(1),
                );
            } else {
                let onward = crate::laws::write::through::<K, V, E>(route, at, evicted + more);
                assert(next =~= onward) by {
                    assert forall|s: Seq<Reply<K, V, E>>| #[trigger] next(s) == onward(s) by {
                        assert((seq![reply] + s).skip(1) =~= s);
                    }
                }
                lemma_through(
                    route,
                    at,
                    evicted + more,
                    entries,
                    key,
                    replies.skip(1),
                    worlds.skip(1),
                );
            }
        }
    }
}

proof fn lemma_sinking<K, V, E>(
    route: Route,
    left: int,
    evicted: Seq<(K, V)>,
    target: int,
    current: Seq<(K, V)>,
    entries: Seq<(K, V)>,
    key: K,
    replies: Seq<Reply<K, V, E>>,
    worlds: Seq<Seq<Map<K, V>>>,
)
    requires
        0 <= left <= target <= route.lanes.len(),
        readback_many::runs_by(
            crate::laws::write::sinking(route, left, evicted, target, current),
            entries,
            replies,
            worlds,
        ),
        worlds[0].len() == route.lanes.len(),
        survives(route, worlds[0], evicted + current, key),
    ensures
        delivers(
            route,
            crate::laws::write::sinking(route, left, evicted, target, current),
            key,
            replies,
            worlds,
        ),
    decreases replies.len(), left, 2 * (route.lanes.len() - target) + 2,
{
    let play = crate::laws::write::sinking::<K, V, E>(route, left, evicted, target, current);
    if target >= route.lanes.len() || current.len() == 0 {
        let next = crate::laws::write::through::<K, V, E>(route, left, evicted + current);
        assert(play =~= next);
        lemma_through(route, left, evicted + current, entries, key, replies, worlds);
    } else if !route.writable(target) {
        let next = crate::laws::write::sinking::<K, V, E>(
            route,
            left,
            evicted,
            target + 1,
            current,
        );
        assert(play =~= next);
        lemma_sinking(route, left, evicted, target + 1, current, entries, key, replies, worlds);
    } else {
        let none = Seq::<(K, V)>::empty();
        let next = crate::laws::write::offering::<K, V, E>(
            route,
            left,
            evicted,
            target,
            current,
            none,
        );
        assert(play =~= next);
        assert(evicted + (current + none) =~= evicted + current);
        lemma_offering(route, left, evicted, target, current, none, entries, key, replies, worlds);
    }
}

proof fn lemma_offering<K, V, E>(
    route: Route,
    left: int,
    evicted: Seq<(K, V)>,
    target: int,
    rest: Seq<(K, V)>,
    next: Seq<(K, V)>,
    entries: Seq<(K, V)>,
    key: K,
    replies: Seq<Reply<K, V, E>>,
    worlds: Seq<Seq<Map<K, V>>>,
)
    requires
        0 <= left <= target,
        route.writable(target),
        readback_many::runs_by(
            crate::laws::write::offering(route, left, evicted, target, rest, next),
            entries,
            replies,
            worlds,
        ),
        worlds[0].len() == route.lanes.len(),
        survives(route, worlds[0], evicted + (rest + next), key),
    ensures
        delivers(
            route,
            crate::laws::write::offering(route, left, evicted, target, rest, next),
            key,
            replies,
            worlds,
        ),
    decreases replies.len(), left, 2 * (route.lanes.len() - target) + 1,
{
    let play = crate::laws::write::offering::<K, V, E>(route, left, evicted, target, rest, next);
    if rest.len() == 0 {
        let onward = crate::laws::write::sinking::<K, V, E>(
            route,
            left,
            evicted,
            target + 1,
            next,
        );
        assert(play =~= onward);
        assert(evicted + (rest + next) =~= evicted + next);
        lemma_sinking(route, left, evicted, target + 1, next, entries, key, replies, worlds);
    } else if replies.len() == 0 {
        assert(play(replies) is Demote);
    } else {
        let reply = replies[0];
        let gathered = next + reply.displaced();
        let others = rest.skip(1);
        let onward = crate::laws::write::offering::<K, V, E>(
            route,
            left,
            evicted,
            target,
            others,
            gathered,
        );
        assert forall|s: Seq<Reply<K, V, E>>| #[trigger] onward(s) == play(seq![reply] + s) by {
            assert((seq![reply] + s).skip(1) =~= s);
        }
        readback_many::lemma_first(play, onward, entries, replies, worlds);
        assert(play(Seq::empty()) == WriteMove::<K, V, E>::Demote {
            tier: target,
            key: rest[0].0,
            value: rest[0].1,
        });
        if let Reply::Put(Ok(more)) = reply {
            let first = seq![rest[0]];
            let pool = evicted + (others + next);
            assert(rest =~= first + others);
            lemma_keys_sum(evicted, rest + next, key);
            lemma_keys_sum(rest, next, key);
            lemma_keys_sum(first, others, key);
            lemma_keys_sum(evicted, others + next, key);
            lemma_keys_sum(others, next, key);
            lemma_one_is_a_batch(worlds[0][target], rest[0], more, worlds[1][target]);
            lemma_written(route, worlds[0], worlds[1], target, first, more, pool, key);
            assert(pool + more =~= evicted + (others + gathered));
            lemma_offering(
                route,
                left,
                evicted,
                target,
                others,
                gathered,
                entries,
                key,
                replies.skip(1),
                worlds.skip(1),
            );
        }
    }
}

proof fn lemma_invalidating<K, V, E>(
    route: Route,
    bottom: int,
    tier: int,
    displaced: Seq<(K, V)>,
    entries: Seq<(K, V)>,
    key: K,
    replies: Seq<Reply<K, V, E>>,
    worlds: Seq<Seq<Map<K, V>>>,
)
    requires
        0 <= tier <= bottom,
        route.writable(bottom),
        readback_many::runs_by(
            crate::laws::write::invalidating(route, bottom, tier, displaced, Seq::empty()),
            entries,
            replies,
            worlds,
        ),
        worlds[0].len() == route.lanes.len(),
        survives(route, worlds[0], displaced, key),
        world::keys(entries).contains(key) ==> worlds[0][bottom].contains_key(key) || world::keys(
            displaced,
        ).contains(key),
    ensures
        delivers(
            route,
            crate::laws::write::invalidating(route, bottom, tier, displaced, Seq::empty()),
            key,
            replies,
            worlds,
        ),
    decreases bottom - tier,
{
    let none = Seq::<Failure<E>>::empty();
    let play = crate::laws::write::invalidating::<K, V, E>(route, bottom, tier, displaced, none);
    let next = crate::laws::write::invalidating::<K, V, E>(
        route,
        bottom,
        tier + 1,
        displaced,
        none,
    );
    if tier >= bottom {
        lemma_over(play, entries, replies, worlds);
    } else if !route.writable(tier) {
        assert(play =~= next);
        lemma_invalidating(route, bottom, tier + 1, displaced, entries, key, replies, worlds);
    } else if replies.len() == 0 {
        assert(play(replies) is Delete);
    } else {
        let reply = replies[0];
        assert(replies.take(0) =~= Seq::empty());
        assert(crate::laws::write::asked_by(play, replies)[0] == play(Seq::empty()));
        assert forall|s: Seq<Reply<K, V, E>>| #[trigger] next(s) == play(seq![reply] + s) by {
            assert((seq![reply] + s).skip(1) =~= s);
        }
        readback_many::lemma_first(play, next, entries, replies, worlds);
        assert(worlds[1][bottom] == worlds[0][bottom]);
        if !world::keys(displaced).contains(key) {
            let t = if world::keys(entries).contains(key) {
                bottom
            } else {
                choose|t: int| route.writable(t) && (#[trigger] worlds[0][t]).contains_key(key)
            };
            assert(worlds[1][t].contains_key(key));
            assert(held(route, worlds[1], key));
        }
        lemma_invalidating(
            route,
            bottom,
            tier + 1,
            displaced,
            entries,
            key,
            replies.skip(1),
            worlds.skip(1),
        );
    }
}

/// Eviction is never silent. Over honest tiers that accept every call, and
/// under any policy, a key that some writable tier held before a write, or
/// that was written, is afterwards held by some writable tier or is among the
/// entries that the write returns.
pub proof fn law_no_key_is_lost_silently<K, V, E>(run: BatchRun<K, V, E>, key: K)
    requires
        run.honest(),
        held(run.log.route, run.worlds[0], key) || world::keys(run.log.entries).contains(key),
    ensures
        run.log.step() matches WriteMove::Done(Ok(evicted)) ==> held(
            run.log.route,
            run.worlds.last(),
            key,
        ) || world::keys(evicted).contains(key),
{
    let log = run.log;
    let route = log.route;
    let n = route.lanes.len() as int;
    let none = Seq::<(K, V)>::empty();
    crate::laws::write::lemma_has_writable(route);
    if route.writables(n).len() > 0 {
        let play = |s: Seq<Reply<K, V, E>>| (WriteLog { replies: s, ..log }).step();
        assert(log.asked() =~= crate::laws::write::asked_by(play, log.replies));
        assert(WriteLog { replies: log.replies, ..log } =~= log);
        assert(readback_many::runs_by(play, log.entries, log.replies, run.worlds));
        match route.policy.write {
            WriteMode::WriteThrough => {
                let through = crate::laws::write::through::<K, V, E>(route, n, none);
                assert(play =~= through);
                let tier = choose|tier: int| route.writable(tier);
                assert(0 <= tier < n && route.writable(tier));
                lemma_through(route, n, none, log.entries, key, log.replies, run.worlds);
            },
            WriteMode::WriteAround => {
                route.lemma_writables(n);
                let bottom = route.writables(n).last();
                assert(route.writable(route.writables(n)[route.writables(n).len() - 1]));
                if log.replies.len() > 0 {
                    let reply = log.replies[0];
                    assert(log.replies.take(0) =~= Seq::empty());
                    assert(crate::laws::write::asked_by(play, log.replies)[0] == play(
                        Seq::empty(),
                    ));
                    assert(play(Seq::empty()) == WriteMove::<K, V, E>::Put { tier: bottom });
                    if let Reply::Put(Ok(displaced)) = reply {
                        let next = crate::laws::write::invalidating::<K, V, E>(
                            route,
                            bottom,
                            0,
                            displaced,
                            Seq::empty(),
                        );
                        assert forall|s: Seq<Reply<K, V, E>>| #[trigger] next(s) == play(
                            seq![reply] + s,
                        ) by {
                            assert((seq![reply] + s).skip(1) =~= s);
                        }
                        readback_many::lemma_first(
                            play,
                            next,
                            log.entries,
                            log.replies,
                            run.worlds,
                        );
                        lemma_written(
                            route,
                            run.worlds[0],
                            run.worlds[1],
                            bottom,
                            log.entries,
                            displaced,
                            none,
                            key,
                        );
                        assert(none + displaced =~= displaced);
                        if world::keys(log.entries).contains(key) {
                            lemma_accepted_all(
                                run.worlds[0][bottom],
                                log.entries,
                                displaced,
                                run.worlds[1][bottom],
                                key,
                            );
                        }
                        lemma_invalidating(
                            route,
                            bottom,
                            0,
                            displaced,
                            log.entries,
                            key,
                            log.replies.skip(1),
                            run.worlds.skip(1),
                        );
                    }
                }
            },
        }
    }
}

} // verus!
