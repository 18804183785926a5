//! What becomes of an entry that was written.
use vstd::prelude::*;
use vstd::seq_lib::*;

use crate::error::Failure;
use crate::laws::read;
use crate::laws::read::Finding;
use crate::laws::world;
use crate::policy::{OnReadError, WriteMode};
use crate::rollover::Reply;
use crate::router::Route;
use crate::write::{WriteLog, WriteMove};

verus! {

/// Whether an honest tier answers the request `step` of a write of `entry`
/// with `reply`, and that turns the world `before` into `after`.
pub open spec fn answers<K, V, E>(
    entry: (K, V),
    step: WriteMove<K, V, E>,
    reply: Reply<K, V, E>,
    before: Seq<Map<K, V>>,
    after: Seq<Map<K, V>>,
) -> bool {
    match (step, reply) {
        (WriteMove::Put { tier }, Reply::Put(Ok(displaced))) => world::writes(
            before,
            tier,
            entry.0,
            entry.1,
            displaced,
            after,
        ),
        (WriteMove::Demote { tier, key, value }, Reply::Put(Ok(displaced))) => world::writes(
            before,
            tier,
            key,
            value,
            displaced,
            after,
        ),
        (WriteMove::Delete { tier }, Reply::Deleted(Ok(_))) => world::deletes(
            before,
            tier,
            entry.0,
            after,
        ),
        _ => false,
    }
}

/// A write of one entry over honest tiers, with the world before every
/// request and at the end.
#[verifier::reject_recursive_types(K)]
pub struct WriteRun<K, V, E> {
    /// What was asked and answered.
    pub log: WriteLog<K, V, E>,
    /// The worlds.
    pub worlds: Seq<Seq<Map<K, V>>>,
}

impl<K, V, E> WriteRun<K, V, E> {
    /// Whether one entry is written and every tier is honest and accepts.
    pub open spec fn honest(self) -> bool {
        &&& self.log.entries.len() == 1
        &&& self.worlds.len() == self.log.replies.len() + 1
        &&& self.worlds[0].len() == self.log.route.lanes.len()
        &&& forall|i: int|
            0 <= i < self.log.replies.len() ==> answers(
                self.log.entries[0],
                #[trigger] self.log.asked()[i],
                self.log.replies[i],
                self.worlds[i],
                self.worlds[i + 1],
            )
    }
}

spec fn runs_by<K, V, E>(
    play: spec_fn(Seq<Reply<K, V, E>>) -> WriteMove<K, V, E>,
    entry: (K, V),
    replies: Seq<Reply<K, V, E>>,
    worlds: Seq<Seq<Map<K, V>>>,
) -> bool {
    &&& worlds.len() == replies.len() + 1
    &&& forall|i: int|
        0 <= i < replies.len() ==> answers(
            entry,
            #[trigger] crate::laws::write::asked_by(play, replies)[i],
            replies[i],
            worlds[i],
            worlds[i + 1],
        )
}

proof fn lemma_first<K, V, E>(
    play: spec_fn(Seq<Reply<K, V, E>>) -> WriteMove<K, V, E>,
    next: spec_fn(Seq<Reply<K, V, E>>) -> WriteMove<K, V, E>,
    entry: (K, V),
    replies: Seq<Reply<K, V, E>>,
    worlds: Seq<Seq<Map<K, V>>>,
)
    requires
        replies.len() > 0,
        runs_by(play, entry, replies, worlds),
        next == crate::laws::write::after(play, replies[0]),
    ensures
        answers(entry, play(Seq::empty()), replies[0], worlds[0], worlds[1]),
        runs_by(next, entry, replies.skip(1), worlds.skip(1)),
        play(replies) == next(replies.skip(1)),
        worlds.skip(1)[0] == worlds[1],
        worlds.skip(1).last() == worlds.last(),
{
    let rest = replies.skip(1);
    assert(replies.take(0) =~= Seq::empty());
    assert(crate::laws::write::asked_by(play, replies)[0] == play(Seq::empty()));
    assert forall|i: int| 0 <= i <= rest.len() implies next(#[trigger] rest.take(i)) == play(
        replies.take(i + 1),
    ) by {
        assert(seq![replies[0]] + rest.take(i) =~= replies.take(i + 1));
    }
    assert(rest.take(rest.len() as int) =~= rest);
    assert(replies.take(replies.len() as int) =~= replies);
    assert forall|i: int| 0 <= i < rest.len() implies answers(
        entry,
        #[trigger] crate::laws::write::asked_by(next, rest)[i],
        rest[i],
        worlds.skip(1)[i],
        worlds.skip(1)[i + 1],
    ) by {
        assert(crate::laws::write::asked_by(play, replies)[i + 1] == next(rest.take(i)));
    }
}

/// Every copy of the key, in the writable tiers from `from` down and among
/// the entries `pool`, has the value that was written.
spec fn clean<K, V>(
    route: Route,
    contents: Seq<Map<K, V>>,
    from: int,
    pool: Seq<(K, V)>,
    entry: (K, V),
) -> bool {
    &&& forall|t: int|
        from <= t && route.writable(t) && (#[trigger] contents[t]).contains_key(entry.0)
            ==> contents[t][entry.0] == entry.1
    &&& forall|x: (K, V)| #[trigger] pool.contains(x) && x.0 == entry.0 ==> x.1 == entry.1
}

/// Some writable tier from `from` down holds the key, or the entry is among
/// `pool`.
spec fn kept<K, V>(
    route: Route,
    contents: Seq<Map<K, V>>,
    from: int,
    pool: Seq<(K, V)>,
    entry: (K, V),
) -> bool {
    ||| pool.contains(entry)
    ||| exists|t: int|
        from <= t && route.writable(t) && (#[trigger] contents[t]).contains_key(entry.0)
}

/// One write by an honest tier moves entries between that tier and the pool.
proof fn lemma_written<K, V>(
    route: Route,
    before: Seq<Map<K, V>>,
    after: Seq<Map<K, V>>,
    from: int,
    tier: int,
    written: (K, V),
    displaced: Seq<(K, V)>,
    pool: Seq<(K, V)>,
    entry: (K, V),
)
    requires
        before.len() == route.lanes.len(),
        from <= tier,
        route.writable(tier),
        world::writes(before, tier, written.0, written.1, displaced, after),
        written.0 == entry.0 ==> written.1 == entry.1,
        clean(route, before, from, pool, entry),
    ensures
        clean(route, after, from, pool + displaced, entry),
        kept(route, before, from, pool, entry) || written == entry ==> kept(
            route,
            after,
            from,
            pool + displaced,
            entry,
        ),
{
    broadcast use group_seq_properties;

    let full = before[tier].insert(written.0, written.1);
    assert forall|t: int|
        from <= t && route.writable(t) && (#[trigger] after[t]).contains_key(
            entry.0,
        ) implies after[t][entry.0] == entry.1 by {
        if t == tier {
            assert(full.contains_key(entry.0));
            assert(after[tier][entry.0] == full[entry.0]);
            if written.0 != entry.0 {
                assert(before[tier].contains_key(entry.0));
            }
        } else {
            assert(after[t] == before[t]);
        }
    }
    assert forall|x: (K, V)|
        #[trigger] (pool + displaced).contains(x) && x.0 == entry.0 implies x.1 == entry.1 by {
        if displaced.contains(x) {
            let i = choose|i: int| 0 <= i < displaced.len() && displaced[i] == x;
            assert(full.contains_pair(displaced[i].0, displaced[i].1));
            if written.0 != entry.0 {
                assert(before[tier].contains_key(entry.0));
            }
        } else {
            assert(pool.contains(x));
        }
    }
    if kept(route, before, from, pool, entry) || written == entry {
        if pool.contains(entry) {
            assert((pool + displaced).contains(entry));
        } else {
            if full.contains_key(entry.0) {
                if after[tier].contains_key(entry.0) {
                } else {
                    assert(world::keys(displaced).contains(entry.0));
                    let i = choose|i: int|
                        0 <= i < displaced.len() && world::keys(displaced)[i] == entry.0;
                    assert(full.contains_pair(displaced[i].0, displaced[i].1));
                    assert(displaced.contains(displaced[i]));
                    assert((pool + displaced).contains(displaced[i]));
                    assert(displaced[i] == entry);
                }
            } else {
                let t = choose|t: int|
                    from <= t && route.writable(t) && (#[trigger] before[t]).contains_key(entry.0);
                assert(t != tier);
                assert(after[t] == before[t]);
            }
        }
    }
}

/// What a finished play has to show.
spec fn delivers<K, V, E>(
    route: Route,
    play: spec_fn(Seq<Reply<K, V, E>>) -> WriteMove<K, V, E>,
    entry: (K, V),
    replies: Seq<Reply<K, V, E>>,
    worlds: Seq<Seq<Map<K, V>>>,
    placed: bool,
) -> bool {
    play(replies) matches WriteMove::Done(result) ==> {
        &&& worlds.last().len() == route.lanes.len()
        &&& result matches Ok(out) && clean(route, worlds.last(), 0, out, entry) && (placed ==> kept(
            route,
            worlds.last(),
            0,
            out,
            entry,
        ))
    }
}

proof fn lemma_through<K, V, E>(
    route: Route,
    left: int,
    evicted: Seq<(K, V)>,
    entry: (K, V),
    replies: Seq<Reply<K, V, E>>,
    worlds: Seq<Seq<Map<K, V>>>,
    placed: bool,
)
    requires
        0 <= left <= route.lanes.len(),
        runs_by(crate::laws::write::through(route, left, evicted), entry, replies, worlds),
        worlds[0].len() == route.lanes.len(),
        clean(route, worlds[0], left, evicted, entry),
        placed ==> kept(route, worlds[0], left, evicted, entry),
    ensures
        delivers(
            route,
            crate::laws::write::through(route, left, evicted),
            entry,
            replies,
            worlds,
            placed || exists|t: int| 0 <= t < left && #[trigger] route.writable(t),
        ),
    decreases replies.len(), left, 0int,
{
    let play = crate::laws::write::through::<K, V, E>(route, left, evicted);
    if left <= 0 {
        if replies.len() > 0 {
            assert(replies.take(0) =~= Seq::empty());
            assert(crate::laws::write::asked_by(play, replies)[0] == play(Seq::empty()));
        }
    } else if !route.writable(left - 1) {
        let next = crate::laws::write::through::<K, V, E>(route, left - 1, evicted);
        assert(play =~= next);
        assert forall|t: int|
            left - 1 <= t && route.writable(t) && (#[trigger] worlds[0][t]).contains_key(
                entry.0,
            ) implies worlds[0][t][entry.0] == entry.1 by {
            assert(t != left - 1);
        }
        lemma_through(route, left - 1, evicted, entry, replies, worlds, placed);
        if exists|t: int| 0 <= t < left && #[trigger] route.writable(t) {
            let t = choose|t: int| 0 <= t < left && #[trigger] route.writable(t);
            assert(0 <= t < left - 1 && route.writable(t));
        }
    } else if replies.len() == 0 {
        assert(play(replies) is Put);
    } else {
        let reply = replies[0];
        let next = crate::laws::write::after(play, reply);
        lemma_first(play, next, entry, replies, worlds);
        assert(play(Seq::empty()) == WriteMove::<K, V, E>::Put { tier: left - 1 });
        if let Reply::Put(Ok(more)) = reply {
            let at = left - 1;
            lemma_put(route, worlds[0], worlds[1], left, more, evicted, entry);
            if route.policy.demote_displaced {
                let onward = crate::laws::write::sinking::<K, V, E>(
                    route,
                    at,
                    evicted,
                    left,
                    more,
                );
                assert(next =~= onward) by {
                    assert forall|s: Seq<Reply<K, V, E>>| #[trigger] next(s) == onward(s) by {
                        assert((seq![reply] + s).skip(1) =~= s);
                    }
                }
                lemma_sinking(
                    route,
                    at,
                    evicted,
                    left,
                    more,
                    entry,
                    replies.skip(1),
                    worlds.skip(1),
                );
            } else {
                let onward = crate::laws::write::through::<K, V, E>(route, at, evicted + more);
                assert(next =~= onward) by {
                    assert forall|s: Seq<Reply<K, V, E>>| #[trigger] next(s) == onward(s) by {
                        assert((seq![reply] + s).skip(1) =~= s);
                    }
                }
                lemma_through(
                    route,
                    at,
                    evicted + more,
                    entry,
                    replies.skip(1),
                    worlds.skip(1),
                    true,
                );
            }
        }
    }
}

/// The requested entry is written into tier `left - 1`.
proof fn lemma_put<K, V>(
    route: Route,
    before: Seq<Map<K, V>>,
    after: Seq<Map<K, V>>,
    left: int,
    displaced: Seq<(K, V)>,
    evicted: Seq<(K, V)>,
    entry: (K, V),
)
    requires
        0 < left <= route.lanes.len(),
        before.len() == route.lanes.len(),
        route.writable(left - 1),
        world::writes(before, left - 1, entry.0, entry.1, displaced, after),
        clean(route, before, left, evicted, entry),
    ensures
        clean(route, after, left - 1, evicted + displaced, entry),
        kept(route, after, left - 1, evicted + displaced, entry),
{
    // A stale copy in the tier itself is overwritten, so the tier can as well
    // be looked at without it.
    let fresh = before.update(left - 1, before[left - 1].remove(entry.0));
    assert(fresh[left - 1].insert(entry.0, entry.1) =~= before[left - 1].insert(entry.0, entry.1));
    assert forall|t: int|
        left - 1 <= t && route.writable(t) && (#[trigger] fresh[t]).contains_key(
            entry.0,
        ) implies fresh[t][entry.0] == entry.1 by {
        assert(t != left - 1);
        assert(fresh[t] == before[t]);
    }
    assert forall|t: int| 0 <= t < fresh.len() && t != left - 1 implies #[trigger] after[t]
        == fresh[t] by {
        assert(after[t] == before[t]);
    }
    lemma_written(route, fresh, after, left - 1, left - 1, entry, displaced, evicted, entry);
}

proof fn lemma_sinking<K, V, E>(
    route: Route,
    left: int,
    evicted: Seq<(K, V)>,
    target: int,
    current: Seq<(K, V)>,
    entry: (K, V),
    replies: Seq<Reply<K, V, E>>,
    worlds: Seq<Seq<Map<K, V>>>,
)
    requires
        0 <= left <= target,
        left <= route.lanes.len(),
        runs_by(
            crate::laws::write::sinking(route, left, evicted, target, current),
            entry,
            replies,
            worlds,
        ),
        worlds[0].len() == route.lanes.len(),
        clean(route, worlds[0], left, evicted + current, entry),
        kept(route, worlds[0], left, evicted + current, entry),
    ensures
        delivers(
            route,
            crate::laws::write::sinking(route, left, evicted, target, current),
            entry,
            replies,
            worlds,
            true,
        ),
    decreases
            replies.len(),
            left,
            if target < route.lanes.len() {
                2 * (route.lanes.len() - target) + 2
            } else {
                1
            },
{
    let play = crate::laws::write::sinking::<K, V, E>(route, left, evicted, target, current);
    if target >= route.lanes.len() || current.len() == 0 {
        let next = crate::laws::write::through::<K, V, E>(route, left, evicted + current);
        assert(play =~= next);
        lemma_through(route, left, evicted + current, entry, replies, worlds, true);
    } else if !route.writable(target) {
        let next = crate::laws::write::sinking::<K, V, E>(
            route,
            left,
            evicted,
            target + 1,
            current,
        );
        assert(play =~= next);
        lemma_sinking(route, left, evicted, target + 1, current, entry, replies, worlds);
    } else {
        let none = Seq::<(K, V)>::empty();
        let next = crate::laws::write::offering::<K, V, E>(
            route,
            left,
            evicted,
            target,
            current,
            none,
        );
        assert(play =~= next);
        assert(evicted + (current + none) =~= evicted + current);
        lemma_offering(route, left, evicted, target, current, none, entry, replies, worlds);
    }
}

proof fn lemma_offering<K, V, E>(
    route: Route,
    left: int,
    evicted: Seq<(K, V)>,
    target: int,
    rest: Seq<(K, V)>,
    next: Seq<(K, V)>,
    entry: (K, V),
    replies: Seq<Reply<K, V, E>>,
    worlds: Seq<Seq<Map<K, V>>>,
)
    requires
        0 <= left <= target,
        route.writable(target),
        runs_by(
            crate::laws::write::offering(route, left, evicted, target, rest, next),
            entry,
            replies,
            worlds,
        ),
        worlds[0].len() == route.lanes.len(),
        clean(route, worlds[0], left, evicted + (rest + next), entry),
        kept(route, worlds[0], left, evicted + (rest + next), entry),
    ensures
        delivers(
            route,
            crate::laws::write::offering(route, left, evicted, target, rest, next),
            entry,
            replies,
            worlds,
            true,
        ),
    decreases replies.len(), left, 2 * (route.lanes.len() - target) + 1,
{
    let play = crate::laws::write::offering::<K, V, E>(route, left, evicted, target, rest, next);
    if rest.len() == 0 {
        let onward = crate::laws::write::sinking::<K, V, E>(
            route,
            left,
            evicted,
            target + 1,
            next,
        );
        assert(play =~= onward);
        assert(evicted + (rest + next) =~= evicted + next);
        lemma_sinking(route, left, evicted, target + 1, next, entry, replies, worlds);
    } else if replies.len() == 0 {
        assert(play(replies) is Demote);
    } else {
        let reply = replies[0];
        let gathered = next + reply.displaced();
        let others = rest.skip(1);
        let onward = crate::laws::write::offering::<K, V, E>(
            route,
            left,
            evicted,
            target,
            others,
            gathered,
        );
        assert(crate::laws::write::after(play, reply) =~= onward) by {
            assert forall|s: Seq<Reply<K, V, E>>|
                #[trigger] crate::laws::write::after(play, reply)(s) == onward(s) by {
                assert((seq![reply] + s).skip(1) =~= s);
            }
        }
        lemma_first(play, onward, entry, replies, worlds);
        assert(play(Seq::empty()) == WriteMove::<K, V, E>::Demote {
            tier: target,
            key: rest[0].0,
            value: rest[0].1,
        });
        if let Reply::Put(Ok(more)) = reply {
            let pool = evicted + (others + next);
            let all = evicted + (rest + next);
            lemma_pool(evicted, rest, next);
            assert(all.contains(rest[0]));
            assert forall|x: (K, V)|
                #[trigger] pool.contains(x) && x.0 == entry.0 implies x.1 == entry.1 by {
                assert(all.contains(x));
            }
            assert(kept(route, worlds[0], left, pool, entry) || rest[0] == entry);
            lemma_written(
                route,
                worlds[0],
                worlds[1],
                left,
                target,
                rest[0],
                more,
                pool,
                entry,
            );
            assert(pool + more =~= evicted + (others + gathered));
            lemma_offering(
                route,
                left,
                evicted,
                target,
                others,
                gathered,
                entry,
                replies.skip(1),
                worlds.skip(1),
            );
        }
    }
}

/// Taking the first of the waiting entries out of the pool.
proof fn lemma_pool<K, V>(evicted: Seq<(K, V)>, rest: Seq<(K, V)>, next: Seq<(K, V)>)
    requires
        rest.len() > 0,
    ensures
        forall|x: (K, V)|
            #![trigger (evicted + (rest + next)).contains(x)]
            #![trigger (evicted + (rest.skip(1) + next)).contains(x)]
            (evicted + (rest + next)).contains(x) <==> x == rest[0] || (evicted + (rest.skip(1)
                + next)).contains(x),
{
    broadcast use group_seq_properties;

    let all = evicted + (rest + next);
    let pool = evicted + (rest.skip(1) + next);
    assert forall|x: (K, V)|
        #![trigger all.contains(x)]
        #![trigger pool.contains(x)]
        all.contains(x) <==> x == rest[0] || pool.contains(x) by {
        assert(rest =~= seq![rest[0]] + rest.skip(1));
        assert(rest.contains(x) <==> x == rest[0] || rest.skip(1).contains(x)) by {
            if rest.contains(x) {
                let i = choose|i: int| 0 <= i < rest.len() && rest[i] == x;
                if i > 0 {
                    assert(rest.skip(1)[i - 1] == x);
                }
            }
            if rest.skip(1).contains(x) {
                let i = choose|i: int| 0 <= i < rest.skip(1).len() && rest.skip(1)[i] == x;
                assert(rest[i + 1] == x);
            }
            assert(rest[0] == rest[0]);
        }
    }
}

/// Invalidation after the bottommost writable tier was written: the copies in
/// the writable tiers above are removed one after the other.
proof fn lemma_invalidating<K, V, E>(
    route: Route,
    bottom: int,
    tier: int,
    displaced: Seq<(K, V)>,
    entry: (K, V),
    replies: Seq<Reply<K, V, E>>,
    worlds: Seq<Seq<Map<K, V>>>,
)
    requires
        0 <= tier <= bottom,
        route.writable(bottom),
        forall|t: int| bottom < t ==> !route.writable(t),
        runs_by(
            crate::laws::write::invalidating(route, bottom, tier, displaced, Seq::empty()),
            entry,
            replies,
            worlds,
        ),
        worlds[0].len() == route.lanes.len(),
        forall|t: int|
            0 <= t < tier && route.writable(t) ==> !(#[trigger] worlds[0][t]).contains_key(entry.0),
        clean(route, worlds[0], bottom, displaced, entry),
        kept(route, worlds[0], bottom, displaced, entry),
    ensures
        delivers(
            route,
            crate::laws::write::invalidating(route, bottom, tier, displaced, Seq::empty()),
            entry,
            replies,
            worlds,
            true,
        ),
    decreases bottom - tier,
{
    let none = Seq::<Failure<E>>::empty();
    let play = crate::laws::write::invalidating::<K, V, E>(route, bottom, tier, displaced, none);
    if tier >= bottom {
        if replies.len() > 0 {
            assert(replies.take(0) =~= Seq::empty());
            assert(crate::laws::write::asked_by(play, replies)[0] == play(Seq::empty()));
        }
        assert forall|t: int|
            0 <= t && route.writable(t) && (#[trigger] worlds[0][t]).contains_key(
                entry.0,
            ) implies worlds[0][t][entry.0] == entry.1 by {
            assert(t == bottom);
        }
    } else if !route.writable(tier) {
        let next = crate::laws::write::invalidating::<K, V, E>(
            route,
            bottom,
            tier + 1,
            displaced,
            none,
        );
        assert(play =~= next);
        lemma_invalidating(route, bottom, tier + 1, displaced, entry, replies, worlds);
    } else if replies.len() == 0 {
        assert(play(replies) is Delete);
    } else {
        let reply = replies[0];
        assert(replies.take(0) =~= Seq::empty());
        assert(crate::laws::write::asked_by(play, replies)[0] == play(Seq::empty()));
        let next = crate::laws::write::invalidating::<K, V, E>(
            route,
            bottom,
            tier + 1,
            displaced,
            none,
        );
        assert(crate::laws::write::after(play, reply) =~= next) by {
            assert forall|s: Seq<Reply<K, V, E>>|
                #[trigger] crate::laws::write::after(play, reply)(s) == next(s) by {
                assert((seq![reply] + s).skip(1) =~= s);
            }
        }
        lemma_first(play, next, entry, replies, worlds);
        assert forall|t: int| 0 <= t < route.lanes.len() && t != tier implies #[trigger] worlds[1][t]
            == worlds[0][t] by {}
        assert(!worlds[1][tier].contains_key(entry.0));
        assert forall|t: int|
            bottom <= t && route.writable(t) && (#[trigger] worlds[1][t]).contains_key(
                entry.0,
            ) implies worlds[1][t][entry.0] == entry.1 by {
            assert(worlds[1][t] == worlds[0][t]);
        }
        if !displaced.contains(entry) {
            let t = choose|t: int|
                bottom <= t && route.writable(t) && (#[trigger] worlds[0][t]).contains_key(entry.0);
            assert(worlds[1][t] == worlds[0][t]);
        }
        lemma_invalidating(
            route,
            bottom,
            tier + 1,
            displaced,
            entry,
            replies.skip(1),
            worlds.skip(1),
        );
    }
}

/// A written entry is there afterwards. Over honest tiers that accept every
/// call, a write of one entry ends well; every writable tier that then holds
/// the key holds the value that was written, and some writable tier does,
/// unless the entry itself was pushed out of the hierarchy and returned.
pub proof fn law_written_entry_is_kept<K, V, E>(run: WriteRun<K, V, E>)
    requires
        run.honest(),
        exists|tier: int| run.log.route.writable(tier),
        run.log.step() is Done,
    ensures
        run.log.step() matches WriteMove::Done(Ok(evicted)) && {
            let (key, value) = run.log.entries[0];
            let contents = run.worlds.last();
            &&& contents.len() == run.log.route.lanes.len()
            &&& forall|t: int|
                run.log.route.writable(t) && (#[trigger] contents[t]).contains_key(key)
                    ==> contents[t][key] == value
            &&& evicted.contains((key, value)) || exists|t: int|
                run.log.route.writable(t) && (#[trigger] contents[t]).contains_key(key)
        },
{
    let log = run.log;
    let route = log.route;
    let n = route.lanes.len() as int;
    let entry = log.entries[0];
    crate::laws::write::lemma_has_writable(route);
    let play = |s: Seq<Reply<K, V, E>>| (WriteLog { replies: s, ..log }).step();
    assert(log.asked() =~= crate::laws::write::asked_by(play, log.replies));
    assert(WriteLog { replies: log.replies, ..log } =~= log);
    assert(runs_by(play, entry, log.replies, run.worlds));
    match route.policy.write {
        WriteMode::WriteThrough => {
            let through = crate::laws::write::through::<K, V, E>(route, n, Seq::empty());
            assert(play =~= through);
            lemma_through(
                route,
                n,
                Seq::<(K, V)>::empty(),
                entry,
                log.replies,
                run.worlds,
                false,
            );
            let tier = choose|tier: int| route.writable(tier);
            assert(0 <= tier < n && route.writable(tier));
        },
        WriteMode::WriteAround => {
            route.lemma_writables(n);
            let bottom = route.writables(n).last();
            assert(route.writable(route.writables(n)[route.writables(n).len() - 1]));
            assert forall|i: int| bottom < i implies !route.writable(i) by {
                if route.writable(i) {
                    assert(route.writables(n).contains(i));
                }
            }
            let none = Seq::<(K, V)>::empty();
            if log.replies.len() == 0 {
                assert(log.step() is Put);
            } else {
                let reply = log.replies[0];
                assert(log.replies.take(0) =~= Seq::empty());
                assert(crate::laws::write::asked_by(play, log.replies)[0] == play(Seq::empty()));
                assert(play(Seq::empty()) == WriteMove::<K, V, E>::Put { tier: bottom });
                if let Reply::Put(Ok(displaced)) = reply {
                    let next = crate::laws::write::invalidating::<K, V, E>(
                        route,
                        bottom,
                        0,
                        displaced,
                        Seq::empty(),
                    );
                    assert(crate::laws::write::after(play, reply) =~= next) by {
                        assert forall|s: Seq<Reply<K, V, E>>|
                            #[trigger] crate::laws::write::after(play, reply)(s) == next(s) by {
                            assert((seq![reply] + s).skip(1) =~= s);
                        }
                    }
                    lemma_first(play, next, entry, log.replies, run.worlds);
                    lemma_put(
                        route,
                        run.worlds[0],
                        run.worlds[1],
                        bottom + 1,
                        displaced,
                        none,
                        entry,
                    );
                    assert(none + displaced =~= displaced);
                    lemma_invalidating(
                        route,
                        bottom,
                        0,
                        displaced,
                        entry,
                        log.replies.skip(1),
                        run.worlds.skip(1),
                    );
                }
            }
        },
    }
}

/// A world in which every tier answers.
pub open spec fn snapshot<K, V>(contents: Seq<Map<K, V>>) -> Seq<Option<Map<K, V>>> {
    contents.map_values(|tier: Map<K, V>| Some(tier))
}

/// In a world in which every tier answers, the topmost tier that holds a key
/// serves it.
pub proof fn lemma_find_holder<K, V>(
    on_error: OnReadError,
    contents: Seq<Map<K, V>>,
    key: K,
    from: int,
)
    requires
        0 <= from,
    ensures
        match read::find(on_error, snapshot(contents), key, from, false) {
            Finding::Hit { tier, value } => {
                &&& from <= tier < contents.len()
                &&& contents[tier].contains_key(key)
                &&& contents[tier][key] == value
                &&& forall|t: int| from <= t < tier ==> !(#[trigger] contents[t]).contains_key(key)
            },
            Finding::Miss => forall|t: int|
                from <= t < contents.len() ==> !(#[trigger] contents[t]).contains_key(key),
            _ => false,
        },
    decreases contents.len() - from,
{
    if from < contents.len() {
        lemma_find_holder(on_error, contents, key, from + 1);
    }
}

/// What was written is read back. Over honest tiers that accept every call, a
/// read after the write of one entry finds the value that was written, unless
/// the write pushed the entry out of the hierarchy and returned it, or a tier
/// that the router never writes holds the key.
pub proof fn law_written_entry_is_read_back<K, V, E>(run: WriteRun<K, V, E>, on_error: OnReadError)
    requires
        run.honest(),
        exists|tier: int| run.log.route.writable(tier),
        run.log.step() is Done,
        forall|t: int|
            0 <= t < run.log.route.lanes.len() && !run.log.route.writable(t) ==> !(
            #[trigger] run.worlds.last()[t]).contains_key(run.log.entries[0].0),
    ensures
        run.log.step() matches WriteMove::Done(Ok(evicted)) && (evicted.contains(
            run.log.entries[0],
        ) || (read::find(
            on_error,
            snapshot(run.worlds.last()),
            run.log.entries[0].0,
            0,
            false,
        ) matches Finding::Hit { value, .. } && value == run.log.entries[0].1)),
{
    law_written_entry_is_kept(run);
    let route = run.log.route;
    let (key, value) = run.log.entries[0];
    let contents = run.worlds.last();
    lemma_find_holder(on_error, contents, key, 0);
    if let WriteMove::Done(Ok(evicted)) = run.log.step() {
        if !evicted.contains((key, value)) {
            let t = choose|t: int| route.writable(t) && (#[trigger] contents[t]).contains_key(key);
            assert(contents[t].contains_key(key));
        }
    }
}

} // verus!
