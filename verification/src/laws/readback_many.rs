//! What becomes of entries that were written in a batch.
//!
//! Later entries of a batch win over earlier ones, and an older value of a
//! key may be displaced before the batch gets to the key. So copies of older
//! values can stay behind in lower tiers, but never above the one that was
//! written last.
use vstd::prelude::*;

use crate::error::Failure;
use crate::laws::read;
use crate::laws::read::Finding;
use crate::laws::readback;
use crate::laws::world;
use crate::policy::{OnReadError, WriteMode};
use crate::rollover::Reply;
use crate::router::Route;
use crate::write::{WriteLog, WriteMove};

verus! {

/// Whether an honest tier answers the request `step` of a write of `entries`
/// with `reply`, and that turns the world `before` into `after`.
pub open spec fn answers<K, V, E>(
    entries: Seq<(K, V)>,
    step: WriteMove<K, V, E>,
    reply: Reply<K, V, E>,
    before: Seq<Map<K, V>>,
    after: Seq<Map<K, V>>,
) -> bool {
    match (step, reply) {
        (WriteMove::Put { tier }, Reply::Put(Ok(displaced))) => world::writes_all(
            before,
            tier,
            entries,
            displaced,
            after,
        ),
        (WriteMove::Demote { tier, key, value }, Reply::Put(Ok(displaced))) => world::writes(
            before,
            tier,
            key,
            value,
            displaced,
            after,
        ),
        (WriteMove::Delete { tier }, Reply::Deleted(Ok(_))) => {
            &&& 0 <= tier < before.len()
            &&& after == before.update(
                tier,
                before[tier].remove_keys(world::keys(entries).to_set()),
            )
        },
        _ => false,
    }
}

/// A write over honest tiers, with the world before every request and at the
/// end.
#[verifier::reject_recursive_types(K)]
pub struct BatchRun<K, V, E> {
    /// What was asked and answered.
    pub log: WriteLog<K, V, E>,
    /// The worlds.
    pub worlds: Seq<Seq<Map<K, V>>>,
}

impl<K, V, E> BatchRun<K, V, E> {
    /// Whether every tier is honest and accepts.
    pub open spec fn honest(self) -> bool {
        &&& self.worlds.len() == self.log.replies.len() + 1
        &&& self.worlds[0].len() == self.log.route.lanes.len()
        &&& forall|i: int|
            0 <= i < self.log.replies.len() ==> answers(
                self.log.entries,
                #[trigger] self.log.asked()[i],
                self.log.replies[i],
                self.worlds[i],
                self.worlds[i + 1],
            )
    }
}

pub(crate) open spec fn runs_by<K, V, E>(
    play: spec_fn(Seq<Reply<K, V, E>>) -> WriteMove<K, V, E>,
    entries: Seq<(K, V)>,
    replies: Seq<Reply<K, V, E>>,
    worlds: Seq<Seq<Map<K, V>>>,
) -> bool {
    &&& worlds.len() == replies.len() + 1
    &&& forall|i: int|
        0 <= i < replies.len() ==> answers(
            entries,
            #[trigger] crate::laws::write::asked_by(play, replies)[i],
            replies[i],
            worlds[i],
            worlds[i + 1],
        )
}

pub(crate) proof fn lemma_first<K, V, E>(
    play: spec_fn(Seq<Reply<K, V, E>>) -> WriteMove<K, V, E>,
    next: spec_fn(Seq<Reply<K, V, E>>) -> WriteMove<K, V, E>,
    entries: Seq<(K, V)>,
    replies: Seq<Reply<K, V, E>>,
    worlds: Seq<Seq<Map<K, V>>>,
)
    requires
        replies.len() > 0,
        runs_by(play, entries, replies, worlds),
        forall|s: Seq<Reply<K, V, E>>| #[trigger] next(s) == play(seq![replies[0]] + s),
    ensures
        answers(entries, play(Seq::empty()), replies[0], worlds[0], worlds[1]),
        runs_by(next, entries, replies.skip(1), worlds.skip(1)),
        play(replies) == next(replies.skip(1)),
        worlds.skip(1)[0] == worlds[1],
        worlds.skip(1).last() == worlds.last(),
{
    let rest = replies.skip(1);
    assert(replies.take(0) =~= Seq::empty());
    assert(crate::laws::write::asked_by(play, replies)[0] == play(Seq::empty()));
    assert forall|i: int| 0 <= i <= rest.len() implies next(#[trigger] rest.take(i)) == play(
        replies.take(i + 1),
    ) by {
        assert(seq![replies[0]] + rest.take(i) =~= replies.take(i + 1));
    }
    assert(rest.take(rest.len() as int) =~= rest);
    assert(replies.take(replies.len() as int) =~= replies);
    assert forall|i: int| 0 <= i < rest.len() implies answers(
        entries,
        #[trigger] crate::laws::write::asked_by(next, rest)[i],
        rest[i],
        worlds.skip(1)[i],
        worlds.skip(1)[i + 1],
    ) by {
        assert(crate::laws::write::asked_by(play, replies)[i + 1] == next(rest.take(i)));
    }
}

/// The last value of a key in two sequences after one another.
proof fn lemma_last_of_sum<K, V>(first: Seq<(K, V)>, second: Seq<(K, V)>, key: K)
    ensures
        world::last_of(first + second, key) == match world::last_of(second, key) {
            Some(value) => Some(value),
            None => world::last_of(first, key),
        },
    decreases second.len(),
{
    if second.len() == 0 {
        assert(first + second =~= first);
    } else {
        assert((first + second).drop_last() =~= first + second.drop_last());
        lemma_last_of_sum(first, second.drop_last(), key);
    }
}

/// The last value of a key is one that the key has.
proof fn lemma_last_of_found<K, V>(entries: Seq<(K, V)>, key: K)
    ensures
        world::last_of(entries, key) matches Some(value) ==> entries.contains((key, value)),
        world::last_of(entries, key) is None <==> !world::keys(entries).contains(key),
    decreases entries.len(),
{
    if entries.len() > 0 {
        let rest = entries.drop_last();
        lemma_last_of_found(rest, key);
        assert(entries[entries.len() - 1] == entries.last());
        assert(world::keys(entries)[entries.len() - 1] == entries.last().0);
        if entries.last().0 != key {
            if let Some(value) = world::last_of(rest, key) {
                let i = choose|i: int| 0 <= i < rest.len() && rest[i] == (key, value);
                assert(entries[i] == (key, value));
            }
            if world::keys(rest).contains(key) {
                let i = choose|i: int| 0 <= i < rest.len() && world::keys(rest)[i] == key;
                assert(world::keys(entries)[i] == key);
            }
            if world::keys(entries).contains(key) {
                let i = choose|i: int| 0 <= i < entries.len() && world::keys(entries)[i] == key;
                assert(world::keys(rest)[i] == key);
            }
        }
    }
}

/// What an honest tier does to one key: the value that counts after the write
/// either is held, or is the last one displaced.
proof fn lemma_accepted<K, V>(
    before: Map<K, V>,
    written: (K, V),
    displaced: Seq<(K, V)>,
    after: Map<K, V>,
    key: K,
)
    requires
        world::accepts(before, written.0, written.1, displaced, after),
    ensures
        ({
            let full = before.insert(written.0, written.1);
            if full.contains_key(key) {
                if after.contains_key(key) {
                    after[key] == full[key] && world::last_of(displaced, key) is None
                } else {
                    world::last_of(displaced, key) == Some(full[key])
                }
            } else {
                !after.contains_key(key) && world::last_of(displaced, key) is None
            }
        }),
{
    let full = before.insert(written.0, written.1);
    lemma_last_of_found(displaced, key);
    if let Some(value) = world::last_of(displaced, key) {
        let i = choose|i: int| 0 <= i < displaced.len() && displaced[i] == (key, value);
        assert(full.contains_pair(displaced[i].0, displaced[i].1));
    }
    assert(after.contains_key(key) <==> full.contains_key(key) && !world::keys(
        displaced,
    ).contains(key));
}

/// The same for a batch: the last value the batch gives a key either is held,
/// or is the last one displaced.
proof fn lemma_accepted_all<K, V>(
    before: Map<K, V>,
    entries: Seq<(K, V)>,
    displaced: Seq<(K, V)>,
    after: Map<K, V>,
    key: K,
)
    requires
        world::accepts_all(before, entries, displaced, after),
        world::last_of(entries, key) is Some,
    ensures
        if after.contains_key(key) {
            Some(after[key]) == world::last_of(entries, key)
        } else {
            world::last_of(displaced, key) == world::last_of(entries, key)
        },
    decreases entries.len(),
{
    let (count, between) = choose|count: int, between: Map<K, V>|
        0 <= count <= displaced.len() && world::accepts_all(
            before,
            entries.drop_last(),
            displaced.take(count),
            between,
        ) && #[trigger] world::accepts(
            between,
            entries.last().0,
            entries.last().1,
            displaced.skip(count),
            after,
        );
    assert(displaced =~= displaced.take(count) + displaced.skip(count));
    lemma_last_of_sum(displaced.take(count), displaced.skip(count), key);
    lemma_accepted(between, entries.last(), displaced.skip(count), after, key);
    if entries.last().0 != key {
        lemma_accepted_all(before, entries.drop_last(), displaced.take(count), between, key);
    }
}

/// No writable tier from `from` up to `upto` holds the key.
spec fn absent<K, V>(
    route: Route,
    contents: Seq<Map<K, V>>,
    from: int,
    upto: int,
    key: K,
) -> bool {
    forall|t: int|
        from <= t < upto && route.writable(t) ==> !(#[trigger] contents[t]).contains_key(key)
}

/// Whether tier `t` is the topmost writable one from `from` down that holds
/// the key of `entry`, with the value of `entry`.
spec fn leads_at<K, V>(
    route: Route,
    contents: Seq<Map<K, V>>,
    from: int,
    t: int,
    entry: (K, V),
) -> bool {
    &&& from <= t
    &&& route.writable(t)
    &&& contents[t].contains_key(entry.0)
    &&& contents[t][entry.0] == entry.1
    &&& absent(route, contents, from, t, entry.0)
}

/// The topmost copy of the key in the writable tiers from `from` up to `upto`
/// is `entry`.
spec fn leads<K, V>(
    route: Route,
    contents: Seq<Map<K, V>>,
    from: int,
    upto: int,
    entry: (K, V),
) -> bool {
    exists|t: int| t < upto && #[trigger] leads_at(route, contents, from, t, entry)
}

/// Writing at `tier` does not touch what is above.
proof fn lemma_untouched<K, V>(
    route: Route,
    before: Seq<Map<K, V>>,
    after: Seq<Map<K, V>>,
    from: int,
    tier: int,
    entry: (K, V),
)
    requires
        0 <= from,
        tier < before.len(),
        forall|t: int| 0 <= t < before.len() && t != tier ==> #[trigger] after[t] == before[t],
    ensures
        leads(route, before, from, tier, entry) ==> leads(route, after, from, tier, entry),
        absent(route, before, from, tier, entry.0) ==> absent(route, after, from, tier, entry.0),
{
    assert forall|t: int| from <= t < tier implies #[trigger] after[t] == before[t] by {}
    if leads(route, before, from, tier, entry) {
        let t = choose|t: int| t < tier && #[trigger] leads_at(route, before, from, t, entry);
        assert(leads_at(route, after, from, t, entry));
    }
}

/// What a finished play has to show.
spec fn delivers<K, V, E>(
    route: Route,
    play: spec_fn(Seq<Reply<K, V, E>>) -> WriteMove<K, V, E>,
    entry: (K, V),
    replies: Seq<Reply<K, V, E>>,
    worlds: Seq<Seq<Map<K, V>>>,
    placed: bool,
) -> bool {
    play(replies) matches WriteMove::Done(result) ==> {
        let n = route.lanes.len() as int;
        &&& worlds.last().len() == n
        &&& result matches Ok(out) && (leads(route, worlds.last(), 0, n, entry) || absent(
            route,
            worlds.last(),
            0,
            n,
            entry.0,
        ) && (placed ==> out.contains(entry)))
    }
}

proof fn lemma_through<K, V, E>(
    route: Route,
    left: int,
    evicted: Seq<(K, V)>,
    entries: Seq<(K, V)>,
    entry: (K, V),
    replies: Seq<Reply<K, V, E>>,
    worlds: Seq<Seq<Map<K, V>>>,
    placed: bool,
)
    requires
        0 <= left <= route.lanes.len(),
        world::last_of(entries, entry.0) == Some(entry.1),
        runs_by(crate::laws::write::through(route, left, evicted), entries, replies, worlds),
        worlds[0].len() == route.lanes.len(),
        leads(route, worlds[0], left, route.lanes.len() as int, entry) || absent(
            route,
            worlds[0],
            left,
            route.lanes.len() as int,
            entry.0,
        ) && (placed ==> evicted.contains(entry)),
    ensures
        delivers(
            route,
            crate::laws::write::through(route, left, evicted),
            entry,
            replies,
            worlds,
            placed || exists|t: int| 0 <= t < left && #[trigger] route.writable(t),
        ),
    decreases replies.len(), left, 0int,
{
    let n = route.lanes.len() as int;
    let play = crate::laws::write::through::<K, V, E>(route, left, evicted);
    if left <= 0 {
        if replies.len() > 0 {
            assert(replies.take(0) =~= Seq::empty());
            assert(crate::laws::write::asked_by(play, replies)[0] == play(Seq::empty()));
        }
    } else if !route.writable(left - 1) {
        let next = crate::laws::write::through::<K, V, E>(route, left - 1, evicted);
        assert(play =~= next);
        lemma_higher(route, worlds[0], left, entry);
        lemma_through(route, left - 1, evicted, entries, entry, replies, worlds, placed);
        if exists|t: int| 0 <= t < left && #[trigger] route.writable(t) {
            let t = choose|t: int| 0 <= t < left && #[trigger] route.writable(t);
            assert(0 <= t < left - 1 && route.writable(t));
        }
    } else if replies.len() == 0 {
        assert(play(replies) is Put);
    } else {
        let reply = replies[0];
        let at = left - 1;
        let next = crate::laws::write::after(play, reply);
        lemma_first(play, next, entries, replies, worlds);
        assert(play(Seq::empty()) == WriteMove::<K, V, E>::Put { tier: at });
        if let Reply::Put(Ok(more)) = reply {
            let after = worlds[1];
            lemma_accepted_all(worlds[0][at], entries, more, after[at], entry.0);
            lemma_last_of_found(more, entry.0);
            if after[at].contains_key(entry.0) {
                assert(leads_at(route, after, at, at, entry));
            }
            if route.policy.demote_displaced {
                let onward = crate::laws::write::sinking::<K, V, E>(route, at, evicted, left, more);
                assert(next =~= onward) by {
                    assert forall|s: Seq<Reply<K, V, E>>| #[trigger] next(s) == onward(s) by {
                        assert((seq![reply] + s).skip(1) =~= s);
                    }
                }
                lemma_sinking(
                    route,
                    at,
                    evicted,
                    left,
                    more,
                    entries,
                    entry,
                    replies.skip(1),
                    worlds.skip(1),
                );
            } else {
                let onward = crate::laws::write::through::<K, V, E>(route, at, evicted + more);
                assert(next =~= onward) by {
                    assert forall|s: Seq<Reply<K, V, E>>| #[trigger] next(s) == onward(s) by {
                        assert((seq![reply] + s).skip(1) =~= s);
                    }
                }
                lemma_below(route, worlds[0], after, left, entry);
                lemma_contains_sum(evicted, more, entry);
                lemma_through(
                    route,
                    at,
                    evicted + more,
                    entries,
                    entry,
                    replies.skip(1),
                    worlds.skip(1),
                    true,
                );
            }
        }
    }
}

/// What is in one of two sequences is in both together.
proof fn lemma_contains_sum<A>(first: Seq<A>, second: Seq<A>, item: A)
    ensures
        first.contains(item) || second.contains(item) ==> (first + second).contains(item),
{
    if first.contains(item) {
        let i = choose|i: int| 0 <= i < first.len() && first[i] == item;
        assert((first + second)[i] == item);
    } else if second.contains(item) {
        let i = choose|i: int| 0 <= i < second.len() && second[i] == item;
        assert((first + second)[first.len() + i] == item);
    }
}

/// A tier that is not writable does not count.
proof fn lemma_higher<K, V>(
    route: Route,
    contents: Seq<Map<K, V>>,
    left: int,
    entry: (K, V),
)
    requires
        !route.writable(left - 1),
    ensures
        ({
            let n = route.lanes.len() as int;
            &&& leads(route, contents, left, n, entry) ==> leads(
                route,
                contents,
                left - 1,
                n,
                entry,
            )
            &&& absent(route, contents, left, n, entry.0) ==> absent(
                route,
                contents,
                left - 1,
                n,
                entry.0,
            )
        }),
{
    let n = route.lanes.len() as int;
    if leads(route, contents, left, n, entry) {
        let t = choose|t: int| t < n && #[trigger] leads_at(route, contents, left, t, entry);
        assert(leads_at(route, contents, left - 1, t, entry));
    }
}

/// Once tier `left - 1` was written, it has the topmost copy, or what was
/// below it counts.
proof fn lemma_below<K, V>(
    route: Route,
    before: Seq<Map<K, V>>,
    after: Seq<Map<K, V>>,
    left: int,
    entry: (K, V),
)
    requires
        0 < left <= route.lanes.len(),
        before.len() == route.lanes.len(),
        forall|t: int| 0 <= t < before.len() && t != left - 1 ==> #[trigger] after[t] == before[t],
        route.writable(left - 1),
        after[left - 1].contains_key(entry.0) ==> after[left - 1][entry.0] == entry.1,
        leads(route, before, left, route.lanes.len() as int, entry) || absent(
            route,
            before,
            left,
            route.lanes.len() as int,
            entry.0,
        ),
    ensures
        ({
            let n = route.lanes.len() as int;
            ||| leads(route, after, left - 1, n, entry)
            ||| absent(route, after, left - 1, n, entry.0) && !after[left - 1].contains_key(entry.0)
        }),
{
    let n = route.lanes.len() as int;
    if after[left - 1].contains_key(entry.0) {
        assert(leads_at(route, after, left - 1, left - 1, entry));
    } else if leads(route, before, left, n, entry) {
        let t = choose|t: int| t < n && #[trigger] leads_at(route, before, left, t, entry);
        assert(after[t] == before[t]);
        assert forall|u: int| left - 1 <= u < t && route.writable(u) implies !(
        #[trigger] after[u]).contains_key(entry.0) by {
            if u != left - 1 {
                assert(after[u] == before[u]);
            }
        }
        assert(leads_at(route, after, left - 1, t, entry));
    } else {
        assert forall|u: int| left - 1 <= u < n && route.writable(u) implies !(
        #[trigger] after[u]).contains_key(entry.0) by {
            if u != left - 1 {
                assert(after[u] == before[u]);
            }
        }
    }
}

proof fn lemma_sinking<K, V, E>(
    route: Route,
    left: int,
    evicted: Seq<(K, V)>,
    target: int,
    current: Seq<(K, V)>,
    entries: Seq<(K, V)>,
    entry: (K, V),
    replies: Seq<Reply<K, V, E>>,
    worlds: Seq<Seq<Map<K, V>>>,
)
    requires
        0 <= left <= target <= route.lanes.len(),
        world::last_of(entries, entry.0) == Some(entry.1),
        runs_by(
            crate::laws::write::sinking(route, left, evicted, target, current),
            entries,
            replies,
            worlds,
        ),
        worlds[0].len() == route.lanes.len(),
        leads(route, worlds[0], left, target, entry) || absent(
            route,
            worlds[0],
            left,
            target,
            entry.0,
        ) && world::last_of(current, entry.0) == Some(entry.1),
    ensures
        delivers(
            route,
            crate::laws::write::sinking(route, left, evicted, target, current),
            entry,
            replies,
            worlds,
            true,
        ),
    decreases replies.len(), left, 2 * (route.lanes.len() - target) + 2,
{
    let n = route.lanes.len() as int;
    let play = crate::laws::write::sinking::<K, V, E>(route, left, evicted, target, current);
    if target >= n || current.len() == 0 {
        let next = crate::laws::write::through::<K, V, E>(route, left, evicted + current);
        assert(play =~= next);
        lemma_last_of_found(current, entry.0);
        lemma_contains_sum(evicted, current, entry);
        if leads(route, worlds[0], left, target, entry) {
            let t = choose|t: int|
                t < target && #[trigger] leads_at(route, worlds[0], left, t, entry);
            assert(leads_at(route, worlds[0], left, t, entry) && t < n);
        }
        lemma_through(route, left, evicted + current, entries, entry, replies, worlds, true);
    } else if !route.writable(target) {
        let next = crate::laws::write::sinking::<K, V, E>(
            route,
            left,
            evicted,
            target + 1,
            current,
        );
        assert(play =~= next);
        if leads(route, worlds[0], left, target, entry) {
            let t = choose|t: int|
                t < target && #[trigger] leads_at(route, worlds[0], left, t, entry);
            assert(leads_at(route, worlds[0], left, t, entry) && t < target + 1);
        }
        lemma_sinking(
            route,
            left,
            evicted,
            target + 1,
            current,
            entries,
            entry,
            replies,
            worlds,
        );
    } else {
        let none = Seq::<(K, V)>::empty();
        let next = crate::laws::write::offering::<K, V, E>(
            route,
            left,
            evicted,
            target,
            current,
            none,
        );
        assert(play =~= next);
        lemma_offering(
            route,
            left,
            evicted,
            target,
            current,
            none,
            entries,
            entry,
            replies,
            worlds,
        );
    }
}

/// Where the value that counts is while entries are offered to the tier
/// `held` is the contents of: among those still to be offered, in the tier,
/// or the last of those that sink further.
spec fn underway<K, V>(
    held: Map<K, V>,
    rest: Seq<(K, V)>,
    next: Seq<(K, V)>,
    entry: (K, V),
) -> bool {
    match world::last_of(rest, entry.0) {
        Some(value) => value == entry.1,
        None => if held.contains_key(entry.0) {
            held[entry.0] == entry.1
        } else {
            world::last_of(next, entry.0) == Some(entry.1)
        },
    }
}

/// Offering one more entry keeps track of the value that counts.
proof fn lemma_offered<K, V>(
    before: Map<K, V>,
    after: Map<K, V>,
    rest: Seq<(K, V)>,
    next: Seq<(K, V)>,
    displaced: Seq<(K, V)>,
    entry: (K, V),
)
    requires
        rest.len() > 0,
        world::accepts(before, rest[0].0, rest[0].1, displaced, after),
        underway(before, rest, next, entry),
    ensures
        underway(after, rest.skip(1), next + displaced, entry),
{
    assert(rest =~= seq![rest[0]] + rest.skip(1));
    lemma_last_of_sum(seq![rest[0]], rest.skip(1), entry.0);
    assert(seq![rest[0]].drop_last() =~= Seq::<(K, V)>::empty());
    assert(world::last_of(Seq::<(K, V)>::empty(), entry.0) is None);
    lemma_last_of_sum(next, displaced, entry.0);
    lemma_accepted(before, rest[0], displaced, after, entry.0);
}

proof fn lemma_offering<K, V, E>(
    route: Route,
    left: int,
    evicted: Seq<(K, V)>,
    target: int,
    rest: Seq<(K, V)>,
    next: Seq<(K, V)>,
    entries: Seq<(K, V)>,
    entry: (K, V),
    replies: Seq<Reply<K, V, E>>,
    worlds: Seq<Seq<Map<K, V>>>,
)
    requires
        0 <= left <= target,
        route.writable(target),
        world::last_of(entries, entry.0) == Some(entry.1),
        runs_by(
            crate::laws::write::offering(route, left, evicted, target, rest, next),
            entries,
            replies,
            worlds,
        ),
        worlds[0].len() == route.lanes.len(),
        leads(route, worlds[0], left, target, entry) || absent(
            route,
            worlds[0],
            left,
            target,
            entry.0,
        ) && underway(worlds[0][target], rest, next, entry),
    ensures
        delivers(
            route,
            crate::laws::write::offering(route, left, evicted, target, rest, next),
            entry,
            replies,
            worlds,
            true,
        ),
    decreases replies.len(), left, 2 * (route.lanes.len() - target) + 1,
{
    let play = crate::laws::write::offering::<K, V, E>(route, left, evicted, target, rest, next);
    let contents = worlds[0];
    if rest.len() == 0 {
        let onward = crate::laws::write::sinking::<K, V, E>(
            route,
            left,
            evicted,
            target + 1,
            next,
        );
        assert(play =~= onward);
        if leads(route, contents, left, target, entry) {
            let t = choose|t: int| t < target && #[trigger] leads_at(route, contents, left, t, entry);
            assert(leads_at(route, contents, left, t, entry) && t < target + 1);
        } else if contents[target].contains_key(entry.0) {
            assert(leads_at(route, contents, left, target, entry));
        }
        lemma_sinking(route, left, evicted, target + 1, next, entries, entry, replies, worlds);
    } else if replies.len() == 0 {
        assert(play(replies) is Demote);
    } else {
        let reply = replies[0];
        let gathered = next + reply.displaced();
        let others = rest.skip(1);
        let onward = crate::laws::write::offering::<K, V, E>(
            route,
            left,
            evicted,
            target,
            others,
            gathered,
        );
        assert forall|s: Seq<Reply<K, V, E>>| #[trigger] onward(s) == play(seq![reply] + s) by {
            assert((seq![reply] + s).skip(1) =~= s);
        }
        lemma_first(play, onward, entries, replies, worlds);
        assert(play(Seq::empty()) == WriteMove::<K, V, E>::Demote {
            tier: target,
            key: rest[0].0,
            value: rest[0].1,
        });
        if let Reply::Put(Ok(more)) = reply {
            lemma_untouched(route, contents, worlds[1], left, target, entry);
            if !leads(route, contents, left, target, entry) {
                lemma_offered(contents[target], worlds[1][target], rest, next, more, entry);
            }
            lemma_offering(
                route,
                left,
                evicted,
                target,
                others,
                gathered,
                entries,
                entry,
                replies.skip(1),
                worlds.skip(1),
            );
        }
    }
}

/// Invalidation after the bottommost writable tier was written: the copies in
/// the writable tiers above are removed one after the other.
proof fn lemma_invalidating<K, V, E>(
    route: Route,
    bottom: int,
    tier: int,
    displaced: Seq<(K, V)>,
    entries: Seq<(K, V)>,
    entry: (K, V),
    replies: Seq<Reply<K, V, E>>,
    worlds: Seq<Seq<Map<K, V>>>,
)
    requires
        0 <= tier <= bottom,
        route.writable(bottom),
        forall|t: int| bottom < t ==> !route.writable(t),
        world::last_of(entries, entry.0) == Some(entry.1),
        runs_by(
            crate::laws::write::invalidating(route, bottom, tier, displaced, Seq::empty()),
            entries,
            replies,
            worlds,
        ),
        worlds[0].len() == route.lanes.len(),
        absent(route, worlds[0], 0, tier, entry.0),
        if worlds[0][bottom].contains_key(entry.0) {
            worlds[0][bottom][entry.0] == entry.1
        } else {
            displaced.contains(entry)
        },
    ensures
        delivers(
            route,
            crate::laws::write::invalidating(route, bottom, tier, displaced, Seq::empty()),
            entry,
            replies,
            worlds,
            true,
        ),
    decreases bottom - tier,
{
    let none = Seq::<Failure<E>>::empty();
    let play = crate::laws::write::invalidating::<K, V, E>(route, bottom, tier, displaced, none);
    if tier >= bottom {
        if replies.len() > 0 {
            assert(replies.take(0) =~= Seq::empty());
            assert(crate::laws::write::asked_by(play, replies)[0] == play(Seq::empty()));
        }
        if worlds[0][bottom].contains_key(entry.0) {
            assert(leads_at(route, worlds[0], 0, bottom, entry));
        } else {
            assert forall|t: int| 0 <= t < route.lanes.len() && route.writable(t) implies !(
            #[trigger] worlds[0][t]).contains_key(entry.0) by {
                assert(t <= bottom);
            }
        }
    } else if !route.writable(tier) {
        let next = crate::laws::write::invalidating::<K, V, E>(
            route,
            bottom,
            tier + 1,
            displaced,
            none,
        );
        assert(play =~= next);
        lemma_invalidating(
            route,
            bottom,
            tier + 1,
            displaced,
            entries,
            entry,
            replies,
            worlds,
        );
    } else if replies.len() == 0 {
        assert(play(replies) is Delete);
    } else {
        let reply = replies[0];
        assert(replies.take(0) =~= Seq::empty());
        assert(crate::laws::write::asked_by(play, replies)[0] == play(Seq::empty()));
        let next = crate::laws::write::invalidating::<K, V, E>(
            route,
            bottom,
            tier + 1,
            displaced,
            none,
        );
        assert forall|s: Seq<Reply<K, V, E>>| #[trigger] next(s) == play(seq![reply] + s) by {
            assert((seq![reply] + s).skip(1) =~= s);
        }
        lemma_first(play, next, entries, replies, worlds);
        lemma_last_of_found(entries, entry.0);
        assert(world::keys(entries).to_set().contains(entry.0));
        assert(!worlds[1][tier].contains_key(entry.0));
        assert forall|t: int| 0 <= t < tier + 1 && route.writable(t) implies !(
        #[trigger] worlds[1][t]).contains_key(entry.0) by {
            if t != tier {
                assert(worlds[1][t] == worlds[0][t]);
            }
        }
        lemma_invalidating(
            route,
            bottom,
            tier + 1,
            displaced,
            entries,
            entry,
            replies.skip(1),
            worlds.skip(1),
        );
    }
}

/// What a batch wrote last is what counts. Over honest tiers that accept
/// every call, a write ends well, and for every key it wrote, the topmost
/// copy in a writable tier has the last value that the batch gives the key;
/// if no writable tier has a copy, that entry was pushed out of the hierarchy
/// and is returned.
pub proof fn law_written_batch_is_kept<K, V, E>(run: BatchRun<K, V, E>, key: K)
    requires
        run.honest(),
        exists|tier: int| run.log.route.writable(tier),
        run.log.step() is Done,
        world::last_of(run.log.entries, key) is Some,
    ensures
        run.log.step() matches WriteMove::Done(Ok(evicted)) && {
            let value = world::last_of(run.log.entries, key).unwrap();
            let contents = run.worlds.last();
            &&& contents.len() == run.log.route.lanes.len()
            &&& forall|t: int|
                run.log.route.writable(t) && (#[trigger] contents[t]).contains_key(key) && (forall|
                    u: int,
                |
                    0 <= u < t && run.log.route.writable(u) ==> !(#[trigger] contents[u]).contains_key(
                        key,
                    )) ==> contents[t][key] == value
            &&& evicted.contains((key, value)) || exists|t: int|
                run.log.route.writable(t) && (#[trigger] contents[t]).contains_key(key)
        },
{
    let log = run.log;
    let route = log.route;
    let n = route.lanes.len() as int;
    let entry = (key, world::last_of(log.entries, key).unwrap());
    crate::laws::write::lemma_has_writable(route);
    let play = |s: Seq<Reply<K, V, E>>| (WriteLog { replies: s, ..log }).step();
    assert(log.asked() =~= crate::laws::write::asked_by(play, log.replies));
    assert(WriteLog { replies: log.replies, ..log } =~= log);
    assert(runs_by(play, log.entries, log.replies, run.worlds));
    assert(delivers(route, play, entry, log.replies, run.worlds, true)) by {
        match route.policy.write {
            WriteMode::WriteThrough => {
                let through = crate::laws::write::through::<K, V, E>(route, n, Seq::empty());
                assert(play =~= through);
                lemma_through(
                    route,
                    n,
                    Seq::<(K, V)>::empty(),
                    log.entries,
                    entry,
                    log.replies,
                    run.worlds,
                    false,
                );
                let tier = choose|tier: int| route.writable(tier);
                assert(0 <= tier < n && route.writable(tier));
            },
            WriteMode::WriteAround => {
                lemma_around(run, entry);
            },
        }
    }
    let contents = run.worlds.last();
    if leads(route, contents, 0, n, entry) {
        let top = choose|t: int| t < n && #[trigger] leads_at(route, contents, 0, t, entry);
        assert(contents[top].contains_key(key));
        assert forall|t: int|
            route.writable(t) && (#[trigger] contents[t]).contains_key(key) && (forall|u: int|
                0 <= u < t && route.writable(u) ==> !(#[trigger] contents[u]).contains_key(
                    key,
                )) implies contents[t][key] == entry.1 by {
            assert(t == top) by {
                if t < top {
                    assert(!contents[t].contains_key(key));
                }
            }
        }
    }
}

proof fn lemma_around<K, V, E>(run: BatchRun<K, V, E>, entry: (K, V))
    requires
        run.honest(),
        exists|tier: int| run.log.route.writable(tier),
        run.log.route.policy.write == WriteMode::WriteAround,
        world::last_of(run.log.entries, entry.0) == Some(entry.1),
    ensures
        delivers(
            run.log.route,
            |s: Seq<Reply<K, V, E>>| (WriteLog { replies: s, ..run.log }).step(),
            entry,
            run.log.replies,
            run.worlds,
            true,
        ),
{
    let log = run.log;
    let route = log.route;
    let n = route.lanes.len() as int;
    let play = |s: Seq<Reply<K, V, E>>| (WriteLog { replies: s, ..log }).step();
    assert(log.asked() =~= crate::laws::write::asked_by(play, log.replies));
    crate::laws::write::lemma_has_writable(route);
    route.lemma_writables(n);
    let bottom = route.writables(n).last();
    assert(route.writable(route.writables(n)[route.writables(n).len() - 1]));
    assert forall|i: int| bottom < i implies !route.writable(i) by {
        if route.writable(i) {
            assert(route.writables(n).contains(i));
        }
    }
    if log.replies.len() == 0 {
        assert(play(log.replies) is Put);
    } else {
        let reply = log.replies[0];
        assert(log.replies.take(0) =~= Seq::empty());
        assert(crate::laws::write::asked_by(play, log.replies)[0] == play(Seq::empty()));
        assert(play(Seq::empty()) == WriteMove::<K, V, E>::Put { tier: bottom });
        if let Reply::Put(Ok(displaced)) = reply {
            let next = crate::laws::write::invalidating::<K, V, E>(
                route,
                bottom,
                0,
                displaced,
                Seq::empty(),
            );
            assert forall|s: Seq<Reply<K, V, E>>| #[trigger] next(s) == play(seq![reply] + s) by {
                assert((seq![reply] + s).skip(1) =~= s);
            }
            lemma_first(play, next, log.entries, log.replies, run.worlds);
            lemma_accepted_all(
                run.worlds[0][bottom],
                log.entries,
                displaced,
                run.worlds[1][bottom],
                entry.0,
            );
            lemma_last_of_found(displaced, entry.0);
            lemma_invalidating(
                route,
                bottom,
                0,
                displaced,
                log.entries,
                entry,
                log.replies.skip(1),
                run.worlds.skip(1),
            );
        }
    }
}

/// What a batch wrote is read back. Over honest tiers that accept every call,
/// a read of a key after the write finds the last value that the batch gives
/// the key, unless the write pushed that entry out of the hierarchy and
/// returned it, or a tier that the router never writes holds the key.
pub proof fn law_written_batch_is_read_back<K, V, E>(
    run: BatchRun<K, V, E>,
    key: K,
    on_error: OnReadError,
)
    requires
        run.honest(),
        exists|tier: int| run.log.route.writable(tier),
        run.log.step() is Done,
        world::last_of(run.log.entries, key) is Some,
        forall|t: int|
            0 <= t < run.log.route.lanes.len() && !run.log.route.writable(t) ==> !(
            #[trigger] run.worlds.last()[t]).contains_key(key),
    ensures
        run.log.step() matches WriteMove::Done(Ok(evicted)) && ({
            let value = world::last_of(run.log.entries, key).unwrap();
            ||| evicted.contains((key, value))
            ||| read::find(on_error, readback::snapshot(run.worlds.last()), key, 0, false) matches Finding::Hit {
                value: found,
                ..
            } && found == value
        }),
{
    law_written_batch_is_kept(run, key);
    let route = run.log.route;
    let contents = run.worlds.last();
    readback::lemma_find_holder(on_error, contents, key, 0);
    if let WriteMove::Done(Ok(evicted)) = run.log.step() {
        let value = world::last_of(run.log.entries, key).unwrap();
        if !evicted.contains((key, value)) {
            let t = choose|t: int| route.writable(t) && (#[trigger] contents[t]).contains_key(key);
            assert(contents[t].contains_key(key));
        }
    }
}

} // verus!
