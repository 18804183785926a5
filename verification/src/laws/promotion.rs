//! What promotion achieves.
use vstd::prelude::*;

use crate::error::Failure;
use crate::fetch;
use crate::fetch::{GetLog, GetMove};
use crate::laws::read;
use crate::laws::world;
use crate::policy::Promote;
use crate::rollover;
use crate::rollover::Reply;
use crate::router::Route;

verus! {

/// Whether an honest tier answers the request `step` of a read of `key`, for
/// which `found` was found so far, with `reply`, and that turns the world
/// `before` into `after`.
pub open spec fn answers<K, V, E>(
    key: K,
    found: Option<V>,
    step: GetMove<K, V, E>,
    reply: Reply<K, V, E>,
    before: Seq<Map<K, V>>,
    after: Seq<Map<K, V>>,
) -> bool {
    match (step, reply) {
        (GetMove::Get { tier }, Reply::Got(reply)) => after == before && read::tells(
            Some(before[tier]),
            key,
            reply,
        ),
        (GetMove::Promote { tier }, Reply::Put(Ok(displaced))) => found matches Some(value)
            && world::writes(before, tier, key, value, displaced, after),
        (GetMove::Demote { tier, key, value }, Reply::Put(Ok(displaced))) => world::writes(
            before,
            tier,
            key,
            value,
            displaced,
            after,
        ),
        _ => false,
    }
}

/// A read over honest tiers, with the world before every request and at the
/// end.
#[verifier::reject_recursive_types(K)]
pub struct GetRun<K, V, E> {
    /// What was asked and answered.
    pub log: GetLog<K, V, E>,
    /// The worlds.
    pub worlds: Seq<Seq<Map<K, V>>>,
}

impl<K, V, E> GetRun<K, V, E> {
    /// Whether every tier is honest, answers, and accepts every write.
    pub open spec fn honest(self) -> bool {
        &&& self.worlds.len() == self.log.replies.len() + 1
        &&& self.worlds[0].len() == self.log.route.lanes.len()
        &&& forall|i: int|
            0 <= i < self.log.replies.len() ==> answers(
                self.log.key,
                fetch::hit_in(self.log.replies.take(i)),
                #[trigger] self.log.asked()[i],
                self.log.replies[i],
                self.worlds[i],
                self.worlds[i + 1],
            )
    }
}

/// The log from its `start`-th answer on, as a play.
pub(crate) open spec fn plays<K, V, E>(
    run: GetRun<K, V, E>,
    start: int,
    play: spec_fn(Seq<Reply<K, V, E>>) -> GetMove<K, V, E>,
) -> bool {
    forall|s: Seq<Reply<K, V, E>>| #[trigger]
        play(s) == (GetLog { replies: run.log.replies.take(start) + s, ..run.log }).step()
}

pub(crate) open spec fn probing<K, V, E>(route: Route, tier: int) -> spec_fn(Seq<Reply<K, V, E>>) -> GetMove<
    K,
    V,
    E,
> {
    |s: Seq<Reply<K, V, E>>| fetch::probe(route, tier, Seq::<Failure<E>>::empty(), s)
}

/// How the play goes on after one more answer.
pub(crate) proof fn lemma_advance<K, V, E>(
    run: GetRun<K, V, E>,
    start: int,
    play: spec_fn(Seq<Reply<K, V, E>>) -> GetMove<K, V, E>,
    next: spec_fn(Seq<Reply<K, V, E>>) -> GetMove<K, V, E>,
)
    requires
        run.honest(),
        0 <= start < run.log.replies.len(),
        plays(run, start, play),
        forall|s: Seq<Reply<K, V, E>>| #[trigger]
            next(s) == play(seq![run.log.replies[start]] + s),
    ensures
        plays(run, start + 1, next),
        play(Seq::empty()) == run.log.asked()[start],
        answers(
            run.log.key,
            fetch::hit_in(run.log.replies.take(start)),
            play(Seq::empty()),
            run.log.replies[start],
            run.worlds[start],
            run.worlds[start + 1],
        ),
{
    let replies = run.log.replies;
    assert(replies.take(start) + Seq::empty() =~= replies.take(start));
    assert(run.log.asked()[start] == play(Seq::empty()));
    assert forall|s: Seq<Reply<K, V, E>>| #[trigger] next(s) == (GetLog {
        replies: replies.take(start + 1) + s,
        ..run.log
    }).step() by {
        assert(replies.take(start) + (seq![replies[start]] + s) =~= replies.take(start + 1) + s);
    }
}

/// While displaced entries sink from the tier below the top, the topmost tier
/// does not change.
proof fn lemma_top_stays<K, V, E>(
    run: GetRun<K, V, E>,
    start: int,
    value: V,
    displaced: Seq<(K, V)>,
    at: int,
)
    requires
        run.honest(),
        0 <= start <= at <= run.log.replies.len(),
        run.worlds[start].len() == run.log.route.lanes.len() > 0,
        plays(
            run,
            start,
            |s: Seq<Reply<K, V, E>>|
                fetch::roll_up(
                    run.log.route,
                    1,
                    1,
                    value,
                    rollover::sink(run.log.route, 1, displaced, s),
                ),
        ),
    ensures
        run.worlds[at].len() == run.log.route.lanes.len(),
        run.worlds[at][0] == run.worlds[start][0],
    decreases at - start,
{
    if at > start {
        lemma_top_stays(run, start, value, displaced, at - 1);
        let route = run.log.route;
        let play = |s: Seq<Reply<K, V, E>>|
            fetch::roll_up(route, 1, 1, value, rollover::sink(route, 1, displaced, s));
        let s = run.log.replies.subrange(start, at - 1);
        assert(run.log.replies.take(start) + s =~= run.log.replies.take(at - 1));
        let step = run.log.asked()[at - 1];
        assert(step == play(s));
        crate::laws::write::law_displaced_entries_sink(route, 1, displaced, s);
        assert(answers(
            run.log.key,
            fetch::hit_in(run.log.replies.take(at - 1)),
            step,
            run.log.replies[at - 1],
            run.worlds[at - 1],
            run.worlds[at],
        ));
        match step {
            GetMove::Demote { tier, .. } => {
                assert(1 <= tier);
            },
            _ => {
                assert(fetch::promote::<K, V, E>(route, 1, 1, value, Seq::empty()) is Done);
            },
        }
    }
}

/// The value ends up in the topmost tier, unless that tier displaced it.
spec fn lifted<K, V, E>(run: GetRun<K, V, E>) -> bool {
    run.log.step() matches GetMove::Done(Ok(Some(value))) ==> {
        let top = run.worlds.last()[0];
        ||| top.contains_key(run.log.key) && top[run.log.key] == value
        ||| exists|i: int|
            0 <= i < run.log.replies.len() && run.log.asked()[i] == (GetMove::<
                K,
                V,
                E,
            >::Promote { tier: 0 }) && (#[trigger] run.log.replies[i]).displaced().contains(
                (run.log.key, value),
            )
    }
}

proof fn lemma_lifted<K, V, E>(run: GetRun<K, V, E>, tier: int)
    requires
        run.honest(),
        run.log.route.policy.read.promote == Promote::TopOnly,
        run.log.route.writable(0),
        0 <= tier <= run.log.replies.len(),
        tier <= run.log.route.lanes.len(),
        plays(run, tier, probing(run.log.route, tier)),
        run.worlds[tier] == run.worlds[0],
        fetch::hit_in(run.log.replies.take(tier)) is None,
    ensures
        lifted(run),
    decreases run.log.route.lanes.len() - tier,
{
    let log = run.log;
    let route = log.route;
    let replies = log.replies;
    let play = probing::<K, V, E>(route, tier);
    let none = Seq::<Failure<E>>::empty();
    if tier == replies.len() {
        assert(replies.take(tier) + Seq::empty() =~= replies);
        assert(log.step() == play(Seq::empty()));
    } else if tier >= route.lanes.len() {
        assert(replies.take(tier) + Seq::empty() =~= replies.take(tier));
        assert(log.asked()[tier] == play(Seq::empty()));
    } else {
        let reply = replies[tier];
        let next = |s: Seq<Reply<K, V, E>>| play(seq![reply] + s);
        lemma_advance(run, tier, play, next);
        assert(play(Seq::empty()) == GetMove::<K, V, E>::Get { tier });
        assert(replies.take(tier + 1).drop_last() =~= replies.take(tier));
        assert(replies.take(tier + 1).last() == reply);
        match reply {
            Reply::Got(Ok(None)) => {
                let onward = probing::<K, V, E>(route, tier + 1);
                assert(next =~= onward) by {
                    assert forall|s: Seq<Reply<K, V, E>>| #[trigger] next(s) == onward(s) by {
                        assert((seq![reply] + s).skip(1) =~= s);
                    }
                }
                lemma_lifted(run, tier + 1);
            },
            Reply::Got(Ok(Some(value))) => {
                assert(fetch::hit_in(replies.take(tier + 1)) == Some(value));
                lemma_hit(run, tier, value);
            },
            _ => {},
        }
    }
}

/// From the hit on.
proof fn lemma_hit<K, V, E>(run: GetRun<K, V, E>, tier: int, value: V)
    requires
        run.honest(),
        run.log.route.policy.read.promote == Promote::TopOnly,
        run.log.route.writable(0),
        0 <= tier < run.log.replies.len(),
        tier < run.log.route.lanes.len(),
        plays(run, tier, probing(run.log.route, tier)),
        run.worlds[tier] == run.worlds[0],
        run.log.replies[tier] == Reply::<K, V, E>::Got(Ok(Some(value))),
        fetch::hit_in(run.log.replies.take(tier + 1)) == Some(value),
    ensures
        lifted(run),
{
    let log = run.log;
    let route = log.route;
    let replies = log.replies;
    let reply = replies[tier];
    let play = probing::<K, V, E>(route, tier);
    let reach = route.policy.read.promote.reach(tier);
    let lifting = |s: Seq<Reply<K, V, E>>| fetch::promote::<K, V, E>(route, reach, 0, value, s);
    assert forall|s: Seq<Reply<K, V, E>>| #[trigger] lifting(s) == play(seq![reply] + s) by {
        assert((seq![reply] + s).skip(1) =~= s);
    }
    lemma_advance(run, tier, play, lifting);
    let at = tier + 1;
    if tier == 0 {
        // The topmost tier itself served the key.
        if at < replies.len() {
            assert(replies.take(at) + Seq::empty() =~= replies.take(at));
            assert(log.asked()[at] == lifting(Seq::empty()));
        } else {
            assert(replies.take(at) + Seq::empty() =~= replies);
            assert(log.step() == lifting(Seq::empty()));
        }
    } else if at == replies.len() {
        assert(replies.take(at) + Seq::empty() =~= replies);
        assert(log.step() == lifting(Seq::empty()));
    } else {
        let written = replies[at];
        let next = |s: Seq<Reply<K, V, E>>| lifting(seq![written] + s);
        lemma_advance(run, at, lifting, next);
        assert(lifting(Seq::empty()) == GetMove::<K, V, E>::Promote { tier: 0 });
        if let Reply::Put(Ok(displaced)) = written {
            let later = at + 1;
            let top = run.worlds[later][0];
            if !top.contains_key(log.key) {
                assert(world::keys(displaced).contains(log.key));
                let i = choose|i: int|
                    0 <= i < displaced.len() && world::keys(displaced)[i] == log.key;
                assert(displaced[i] == (log.key, value));
                assert(replies[at].displaced().contains((log.key, value)));
            } else {
                assert(top[log.key] == value);
            }
            if route.policy.demote_displaced {
                let sinking = |s: Seq<Reply<K, V, E>>|
                    fetch::roll_up::<K, V, E>(
                        route,
                        1,
                        1,
                        value,
                        rollover::sink(route, 1, displaced, s),
                    );
                assert(next =~= sinking) by {
                    assert forall|s: Seq<Reply<K, V, E>>| #[trigger] next(s) == sinking(s) by {
                        assert((seq![written] + s).skip(1) =~= s);
                    }
                }
                lemma_top_stays(run, later, value, displaced, replies.len() as int);
            } else if later < replies.len() {
                assert(replies.take(later) + Seq::empty() =~= replies.take(later));
                assert((seq![written] + Seq::<Reply<K, V, E>>::empty()).skip(1) =~= Seq::empty());
                assert(log.asked()[later] == next(Seq::empty()));
                assert(fetch::promote::<K, V, E>(route, reach, 1, value, Seq::empty()) is Done);
            }
            if let GetMove::Done(Ok(Some(result))) = log.step() {
                let s = replies.skip(at);
                assert(replies.take(at) + s =~= replies);
                assert(log.step() == lifting(s));
                read::lemma_promote_result(route, reach, 0, value, s);
                assert(result == value);
            }
            assert(run.worlds.last()[0] == top);
        }
    }
}

/// Exclusive promotion brings a value to the top. Over honest tiers, once a
/// read with promotion into a writable topmost tier found a value, that tier
/// holds the key with the value, so that the next read is served there,
/// unless the promotion itself displaced the entry.
pub proof fn law_promotion_brings_the_value_to_the_top<K, V, E>(run: GetRun<K, V, E>)
    requires
        run.honest(),
        run.log.route.policy.read.promote == Promote::TopOnly,
        run.log.route.writable(0),
    ensures
        run.log.step() matches GetMove::Done(Ok(Some(value))) ==> {
            let top = run.worlds.last()[0];
            ||| top.contains_key(run.log.key) && top[run.log.key] == value
            ||| exists|i: int|
                0 <= i < run.log.replies.len() && run.log.asked()[i] == (GetMove::<
                    K,
                    V,
                    E,
                >::Promote { tier: 0 }) && (#[trigger] run.log.replies[i]).displaced().contains(
                    (run.log.key, value),
                )
        },
{
    let play = probing::<K, V, E>(run.log.route, 0);
    assert forall|s: Seq<Reply<K, V, E>>| #[trigger] play(s) == (GetLog {
        replies: run.log.replies.take(0) + s,
        ..run.log
    }).step() by {
        assert(run.log.replies.take(0) + s =~= s);
    }
    assert(run.log.replies.take(0) =~= Seq::empty());
    lemma_lifted(run, 0);
}

/// Whether `tier` is the topmost tier that held the key before the read, with
/// `value`.
pub open spec fn serves<K, V, E>(run: GetRun<K, V, E>, tier: int, value: V) -> bool {
    let before = run.worlds[0];
    &&& 0 <= tier < before.len()
    &&& before[tier].contains_key(run.log.key)
    &&& before[tier][run.log.key] == value
    &&& forall|t: int| 0 <= t < tier ==> !(#[trigger] before[t]).contains_key(run.log.key)
}

/// Whether `tier` holds the key with `value` after the read, unless the
/// promotion into `tier` displaced the entry itself.
pub open spec fn copied<K, V, E>(run: GetRun<K, V, E>, tier: int, value: V) -> bool {
    let after = run.worlds.last();
    ||| after[tier].contains_key(run.log.key) && after[tier][run.log.key] == value
    ||| exists|i: int|
        0 <= i < run.log.replies.len() && run.log.asked()[i] == (GetMove::<K, V, E>::Promote {
            tier,
        }) && (#[trigger] run.log.replies[i]).displaced().contains((run.log.key, value))
}

/// What is left of a promotion from its `start`-th answer on, when the tiers
/// from `target` up to `reach` are to be written: those get their copies, and
/// the tiers above stay as they are.
spec fn spreads<K, V, E>(
    run: GetRun<K, V, E>,
    start: int,
    reach: int,
    target: int,
    value: V,
) -> bool {
    let after = run.worlds.last();
    &&& forall|t: int|
        target <= t < reach && #[trigger] run.log.route.writable(t) ==> copied(run, t, value)
    &&& forall|t: int| 0 <= t < target ==> #[trigger] after[t] == run.worlds[start][t]
}

/// A read that is being promoted: it has its hit, and will end.
spec fn promoting<K, V, E>(run: GetRun<K, V, E>, start: int, value: V) -> bool {
    &&& run.honest()
    &&& run.log.step() is Done
    &&& 0 <= start <= run.log.replies.len()
    &&& run.worlds[start].len() == run.log.route.lanes.len()
    &&& fetch::hit_in(run.log.replies.take(start)) == Some(value)
}

/// One more answer leaves the hit as it is.
proof fn lemma_hit_stays<K, V, E>(run: GetRun<K, V, E>, start: int, value: V)
    requires
        promoting(run, start, value),
        start < run.log.replies.len(),
    ensures
        fetch::hit_in(run.log.replies.take(start + 1)) == Some(value),
{
    let replies = run.log.replies;
    assert(replies.take(start + 1).drop_last() =~= replies.take(start));
}

proof fn lemma_spreads<K, V, E>(
    run: GetRun<K, V, E>,
    start: int,
    reach: int,
    target: int,
    value: V,
)
    requires
        promoting(run, start, value),
        0 <= target,
        reach <= run.log.route.lanes.len(),
        plays(
            run,
            start,
            |s: Seq<Reply<K, V, E>>|
                fetch::promote::<K, V, E>(run.log.route, reach, target, value, s),
        ),
    ensures
        spreads(run, start, reach, target, value),
    decreases run.log.replies.len() - start, 0int, reach - target, 0int,
{
    let log = run.log;
    let route = log.route;
    let replies = log.replies;
    let play = |s: Seq<Reply<K, V, E>>| fetch::promote::<K, V, E>(route, reach, target, value, s);
    assert(replies.take(start) + Seq::empty() =~= replies.take(start));
    if start < replies.len() {
        assert(log.asked()[start] == play(Seq::empty()));
        assert(answers(
            log.key,
            fetch::hit_in(replies.take(start)),
            log.asked()[start],
            replies[start],
            run.worlds[start],
            run.worlds[start + 1],
        ));
    } else {
        assert(replies.take(start) =~= replies);
        assert(log.step() == play(Seq::empty()));
    }
    if target >= reach {
    } else if !route.writable(target) {
        let onward = |s: Seq<Reply<K, V, E>>|
            fetch::promote::<K, V, E>(route, reach, target + 1, value, s);
        assert(play =~= onward);
        lemma_spreads(run, start, reach, target + 1, value);
    } else {
        let reply = replies[start];
        let next = |s: Seq<Reply<K, V, E>>| play(seq![reply] + s);
        lemma_advance(run, start, play, next);
        lemma_hit_stays(run, start, value);
        if let Reply::Put(Ok(displaced)) = reply {
            let written = run.worlds[start + 1];
            if route.policy.demote_displaced {
                let sinking = |s: Seq<Reply<K, V, E>>|
                    fetch::roll_up::<K, V, E>(
                        route,
                        reach,
                        target + 1,
                        value,
                        rollover::sink(route, target + 1, displaced, s),
                    );
                assert(next =~= sinking) by {
                    assert forall|s: Seq<Reply<K, V, E>>| #[trigger] next(s) == sinking(s) by {
                        assert((seq![reply] + s).skip(1) =~= s);
                    }
                }
                lemma_sinks(run, start + 1, reach, target + 1, value, target + 1, displaced);
            } else {
                let onward = |s: Seq<Reply<K, V, E>>|
                    fetch::promote::<K, V, E>(route, reach, target + 1, value, s);
                assert(next =~= onward) by {
                    assert forall|s: Seq<Reply<K, V, E>>| #[trigger] next(s) == onward(s) by {
                        assert((seq![reply] + s).skip(1) =~= s);
                    }
                }
                lemma_spreads(run, start + 1, reach, target + 1, value);
            }
            assert(run.worlds.last()[target] == written[target]);
            if !written[target].contains_key(log.key) {
                assert(world::keys(displaced).contains(log.key));
                let i = choose|i: int|
                    0 <= i < displaced.len() && world::keys(displaced)[i] == log.key;
                assert(displaced[i] == (log.key, value));
                assert(replies[start].displaced().contains((log.key, value)));
            }
            assert(copied(run, target, value));
            assert forall|t: int| 0 <= t < target implies #[trigger] run.worlds.last()[t]
                == run.worlds[start][t] by {
                assert(written[t] == run.worlds[start][t]);
            }
        }
    }
}

/// The same while displaced entries sink from `low` on.
proof fn lemma_sinks<K, V, E>(
    run: GetRun<K, V, E>,
    start: int,
    reach: int,
    target: int,
    value: V,
    low: int,
    current: Seq<(K, V)>,
)
    requires
        promoting(run, start, value),
        0 <= target <= low,
        reach <= run.log.route.lanes.len(),
        plays(
            run,
            start,
            |s: Seq<Reply<K, V, E>>|
                fetch::roll_up::<K, V, E>(
                    run.log.route,
                    reach,
                    target,
                    value,
                    rollover::sink(run.log.route, low, current, s),
                ),
        ),
    ensures
        spreads(run, start, reach, target, value),
    decreases
            run.log.replies.len() - start,
            1int,
            run.log.route.lanes.len() - low,
            1int,
{
    let route = run.log.route;
    let play = |s: Seq<Reply<K, V, E>>|
        fetch::roll_up::<K, V, E>(
            route,
            reach,
            target,
            value,
            rollover::sink(route, low, current, s),
        );
    if low >= route.lanes.len() || current.len() == 0 {
        let onward = |s: Seq<Reply<K, V, E>>|
            fetch::promote::<K, V, E>(route, reach, target, value, s);
        assert(play =~= onward);
        lemma_spreads(run, start, reach, target, value);
    } else if !route.writable(low) {
        let onward = |s: Seq<Reply<K, V, E>>|
            fetch::roll_up::<K, V, E>(
                route,
                reach,
                target,
                value,
                rollover::sink(route, low + 1, current, s),
            );
        assert(play =~= onward);
        lemma_sinks(run, start, reach, target, value, low + 1, current);
    } else {
        let onward = |s: Seq<Reply<K, V, E>>|
            fetch::roll_up::<K, V, E>(
                route,
                reach,
                target,
                value,
                rollover::offer(route, low, current, Seq::empty(), s),
            );
        assert(play =~= onward);
        lemma_offers(run, start, reach, target, value, low, current, Seq::empty());
    }
}

/// The same while displaced entries are written into tier `low`.
proof fn lemma_offers<K, V, E>(
    run: GetRun<K, V, E>,
    start: int,
    reach: int,
    target: int,
    value: V,
    low: int,
    rest: Seq<(K, V)>,
    next: Seq<(K, V)>,
)
    requires
        promoting(run, start, value),
        0 <= target <= low < run.log.route.lanes.len(),
        reach <= run.log.route.lanes.len(),
        plays(
            run,
            start,
            |s: Seq<Reply<K, V, E>>|
                fetch::roll_up::<K, V, E>(
                    run.log.route,
                    reach,
                    target,
                    value,
                    rollover::offer(run.log.route, low, rest, next, s),
                ),
        ),
    ensures
        spreads(run, start, reach, target, value),
    decreases
            run.log.replies.len() - start,
            1int,
            run.log.route.lanes.len() - low,
            0int,
{
    let log = run.log;
    let route = log.route;
    let replies = log.replies;
    let play = |s: Seq<Reply<K, V, E>>|
        fetch::roll_up::<K, V, E>(
            route,
            reach,
            target,
            value,
            rollover::offer(route, low, rest, next, s),
        );
    if rest.len() == 0 {
        let onward = |s: Seq<Reply<K, V, E>>|
            fetch::roll_up::<K, V, E>(
                route,
                reach,
                target,
                value,
                rollover::sink(route, low + 1, next, s),
            );
        assert(play =~= onward);
        lemma_sinks(run, start, reach, target, value, low + 1, next);
    } else if start == replies.len() {
        assert(replies.take(start) + Seq::empty() =~= replies);
        assert(log.step() == play(Seq::empty()));
    } else {
        let reply = replies[start];
        let after = |s: Seq<Reply<K, V, E>>| play(seq![reply] + s);
        lemma_advance(run, start, play, after);
        lemma_hit_stays(run, start, value);
        let others = rest.skip(1);
        let gathered = next + reply.displaced();
        let onward = |s: Seq<Reply<K, V, E>>|
            fetch::roll_up::<K, V, E>(
                route,
                reach,
                target,
                value,
                rollover::offer(route, low, others, gathered, s),
            );
        assert(after =~= onward) by {
            assert forall|s: Seq<Reply<K, V, E>>| #[trigger] after(s) == onward(s) by {
                assert((seq![reply] + s).skip(1) =~= s);
            }
        }
        lemma_offers(run, start + 1, reach, target, value, low, others, gathered);
        assert forall|t: int| 0 <= t < target implies #[trigger] run.worlds.last()[t]
            == run.worlds[start][t] by {
            assert(run.worlds[start + 1][t] == run.worlds[start][t]);
        }
    }
}

/// Where a read that found a value found it, from tier `tier` on.
proof fn lemma_served<K, V, E>(run: GetRun<K, V, E>, tier: int, value: V) -> (served: int)
    requires
        run.honest(),
        run.log.step() == GetMove::<K, V, E>::Done(Ok(Some(value))),
        0 <= tier <= run.log.replies.len(),
        tier <= run.log.route.lanes.len(),
        plays(run, tier, probing(run.log.route, tier)),
        run.worlds[tier] == run.worlds[0],
        fetch::hit_in(run.log.replies.take(tier)) is None,
        forall|t: int|
            0 <= t < tier ==> !(#[trigger] run.worlds[0][t]).contains_key(run.log.key),
    ensures
        serves(run, served, value),
        spreads(
            run,
            served + 1,
            run.log.route.policy.read.promote.reach(served),
            0,
            value,
        ),
    decreases run.log.route.lanes.len() - tier,
{
    let log = run.log;
    let route = log.route;
    let replies = log.replies;
    let play = probing::<K, V, E>(route, tier);
    assert(replies.take(tier) + Seq::empty() =~= replies.take(tier));
    if tier == replies.len() {
        assert(replies.take(tier) =~= replies);
        assert(log.step() == play(Seq::empty()));
        tier
    } else if tier >= route.lanes.len() {
        assert(log.asked()[tier] == play(Seq::empty()));
        tier
    } else {
        let reply = replies[tier];
        let next = |s: Seq<Reply<K, V, E>>| play(seq![reply] + s);
        lemma_advance(run, tier, play, next);
        assert(play(Seq::empty()) == GetMove::<K, V, E>::Get { tier });
        assert(replies.take(tier + 1).drop_last() =~= replies.take(tier));
        assert(replies.take(tier + 1).last() == reply);
        match reply {
            Reply::Got(Ok(Some(found))) => {
                let reach = route.policy.read.promote.reach(tier);
                let lifting = |s: Seq<Reply<K, V, E>>|
                    fetch::promote::<K, V, E>(route, reach, 0, found, s);
                assert(next =~= lifting) by {
                    assert forall|s: Seq<Reply<K, V, E>>| #[trigger] next(s) == lifting(s) by {
                        assert((seq![reply] + s).skip(1) =~= s);
                    }
                }
                let s = replies.skip(tier + 1);
                assert(replies.take(tier + 1) + s =~= replies);
                assert(log.step() == lifting(s));
                read::lemma_promote_result(route, reach, 0, found, s);
                assert(found == value);
                lemma_spreads(run, tier + 1, reach, 0, value);
                tier
            },
            _ => {
                let onward = probing::<K, V, E>(route, tier + 1);
                assert(next =~= onward) by {
                    assert forall|s: Seq<Reply<K, V, E>>| #[trigger] next(s) == onward(s) by {
                        assert((seq![reply] + s).skip(1) =~= s);
                    }
                }
                lemma_served(run, tier + 1, value)
            },
        }
    }
}

/// Promotion copies a value upward, under any policy. Over honest tiers, a
/// read that found a value found it in the topmost tier that held the key;
/// and every writable tier that the policy reaches from there ends up holding
/// the key with the value, unless the promotion into that very tier displaced
/// the entry. Inclusive promotion reaches every tier above the serving one.
pub proof fn law_promotion_copies_the_value_upward<K, V, E>(run: GetRun<K, V, E>, value: V)
    requires
        run.honest(),
        run.log.step() == GetMove::<K, V, E>::Done(Ok(Some(value))),
    ensures
        exists|served: int| #[trigger]
            serves(run, served, value) && {
                let promote = run.log.route.policy.read.promote;
                &&& forall|t: int|
                    0 <= t < promote.reach(served) && #[trigger] run.log.route.writable(t)
                        ==> copied(run, t, value)
                &&& promote == Promote::AllAbove ==> promote.reach(served) == served
            },
{
    let play = probing::<K, V, E>(run.log.route, 0);
    assert forall|s: Seq<Reply<K, V, E>>| #[trigger] play(s) == (GetLog {
        replies: run.log.replies.take(0) + s,
        ..run.log
    }).step() by {
        assert(run.log.replies.take(0) + s =~= s);
    }
    assert(run.log.replies.take(0) =~= Seq::empty());
    let served = lemma_served(run, 0, value);
    assert(serves(run, served, value));
}

} // verus!
