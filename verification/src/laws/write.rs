//! What holds of writes.
use vstd::prelude::*;
use vstd::seq_lib::*;

use crate::delete;
use crate::error::{Failure, Trouble};
use crate::policy::{OnWriteError, WriteMode};
use crate::rollover;
use crate::rollover::{Reply, Rolled};
use crate::router::Route;
use crate::write::{WriteLog, WriteMove};

verus! {

/// The entries that had to be written into a lower tier, in order.
pub open spec fn demoted<K, V, E>(moves: Seq<WriteMove<K, V, E>>) -> Seq<(K, V)>
    decreases moves.len(),
{
    if moves.len() == 0 {
        Seq::empty()
    } else {
        (match moves[0] {
            WriteMove::Demote { key, value, .. } => seq![(key, value)],
            _ => Seq::empty(),
        }) + demoted(moves.skip(1))
    }
}

/// The entries that the answered writes displaced, in order.
pub open spec fn displaced<K, V, E>(replies: Seq<Reply<K, V, E>>) -> Seq<(K, V)>
    decreases replies.len(),
{
    if replies.len() == 0 {
        Seq::empty()
    } else {
        replies[0].displaced() + displaced(replies.skip(1))
    }
}

/// The tiers that had to be written with the requested entries, in order.
pub open spec fn written<K, V, E>(moves: Seq<WriteMove<K, V, E>>) -> Seq<int>
    decreases moves.len(),
{
    if moves.len() == 0 {
        Seq::empty()
    } else {
        (match moves[0] {
            WriteMove::Put { tier } => seq![tier],
            _ => Seq::empty(),
        }) + written(moves.skip(1))
    }
}

/// The writable tiers among the topmost `left`, from the bottom up.
pub open spec fn bottom_up(route: Route, left: int) -> Seq<int>
    decreases left,
{
    if left <= 0 {
        Seq::empty()
    } else if route.writable(left - 1) {
        seq![left - 1] + bottom_up(route, left - 1)
    } else {
        bottom_up(route, left - 1)
    }
}

/// What is asked for as a function of the answers.
pub(crate) open spec fn through<K, V, E>(route: Route, left: int, evicted: Seq<(K, V)>) -> spec_fn(
    Seq<Reply<K, V, E>>,
) -> WriteMove<K, V, E> {
    |s: Seq<Reply<K, V, E>>| crate::write::write_through(route, left, evicted, s)
}

pub(crate) open spec fn sinking<K, V, E>(
    route: Route,
    left: int,
    evicted: Seq<(K, V)>,
    target: int,
    current: Seq<(K, V)>,
) -> spec_fn(Seq<Reply<K, V, E>>) -> WriteMove<K, V, E> {
    |s: Seq<Reply<K, V, E>>|
        crate::write::roll_through(route, left, evicted, rollover::sink(route, target, current, s))
}

pub(crate) open spec fn offering<K, V, E>(
    route: Route,
    left: int,
    evicted: Seq<(K, V)>,
    target: int,
    rest: Seq<(K, V)>,
    next: Seq<(K, V)>,
) -> spec_fn(Seq<Reply<K, V, E>>) -> WriteMove<K, V, E> {
    |s: Seq<Reply<K, V, E>>|
        crate::write::roll_through(route, left, evicted, rollover::offer(route, target, rest, next, s))
}

/// The requests that lead up to `replies`.
pub(crate) open spec fn asked_by<K, V, E>(
    play: spec_fn(Seq<Reply<K, V, E>>) -> WriteMove<K, V, E>,
    replies: Seq<Reply<K, V, E>>,
) -> Seq<WriteMove<K, V, E>> {
    Seq::new(replies.len(), |i: int| play(replies.take(i)))
}

pub(crate) open spec fn sound_by<K, V, E>(
    play: spec_fn(Seq<Reply<K, V, E>>) -> WriteMove<K, V, E>,
    replies: Seq<Reply<K, V, E>>,
) -> bool {
    forall|i: int|
        0 <= i < replies.len() ==> (#[trigger] asked_by(play, replies)[i]).fits(replies[i])
}

/// How `play` goes on after `reply`.
pub(crate) open spec fn after<K, V, E>(
    play: spec_fn(Seq<Reply<K, V, E>>) -> WriteMove<K, V, E>,
    reply: Reply<K, V, E>,
) -> spec_fn(Seq<Reply<K, V, E>>) -> WriteMove<K, V, E> {
    |s: Seq<Reply<K, V, E>>| play(seq![reply] + s)
}

/// Splits off the first request and its answer.
pub(crate) proof fn lemma_first<K, V, E>(
    play: spec_fn(Seq<Reply<K, V, E>>) -> WriteMove<K, V, E>,
    next: spec_fn(Seq<Reply<K, V, E>>) -> WriteMove<K, V, E>,
    replies: Seq<Reply<K, V, E>>,
)
    requires
        replies.len() > 0,
        sound_by(play, replies),
        next == after(play, replies[0]),
    ensures
        play(Seq::empty()).fits(replies[0]),
        asked_by(play, replies) == seq![play(Seq::empty())] + asked_by(next, replies.skip(1)),
        sound_by(next, replies.skip(1)),
        play(replies) == next(replies.skip(1)),
        demoted(asked_by(play, replies)) == (match play(Seq::empty()) {
            WriteMove::Demote { key, value, .. } => seq![(key, value)],
            _ => Seq::empty(),
        }) + demoted(asked_by(next, replies.skip(1))),
        written(asked_by(play, replies)) == (match play(Seq::empty()) {
            WriteMove::Put { tier } => seq![tier],
            _ => Seq::empty(),
        }) + written(asked_by(next, replies.skip(1))),
        displaced(replies) == replies[0].displaced() + displaced(replies.skip(1)),
{
    let rest = replies.skip(1);
    assert(replies.take(0) =~= Seq::empty());
    assert(asked_by(play, replies)[0].fits(replies[0]));
    assert forall|i: int| 0 <= i <= rest.len() implies next(#[trigger] rest.take(i)) == play(
        replies.take(i + 1),
    ) by {
        assert(seq![replies[0]] + rest.take(i) =~= replies.take(i + 1));
    }
    assert(rest.take(rest.len() as int) =~= rest);
    assert(replies.take(replies.len() as int) =~= replies);
    assert(asked_by(play, replies) =~= seq![play(Seq::empty())] + asked_by(next, rest));
    assert forall|i: int| 0 <= i < rest.len() implies (#[trigger] asked_by(next, rest)[i]).fits(
        rest[i],
    ) by {
        assert(asked_by(play, replies)[i + 1].fits(replies[i + 1]));
    }
    assert(asked_by(play, replies).skip(1) =~= asked_by(next, rest));
}

/// A sound play that is over at the start has no answers.
proof fn lemma_over<K, V, E>(
    play: spec_fn(Seq<Reply<K, V, E>>) -> WriteMove<K, V, E>,
    replies: Seq<Reply<K, V, E>>,
)
    requires
        sound_by(play, replies),
        play(Seq::empty()) is Done,
    ensures
        replies.len() == 0,
{
    if replies.len() > 0 {
        assert(replies.take(0) =~= Seq::empty());
        assert(asked_by(play, replies)[0].fits(replies[0]));
    }
}

/// The tiers written so far, and how the play stands, agree with going
/// bottom-up over the topmost `left` tiers.
spec fn climbs<K, V, E>(
    route: Route,
    left: int,
    play: spec_fn(Seq<Reply<K, V, E>>) -> WriteMove<K, V, E>,
    replies: Seq<Reply<K, V, E>>,
) -> bool {
    let tiers = written(asked_by(play, replies));
    let all = bottom_up(route, left);
    match play(replies) {
        WriteMove::Put { tier } => tiers.push(tier).is_prefix_of(all),
        WriteMove::Demote { tier, .. } => tiers.is_prefix_of(all),
        WriteMove::Delete { .. } => false,
        WriteMove::Done(Ok(_)) => tiers == all,
        WriteMove::Done(Err(trouble)) => {
            &&& tiers.is_prefix_of(all)
            &&& tiers.len() > 0
            &&& trouble matches Trouble::Tier(failure) && failure.tier == tiers.last()
            &&& route.policy.on_write_error == OnWriteError::FailFast
            &&& replies.last() matches Reply::Put(Err(source)) && trouble == Trouble::Tier(
                route.failure(tiers.last(), source),
            )
        },
    }
}

/// Where the entries that were displaced have gone.
spec fn conserves<K, V, E>(
    pool: Seq<(K, V)>,
    play: spec_fn(Seq<Reply<K, V, E>>) -> WriteMove<K, V, E>,
    replies: Seq<Reply<K, V, E>>,
) -> bool {
    play(replies) matches WriteMove::Done(Ok(out)) ==> out.to_multiset().add(
        demoted(asked_by(play, replies)).to_multiset(),
    ) == pool.to_multiset().add(displaced(replies).to_multiset())
}

proof fn lemma_through<K, V, E>(
    route: Route,
    left: int,
    evicted: Seq<(K, V)>,
    replies: Seq<Reply<K, V, E>>,
)
    requires
        0 <= left <= route.lanes.len(),
        sound_by(through(route, left, evicted), replies),
    ensures
        climbs(route, left, through(route, left, evicted), replies),
        conserves(evicted, through(route, left, evicted), replies),
    decreases replies.len(), left, 0int,
{
    broadcast use lemma_multiset_commutative;

    let play = through::<K, V, E>(route, left, evicted);
    if left <= 0 {
        lemma_over(play, replies);
        assert(written(asked_by(play, replies)) =~= Seq::<int>::empty());
        assert(demoted(asked_by(play, replies)) =~= Seq::<(K, V)>::empty());
        assert(displaced(replies) =~= Seq::<(K, V)>::empty());
    } else if !route.writable(left - 1) {
        let next = through::<K, V, E>(route, left - 1, evicted);
        assert(play =~= next);
        lemma_through(route, left - 1, evicted, replies);
    } else if replies.len() == 0 {
        assert(written(asked_by(play, replies)).push(left - 1) =~= seq![left - 1]);
        assert(bottom_up(route, left).take(1) =~= seq![left - 1]);
    } else {
        let reply = replies[0];
        let rest = replies.skip(1);
        let next = after(play, reply);
        lemma_first(play, next, replies);
        assert(play(Seq::empty()) == WriteMove::<K, V, E>::Put { tier: left - 1 });
        assert forall|s: Seq<Reply<K, V, E>>| (seq![reply] + s).skip(1) == s by {
            assert((seq![reply] + s).skip(1) =~= s);
        }
        assert(demoted(asked_by(play, replies)) =~= demoted(asked_by(next, rest)));
        assert((evicted + reply.displaced()).to_multiset().add(displaced(rest).to_multiset())
            =~= evicted.to_multiset().add(displaced(replies).to_multiset()));
        match reply {
            Reply::Put(Ok(more)) => {
                if route.policy.demote_displaced {
                    let onward = sinking::<K, V, E>(route, left - 1, evicted, left, more);
                    assert(next =~= onward) by {
                        assert forall|s: Seq<Reply<K, V, E>>| #[trigger] next(s) == onward(s) by {
                            assert((seq![reply] + s).skip(1) == s);
                        }
                    }
                    lemma_sinking(route, left - 1, evicted, left, more, rest);
                    lemma_climbed(route, left, play, next, replies);
                } else {
                    let onward = through::<K, V, E>(route, left - 1, evicted + more);
                    assert(next =~= onward) by {
                        assert forall|s: Seq<Reply<K, V, E>>| #[trigger] next(s) == onward(s) by {
                            assert((seq![reply] + s).skip(1) == s);
                        }
                    }
                    lemma_through(route, left - 1, evicted + more, rest);
                    lemma_climbed(route, left, play, next, replies);
                }
            },
            Reply::Put(Err(source)) => {
                match route.policy.on_write_error {
                    OnWriteError::FailFast => {
                        assert forall|s: Seq<Reply<K, V, E>>| #[trigger] next(s)
                            == WriteMove::<K, V, E>::Done(
                            Err(Trouble::Tier(route.failure(left - 1, source))),
                        ) by {}
                        lemma_over(next, rest);
                        assert(rest.len() == 0);
                        assert(asked_by(next, rest) =~= Seq::empty());
                        assert(written(asked_by(play, replies)) =~= seq![left - 1]);
                        assert(bottom_up(route, left).take(1) =~= seq![left - 1]);
                    },
                    OnWriteError::BestEffort => {
                        let onward = through::<K, V, E>(route, left - 1, evicted);
                        assert(next =~= onward) by {
                            assert forall|s: Seq<Reply<K, V, E>>| #[trigger] next(s) == onward(
                                s,
                            ) by {
                                assert((seq![reply] + s).skip(1) == s);
                            }
                        }
                        lemma_through(route, left - 1, evicted, rest);
                        assert(evicted + reply.displaced() =~= evicted);
                        lemma_climbed(route, left, play, next, replies);
                    },
                }
            },
            _ => {},
        }
    }
}

/// One writable tier more.
proof fn lemma_climbed<K, V, E>(
    route: Route,
    left: int,
    play: spec_fn(Seq<Reply<K, V, E>>) -> WriteMove<K, V, E>,
    next: spec_fn(Seq<Reply<K, V, E>>) -> WriteMove<K, V, E>,
    replies: Seq<Reply<K, V, E>>,
)
    requires
        0 < left,
        route.writable(left - 1),
        replies.len() > 0,
        sound_by(play, replies),
        next == after(play, replies[0]),
        play(Seq::empty()) == (WriteMove::<K, V, E>::Put { tier: left - 1 }),
        climbs(route, left - 1, next, replies.skip(1)),
    ensures
        climbs(route, left, play, replies),
{
    lemma_first(play, next, replies);
    let tiers = written(asked_by(next, replies.skip(1)));
    let all = bottom_up(route, left - 1);
    assert(written(asked_by(play, replies)) == seq![left - 1] + tiers);
    assert(bottom_up(route, left) == seq![left - 1] + all);
    if let WriteMove::Put { tier } = play(replies) {
        assert((seq![left - 1] + tiers).push(tier) =~= seq![left - 1] + tiers.push(tier));
        assert(tiers.push(tier) =~= all.take(tiers.len() as int + 1));
        assert(seq![left - 1] + tiers.push(tier) =~= (seq![left - 1] + all).take(
            tiers.len() as int + 2,
        ));
    } else {
        assert(tiers.is_prefix_of(all));
        assert(tiers =~= all.take(tiers.len() as int));
        assert(seq![left - 1] + tiers =~= (seq![left - 1] + all).take(tiers.len() as int + 1));
        if tiers.len() > 0 {
            assert((seq![left - 1] + tiers).last() == tiers.last());
            assert(replies.skip(1).last() == replies.last() || replies.skip(1).len() == 0);
        }
    }
}

proof fn lemma_sinking<K, V, E>(
    route: Route,
    left: int,
    evicted: Seq<(K, V)>,
    target: int,
    current: Seq<(K, V)>,
    replies: Seq<Reply<K, V, E>>,
)
    requires
        0 <= left <= route.lanes.len(),
        0 <= target,
        sound_by(sinking(route, left, evicted, target, current), replies),
    ensures
        climbs(route, left, sinking(route, left, evicted, target, current), replies),
        conserves(evicted + current, sinking(route, left, evicted, target, current), replies),
    decreases
            replies.len(),
            left,
            if target < route.lanes.len() {
                2 * (route.lanes.len() - target) + 2
            } else {
                1
            },
{
    broadcast use lemma_multiset_commutative;

    let play = sinking::<K, V, E>(route, left, evicted, target, current);
    if target >= route.lanes.len() || current.len() == 0 {
        let next = through::<K, V, E>(route, left, evicted + current);
        assert(play =~= next);
        lemma_through(route, left, evicted + current, replies);
    } else if !route.writable(target) {
        let next = sinking::<K, V, E>(route, left, evicted, target + 1, current);
        assert(play =~= next);
        lemma_sinking(route, left, evicted, target + 1, current, replies);
    } else {
        let next = offering::<K, V, E>(route, left, evicted, target, current, Seq::empty());
        assert(play =~= next);
        lemma_offering(route, left, evicted, target, current, Seq::empty(), replies);
        assert(current + Seq::<(K, V)>::empty() =~= current);
    }
}

proof fn lemma_offering<K, V, E>(
    route: Route,
    left: int,
    evicted: Seq<(K, V)>,
    target: int,
    rest: Seq<(K, V)>,
    next: Seq<(K, V)>,
    replies: Seq<Reply<K, V, E>>,
)
    requires
        0 <= left <= route.lanes.len(),
        0 <= target < route.lanes.len(),
        sound_by(offering(route, left, evicted, target, rest, next), replies),
    ensures
        climbs(route, left, offering(route, left, evicted, target, rest, next), replies),
        conserves(
            evicted + (rest + next),
            offering(route, left, evicted, target, rest, next),
            replies,
        ),
    decreases replies.len(), left, 2 * (route.lanes.len() - target) + 1,
{
    broadcast use lemma_multiset_commutative;

    let play = offering::<K, V, E>(route, left, evicted, target, rest, next);
    if rest.len() == 0 {
        let onward = sinking::<K, V, E>(route, left, evicted, target + 1, next);
        assert(play =~= onward);
        lemma_sinking(route, left, evicted, target + 1, next, replies);
        assert(rest + next =~= next);
    } else if replies.len() == 0 {
        assert(play(replies) is Demote);
        assert(written(asked_by(play, replies)) =~= Seq::<int>::empty());
        assert(written(asked_by(play, replies)).is_prefix_of(bottom_up(route, left)));
    } else {
        let reply = replies[0];
        let gathered = next + reply.displaced();
        let others = rest.skip(1);
        let onward = offering::<K, V, E>(route, left, evicted, target, others, gathered);
        assert(after(play, reply) =~= onward) by {
            assert forall|s: Seq<Reply<K, V, E>>| #[trigger] after(play, reply)(s) == onward(s) by {
                assert((seq![reply] + s).skip(1) =~= s);
            }
        }
        lemma_first(play, onward, replies);
        assert(play(Seq::empty()) == WriteMove::<K, V, E>::Demote {
            tier: target,
            key: rest[0].0,
            value: rest[0].1,
        });
        lemma_offering(route, left, evicted, target, others, gathered, replies.skip(1));
        assert(written(asked_by(play, replies)) =~= written(asked_by(onward, replies.skip(1))));
        assert(replies.skip(1).len() > 0 ==> replies.skip(1).last() == replies.last());
        let first = seq![rest[0]];
        assert(rest =~= first + others);
        assert(demoted(asked_by(play, replies)) == first + demoted(
            asked_by(onward, replies.skip(1)),
        ));
        if let WriteMove::Done(Ok(out)) = play(replies) {
            let later = demoted(asked_by(onward, replies.skip(1)));
            assert(out.to_multiset().add((first + later).to_multiset()) =~= first.to_multiset().add(
                out.to_multiset().add(later.to_multiset()),
            ));
            assert((evicted + (rest + next)).to_multiset().add(displaced(replies).to_multiset())
                =~= first.to_multiset().add(
                (evicted + (others + gathered)).to_multiset().add(
                    displaced(replies.skip(1)).to_multiset(),
                ),
            ));
        }
    }
}

/// The log's history in terms of plays.
pub(crate) proof fn lemma_history<K, V, E>(
    log: WriteLog<K, V, E>,
    play: spec_fn(Seq<Reply<K, V, E>>) -> WriteMove<K, V, E>,
)
    requires
        forall|s: Seq<Reply<K, V, E>>|
            #[trigger] play(s) == (WriteLog { replies: s, ..log }).step(),
    ensures
        log.asked() == asked_by(play, log.replies),
        log.sound() ==> sound_by(play, log.replies),
        log.step() == play(log.replies),
{
    assert(log.asked() =~= asked_by(play, log.replies));
    assert(WriteLog { replies: log.replies, ..log } =~= log);
    if log.sound() {
        assert forall|i: int| 0 <= i < log.replies.len() implies (#[trigger] asked_by(
            play,
            log.replies,
        )[i]).fits(log.replies[i]) by {
            assert(log.asked()[i].fits(log.replies[i]));
        }
    }
}

/// Write-through goes bottom-up: the tiers written so far are the bottommost
/// writable ones, from the bottom up, and when the write ends well they are
/// all of them. A write that is aborted stops at the tier that rejected it,
/// so no tier above that one was written.
pub proof fn law_write_through_goes_bottom_up<K, V, E>(log: WriteLog<K, V, E>)
    requires
        log.sound(),
        log.route.policy.write == WriteMode::WriteThrough,
        exists|tier: int| log.route.writable(tier),
    ensures
        ({
            let tiers = written(log.asked());
            let all = bottom_up(log.route, log.route.lanes.len() as int);
            match log.step() {
                WriteMove::Put { tier } => tiers.push(tier).is_prefix_of(all),
                WriteMove::Demote { .. } => tiers.is_prefix_of(all),
                WriteMove::Delete { .. } => false,
                WriteMove::Done(Ok(_)) => tiers == all,
                WriteMove::Done(Err(trouble)) => {
                    &&& log.route.policy.on_write_error == OnWriteError::FailFast
                    &&& tiers.is_prefix_of(all)
                    &&& tiers.len() > 0
                    &&& log.replies.last() matches Reply::Put(Err(source)) && trouble
                        == Trouble::Tier(log.route.failure(tiers.last(), source))
                },
            }
        }),
{
    let route = log.route;
    let n = route.lanes.len() as int;
    let play = through::<K, V, E>(route, n, Seq::empty());
    lemma_has_writable(route);
    lemma_history(log, play);
    lemma_through(route, n, Seq::<(K, V)>::empty(), log.replies);
}

/// Some tier is writable exactly if `writables` lists one.
pub(crate) proof fn lemma_has_writable(route: Route)
    ensures
        (exists|tier: int| route.writable(tier)) <==> route.writables(
            route.lanes.len() as int,
        ).len() > 0,
{
    let n = route.lanes.len() as int;
    route.lemma_writables(n);
    if exists|tier: int| route.writable(tier) {
        let tier = choose|tier: int| route.writable(tier);
        assert(route.writables(n).contains(tier));
    }
    if route.writables(n).len() > 0 {
        assert(route.writable(route.writables(n)[0]));
    }
}

/// Eviction is never silent: when a write-through ends well, every entry that
/// some tier displaced was either offered to a tier below or is returned to
/// the caller, and nothing else is.
pub proof fn law_write_through_accounts_for_displaced_entries<K, V, E>(log: WriteLog<K, V, E>)
    requires
        log.sound(),
        log.route.policy.write == WriteMode::WriteThrough,
    ensures
        log.step() matches WriteMove::Done(Ok(evicted)) ==> evicted.to_multiset().add(
            demoted(log.asked()).to_multiset(),
        ) == displaced(log.replies).to_multiset(),
{
    let route = log.route;
    let n = route.lanes.len() as int;
    if route.writables(n).len() > 0 {
        let play = through::<K, V, E>(route, n, Seq::empty());
        lemma_history(log, play);
        lemma_through(route, n, Seq::<(K, V)>::empty(), log.replies);
        assert(Seq::<(K, V)>::empty().to_multiset().add(displaced(log.replies).to_multiset())
            =~= displaced(log.replies).to_multiset()) by {
            broadcast use group_to_multiset_ensures;

            assert(Seq::<(K, V)>::empty().to_multiset().len() == 0);
        }
    }
}

proof fn lemma_sink_writable<K, V, E>(
    route: Route,
    target: int,
    current: Seq<(K, V)>,
    replies: Seq<Reply<K, V, E>>,
)
    ensures
        rollover::sink(route, target, current, replies) matches Rolled::Ask { tier, .. }
            ==> route.writable(tier) && target <= tier,
    decreases route.lanes.len() - target, 1int, 0int,
{
    if target < 0 || target >= route.lanes.len() || current.len() == 0 {
    } else if !route.writable(target) {
        lemma_sink_writable(route, target + 1, current, replies);
    } else {
        lemma_offer_writable(route, target, current, Seq::empty(), replies);
    }
}

proof fn lemma_offer_writable<K, V, E>(
    route: Route,
    target: int,
    rest: Seq<(K, V)>,
    next: Seq<(K, V)>,
    replies: Seq<Reply<K, V, E>>,
)
    requires
        route.writable(target),
    ensures
        rollover::offer(route, target, rest, next, replies) matches Rolled::Ask { tier, .. }
            ==> route.writable(tier) && target <= tier,
    decreases route.lanes.len() - target, 0int, rest.len(),
{
    if rest.len() == 0 {
        lemma_sink_writable(route, target + 1, next, replies);
    } else if replies.len() > 0 {
        lemma_offer_writable(
            route,
            target,
            rest.skip(1),
            next + replies[0].displaced(),
            replies.skip(1),
        );
    }
}

/// Displaced entries only ever sink: a rollover writes writable tiers at or
/// below the one it starts at.
pub proof fn law_displaced_entries_sink<K, V, E>(
    route: Route,
    target: int,
    current: Seq<(K, V)>,
    replies: Seq<Reply<K, V, E>>,
)
    ensures
        rollover::sink(route, target, current, replies) matches Rolled::Ask { tier, .. }
            ==> route.writable(tier) && target <= tier,
{
    lemma_sink_writable(route, target, current, replies);
}

/// Whether a request keeps to the writable tiers.
pub open spec fn keeps_to_writable<K, V, E>(route: Route, step: WriteMove<K, V, E>) -> bool {
    match step {
        WriteMove::Put { tier } => route.writable(tier),
        WriteMove::Demote { tier, .. } => route.writable(tier),
        WriteMove::Delete { tier } => route.writable(tier),
        WriteMove::Done(_) => true,
    }
}

proof fn lemma_through_writable<K, V, E>(
    route: Route,
    left: int,
    evicted: Seq<(K, V)>,
    replies: Seq<Reply<K, V, E>>,
)
    ensures
        keeps_to_writable(route, crate::write::write_through(route, left, evicted, replies)),
        crate::write::write_through(route, left, evicted, replies) is Demote
            ==> route.policy.demote_displaced,
        !(crate::write::write_through(route, left, evicted, replies) is Delete),
    decreases left,
{
    if left > 0 {
        if !route.writable(left - 1) {
            lemma_through_writable(route, left - 1, evicted, replies);
        } else if replies.len() > 0 {
            match replies[0] {
                Reply::Put(Ok(more)) => {
                    if route.policy.demote_displaced {
                        lemma_sink_writable(route, left, more, replies.skip(1));
                        let rolled = rollover::sink(route, left, more, replies.skip(1));
                        assert(crate::write::write_through(route, left, evicted, replies)
                            == crate::write::roll_through(route, left - 1, evicted, rolled));
                        if let Rolled::Settled { evicted: fallen, rest } = rolled {
                            lemma_through_writable(route, left - 1, evicted + fallen, rest);
                        }
                    } else {
                        lemma_through_writable(
                            route,
                            left - 1,
                            evicted + more,
                            replies.skip(1),
                        );
                    }
                },
                Reply::Put(Err(source)) => {
                    lemma_through_writable(route, left - 1, evicted, replies.skip(1));
                },
                _ => {},
            }
        }
    }
}

proof fn lemma_invalidate_writable<K, V, E>(
    route: Route,
    bottom: int,
    tier: int,
    displaced: Seq<(K, V)>,
    failures: Seq<Failure<E>>,
    replies: Seq<Reply<K, V, E>>,
)
    ensures
        ({
            let step = crate::write::invalidate(route, bottom, tier, displaced, failures, replies);
            &&& keeps_to_writable(route, step)
            &&& !(step is Demote)
            &&& !(step is Put)
            &&& step matches WriteMove::Delete { tier: t } ==> tier <= t < bottom
            &&& step matches WriteMove::Done(Err(trouble)) ==> trouble is Partial
        }),
    decreases bottom - tier,
{
    if tier < bottom {
        if !route.writable(tier) {
            lemma_invalidate_writable(route, bottom, tier + 1, displaced, failures, replies);
        } else if replies.len() > 0 {
            match replies[0] {
                Reply::Deleted(Ok(_)) => {
                    lemma_invalidate_writable(
                        route,
                        bottom,
                        tier + 1,
                        displaced,
                        failures,
                        replies.skip(1),
                    );
                },
                Reply::Deleted(Err(source)) => {
                    lemma_invalidate_writable(
                        route,
                        bottom,
                        tier + 1,
                        displaced,
                        failures.push(route.failure(tier, source)),
                        replies.skip(1),
                    );
                },
                _ => {},
            }
        }
    }
}

/// A write never touches a read-only tier: not with the requested entries,
/// not with displaced ones, and not with a delete.
pub proof fn law_writes_spare_read_only_tiers<K, V, E>(log: WriteLog<K, V, E>)
    ensures
        keeps_to_writable(log.route, log.step()),
{
    let route = log.route;
    let n = route.lanes.len() as int;
    route.lemma_writables(n);
    if route.writables(n).len() > 0 {
        let bottom = route.writables(n).last();
        assert(route.writable(route.writables(n)[route.writables(n).len() - 1]));
        match route.policy.write {
            WriteMode::WriteThrough => {
                lemma_through_writable(route, n, Seq::<(K, V)>::empty(), log.replies);
            },
            WriteMode::WriteAround => {
                if log.replies.len() > 0 {
                    if let Reply::Put(Ok(displaced)) = log.replies[0] {
                        lemma_invalidate_writable(
                            route,
                            bottom,
                            0,
                            displaced,
                            Seq::<Failure<E>>::empty(),
                            log.replies.skip(1),
                        );
                    }
                }
            },
        }
    }
}

/// Without demotion the router moves no displaced entry: it never asks for
/// one to be written anywhere.
pub proof fn law_no_demotion_unless_policy_says_so<K, V, E>(log: WriteLog<K, V, E>)
    requires
        !log.route.policy.demote_displaced || log.route.policy.write == WriteMode::WriteAround,
    ensures
        !(log.step() is Demote),
{
    let route = log.route;
    let n = route.lanes.len() as int;
    if route.writables(n).len() > 0 {
        match route.policy.write {
            WriteMode::WriteThrough => {
                lemma_through_writable(route, n, Seq::<(K, V)>::empty(), log.replies);
            },
            WriteMode::WriteAround => {
                if log.replies.len() > 0 {
                    if let Reply::Put(Ok(displaced)) = log.replies[0] {
                        lemma_invalidate_writable(
                            route,
                            route.writables(n).last(),
                            0,
                            displaced,
                            Seq::<Failure<E>>::empty(),
                            log.replies.skip(1),
                        );
                    }
                }
            },
        }
    }
}

/// A write is refused as read-only exactly if no tier is writable, and then
/// before any tier is asked.
pub proof fn law_read_only_is_refused<K, V, E>(log: WriteLog<K, V, E>)
    requires
        log.sound(),
    ensures
        log.step() == WriteMove::<K, V, E>::Done(Err(Trouble::ReadOnly)) <==> forall|tier: int|
            !log.route.writable(tier),
        (forall|tier: int| !log.route.writable(tier)) ==> log.replies.len() == 0,
{
    let route = log.route;
    let n = route.lanes.len() as int;
    lemma_has_writable(route);
    if route.writables(n).len() == 0 {
        if log.replies.len() > 0 {
            assert(log.asked()[0].fits(log.replies[0]));
        }
    } else {
        match route.policy.write {
            WriteMode::WriteThrough => {
                law_write_through_goes_bottom_up(log);
            },
            WriteMode::WriteAround => {
                if log.replies.len() > 0 {
                    if let Reply::Put(Ok(displaced)) = log.replies[0] {
                        lemma_invalidate_writable(
                            route,
                            route.writables(n).last(),
                            0,
                            displaced,
                            Seq::<Failure<E>>::empty(),
                            log.replies.skip(1),
                        );
                    }
                }
            },
        }
    }
}

/// The answers to deletes.
pub open spec fn deletions<K, V, E>(replies: Seq<Reply<K, V, E>>) -> Seq<Result<(), E>> {
    replies.map_values(
        |reply: Reply<K, V, E>|
            match reply {
                Reply::Deleted(result) => result,
                _ => Ok(()),
            },
    )
}

/// The outcome of a write-around once the write of the bottommost writable
/// tier displaced `displaced` and the tiers above answered `answers`.
pub open spec fn invalidated<K, V, E>(
    route: Route,
    displaced: Seq<(K, V)>,
    answers: Seq<Result<(), E>>,
) -> WriteMove<K, V, E> {
    let tiers = route.writables(route.lanes.len() as int);
    let failures = delete::failures_at(route, answers);
    if answers.len() < tiers.len() - 1 {
        WriteMove::Delete { tier: tiers[answers.len() as int] }
    } else if failures.len() == 0 {
        WriteMove::Done(Ok(displaced))
    } else {
        WriteMove::Done(Err(Trouble::Partial(failures)))
    }
}

pub(crate) open spec fn invalidating<K, V, E>(
    route: Route,
    bottom: int,
    tier: int,
    displaced: Seq<(K, V)>,
    failures: Seq<Failure<E>>,
) -> spec_fn(Seq<Reply<K, V, E>>) -> WriteMove<K, V, E> {
    |s: Seq<Reply<K, V, E>>|
        crate::write::invalidate(route, bottom, tier, displaced, failures, s)
}

proof fn lemma_invalidated<K, V, E>(
    route: Route,
    bottom: int,
    tier: int,
    displaced: Seq<(K, V)>,
    before: Seq<Result<(), E>>,
    replies: Seq<Reply<K, V, E>>,
)
    requires
        0 <= tier <= bottom,
        route.writable(bottom),
        forall|i: int| bottom < i ==> !route.writable(i),
        route.writables(tier).len() == before.len(),
        sound_by(
            invalidating(route, bottom, tier, displaced, delete::failures_at(route, before)),
            replies,
        ),
    ensures
        crate::write::invalidate(
            route,
            bottom,
            tier,
            displaced,
            delete::failures_at(route, before),
            replies,
        ) == invalidated(route, displaced, before + deletions(replies)),
    decreases bottom - tier,
{
    let n = route.lanes.len() as int;
    let failures = delete::failures_at(route, before);
    let play = invalidating::<K, V, E>(route, bottom, tier, displaced, failures);
    let tiers = route.writables(n);
    route.lemma_bottom(bottom);
    lemma_writables_below(route, bottom, n);
    assert(before + deletions(Seq::<Reply<K, V, E>>::empty()) =~= before);
    if tier >= bottom {
        lemma_over(play, replies);
        assert(replies =~= Seq::empty());
    } else if !route.writable(tier) {
        let next = invalidating::<K, V, E>(route, bottom, tier + 1, displaced, failures);
        assert(play =~= next);
        lemma_invalidated(route, bottom, tier + 1, displaced, before, replies);
    } else {
        route.lemma_writables_prefix(tier + 1, n);
        let upto = route.writables(tier + 1);
        assert(upto[before.len() as int] == tier);
        assert(tiers[before.len() as int] == tier);
        route.lemma_writables_prefix(tier + 1, bottom);
        if replies.len() == 0 {
            assert(replies =~= Seq::empty());
        } else {
            let reply = replies[0];
            let rest = replies.skip(1);
            let answer = deletions(replies)[0];
            let later = before.push(answer);
            assert(later.drop_last() =~= before);
            let next = invalidating::<K, V, E>(
                route,
                bottom,
                tier + 1,
                displaced,
                delete::failures_at(route, later),
            );
            assert(replies.take(0) =~= Seq::empty());
            assert(asked_by(play, replies)[0].fits(reply));
            assert(after(play, reply) =~= next) by {
                assert forall|s: Seq<Reply<K, V, E>>| #[trigger] after(play, reply)(s) == next(
                    s,
                ) by {
                    assert((seq![reply] + s).skip(1) =~= s);
                }
            }
            lemma_first(play, next, replies);
            lemma_invalidated(route, bottom, tier + 1, displaced, later, rest);
            assert(later + deletions(rest) =~= before + deletions(replies));
        }
    }
}

/// The bottommost writable tier is the last one listed.
pub(crate) proof fn lemma_writables_below(route: Route, bottom: int, limit: int)
    requires
        0 <= bottom < limit,
        route.writable(bottom),
        forall|i: int| bottom < i ==> !route.writable(i),
    ensures
        route.writables(limit) == route.writables(bottom).push(bottom),
    decreases limit,
{
    if limit > bottom + 1 {
        lemma_writables_below(route, bottom, limit - 1);
    }
}

/// Write-around writes the bottommost writable tier alone, and then asks
/// every writable tier above to delete the keys, whether or not others fail
/// to. It ends well exactly if the write and all deletes succeeded; failed
/// deletes are reported, each with its tier.
pub proof fn law_write_around_invalidates_above<K, V, E>(log: WriteLog<K, V, E>)
    requires
        log.sound(),
        log.route.policy.write == WriteMode::WriteAround,
        exists|tier: int| log.route.writable(tier),
    ensures
        ({
            let bottom = log.route.writables(log.route.lanes.len() as int).last();
            log.step() == if log.replies.len() == 0 {
                WriteMove::Put { tier: bottom }
            } else {
                match log.replies[0] {
                    Reply::Put(Ok(displaced)) => invalidated(
                        log.route,
                        displaced,
                        deletions(log.replies.skip(1)),
                    ),
                    Reply::Put(Err(source)) => WriteMove::Done(
                        Err(Trouble::Tier(log.route.failure(bottom, source))),
                    ),
                    _ => WriteMove::Put { tier: bottom },
                }
            }
        }),
{
    let route = log.route;
    let n = route.lanes.len() as int;
    lemma_has_writable(route);
    route.lemma_writables(n);
    let bottom = route.writables(n).last();
    assert(route.writable(route.writables(n)[route.writables(n).len() - 1]));
    assert forall|i: int| bottom < i implies !route.writable(i) by {
        if route.writable(i) {
            assert(route.writables(n).contains(i));
        }
    }
    if log.replies.len() > 0 {
        let play = |s: Seq<Reply<K, V, E>>| crate::write::write_around::<K, V, E>(route, bottom, s);
        lemma_history(log, play);
        if let Reply::Put(Ok(displaced)) = log.replies[0] {
            let reply = log.replies[0];
            let next = invalidating::<K, V, E>(route, bottom, 0, displaced, Seq::empty());
            assert(after(play, reply) =~= next) by {
                assert forall|s: Seq<Reply<K, V, E>>| #[trigger] after(play, reply)(s) == next(
                    s,
                ) by {
                    assert((seq![reply] + s).skip(1) =~= s);
                }
            }
            lemma_first(play, next, log.replies);
            let before = Seq::<Result<(), E>>::empty();
            lemma_invalidated(route, bottom, 0, displaced, before, log.replies.skip(1));
            assert(before + deletions(log.replies.skip(1)) =~= deletions(log.replies.skip(1)));
        }
    }
}

} // verus!
