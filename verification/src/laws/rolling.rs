//! Where displaced entries go.
//!
//! Said of any operation that writes: what it asked of the tiers, and how they
//! answered, in order.
use vstd::prelude::*;

use crate::batch;
use crate::batch::{ReadManyLog, ReadManyMove};
use crate::error::Failure;
use crate::fetch;
use crate::fetch::{GetLog, GetMove};
use crate::policy::{OnReadError, OnWriteError, WriteMode};
use crate::report::KeyStatus;
use crate::rollover;
use crate::rollover::{Reply, Rolled};
use crate::router::Route;
use crate::write::{WriteLog, WriteMove};

verus! {

/// What an operation asks for, as far as writes matter.
pub enum Request<K, V> {
    /// Write requested or promoted entries into `tier`.
    Write {
        /// The tier.
        tier: int,
    },
    /// Write a displaced entry into `tier`.
    Sink {
        /// The tier.
        tier: int,
        /// The entry's key.
        key: K,
        /// The entry's value.
        value: V,
    },
    /// Something else, or nothing any more.
    Other,
}

impl<K, V> Request<K, V> {
    /// Whether this writes `tier`.
    pub open spec fn writes(self, tier: int) -> bool {
        match self {
            Request::Write { tier: t } => t == tier,
            Request::Sink { tier: t, .. } => t == tier,
            Request::Other => false,
        }
    }
}

/// What the writes of `tier` displaced, in order.
pub open spec fn shed_by<K, V, E>(
    requests: Seq<Request<K, V>>,
    replies: Seq<Reply<K, V, E>>,
    tier: int,
) -> Seq<(K, V)>
    decreases requests.len(),
{
    if requests.len() == 0 {
        Seq::empty()
    } else {
        shed_by(requests.drop_last(), replies.drop_last(), tier) + if requests.last().writes(tier) {
            replies.last().displaced()
        } else {
            Seq::empty()
        }
    }
}

/// The displaced entries that were to be written into `tier`, in order.
pub open spec fn sunk_into<K, V>(requests: Seq<Request<K, V>>, tier: int) -> Seq<(K, V)>
    decreases requests.len(),
{
    if requests.len() == 0 {
        Seq::empty()
    } else {
        let earlier = sunk_into(requests.drop_last(), tier);
        match requests.last() {
            Request::Sink { tier: t, key, value } => if t == tier {
                earlier.push((key, value))
            } else {
                earlier
            },
            _ => earlier,
        }
    }
}

/// Whether the router may write the tier number `tier`.
pub open spec fn open_to_writes(route: Route, tier: int) -> bool {
    0 <= tier < route.lanes.len() && route.lanes[tier].writable
}

/// Whether `lower` is the next tier below `upper` that may be written, and
/// `upper` may be as well.
pub open spec fn next_below(route: Route, upper: int, lower: int) -> bool {
    &&& upper < lower
    &&& open_to_writes(route, upper)
    &&& open_to_writes(route, lower)
    &&& forall|t: int| upper < t < lower ==> !(#[trigger] open_to_writes(route, t))
}

/// Whether `tier` is the bottommost tier that may be written.
pub open spec fn bottommost(route: Route, tier: int) -> bool {
    &&& open_to_writes(route, tier)
    &&& forall|t: int| tier < t ==> !(#[trigger] open_to_writes(route, t))
}

/// Whether every displaced entry was to be written into the next tier below
/// the one that displaced it, in order, and no other displaced entry was.
pub open spec fn all_sunk<K, V, E>(
    route: Route,
    requests: Seq<Request<K, V>>,
    replies: Seq<Reply<K, V, E>>,
) -> bool {
    forall|upper: int, lower: int| #[trigger]
        next_below(route, upper, lower) ==> sunk_into(requests, lower) == shed_by(
            requests,
            replies,
            upper,
        )
}

/// Whether the entry is the next displaced one that has to be written into
/// `lower`, after all that have to be written further up.
pub open spec fn sinks_next<K, V, E>(
    route: Route,
    requests: Seq<Request<K, V>>,
    replies: Seq<Reply<K, V, E>>,
    lower: int,
    key: K,
    value: V,
) -> bool {
    let done = sunk_into(requests, lower);
    &&& exists|upper: int| #[trigger]
        next_below(route, upper, lower) && {
            let shed = shed_by(requests, replies, upper);
            &&& done.len() < shed.len()
            &&& done == shed.take(done.len() as int)
            &&& shed[done.len() as int] == (key, value)
        }
    &&& forall|upper: int, below: int| #[trigger]
        next_below(route, upper, below) ==> sunk_into(requests, below).is_prefix_of(
            shed_by(requests, replies, upper),
        )
    &&& forall|upper: int, above: int| #[trigger]
        next_below(route, upper, above) && above < lower ==> sunk_into(requests, above) == shed_by(
            requests,
            replies,
            upper,
        )
}

/// Whether, after these requests and answers, the request `next` deals with
/// displaced entries as it has to: an entry that still has to sink sinks
/// first, and anything else waits until all have.
pub open spec fn rolls_on<K, V, E>(
    route: Route,
    requests: Seq<Request<K, V>>,
    replies: Seq<Reply<K, V, E>>,
    next: Request<K, V>,
) -> bool {
    match next {
        Request::Sink { tier, key, value } => sinks_next(route, requests, replies, tier, key, value),
        _ => all_sunk(route, requests, replies),
    }
}

/// `current` still has to sink into the tiers from `target` on; `gone` fell
/// off the bottom.
spec fn waits<K, V, E>(
    route: Route,
    requests: Seq<Request<K, V>>,
    replies: Seq<Reply<K, V, E>>,
    gone: Seq<(K, V)>,
    target: int,
    current: Seq<(K, V)>,
) -> bool {
    &&& requests.len() == replies.len()
    &&& forall|upper: int, lower: int| #[trigger]
        next_below(route, upper, lower) ==> shed_by(requests, replies, upper) == if upper < target
            <= lower {
            sunk_into(requests, lower) + current
        } else {
            sunk_into(requests, lower)
        }
    &&& forall|bottom: int| #[trigger]
        bottommost(route, bottom) ==> shed_by(requests, replies, bottom) == if bottom < target {
            gone + current
        } else {
            gone
        }
}

/// `rest` has to be written into `low`, and `next` into the tiers below.
spec fn offers<K, V, E>(
    route: Route,
    requests: Seq<Request<K, V>>,
    replies: Seq<Reply<K, V, E>>,
    gone: Seq<(K, V)>,
    low: int,
    rest: Seq<(K, V)>,
    next: Seq<(K, V)>,
) -> bool {
    &&& requests.len() == replies.len()
    &&& forall|upper: int, lower: int| #[trigger]
        next_below(route, upper, lower) ==> shed_by(requests, replies, upper) == if lower == low {
            sunk_into(requests, lower) + rest
        } else if upper == low {
            sunk_into(requests, lower) + next
        } else {
            sunk_into(requests, lower)
        }
    &&& forall|bottom: int| #[trigger]
        bottommost(route, bottom) ==> shed_by(requests, replies, bottom) == if bottom == low {
            gone + next
        } else {
            gone
        }
}

/// Nothing waits, and `gone` fell off the bottom.
spec fn settled<K, V, E>(
    route: Route,
    requests: Seq<Request<K, V>>,
    replies: Seq<Reply<K, V, E>>,
    gone: Seq<(K, V)>,
) -> bool {
    &&& requests.len() == replies.len()
    &&& all_sunk(route, requests, replies)
    &&& forall|bottom: int| #[trigger]
        bottommost(route, bottom) ==> shed_by(requests, replies, bottom) == gone
}

/// One more request and its answer.
pub(crate) proof fn lemma_one_more<K, V, E>(
    requests: Seq<Request<K, V>>,
    replies: Seq<Reply<K, V, E>>,
    request: Request<K, V>,
    reply: Reply<K, V, E>,
)
    requires
        requests.len() == replies.len(),
    ensures
        forall|tier: int|
            shed_by(requests.push(request), replies.push(reply), tier) == if request.writes(tier) {
                #[trigger] shed_by(requests, replies, tier) + reply.displaced()
            } else {
                shed_by(requests, replies, tier)
            },
        forall|tier: int|
            sunk_into(requests.push(request), tier) == match request {
                Request::Sink { tier: t, key, value } => if t == tier {
                    (#[trigger] sunk_into(requests, tier)).push((key, value))
                } else {
                    sunk_into(requests, tier)
                },
                _ => sunk_into(requests, tier),
            },
{
    assert(requests.push(request).drop_last() =~= requests);
    assert(replies.push(reply).drop_last() =~= replies);
    assert forall|tier: int|
        shed_by(requests.push(request), replies.push(reply), tier) == if request.writes(tier) {
            #[trigger] shed_by(requests, replies, tier) + reply.displaced()
        } else {
            shed_by(requests, replies, tier)
        } by {
        assert(shed_by(requests, replies, tier) + Seq::<(K, V)>::empty() =~= shed_by(
            requests,
            replies,
            tier,
        ));
    }
}

/// A rollover consumes `used` of the answers: until then it asks, and then it
/// has settled or waits for more.
pub(crate) open spec fn consumes<K, V, E>(
    play: spec_fn(Seq<Reply<K, V, E>>) -> Rolled<K, V, E>,
    s: Seq<Reply<K, V, E>>,
    used: int,
) -> bool {
    &&& 0 <= used <= s.len()
    &&& forall|i: int|
        #![trigger s.take(i)]
        0 <= i < used ==> play(s.take(i)) is Ask
    &&& match play(s) {
        Rolled::Ask { .. } => used == s.len(),
        Rolled::Settled { evicted, rest } => {
            &&& rest == s.skip(used)
            &&& forall|x: Seq<Reply<K, V, E>>| #[trigger]
                play(s.take(used) + x) == (Rolled::<K, V, E>::Settled { evicted, rest: x })
        },
    }
}

pub(crate) proof fn lemma_sink_consumes<K, V, E>(
    route: Route,
    target: int,
    current: Seq<(K, V)>,
    s: Seq<Reply<K, V, E>>,
) -> (used: int)
    ensures
        consumes(sink_from(route, target, current), s, used),
    decreases route.lanes.len() - target, 1int, 0int,
{
    let play = sink_from::<K, V, E>(route, target, current);
    if target < 0 || target >= route.lanes.len() || current.len() == 0 {
        assert(s.skip(0) =~= s);
        assert forall|x: Seq<Reply<K, V, E>>| #[trigger] play(s.take(0) + x) == (Rolled::<
            K,
            V,
            E,
        >::Settled { evicted: current, rest: x }) by {
            assert(s.take(0) + x =~= x);
        }
        0
    } else if !route.writable(target) {
        let onward = sink_from::<K, V, E>(route, target + 1, current);
        assert(play =~= onward);
        lemma_sink_consumes(route, target + 1, current, s)
    } else {
        let none = Seq::<(K, V)>::empty();
        let onward = offer_from::<K, V, E>(route, target, current, none);
        assert(play =~= onward);
        lemma_offer_consumes(route, target, current, none, s)
    }
}

proof fn lemma_offer_consumes<K, V, E>(
    route: Route,
    low: int,
    rest: Seq<(K, V)>,
    next: Seq<(K, V)>,
    s: Seq<Reply<K, V, E>>,
) -> (used: int)
    requires
        0 <= low < route.lanes.len(),
    ensures
        consumes(offer_from(route, low, rest, next), s, used),
    decreases route.lanes.len() - low, 0int, rest.len(),
{
    let play = offer_from::<K, V, E>(route, low, rest, next);
    if rest.len() == 0 {
        let onward = sink_from::<K, V, E>(route, low + 1, next);
        assert(play =~= onward);
        lemma_sink_consumes(route, low + 1, next, s)
    } else if s.len() == 0 {
        0
    } else {
        let reply = s[0];
        let later = s.skip(1);
        let others = rest.skip(1);
        let gathered = next + reply.displaced();
        let onward = offer_from::<K, V, E>(route, low, others, gathered);
        let more = lemma_offer_consumes(route, low, others, gathered, later);
        let used = more + 1;
        assert forall|x: Seq<Reply<K, V, E>>| #[trigger] play(seq![reply] + x) == onward(x) by {
            assert((seq![reply] + x).skip(1) =~= x);
        }
        assert(seq![reply] + later =~= s);
        assert forall|i: int|
            #![trigger s.take(i)]
            0 <= i < used implies play(s.take(i)) is Ask by {
            if i > 0 {
                assert(s.take(i) =~= seq![reply] + later.take(i - 1));
                assert(onward(later.take(i - 1)) is Ask);
            } else {
                assert(s.take(0) =~= Seq::empty());
            }
        }
        if let Rolled::Settled { evicted, rest: left } = play(s) {
            assert(later.skip(more) =~= s.skip(used));
            assert forall|x: Seq<Reply<K, V, E>>| #[trigger]
                play(s.take(used) + x) == (Rolled::<K, V, E>::Settled { evicted, rest: x }) by {
                assert(s.take(used) + x =~= seq![reply] + (later.take(more) + x));
                assert(onward(later.take(more) + x) == (Rolled::<K, V, E>::Settled {
                    evicted,
                    rest: x,
                }));
            }
        }
        used
    }
}

/// What a rollover asks for.
spec fn sinking<K, V, E>(rolled: Rolled<K, V, E>) -> Request<K, V> {
    match rolled {
        Rolled::Ask { tier, key, value } => Request::Sink { tier, key, value },
        Rolled::Settled { .. } => Request::Other,
    }
}

pub(crate) open spec fn sink_from<K, V, E>(route: Route, target: int, current: Seq<(K, V)>) -> spec_fn(
    Seq<Reply<K, V, E>>,
) -> Rolled<K, V, E> {
    |s: Seq<Reply<K, V, E>>| rollover::sink(route, target, current, s)
}

spec fn offer_from<K, V, E>(
    route: Route,
    low: int,
    rest: Seq<(K, V)>,
    next: Seq<(K, V)>,
) -> spec_fn(Seq<Reply<K, V, E>>) -> Rolled<K, V, E> {
    |s: Seq<Reply<K, V, E>>| rollover::offer(route, low, rest, next, s)
}

/// The first `count` requests of a rollover.
spec fn sunk_by<K, V, E>(
    play: spec_fn(Seq<Reply<K, V, E>>) -> Rolled<K, V, E>,
    s: Seq<Reply<K, V, E>>,
    count: int,
) -> Seq<Request<K, V>> {
    Seq::new(count as nat, |j: int| sinking(play(s.take(j))))
}

/// A rollover consumes `used` of the answers, and then has settled or waits
/// for more; every request on the way is the one that is due.
spec fn rolls<K, V, E>(
    route: Route,
    play: spec_fn(Seq<Reply<K, V, E>>) -> Rolled<K, V, E>,
    s: Seq<Reply<K, V, E>>,
    requests: Seq<Request<K, V>>,
    replies: Seq<Reply<K, V, E>>,
    gone: Seq<(K, V)>,
    used: int,
) -> bool {
    &&& 0 <= used <= s.len()
    &&& forall|i: int|
        #![trigger s.take(i)]
        0 <= i < used ==> play(s.take(i)) is Ask
    &&& forall|i: int|
        #![trigger s.take(i)]
        0 <= i <= used && play(s.take(i)) is Ask ==> rolls_on(
            route,
            requests + sunk_by(play, s, i),
            replies + s.take(i),
            sinking(play(s.take(i))),
        )
    &&& match play(s) {
        Rolled::Ask { .. } => used == s.len(),
        Rolled::Settled { evicted, rest } => {
            &&& rest == s.skip(used)
            &&& settled(
                route,
                requests + sunk_by(play, s, used),
                replies + s.take(used),
                gone + evicted,
            )
            &&& forall|x: Seq<Reply<K, V, E>>| #[trigger]
                play(s.take(used) + x) == (Rolled::<K, V, E>::Settled { evicted, rest: x })
        },
    }
}

/// The same rollover under another name.
proof fn lemma_same_play<K, V, E>(
    route: Route,
    play: spec_fn(Seq<Reply<K, V, E>>) -> Rolled<K, V, E>,
    other: spec_fn(Seq<Reply<K, V, E>>) -> Rolled<K, V, E>,
    s: Seq<Reply<K, V, E>>,
    requests: Seq<Request<K, V>>,
    replies: Seq<Reply<K, V, E>>,
    gone: Seq<(K, V)>,
    used: int,
)
    requires
        rolls(route, other, s, requests, replies, gone, used),
        forall|x: Seq<Reply<K, V, E>>| #[trigger] play(x) == other(x),
    ensures
        rolls(route, play, s, requests, replies, gone, used),
{
    assert(play =~= other);
}

/// A rollover whose first request is due, and that goes on as it has to.
proof fn lemma_rolls_first<K, V, E>(
    route: Route,
    play: spec_fn(Seq<Reply<K, V, E>>) -> Rolled<K, V, E>,
    onward: spec_fn(Seq<Reply<K, V, E>>) -> Rolled<K, V, E>,
    s: Seq<Reply<K, V, E>>,
    requests: Seq<Request<K, V>>,
    replies: Seq<Reply<K, V, E>>,
    gone: Seq<(K, V)>,
    more: int,
)
    requires
        s.len() > 0,
        requests.len() == replies.len(),
        play(Seq::empty()) is Ask,
        rolls_on(route, requests, replies, sinking(play(Seq::empty()))),
        forall|x: Seq<Reply<K, V, E>>| #[trigger] play(seq![s[0]] + x) == onward(x),
        rolls(
            route,
            onward,
            s.skip(1),
            requests.push(sinking(play(Seq::empty()))),
            replies.push(s[0]),
            gone,
            more,
        ),
    ensures
        rolls(route, play, s, requests, replies, gone, more + 1),
{
    let reply = s[0];
    let later = s.skip(1);
    let asked = requests.push(sinking(play(Seq::empty())));
    let answered = replies.push(reply);
    let used = more + 1;
    assert(s.take(0) =~= Seq::empty());
    assert(requests + sunk_by(play, s, 0) =~= requests);
    assert(replies + s.take(0) =~= replies);
    assert(seq![reply] + later =~= s);
    assert forall|i: int| 1 <= i <= s.len() implies #[trigger] s.take(i) == seq![reply]
        + later.take(i - 1) && play(s.take(i)) == onward(later.take(i - 1)) by {
        assert(s.take(i) =~= seq![reply] + later.take(i - 1));
    }
    assert forall|i: int| 1 <= i <= s.len() implies requests + #[trigger] sunk_by(play, s, i)
        == asked + sunk_by(onward, later, i - 1) && replies + s.take(i) == answered + later.take(
        i - 1,
    ) by {
        let left = requests + sunk_by(play, s, i);
        let right = asked + sunk_by(onward, later, i - 1);
        assert forall|j: int| 0 <= j < left.len() implies left[j] == right[j] by {
            let k = j - requests.len();
            if k > 0 {
                assert(play(s.take(k)) == onward(later.take(k - 1)));
            }
        }
        assert(left =~= right);
        assert(replies + s.take(i) =~= answered + later.take(i - 1));
    }
    assert forall|i: int| #![trigger s.take(i)] 0 <= i < used implies play(s.take(i)) is Ask by {
        if i > 0 {
            assert(onward(later.take(i - 1)) is Ask);
        }
    }
    assert forall|i: int|
        #![trigger s.take(i)]
        0 <= i <= used && play(s.take(i)) is Ask implies rolls_on(
        route,
        requests + sunk_by(play, s, i),
        replies + s.take(i),
        sinking(play(s.take(i))),
    ) by {
        if i > 0 {
            assert(onward(later.take(i - 1)) is Ask);
            assert(requests + sunk_by(play, s, i) == asked + sunk_by(onward, later, i - 1));
        }
    }
    assert(play(s) == onward(later));
    assert(requests + sunk_by(play, s, used) == asked + sunk_by(onward, later, more));
    if let Rolled::Settled { evicted, rest: left } = play(s) {
        assert(later.skip(more) =~= s.skip(used));
        assert forall|x: Seq<Reply<K, V, E>>| #[trigger]
            play(s.take(used) + x) == (Rolled::<K, V, E>::Settled { evicted, rest: x }) by {
            assert(s.take(used) + x =~= seq![reply] + (later.take(more) + x));
            assert(onward(later.take(more) + x) == (Rolled::<K, V, E>::Settled {
                evicted,
                rest: x,
            }));
        }
    }
}

proof fn lemma_sink_rolls<K, V, E>(
    route: Route,
    target: int,
    current: Seq<(K, V)>,
    s: Seq<Reply<K, V, E>>,
    requests: Seq<Request<K, V>>,
    replies: Seq<Reply<K, V, E>>,
    gone: Seq<(K, V)>,
    source: int,
) -> (used: int)
    requires
        0 <= source < target,
        open_to_writes(route, source),
        forall|t: int| source < t < target ==> !(#[trigger] open_to_writes(route, t)),
        waits(route, requests, replies, gone, target, current),
    ensures
        rolls(route, sink_from(route, target, current), s, requests, replies, gone, used),
    decreases route.lanes.len() - target, 1int, 0int,
{
    let play = sink_from::<K, V, E>(route, target, current);
    assert(requests + sunk_by(play, s, 0) =~= requests);
    assert(replies + s.take(0) =~= replies);
    if target >= route.lanes.len() || current.len() == 0 {
        assert(s.skip(0) =~= s);
        assert forall|x: Seq<Reply<K, V, E>>| #[trigger] play(s.take(0) + x) == (Rolled::<
            K,
            V,
            E,
        >::Settled { evicted: current, rest: x }) by {
            assert(s.take(0) + x =~= x);
        }
        assert(settled(route, requests, replies, gone + current)) by {
            assert forall|upper: int, lower: int| #[trigger]
                next_below(route, upper, lower) implies sunk_into(requests, lower) == shed_by(
                requests,
                replies,
                upper,
            ) by {
                assert(sunk_into(requests, lower) + Seq::<(K, V)>::empty() =~= sunk_into(
                    requests,
                    lower,
                ));
                assert(current.len() == 0 ==> current =~= Seq::empty());
            }
            assert(current.len() == 0 ==> gone + current =~= gone);
        }
        0
    } else if !route.writable(target) {
        let onward = sink_from::<K, V, E>(route, target + 1, current);
        assert(waits(route, requests, replies, gone, target + 1, current)) by {
            assert(!open_to_writes(route, target));
        }
        let used = lemma_sink_rolls(
            route,
            target + 1,
            current,
            s,
            requests,
            replies,
            gone,
            source,
        );
        lemma_same_play(route, play, onward, s, requests, replies, gone, used);
        used
    } else {
        let none = Seq::<(K, V)>::empty();
        let onward = offer_from::<K, V, E>(route, target, current, none);
        assert(open_to_writes(route, target));
        assert(next_below(route, source, target));
        assert(offers(route, requests, replies, gone, target, current, none)) by {
            assert forall|upper: int, lower: int| #[trigger]
                next_below(route, upper, lower) implies shed_by(requests, replies, upper)
                == if lower == target {
                sunk_into(requests, lower) + current
            } else if upper == target {
                sunk_into(requests, lower) + none
            } else {
                sunk_into(requests, lower)
            } by {
                assert(sunk_into(requests, lower) + none =~= sunk_into(requests, lower));
                if upper < target && target < lower {
                    assert(!open_to_writes(route, target));
                }
            }
            assert(gone + none =~= gone);
            assert forall|bottom: int| #[trigger] bottommost(route, bottom) implies !(bottom
                < target) by {
                if bottom < target {
                    assert(!open_to_writes(route, target));
                }
            }
        }
        let used = lemma_offer_rolls(
            route,
            target,
            current,
            none,
            s,
            requests,
            replies,
            gone,
            source,
        );
        lemma_same_play(route, play, onward, s, requests, replies, gone, used);
        used
    }
}

proof fn lemma_offer_rolls<K, V, E>(
    route: Route,
    low: int,
    rest: Seq<(K, V)>,
    next: Seq<(K, V)>,
    s: Seq<Reply<K, V, E>>,
    requests: Seq<Request<K, V>>,
    replies: Seq<Reply<K, V, E>>,
    gone: Seq<(K, V)>,
    source: int,
) -> (used: int)
    requires
        next_below(route, source, low),
        offers(route, requests, replies, gone, low, rest, next),
    ensures
        rolls(route, offer_from(route, low, rest, next), s, requests, replies, gone, used),
    decreases route.lanes.len() - low, 0int, rest.len(),
{
    let play = offer_from::<K, V, E>(route, low, rest, next);
    let none = Seq::<(K, V)>::empty();
    if rest.len() == 0 {
        let onward = sink_from::<K, V, E>(route, low + 1, next);
        assert(waits(route, requests, replies, gone, low + 1, next)) by {
            assert forall|upper: int, lower: int| #[trigger]
                next_below(route, upper, lower) implies shed_by(requests, replies, upper)
                == if upper < low + 1 <= lower {
                sunk_into(requests, lower) + next
            } else {
                sunk_into(requests, lower)
            } by {
                assert(rest =~= none);
                assert(sunk_into(requests, lower) + none =~= sunk_into(requests, lower));
                if upper < low && low < lower {
                    assert(!open_to_writes(route, low));
                }
            }
            assert forall|bottom: int| #[trigger] bottommost(route, bottom) implies bottom
                >= low by {
                if bottom < low {
                    assert(!open_to_writes(route, low));
                }
            }
        }
        let used = lemma_sink_rolls(route, low + 1, next, s, requests, replies, gone, low);
        lemma_same_play(route, play, onward, s, requests, replies, gone, used);
        used
    } else {
        let (key, value) = rest[0];
        let request = Request::Sink { tier: low, key, value };
        assert(play(Seq::<Reply<K, V, E>>::empty()) == (Rolled::<K, V, E>::Ask {
            tier: low,
            key,
            value,
        }));
        assert(s.take(0) =~= Seq::empty());
        assert(requests + sunk_by(play, s, 0) =~= requests);
        assert(replies + s.take(0) =~= replies);
        assert(sinks_next(route, requests, replies, low, key, value)) by {
            let done = sunk_into(requests, low);
            let shed = shed_by(requests, replies, source);
            assert(next_below(route, source, low));
            assert(shed == done + rest);
            assert(shed.take(done.len() as int) =~= done);
            assert forall|upper: int, below: int| #[trigger]
                next_below(route, upper, below) implies sunk_into(requests, below).is_prefix_of(
                shed_by(requests, replies, upper),
            ) by {
                let sunk = sunk_into(requests, below);
                let all = shed_by(requests, replies, upper);
                assert(sunk =~= all.subrange(0, sunk.len() as int));
            }
        }
        if s.len() == 0 {
            assert(s =~= Seq::empty());
            0
        } else {
            let reply = s[0];
            let later = s.skip(1);
            let others = rest.skip(1);
            let gathered = next + reply.displaced();
            let onward = offer_from::<K, V, E>(route, low, others, gathered);
            let asked = requests.push(request);
            let answered = replies.push(reply);
            lemma_one_more(requests, replies, request, reply);
            assert(offers(route, asked, answered, gone, low, others, gathered)) by {
                assert forall|upper: int, lower: int| #[trigger]
                    next_below(route, upper, lower) implies shed_by(asked, answered, upper)
                    == if lower == low {
                    sunk_into(asked, lower) + others
                } else if upper == low {
                    sunk_into(asked, lower) + gathered
                } else {
                    sunk_into(asked, lower)
                } by {
                    if lower == low {
                        assert(sunk_into(requests, lower) + rest =~= sunk_into(requests, lower).push(
                            (key, value),
                        ) + others);
                    } else if upper == low {
                        assert(sunk_into(requests, lower) + next + reply.displaced()
                            =~= sunk_into(requests, lower) + gathered);
                    }
                }
                assert(gone + next + reply.displaced() =~= gone + gathered);
            }
            let more = lemma_offer_rolls(
                route,
                low,
                others,
                gathered,
                later,
                asked,
                answered,
                gone,
                source,
            );
            assert forall|x: Seq<Reply<K, V, E>>| #[trigger]
                play(seq![reply] + x) == onward(x) by {
                assert((seq![reply] + x).skip(1) =~= x);
            }
            lemma_rolls_first(route, play, onward, s, requests, replies, gone, more);
            more + 1
        }
    }
}

/// The requests up to the `count`-th answer.
spec fn so_far<K, V, E>(
    play: spec_fn(Seq<Reply<K, V, E>>) -> Request<K, V>,
    replies: Seq<Reply<K, V, E>>,
    count: int,
) -> Seq<Request<K, V>> {
    Seq::new(count as nat, |i: int| play(replies.take(i)))
}

/// Every request from the `from`-th answer up to the `upto`-th deals with
/// displaced entries as it has to.
spec fn rolls_between<K, V, E>(
    route: Route,
    play: spec_fn(Seq<Reply<K, V, E>>) -> Request<K, V>,
    replies: Seq<Reply<K, V, E>>,
    from: int,
    upto: int,
) -> bool {
    forall|c: int|
        #![trigger replies.take(c)]
        from <= c <= upto ==> rolls_on(
            route,
            so_far(play, replies, c),
            replies.take(c),
            play(replies.take(c)),
        )
}

spec fn settled_at<K, V, E>(
    route: Route,
    play: spec_fn(Seq<Reply<K, V, E>>) -> Request<K, V>,
    replies: Seq<Reply<K, V, E>>,
    gone: Seq<(K, V)>,
    at: int,
) -> bool {
    &&& 0 <= at <= replies.len()
    &&& settled(route, so_far(play, replies, at), replies.take(at), gone)
}

/// What a write displaced waits to sink.
proof fn lemma_write_waits<K, V, E>(
    route: Route,
    play: spec_fn(Seq<Reply<K, V, E>>) -> Request<K, V>,
    replies: Seq<Reply<K, V, E>>,
    gone: Seq<(K, V)>,
    start: int,
    tier: int,
    displaced: Seq<(K, V)>,
)
    requires
        settled_at(route, play, replies, gone, start),
        start < replies.len(),
        open_to_writes(route, tier),
        play(replies.take(start)) == (Request::<K, V>::Write { tier }),
        replies[start].displaced() == displaced,
    ensures
        waits(
            route,
            so_far(play, replies, start + 1),
            replies.take(start + 1),
            gone,
            tier + 1,
            displaced,
        ),
{
    let before = so_far(play, replies, start);
    let requests = so_far(play, replies, start + 1);
    let answers = replies.take(start + 1);
    assert(requests =~= before.push(Request::Write { tier }));
    assert(answers =~= replies.take(start).push(replies[start]));
    lemma_one_more(before, replies.take(start), Request::Write { tier }, replies[start]);
    assert forall|upper: int, lower: int| #[trigger]
        next_below(route, upper, lower) implies shed_by(requests, answers, upper) == if upper < tier
        + 1 <= lower {
        sunk_into(requests, lower) + displaced
    } else {
        sunk_into(requests, lower)
    } by {
        if upper < tier && tier < lower {
            assert(!open_to_writes(route, tier));
        }
        assert(sunk_into(before, lower) == shed_by(before, replies.take(start), upper));
    }
    assert forall|bottom: int| #[trigger] bottommost(route, bottom) implies shed_by(
        requests,
        answers,
        bottom,
    ) == if bottom < tier + 1 {
        gone + displaced
    } else {
        gone
    } by {
        if bottom < tier {
            assert(!open_to_writes(route, tier));
        }
        assert(shed_by(before, replies.take(start), bottom) == gone);
    }
}

/// The requests up to some point of a rollover that follows a write.
proof fn lemma_write_trace<K, V, E>(
    route: Route,
    play: spec_fn(Seq<Reply<K, V, E>>) -> Request<K, V>,
    cont: spec_fn(Seq<(K, V)>, Seq<Reply<K, V, E>>) -> Request<K, V>,
    replies: Seq<Reply<K, V, E>>,
    start: int,
    tier: int,
    displaced: Seq<(K, V)>,
    used: int,
    i: int,
)
    requires
        0 <= start < replies.len(),
        0 <= i <= used <= replies.len() - start - 1,
        forall|x: Seq<Reply<K, V, E>>| #[trigger]
            play(replies.take(start + 1) + x) == match rollover::sink(
                route,
                tier + 1,
                displaced,
                x,
            ) {
                Rolled::Ask { tier: t, key, value } => Request::Sink { tier: t, key, value },
                Rolled::Settled { evicted, rest } => cont(evicted, rest),
            },
        forall|j: int|
            #![trigger replies.skip(start + 1).take(j)]
            0 <= j < used ==> sink_from::<K, V, E>(route, tier + 1, displaced)(
                replies.skip(start + 1).take(j),
            ) is Ask,
    ensures
        ({
            let s = replies.skip(start + 1);
            let roll = sink_from::<K, V, E>(route, tier + 1, displaced);
            &&& replies.take(start + 1 + i) == replies.take(start + 1) + s.take(i)
            &&& so_far(play, replies, start + 1 + i) == so_far(play, replies, start + 1) + sunk_by(
                roll,
                s,
                i,
            )
            &&& roll(s.take(i)) is Ask ==> play(replies.take(start + 1 + i)) == sinking(
                roll(s.take(i)),
            )
        }),
{
    let s = replies.skip(start + 1);
    let roll = sink_from::<K, V, E>(route, tier + 1, displaced);
    let answers = replies.take(start + 1);
    assert(replies.take(start + 1 + i) =~= answers + s.take(i));
    let left = so_far(play, replies, start + 1 + i);
    let right = so_far(play, replies, start + 1) + sunk_by(roll, s, i);
    assert forall|j: int| 0 <= j < left.len() implies left[j] == right[j] by {
        let k = j - (start + 1);
        if k >= 0 {
            assert(replies.take(j) =~= answers + s.take(k));
            assert(roll(s.take(k)) is Ask);
        }
    }
    assert(left =~= right);
}

/// From a write to the point where all it displaced has sunk.
proof fn lemma_write_rolls<K, V, E>(
    route: Route,
    play: spec_fn(Seq<Reply<K, V, E>>) -> Request<K, V>,
    cont: spec_fn(Seq<(K, V)>, Seq<Reply<K, V, E>>) -> Request<K, V>,
    replies: Seq<Reply<K, V, E>>,
    gone: Seq<(K, V)>,
    start: int,
    tier: int,
    displaced: Seq<(K, V)>,
) -> (next: int)
    requires
        settled_at(route, play, replies, gone, start),
        start < replies.len(),
        open_to_writes(route, tier),
        play(replies.take(start)) == (Request::<K, V>::Write { tier }),
        replies[start].displaced() == displaced,
        forall|x: Seq<Reply<K, V, E>>| #[trigger]
            play(replies.take(start + 1) + x) == match rollover::sink(
                route,
                tier + 1,
                displaced,
                x,
            ) {
                Rolled::Ask { tier: t, key, value } => Request::Sink { tier: t, key, value },
                Rolled::Settled { evicted, rest } => cont(evicted, rest),
            },
    ensures
        start < next <= replies.len(),
        rolls_between(route, play, replies, start + 1, next - 1),
        match rollover::sink(route, tier + 1, displaced, replies.skip(start + 1)) {
            Rolled::Ask { .. } => next == replies.len() && rolls_between(
                route,
                play,
                replies,
                next,
                next,
            ),
            Rolled::Settled { evicted, rest } => {
                &&& rest == replies.skip(next)
                &&& settled_at(route, play, replies, gone + evicted, next)
                &&& forall|x: Seq<Reply<K, V, E>>| #[trigger]
                    rollover::sink(
                        route,
                        tier + 1,
                        displaced,
                        replies.subrange(start + 1, next) + x,
                    ) == (Rolled::<K, V, E>::Settled { evicted, rest: x })
            },
        },
{
    let s = replies.skip(start + 1);
    let requests = so_far(play, replies, start + 1);
    let answers = replies.take(start + 1);
    let roll = sink_from::<K, V, E>(route, tier + 1, displaced);
    lemma_write_waits(route, play, replies, gone, start, tier, displaced);
    let used = lemma_sink_rolls(
        route,
        tier + 1,
        displaced,
        s,
        requests,
        answers,
        gone,
        tier,
    );
    let next = start + 1 + used;
    assert(answers + s =~= replies);
    assert(s.take(s.len() as int) =~= s);
    assert forall|c: int|
        #![trigger replies.take(c)]
        start + 1 <= c <= next - 1 implies rolls_on(
        route,
        so_far(play, replies, c),
        replies.take(c),
        play(replies.take(c)),
    ) by {
        let i = c - (start + 1);
        assert(roll(s.take(i)) is Ask);
        lemma_write_trace(route, play, cont, replies, start, tier, displaced, used, i);
    }
    lemma_write_trace(route, play, cont, replies, start, tier, displaced, used, used);
    match roll(s) {
        Rolled::Ask { .. } => {
            assert forall|c: int|
                #![trigger replies.take(c)]
                next <= c <= next implies rolls_on(
                route,
                so_far(play, replies, c),
                replies.take(c),
                play(replies.take(c)),
            ) by {
                assert(roll(s.take(used)) is Ask);
            }
        },
        Rolled::Settled { evicted, rest } => {
            assert(s.skip(used) =~= replies.skip(next));
            assert(replies.subrange(start + 1, next) =~= s.take(used));
            assert forall|x: Seq<Reply<K, V, E>>| #[trigger]
                rollover::sink(
                    route,
                    tier + 1,
                    displaced,
                    replies.subrange(start + 1, next) + x,
                ) == (Rolled::<K, V, E>::Settled { evicted, rest: x }) by {
                assert(roll(s.take(used) + x) == (Rolled::<K, V, E>::Settled { evicted, rest: x }));
            }
        },
    }
    next
}

/// One more request that displaces nothing.
proof fn lemma_quiet<K, V, E>(
    route: Route,
    play: spec_fn(Seq<Reply<K, V, E>>) -> Request<K, V>,
    replies: Seq<Reply<K, V, E>>,
    gone: Seq<(K, V)>,
    at: int,
)
    requires
        settled_at(route, play, replies, gone, at),
        at < replies.len(),
        !(play(replies.take(at)) is Sink),
        play(replies.take(at)) is Other || replies[at].displaced().len() == 0,
    ensures
        settled_at(route, play, replies, gone, at + 1),
{
    let before = so_far(play, replies, at);
    let request = play(replies.take(at));
    assert(so_far(play, replies, at + 1) =~= before.push(request));
    assert(replies.take(at + 1) =~= replies.take(at).push(replies[at]));
    lemma_one_more(before, replies.take(at), request, replies[at]);
    let after = so_far(play, replies, at + 1);
    assert forall|tier: int|
        shed_by(after, replies.take(at + 1), tier) == #[trigger] shed_by(
            before,
            replies.take(at),
            tier,
        ) by {
        assert(replies[at].displaced().len() == 0 ==> shed_by(before, replies.take(at), tier)
            + replies[at].displaced() =~= shed_by(before, replies.take(at), tier));
    }
    assert forall|upper: int, lower: int| #[trigger]
        next_below(route, upper, lower) implies sunk_into(after, lower) == shed_by(
        after,
        replies.take(at + 1),
        upper,
    ) by {
        assert(shed_by(before, replies.take(at), upper) == sunk_into(before, lower));
    }
    assert forall|bottom: int| #[trigger] bottommost(route, bottom) implies shed_by(
        after,
        replies.take(at + 1),
        bottom,
    ) == gone by {
        assert(shed_by(before, replies.take(at), bottom) == gone);
    }
}

/// Joins two stretches.
proof fn lemma_join<K, V, E>(
    route: Route,
    play: spec_fn(Seq<Reply<K, V, E>>) -> Request<K, V>,
    replies: Seq<Reply<K, V, E>>,
    from: int,
    mid: int,
    upto: int,
)
    requires
        rolls_between(route, play, replies, from, mid - 1),
        rolls_between(route, play, replies, mid, upto),
    ensures
        rolls_between(route, play, replies, from, upto),
{
}

/// Where nothing waits, any request but to sink is in order.
proof fn lemma_settled_rolls<K, V, E>(
    route: Route,
    play: spec_fn(Seq<Reply<K, V, E>>) -> Request<K, V>,
    replies: Seq<Reply<K, V, E>>,
    gone: Seq<(K, V)>,
    at: int,
)
    requires
        settled_at(route, play, replies, gone, at),
        !(play(replies.take(at)) is Sink),
    ensures
        rolls_between(route, play, replies, at, at),
{
}

/// What a read asks for.
pub open spec fn read_request<K, V, E>(step: GetMove<K, V, E>) -> Request<K, V> {
    match step {
        GetMove::Promote { tier } => Request::Write { tier },
        GetMove::Demote { tier, key, value } => Request::Sink { tier, key, value },
        _ => Request::Other,
    }
}

/// What a read asked for.
pub open spec fn read_requests<K, V, E>(log: GetLog<K, V, E>) -> Seq<Request<K, V>> {
    Seq::new(log.replies.len(), |i: int| read_request(log.asked()[i]))
}

spec fn reading<K, V, E>(log: GetLog<K, V, E>) -> spec_fn(Seq<Reply<K, V, E>>) -> Request<K, V> {
    |s: Seq<Reply<K, V, E>>| read_request((GetLog { replies: s, ..log }).step())
}

proof fn lemma_read_promotes<K, V, E>(
    log: GetLog<K, V, E>,
    gone: Seq<(K, V)>,
    start: int,
    reach: int,
    target: int,
    value: V,
)
    requires
        log.sound(),
        log.route.policy.demote_displaced,
        settled_at(log.route, reading(log), log.replies, gone, start),
        0 <= target,
        forall|x: Seq<Reply<K, V, E>>|
            (#[trigger] (GetLog { replies: log.replies.take(start) + x, ..log }).step())
                == fetch::promote(log.route, reach, target, value, x),
    ensures
        rolls_between(log.route, reading(log), log.replies, start, log.replies.len() as int),
    decreases reach - target,
{
    let route = log.route;
    let replies = log.replies;
    let play = reading(log);
    let none = Seq::<Reply<K, V, E>>::empty();
    assert(replies.take(start) + none =~= replies.take(start));
    assert((GetLog { replies: replies.take(start) + none, ..log }) =~= log.prefix(start));
    let step = log.prefix(start).step();
    assert(step == fetch::promote(route, reach, target, value, none));
    if start < replies.len() {
        assert(log.asked()[start] == step);
        assert(step.fits(replies[start]));
    }
    if target >= reach {
        lemma_settled_rolls(route, play, replies, gone, start);
    } else if !route.writable(target) {
        lemma_read_promotes(log, gone, start, reach, target + 1, value);
    } else {
        lemma_settled_rolls(route, play, replies, gone, start);
        if start < replies.len() {
            let reply = replies[start];
            assert forall|x: Seq<Reply<K, V, E>>|
                (#[trigger] (GetLog { replies: replies.take(start + 1) + x, ..log }).step())
                    == fetch::promote(route, reach, target, value, seq![reply] + x) by {
                assert(replies.take(start) + (seq![reply] + x) =~= replies.take(start + 1) + x);
                assert((GetLog { replies: replies.take(start) + (seq![reply] + x), ..log })
                    =~= (GetLog { replies: replies.take(start + 1) + x, ..log }));
            }
            match reply {
                Reply::Put(Ok(displaced)) => {
                    let cont = |fallen: Seq<(K, V)>, x: Seq<Reply<K, V, E>>|
                        read_request(fetch::promote(route, reach, target + 1, value, x));
                    assert forall|x: Seq<Reply<K, V, E>>| #[trigger]
                        play(replies.take(start + 1) + x) == match rollover::sink(
                            route,
                            target + 1,
                            displaced,
                            x,
                        ) {
                            Rolled::Ask { tier, key, value } => Request::Sink { tier, key, value },
                            Rolled::Settled { evicted, rest } => cont(evicted, rest),
                        } by {
                        assert((seq![reply] + x).skip(1) =~= x);
                        assert((GetLog { replies: replies.take(start + 1) + x, ..log }).step()
                            == fetch::roll_up(
                            route,
                            reach,
                            target + 1,
                            value,
                            rollover::sink(route, target + 1, displaced, x),
                        ));
                    }
                    let next = lemma_write_rolls(
                        route,
                        play,
                        cont,
                        replies,
                        gone,
                        start,
                        target,
                        displaced,
                    );
                    lemma_join(route, play, replies, start, start + 1, next - 1);
                    let s = replies.skip(start + 1);
                    match rollover::sink(route, target + 1, displaced, s) {
                        Rolled::Ask { .. } => {
                            lemma_join(route, play, replies, start, next, next);
                        },
                        Rolled::Settled { evicted, .. } => {
                            assert forall|x: Seq<Reply<K, V, E>>|
                                (#[trigger] (GetLog {
                                    replies: replies.take(next) + x,
                                    ..log
                                }).step()) == fetch::promote(
                                    route,
                                    reach,
                                    target + 1,
                                    value,
                                    x,
                                ) by {
                                let sunk = replies.subrange(start + 1, next) + x;
                                assert(replies.take(next) + x =~= replies.take(start + 1) + sunk);
                                assert((GetLog { replies: replies.take(next) + x, ..log })
                                    =~= (GetLog { replies: replies.take(start + 1) + sunk, ..log
                                }));
                                assert((seq![reply] + sunk).skip(1) =~= sunk);
                                assert(fetch::promote(
                                    route,
                                    reach,
                                    target,
                                    value,
                                    seq![reply] + sunk,
                                ) == fetch::roll_up(
                                    route,
                                    reach,
                                    target + 1,
                                    value,
                                    rollover::sink(route, target + 1, displaced, sunk),
                                ));
                            }
                            lemma_read_promotes(
                                log,
                                gone + evicted,
                                next,
                                reach,
                                target + 1,
                                value,
                            );
                            lemma_join(
                                route,
                                play,
                                replies,
                                start,
                                next,
                                replies.len() as int,
                            );
                        },
                    }
                },
                _ => {
                    lemma_quiet(route, play, replies, gone, start);
                    assert forall|x: Seq<Reply<K, V, E>>|
                        (#[trigger] (GetLog {
                            replies: replies.take(start + 1) + x,
                            ..log
                        }).step()) == fetch::promote(route, reach, target + 1, value, x) by {
                        assert((seq![reply] + x).skip(1) =~= x);
                    }
                    lemma_read_promotes(log, gone, start + 1, reach, target + 1, value);
                    lemma_join(route, play, replies, start, start + 1, replies.len() as int);
                },
            }
        }
    }
}

proof fn lemma_read_probes<K, V, E>(log: GetLog<K, V, E>, tier: int, failures: Seq<Failure<E>>)
    requires
        log.sound(),
        log.route.policy.demote_displaced,
        settled_at(log.route, reading(log), log.replies, Seq::empty(), tier),
        forall|x: Seq<Reply<K, V, E>>|
            (#[trigger] (GetLog { replies: log.replies.take(tier) + x, ..log }).step())
                == fetch::probe(log.route, tier, failures, x),
    ensures
        rolls_between(log.route, reading(log), log.replies, tier, log.replies.len() as int),
    decreases log.route.lanes.len() - tier,
{
    let route = log.route;
    let replies = log.replies;
    let play = reading(log);
    let gone = Seq::<(K, V)>::empty();
    let none = Seq::<Reply<K, V, E>>::empty();
    assert(replies.take(tier) + none =~= replies.take(tier));
    assert((GetLog { replies: replies.take(tier) + none, ..log }) =~= log.prefix(tier));
    let step = log.prefix(tier).step();
    assert(step == fetch::probe(route, tier, failures, none));
    lemma_settled_rolls(route, play, replies, gone, tier);
    if tier < replies.len() {
        assert(log.asked()[tier] == step);
        assert(step.fits(replies[tier]));
        let reply = replies[tier];
        lemma_quiet(route, play, replies, gone, tier);
        assert forall|x: Seq<Reply<K, V, E>>|
            (#[trigger] (GetLog { replies: replies.take(tier + 1) + x, ..log }).step())
                == fetch::probe(route, tier, failures, seq![reply] + x) by {
            assert(replies.take(tier) + (seq![reply] + x) =~= replies.take(tier + 1) + x);
            assert((GetLog { replies: replies.take(tier) + (seq![reply] + x), ..log }) =~= (GetLog {
                replies: replies.take(tier + 1) + x,
                ..log
            }));
            assert((seq![reply] + x).skip(1) =~= x);
        }
        match reply {
            Reply::Got(Ok(Some(value))) => {
                let reach = route.policy.read.promote.reach(tier);
                assert forall|x: Seq<Reply<K, V, E>>|
                    (#[trigger] (GetLog { replies: replies.take(tier + 1) + x, ..log }).step())
                        == fetch::promote(route, reach, 0, value, x) by {
                    assert((seq![reply] + x).skip(1) =~= x);
                }
                lemma_read_promotes(log, gone, tier + 1, reach, 0, value);
            },
            Reply::Got(Ok(None)) => {
                assert forall|x: Seq<Reply<K, V, E>>|
                    (#[trigger] (GetLog { replies: replies.take(tier + 1) + x, ..log }).step())
                        == fetch::probe(route, tier + 1, failures, x) by {
                    assert((seq![reply] + x).skip(1) =~= x);
                }
                lemma_read_probes(log, tier + 1, failures);
            },
            Reply::Got(Err(source)) => {
                if route.policy.read.on_error == OnReadError::FallThrough {
                    let more = failures.push(route.failure(tier, source));
                    assert forall|x: Seq<Reply<K, V, E>>|
                        (#[trigger] (GetLog {
                            replies: replies.take(tier + 1) + x,
                            ..log
                        }).step()) == fetch::probe(route, tier + 1, more, x) by {
                        assert((seq![reply] + x).skip(1) =~= x);
                    }
                    lemma_read_probes(log, tier + 1, more);
                } else {
                    assert(replies.take(tier + 1) + none =~= replies.take(tier + 1));
                    assert((GetLog { replies: replies.take(tier + 1) + none, ..log })
                        =~= log.prefix(tier + 1));
                    assert(log.prefix(tier + 1).step() is Done);
                    if tier + 1 < replies.len() {
                        assert(log.asked()[tier + 1].fits(replies[tier + 1]));
                    }
                    lemma_settled_rolls(route, play, replies, gone, tier + 1);
                }
            },
            _ => {},
        }
        lemma_join(route, play, replies, tier, tier + 1, replies.len() as int);
    }
}

/// A read loses nothing that its promotions displace. Under a policy that
/// demotes, every entry that a promotion displaces, or that such an entry
/// displaces in turn, is to be written into the next writable tier below the
/// one that displaced it, in the order in which it was displaced, and before
/// anything else is asked for or the read ends.
pub proof fn law_read_rolls_displaced_entries_down<K, V, E>(log: GetLog<K, V, E>)
    requires
        log.sound(),
        log.route.policy.demote_displaced,
    ensures
        rolls_on(log.route, read_requests(log), log.replies, read_request(log.step())),
{
    let play = reading(log);
    let replies = log.replies;
    let none = Seq::<(K, V)>::empty();
    assert(so_far(play, replies, 0) =~= Seq::empty());
    assert forall|x: Seq<Reply<K, V, E>>|
        (#[trigger] (GetLog { replies: replies.take(0) + x, ..log }).step()) == fetch::probe(
            log.route,
            0,
            Seq::<Failure<E>>::empty(),
            x,
        ) by {
        assert(replies.take(0) + x =~= x);
    }
    lemma_read_probes(log, 0, Seq::<Failure<E>>::empty());
    let n = replies.len() as int;
    assert(replies.take(n) =~= replies);
    assert(log.prefix(n) =~= log);
    assert(so_far(play, replies, n) =~= read_requests(log));
}

/// What a batched read asks for.
pub open spec fn many_request<K, V, E>(step: ReadManyMove<K, V, E>) -> Request<K, V> {
    match step {
        ReadManyMove::Promote { tier, .. } => Request::Write { tier },
        ReadManyMove::Demote { tier, key, value } => Request::Sink { tier, key, value },
        _ => Request::Other,
    }
}

/// What a batched read asked for.
pub open spec fn many_requests<K, V, E>(log: ReadManyLog<K, V, E>) -> Seq<Request<K, V>> {
    Seq::new(log.replies.len(), |i: int| many_request(log.asked()[i]))
}

spec fn reading_many<K, V, E>(log: ReadManyLog<K, V, E>) -> spec_fn(
    Seq<Reply<K, V, E>>,
) -> Request<K, V> {
    |s: Seq<Reply<K, V, E>>| many_request((ReadManyLog { replies: s, ..log }).step())
}

proof fn lemma_many_promotes<K, V, E>(
    log: ReadManyLog<K, V, E>,
    gone: Seq<(K, V)>,
    start: int,
    statuses: Seq<KeyStatus<V>>,
    failures: Seq<Failure<E>>,
    from: int,
    target: int,
)
    requires
        log.sound(),
        log.route.policy.demote_displaced,
        settled_at(log.route, reading_many(log), log.replies, gone, start),
        0 <= target,
        forall|x: Seq<Reply<K, V, E>>|
            (#[trigger] (ReadManyLog { replies: log.replies.take(start) + x, ..log }).step())
                == batch::promote_many(log.route, statuses, failures, from, target, x),
    ensures
        rolls_between(log.route, reading_many(log), log.replies, start, log.replies.len() as int),
    decreases
            log.route.lanes.len() - from,
            log.route.policy.read.promote.reach(from) - target,
{
    let route = log.route;
    let replies = log.replies;
    let play = reading_many(log);
    let none = Seq::<Reply<K, V, E>>::empty();
    assert(replies.take(start) + none =~= replies.take(start));
    assert((ReadManyLog { replies: replies.take(start) + none, ..log }) =~= log.prefix(start));
    let step = log.prefix(start).step();
    assert(step == batch::promote_many(route, statuses, failures, from, target, none));
    if start < replies.len() {
        assert(log.asked()[start] == step);
        assert(step.fits(replies[start]));
    }
    let hits = batch::served(statuses, from, statuses.len() as int);
    if from >= route.lanes.len() {
        lemma_settled_rolls(route, play, replies, gone, start);
    } else if target >= route.policy.read.promote.reach(from) || hits.len() == 0 {
        lemma_many_promotes(log, gone, start, statuses, failures, from + 1, 0);
    } else if !route.writable(target) {
        lemma_many_promotes(log, gone, start, statuses, failures, from, target + 1);
    } else {
        lemma_settled_rolls(route, play, replies, gone, start);
        if start < replies.len() {
            let reply = replies[start];
            assert forall|x: Seq<Reply<K, V, E>>|
                (#[trigger] (ReadManyLog { replies: replies.take(start + 1) + x, ..log }).step())
                    == batch::promote_many(
                        route,
                        statuses,
                        failures,
                        from,
                        target,
                        seq![reply] + x,
                    ) by {
                assert(replies.take(start) + (seq![reply] + x) =~= replies.take(start + 1) + x);
                assert((ReadManyLog { replies: replies.take(start) + (seq![reply] + x), ..log })
                    =~= (ReadManyLog { replies: replies.take(start + 1) + x, ..log }));
            }
            match reply {
                Reply::Put(Ok(displaced)) => {
                    let cont = |fallen: Seq<(K, V)>, x: Seq<Reply<K, V, E>>|
                        many_request(batch::promote_many(route, statuses, failures, from, target + 1, x));
                    assert forall|x: Seq<Reply<K, V, E>>| #[trigger]
                        play(replies.take(start + 1) + x) == match rollover::sink(
                            route,
                            target + 1,
                            displaced,
                            x,
                        ) {
                            Rolled::Ask { tier, key, value } => Request::Sink { tier, key, value },
                            Rolled::Settled { evicted, rest } => cont(evicted, rest),
                        } by {
                        assert((seq![reply] + x).skip(1) =~= x);
                        assert((ReadManyLog { replies: replies.take(start + 1) + x, ..log }).step()
                            == batch::roll_many(
                            route,
                            statuses,
                            failures,
                            from,
                            target + 1,
                            rollover::sink(route, target + 1, displaced, x),
                        ));
                    }
                    let next = lemma_write_rolls(
                        route,
                        play,
                        cont,
                        replies,
                        gone,
                        start,
                        target,
                        displaced,
                    );
                    lemma_join(route, play, replies, start, start + 1, next - 1);
                    let s = replies.skip(start + 1);
                    match rollover::sink(route, target + 1, displaced, s) {
                        Rolled::Ask { .. } => {
                            lemma_join(route, play, replies, start, next, next);
                        },
                        Rolled::Settled { evicted, .. } => {
                            assert forall|x: Seq<Reply<K, V, E>>|
                                (#[trigger] (ReadManyLog {
                                    replies: replies.take(next) + x,
                                    ..log
                                }).step()) == batch::promote_many(
                                    route,
                                    statuses,
                                    failures,
                                    from,
                                    target + 1,
                                    x,
                                ) by {
                                let sunk = replies.subrange(start + 1, next) + x;
                                assert(replies.take(next) + x =~= replies.take(start + 1) + sunk);
                                assert((ReadManyLog { replies: replies.take(next) + x, ..log })
                                    =~= (ReadManyLog { replies: replies.take(start + 1) + sunk, ..log
                                }));
                                assert((seq![reply] + sunk).skip(1) =~= sunk);
                                assert(batch::promote_many(
                                    route,
                                    statuses,
                                    failures,
                                    from,
                                    target,
                                    seq![reply] + sunk,
                                ) == batch::roll_many(
                            route,
                            statuses,
                            failures,
                            from,
                            target + 1,
                                    rollover::sink(route, target + 1, displaced, sunk),
                                ));
                            }
                            lemma_many_promotes(
                                log,
                                gone + evicted,
                                next,
                                statuses,
                                failures,
                                from,
                                target + 1,
                            );
                            lemma_join(
                                route,
                                play,
                                replies,
                                start,
                                next,
                                replies.len() as int,
                            );
                        },
                    }
                },
                _ => {
                    lemma_quiet(route, play, replies, gone, start);
                    assert forall|x: Seq<Reply<K, V, E>>|
                        (#[trigger] (ReadManyLog {
                            replies: replies.take(start + 1) + x,
                            ..log
                        }).step()) == batch::promote_many(route, statuses, failures, from, target + 1, x) by {
                        assert((seq![reply] + x).skip(1) =~= x);
                    }
                    lemma_many_promotes(log, gone, start + 1, statuses, failures, from, target + 1);
                    lemma_join(route, play, replies, start, start + 1, replies.len() as int);
                },
            }
        }
    }
}

proof fn lemma_many_probes<K, V, E>(
    log: ReadManyLog<K, V, E>,
    tier: int,
    statuses: Seq<KeyStatus<V>>,
    pending: Seq<int>,
    failures: Seq<Failure<E>>,
)
    requires
        log.sound(),
        log.route.policy.demote_displaced,
        settled_at(log.route, reading_many(log), log.replies, Seq::empty(), tier),
        forall|x: Seq<Reply<K, V, E>>|
            (#[trigger] (ReadManyLog { replies: log.replies.take(tier) + x, ..log }).probed())
                == batch::probe_many(log.route, tier, statuses, pending, failures, x),
    ensures
        rolls_between(log.route, reading_many(log), log.replies, tier, log.replies.len() as int),
    decreases log.route.lanes.len() - tier,
{
    let route = log.route;
    let replies = log.replies;
    let play = reading_many(log);
    let gone = Seq::<(K, V)>::empty();
    let none = Seq::<Reply<K, V, E>>::empty();
    assert(replies.take(tier) + none =~= replies.take(tier));
    assert((ReadManyLog { replies: replies.take(tier) + none, ..log }) =~= log.prefix(tier));
    let step = log.prefix(tier).step();
    if tier >= route.lanes.len() || pending.len() == 0 {
        let known = batch::settled(statuses, pending, failures);
        assert forall|x: Seq<Reply<K, V, E>>|
            (#[trigger] (ReadManyLog { replies: replies.take(tier) + x, ..log }).step())
                == batch::promote_many(route, known, failures, 1, 0, x) by {
            assert((ReadManyLog { replies: replies.take(tier) + x, ..log }).probed() is Resolved);
        }
        lemma_many_promotes(log, gone, tier, known, failures, 1, 0);
    } else {
        lemma_settled_rolls(route, play, replies, gone, tier);
        if tier < replies.len() {
            assert(log.asked()[tier] == step);
            assert(step.fits(replies[tier]));
            let reply = replies[tier];
            lemma_quiet(route, play, replies, gone, tier);
            assert forall|x: Seq<Reply<K, V, E>>|
                (#[trigger] (ReadManyLog { replies: replies.take(tier + 1) + x, ..log }).probed())
                    == batch::probe_many(
                    route,
                    tier,
                    statuses,
                    pending,
                    failures,
                    seq![reply] + x,
                ) by {
                assert(replies.take(tier) + (seq![reply] + x) =~= replies.take(tier + 1) + x);
                assert((ReadManyLog { replies: replies.take(tier) + (seq![reply] + x), ..log })
                    =~= (ReadManyLog { replies: replies.take(tier + 1) + x, ..log }));
            }
            match reply {
                Reply::GotMany(Ok(found)) => {
                    let pairs = batch::paired(pending, found);
                    let learned = batch::resolved(statuses, pending, tier, found, pairs);
                    let left = batch::missing(pending, found, pairs);
                    assert forall|x: Seq<Reply<K, V, E>>|
                        (#[trigger] (ReadManyLog {
                            replies: replies.take(tier + 1) + x,
                            ..log
                        }).probed()) == batch::probe_many(
                            route,
                            tier + 1,
                            learned,
                            left,
                            failures,
                            x,
                        ) by {
                        assert((seq![reply] + x).skip(1) =~= x);
                    }
                    lemma_many_probes(log, tier + 1, learned, left, failures);
                },
                Reply::GotMany(Err(source)) => {
                    if route.policy.read.on_error == OnReadError::FallThrough {
                        let more = failures.push(route.failure(tier, source));
                        assert forall|x: Seq<Reply<K, V, E>>|
                            (#[trigger] (ReadManyLog {
                                replies: replies.take(tier + 1) + x,
                                ..log
                            }).probed()) == batch::probe_many(
                                route,
                                tier + 1,
                                statuses,
                                pending,
                                more,
                                x,
                            ) by {
                            assert((seq![reply] + x).skip(1) =~= x);
                        }
                        lemma_many_probes(log, tier + 1, statuses, pending, more);
                    } else {
                        assert(replies.take(tier + 1) + none =~= replies.take(tier + 1));
                        assert((ReadManyLog { replies: replies.take(tier + 1) + none, ..log })
                            =~= log.prefix(tier + 1));
                        assert(log.prefix(tier + 1).step() is Done);
                        if tier + 1 < replies.len() {
                            assert(log.asked()[tier + 1].fits(replies[tier + 1]));
                        }
                        lemma_settled_rolls(route, play, replies, gone, tier + 1);
                    }
                },
                _ => {},
            }
            lemma_join(route, play, replies, tier, tier + 1, replies.len() as int);
        }
    }
}

/// A batched read loses nothing that its promotions displace. Under a policy
/// that demotes, every entry that a promotion displaces, or that such an entry
/// displaces in turn, is to be written into the next writable tier below the
/// one that displaced it, in the order in which it was displaced, and before
/// anything else is asked for or the read ends.
pub proof fn law_batched_read_rolls_displaced_entries_down<K, V, E>(log: ReadManyLog<K, V, E>)
    requires
        log.sound(),
        log.route.policy.demote_displaced,
    ensures
        rolls_on(log.route, many_requests(log), log.replies, many_request(log.step())),
{
    let play = reading_many(log);
    let replies = log.replies;
    let none = Seq::<Failure<E>>::empty();
    let misses = Seq::new(log.keys.len(), |i: int| KeyStatus::<V>::Miss);
    let all = Seq::new(log.keys.len(), |i: int| i);
    assert(so_far(play, replies, 0) =~= Seq::empty());
    assert forall|x: Seq<Reply<K, V, E>>|
        (#[trigger] (ReadManyLog { replies: replies.take(0) + x, ..log }).probed())
            == batch::probe_many(log.route, 0, misses, all, none, x) by {
        assert(replies.take(0) + x =~= x);
    }
    lemma_many_probes(log, 0, misses, all, none);
    let n = replies.len() as int;
    assert(replies.take(n) =~= replies);
    assert(log.prefix(n) =~= log);
    assert(so_far(play, replies, n) =~= many_requests(log));
}

/// What a write asks for.
pub open spec fn write_request<K, V, E>(step: WriteMove<K, V, E>) -> Request<K, V> {
    match step {
        WriteMove::Put { tier } => Request::Write { tier },
        WriteMove::Demote { tier, key, value } => Request::Sink { tier, key, value },
        _ => Request::Other,
    }
}

/// What a write asked for.
pub open spec fn write_requests<K, V, E>(log: WriteLog<K, V, E>) -> Seq<Request<K, V>> {
    Seq::new(log.replies.len(), |i: int| write_request(log.asked()[i]))
}

spec fn writing<K, V, E>(log: WriteLog<K, V, E>) -> spec_fn(Seq<Reply<K, V, E>>) -> Request<K, V> {
    |s: Seq<Reply<K, V, E>>| write_request((WriteLog { replies: s, ..log }).step())
}

/// What is returned at the end fell off the bottom.
spec fn returns_the_fallen<K, V, E>(log: WriteLog<K, V, E>) -> bool {
    log.step() matches WriteMove::Done(Ok(evicted)) ==> settled_at(
        log.route,
        writing(log),
        log.replies,
        evicted,
        log.replies.len() as int,
    )
}

#[verifier::rlimit(40)]
proof fn lemma_write_goes<K, V, E>(
    log: WriteLog<K, V, E>,
    gone: Seq<(K, V)>,
    start: int,
    left: int,
)
    requires
        log.sound(),
        log.route.policy.demote_displaced,
        settled_at(log.route, writing(log), log.replies, gone, start),
        left <= log.route.lanes.len(),
        forall|x: Seq<Reply<K, V, E>>|
            (#[trigger] (WriteLog { replies: log.replies.take(start) + x, ..log }).step())
                == crate::write::write_through(log.route, left, gone, x),
    ensures
        rolls_between(log.route, writing(log), log.replies, start, log.replies.len() as int),
        returns_the_fallen(log),
    decreases left,
{
    let route = log.route;
    let replies = log.replies;
    let play = writing(log);
    let none = Seq::<Reply<K, V, E>>::empty();
    assert(replies.take(start) + none =~= replies.take(start));
    assert((WriteLog { replies: replies.take(start) + none, ..log }) =~= log.prefix(start));
    let step = log.prefix(start).step();
    assert(step == crate::write::write_through(route, left, gone, none));
    assert(log.prefix(replies.len() as int) =~= log);
    if start < replies.len() {
        assert(log.asked()[start] == step);
        assert(step.fits(replies[start]));
    }
    if left <= 0 {
        lemma_settled_rolls(route, play, replies, gone, start);
    } else if !route.writable(left - 1) {
        lemma_write_goes(log, gone, start, left - 1);
    } else {
        let tier = left - 1;
        lemma_settled_rolls(route, play, replies, gone, start);
        if start < replies.len() {
            let reply = replies[start];
            assert forall|x: Seq<Reply<K, V, E>>|
                (#[trigger] (WriteLog { replies: replies.take(start + 1) + x, ..log }).step())
                    == crate::write::write_through(route, left, gone, seq![reply] + x) by {
                assert(replies.take(start) + (seq![reply] + x) =~= replies.take(start + 1) + x);
                assert((WriteLog { replies: replies.take(start) + (seq![reply] + x), ..log })
                    =~= (WriteLog { replies: replies.take(start + 1) + x, ..log }));
            }
            match reply {
                Reply::Put(Ok(displaced)) => {
                    let cont = |fallen: Seq<(K, V)>, x: Seq<Reply<K, V, E>>|
                        write_request(
                            crate::write::write_through(route, tier, gone + fallen, x),
                        );
                    assert forall|x: Seq<Reply<K, V, E>>| #[trigger]
                        play(replies.take(start + 1) + x) == match rollover::sink(
                            route,
                            tier + 1,
                            displaced,
                            x,
                        ) {
                            Rolled::Ask { tier, key, value } => Request::Sink { tier, key, value },
                            Rolled::Settled { evicted, rest } => cont(evicted, rest),
                        } by {
                        assert((seq![reply] + x).skip(1) =~= x);
                        assert((WriteLog { replies: replies.take(start + 1) + x, ..log }).step()
                            == crate::write::roll_through(
                            route,
                            tier,
                            gone,
                            rollover::sink(route, tier + 1, displaced, x),
                        ));
                    }
                    let next = lemma_write_rolls(
                        route,
                        play,
                        cont,
                        replies,
                        gone,
                        start,
                        tier,
                        displaced,
                    );
                    lemma_join(route, play, replies, start, start + 1, next - 1);
                    let s = replies.skip(start + 1);
                    match rollover::sink(route, tier + 1, displaced, s) {
                        Rolled::Ask { .. } => {
                            lemma_join(route, play, replies, start, next, next);
                            assert(replies.take(start + 1) + s =~= replies);
                            assert((WriteLog { replies: replies.take(start + 1) + s, ..log })
                                =~= log);
                            assert((seq![reply] + s).skip(1) =~= s);
                        },
                        Rolled::Settled { evicted, .. } => {
                            assert forall|x: Seq<Reply<K, V, E>>|
                                (#[trigger] (WriteLog {
                                    replies: replies.take(next) + x,
                                    ..log
                                }).step()) == crate::write::write_through(
                                    route,
                                    tier,
                                    gone + evicted,
                                    x,
                                ) by {
                                let sunk = replies.subrange(start + 1, next) + x;
                                assert(replies.take(next) + x =~= replies.take(start + 1) + sunk);
                                assert((WriteLog { replies: replies.take(next) + x, ..log })
                                    =~= (WriteLog {
                                    replies: replies.take(start + 1) + sunk,
                                    ..log
                                }));
                                assert((seq![reply] + sunk).skip(1) =~= sunk);
                                assert(crate::write::write_through(
                                    route,
                                    left,
                                    gone,
                                    seq![reply] + sunk,
                                ) == crate::write::roll_through(
                                    route,
                                    tier,
                                    gone,
                                    rollover::sink(route, tier + 1, displaced, sunk),
                                ));
                            }
                            lemma_write_goes(log, gone + evicted, next, tier);
                            lemma_join(
                                route,
                                play,
                                replies,
                                start,
                                next,
                                replies.len() as int,
                            );
                        },
                    }
                },
                Reply::Put(Err(source)) => {
                    lemma_quiet(route, play, replies, gone, start);
                    if route.policy.on_write_error == OnWriteError::BestEffort {
                        assert forall|x: Seq<Reply<K, V, E>>|
                            (#[trigger] (WriteLog {
                                replies: replies.take(start + 1) + x,
                                ..log
                            }).step()) == crate::write::write_through(route, tier, gone, x) by {
                            assert((seq![reply] + x).skip(1) =~= x);
                        }
                        lemma_write_goes(log, gone, start + 1, tier);
                    } else {
                        assert(replies.take(start + 1) + none =~= replies.take(start + 1));
                        assert((WriteLog { replies: replies.take(start + 1) + none, ..log })
                            =~= log.prefix(start + 1));
                        assert(log.prefix(start + 1).step() is Done);
                        if start + 1 < replies.len() {
                            assert(log.asked()[start + 1].fits(replies[start + 1]));
                        }
                        lemma_settled_rolls(route, play, replies, gone, start + 1);
                    }
                    lemma_join(route, play, replies, start, start + 1, replies.len() as int);
                },
                _ => {},
            }
        }
    }
}

/// A write-through loses nothing that its writes displace. Under a policy that
/// demotes, every displaced entry is to be written into the next writable
/// tier below the one that displaced it, in the order in which it was
/// displaced, and before anything else is asked for or the write ends; and
/// what the write returns is what the bottommost writable tier displaced, in
/// order.
pub proof fn law_write_rolls_displaced_entries_down<K, V, E>(log: WriteLog<K, V, E>)
    requires
        log.sound(),
        log.route.policy.write == WriteMode::WriteThrough,
        log.route.policy.demote_displaced,
        exists|tier: int| open_to_writes(log.route, tier),
    ensures
        rolls_on(log.route, write_requests(log), log.replies, write_request(log.step())),
        log.step() matches WriteMove::Done(Ok(evicted)) ==> forall|bottom: int| #[trigger]
            bottommost(log.route, bottom) ==> evicted == shed_by(
                write_requests(log),
                log.replies,
                bottom,
            ),
{
    let play = writing(log);
    let replies = log.replies;
    let none = Seq::<(K, V)>::empty();
    let lanes = log.route.lanes.len() as int;
    let some = choose|tier: int| open_to_writes(log.route, tier);
    assert(log.route.writable(some));
    crate::laws::write::lemma_has_writable(log.route);
    assert(so_far(play, replies, 0) =~= Seq::empty());
    assert forall|x: Seq<Reply<K, V, E>>|
        (#[trigger] (WriteLog { replies: replies.take(0) + x, ..log }).step())
            == crate::write::write_through(log.route, lanes, none, x) by {
        assert(replies.take(0) + x =~= x);
    }
    lemma_write_goes(log, none, 0, lanes);
    let n = replies.len() as int;
    assert(replies.take(n) =~= replies);
    assert(log.prefix(n) =~= log);
    assert(so_far(play, replies, n) =~= write_requests(log));
}

/// What the answers say was displaced, in order.
pub open spec fn all_shed<K, V, E>(replies: Seq<Reply<K, V, E>>) -> Seq<(K, V)>
    decreases replies.len(),
{
    if replies.len() == 0 {
        Seq::empty()
    } else {
        all_shed(replies.drop_last()) + replies.last().displaced()
    }
}

proof fn lemma_returns_all<K, V, E>(
    route: Route,
    left: int,
    evicted: Seq<(K, V)>,
    replies: Seq<Reply<K, V, E>>,
    earlier: Seq<Reply<K, V, E>>,
)
    requires
        !route.policy.demote_displaced,
        evicted == all_shed(earlier),
        crate::laws::write::sound_by(crate::laws::write::through(route, left, evicted), replies),
    ensures
        crate::write::write_through(route, left, evicted, replies) matches WriteMove::Done(
            Ok(all),
        ) ==> all == all_shed(earlier + replies),
    decreases left,
{
    let play = crate::laws::write::through::<K, V, E>(route, left, evicted);
    if left <= 0 {
        if replies.len() > 0 {
            assert(replies.take(0) =~= Seq::empty());
            assert(crate::laws::write::asked_by(play, replies)[0].fits(replies[0]));
        }
        assert(earlier + replies =~= earlier);
    } else if !route.writable(left - 1) {
        let next = crate::laws::write::through::<K, V, E>(route, left - 1, evicted);
        assert(play =~= next);
        lemma_returns_all(route, left - 1, evicted, replies, earlier);
    } else if replies.len() > 0 {
        let reply = replies[0];
        let rest = replies.skip(1);
        let more = earlier.push(reply);
        assert(more.drop_last() =~= earlier);
        assert(more + rest =~= earlier + replies);
        assert(evicted + Seq::<(K, V)>::empty() =~= evicted);
        let later = all_shed(more);
        let next = crate::laws::write::through::<K, V, E>(route, left - 1, later);
        assert(crate::laws::write::asked_by(play, replies)[0] == play(replies.take(0)));
        assert(replies.take(0) =~= Seq::empty());
        assert(crate::laws::write::asked_by(play, replies)[0].fits(reply));
        if reply->Put_0 is Ok || route.policy.on_write_error == OnWriteError::BestEffort {
            assert forall|x: Seq<Reply<K, V, E>>| #[trigger]
                play(seq![reply] + x) == next(x) by {
                assert((seq![reply] + x).skip(1) =~= x);
            }
            assert(crate::laws::write::after(play, reply) =~= next);
            crate::laws::write::lemma_first(play, next, replies);
            assert(seq![reply] + rest =~= replies);
            lemma_returns_all(route, left - 1, later, rest, more);
        }
    }
}

/// A write-through that does not demote returns everything that its writes
/// displaced, in order.
pub proof fn law_write_returns_displaced_entries<K, V, E>(log: WriteLog<K, V, E>)
    requires
        log.sound(),
        log.route.policy.write == WriteMode::WriteThrough,
        !log.route.policy.demote_displaced,
    ensures
        log.step() matches WriteMove::Done(Ok(evicted)) ==> evicted == all_shed(log.replies),
{
    let route = log.route;
    let lanes = route.lanes.len() as int;
    let none = Seq::<Reply<K, V, E>>::empty();
    if route.writables(lanes).len() > 0 {
        let play = crate::laws::write::through::<K, V, E>(route, lanes, Seq::empty());
        crate::laws::write::lemma_history(log, play);
        assert(none + log.replies =~= log.replies);
        lemma_returns_all(route, lanes, Seq::<(K, V)>::empty(), log.replies, none);
    }
}

} // verus!
