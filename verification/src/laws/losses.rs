//! What reads leave in the tiers.
use vstd::prelude::*;

use crate::batch::ReadManyMove;
use crate::fetch::GetMove;
use crate::laws::promotion;
use crate::laws::promotion::GetRun;
use crate::laws::promotion_many;
use crate::laws::promotion_many::ReadManyRun;
use crate::laws::rolling;
use crate::laws::rolling::Request;
use crate::laws::world;
use crate::rollover::Reply;
use crate::router::Route;

verus! {

/// Whether some tier that the router may write holds the key.
pub open spec fn held<K, V>(route: Route, contents: Seq<Map<K, V>>, key: K) -> bool {
    exists|tier: int| #[trigger]
        rolling::open_to_writes(route, tier) && contents[tier].contains_key(key)
}

/// Whether some of the entries is one for the key.
pub open spec fn names<K, V>(entries: Seq<(K, V)>, key: K) -> bool {
    exists|i: int| 0 <= i < entries.len() && (#[trigger] entries[i]).0 == key
}

/// Whether the bottommost tier that may be written displaced the key.
pub open spec fn fell_off<K, V, E>(
    route: Route,
    requests: Seq<Request<K, V>>,
    replies: Seq<Reply<K, V, E>>,
    key: K,
) -> bool {
    exists|bottom: int| #[trigger]
        rolling::bottommost(route, bottom) && names(
            rolling::shed_by(requests, replies, bottom),
            key,
        )
}

/// Whether an honest tier took what was asked: what it held, and a displaced
/// entry that it was given, it holds afterwards or reports as displaced; the
/// other tiers stay as they are.
spec fn took<K, V, E>(
    request: Request<K, V>,
    reply: Reply<K, V, E>,
    before: Seq<Map<K, V>>,
    after: Seq<Map<K, V>>,
    key: K,
) -> bool {
    &&& after.len() == before.len()
    &&& match request {
        Request::Other => after == before,
        Request::Write { tier } | Request::Sink { tier, .. } => {
            &&& 0 <= tier < before.len()
            &&& forall|t: int|
                0 <= t < before.len() && t != tier ==> #[trigger] after[t] == before[t]
            &&& before[tier].contains_key(key) || (request matches Request::Sink { key: k, .. } && k
                == key) ==> after[tier].contains_key(key) || names(reply.displaced(), key)
        },
    }
}

/// Whether the key still has to sink.
spec fn sinking<K, V, E>(
    route: Route,
    requests: Seq<Request<K, V>>,
    replies: Seq<Reply<K, V, E>>,
    key: K,
) -> bool {
    exists|upper: int, lower: int| #[trigger]
        rolling::next_below(route, upper, lower) && names(
            rolling::shed_by(requests, replies, upper).skip(
                rolling::sunk_into(requests, lower).len() as int,
            ),
            key,
        )
}

/// The next tier below that may be written, if there is one from `from` on.
proof fn lemma_below(route: Route, tier: int, from: int)
    requires
        rolling::open_to_writes(route, tier),
        tier < from,
        forall|t: int| tier < t < from ==> !(#[trigger] rolling::open_to_writes(route, t)),
    ensures
        rolling::bottommost(route, tier) || exists|lower: int| #[trigger]
            rolling::next_below(route, tier, lower),
    decreases route.lanes.len() - from,
{
    if from < route.lanes.len() {
        if rolling::open_to_writes(route, from) {
            assert(rolling::next_below(route, tier, from));
        } else {
            lemma_below(route, tier, from + 1);
        }
    }
}

spec fn safe<K, V, E>(
    route: Route,
    requests: Seq<Request<K, V>>,
    replies: Seq<Reply<K, V, E>>,
    contents: Seq<Map<K, V>>,
    key: K,
) -> bool {
    ||| held(route, contents, key)
    ||| sinking(route, requests, replies, key)
    ||| fell_off(route, requests, replies, key)
}

proof fn lemma_names_sum<K, V>(a: Seq<(K, V)>, b: Seq<(K, V)>, key: K)
    ensures
        names(a + b, key) <==> names(a, key) || names(b, key),
{
    if names(a, key) {
        let i = choose|i: int| 0 <= i < a.len() && (#[trigger] a[i]).0 == key;
        assert((a + b)[i].0 == key);
    }
    if names(b, key) {
        let i = choose|i: int| 0 <= i < b.len() && (#[trigger] b[i]).0 == key;
        assert((a + b)[a.len() + i].0 == key);
    }
    if names(a + b, key) {
        let i = choose|i: int| 0 <= i < (a + b).len() && (#[trigger] (a + b)[i]).0 == key;
        if i < a.len() {
            assert(a[i].0 == key);
        } else {
            assert(b[i - a.len()].0 == key);
        }
    }
}

/// What a tier has just displaced sinks or fell off.
proof fn lemma_displaced<K, V, E>(
    route: Route,
    requests: Seq<Request<K, V>>,
    replies: Seq<Reply<K, V, E>>,
    shed: Seq<(K, V)>,
    tier: int,
    key: K,
)
    requires
        rolling::open_to_writes(route, tier),
        names(shed, key),
        rolling::shed_by(requests, replies, tier).len() >= shed.len(),
        rolling::shed_by(requests, replies, tier).skip(
            rolling::shed_by(requests, replies, tier).len() - shed.len(),
        ) == shed,
        forall|upper: int, lower: int| #[trigger]
            rolling::next_below(route, upper, lower) && upper == tier ==> rolling::sunk_into(
                requests,
                lower,
            ).len() <= rolling::shed_by(requests, replies, tier).len() - shed.len(),
    ensures
        sinking(route, requests, replies, key) || fell_off(route, requests, replies, key),
{
    let all = rolling::shed_by(requests, replies, tier);
    let i = choose|i: int| 0 <= i < shed.len() && (#[trigger] shed[i]).0 == key;
    let at = all.len() - shed.len() + i;
    assert(all[at] == shed[i]);
    lemma_below(route, tier, tier + 1);
    if rolling::bottommost(route, tier) {
        assert(names(all, key));
    } else {
        let lower = choose|lower: int| #[trigger] rolling::next_below(route, tier, lower);
        let done = rolling::sunk_into(requests, lower).len() as int;
        assert(all.skip(done)[at - done].0 == key);
    }
}

/// Nothing is lost from one request to the next.
proof fn lemma_safe_step<K, V, E>(
    route: Route,
    requests: Seq<Request<K, V>>,
    replies: Seq<Reply<K, V, E>>,
    request: Request<K, V>,
    reply: Reply<K, V, E>,
    before: Seq<Map<K, V>>,
    after: Seq<Map<K, V>>,
    key: K,
)
    requires
        requests.len() == replies.len(),
        before.len() == route.lanes.len(),
        safe(route, requests, replies, before, key),
        rolling::rolls_on(route, requests, replies, request),
        took(request, reply, before, after, key),
        request matches Request::Write { tier } ==> rolling::open_to_writes(route, tier),
    ensures
        safe(route, requests.push(request), replies.push(reply), after, key),
{
    let asked = requests.push(request);
    let answered = replies.push(reply);
    rolling::lemma_one_more(requests, replies, request, reply);
    let displaced = reply.displaced();
    let tier = match request {
        Request::Write { tier } => tier,
        Request::Sink { tier, .. } => tier,
        Request::Other => -1,
    };
    if !(request is Other) {
        assert(rolling::open_to_writes(route, tier)) by {
            if let Request::Sink { tier: t, .. } = request {
                let upper = choose|upper: int| #[trigger] rolling::next_below(route, upper, t);
                assert(rolling::next_below(route, upper, t));
            }
        }
        let shed = rolling::shed_by(requests, replies, tier);
        assert(rolling::shed_by(asked, answered, tier) == shed + displaced);
        assert((shed + displaced).skip(shed.len() as int) =~= displaced);
    }
    // What the written tier displaces goes on from there.
    assert(!(request is Other) && names(displaced, key) ==> sinking(route, asked, answered, key)
        || fell_off(route, asked, answered, key)) by {
        if !(request is Other) && names(displaced, key) {
            assert forall|upper: int, lower: int| #[trigger]
                rolling::next_below(route, upper, lower) && upper == tier implies rolling::sunk_into(
                asked,
                lower,
            ).len() <= rolling::shed_by(asked, answered, tier).len() - displaced.len() by {
                lemma_sunk_within(route, requests, replies, request, upper, lower);
            }
            lemma_displaced(route, asked, answered, displaced, tier, key);
        }
    }
    if held(route, before, key) {
        let t = choose|t: int| #[trigger]
            rolling::open_to_writes(route, t) && before[t].contains_key(key);
        if request is Other || t != tier {
            assert(after[t] == before[t]);
            assert(rolling::open_to_writes(route, t) && after[t].contains_key(key));
        } else if after[t].contains_key(key) {
            assert(rolling::open_to_writes(route, t) && after[t].contains_key(key));
        }
    } else if sinking(route, requests, replies, key) {
        let (upper, lower) = choose|upper: int, lower: int| #[trigger]
            rolling::next_below(route, upper, lower) && names(
                rolling::shed_by(requests, replies, upper).skip(
                    rolling::sunk_into(requests, lower).len() as int,
                ),
                key,
            );
        let shed = rolling::shed_by(requests, replies, upper);
        let done = rolling::sunk_into(requests, lower).len() as int;
        let waiting = shed.skip(done);
        let i = choose|i: int| 0 <= i < waiting.len() && (#[trigger] waiting[i]).0 == key;
        assert(rolling::next_below(route, upper, lower));
        let more = rolling::shed_by(asked, answered, upper);
        assert(more.len() >= shed.len() && more.take(shed.len() as int) =~= shed);
        match request {
            Request::Sink { tier: t, key: k, value } => {
                if t == lower {
                    // The first that waits is written now.
                    lemma_same_upper(route, requests, replies, request, upper, lower);
                    if i == 0 {
                        assert(k == key);
                        if after[t].contains_key(key) {
                            assert(rolling::open_to_writes(route, t) && after[t].contains_key(
                                key,
                            ));
                        }
                    } else {
                        assert(more.skip(done + 1)[i - 1] == waiting[i]);
                        assert(names(more.skip(done + 1), key));
                    }
                } else {
                    assert(more.skip(done)[i] == waiting[i]);
                    assert(names(more.skip(done), key));
                }
            },
            _ => {
                assert(more.skip(done)[i] == waiting[i]);
                assert(names(more.skip(done), key));
            },
        }
    } else {
        let bottom = choose|bottom: int| #[trigger]
            rolling::bottommost(route, bottom) && names(
                rolling::shed_by(requests, replies, bottom),
                key,
            );
        lemma_names_sum(rolling::shed_by(requests, replies, bottom), displaced, key);
        assert(rolling::bottommost(route, bottom));
    }
}

/// There is one tier above another that may be written.
proof fn lemma_same_upper<K, V, E>(
    route: Route,
    requests: Seq<Request<K, V>>,
    replies: Seq<Reply<K, V, E>>,
    request: Request<K, V>,
    upper: int,
    lower: int,
)
    requires
        rolling::next_below(route, upper, lower),
        request matches Request::Sink { tier, .. } && tier == lower,
        rolling::rolls_on(route, requests, replies, request),
    ensures
        ({
            let shed = rolling::shed_by(requests, replies, upper);
            let done = rolling::sunk_into(requests, lower);
            &&& done.len() < shed.len()
            &&& request matches Request::Sink { key, value, .. }
            &&& shed[done.len() as int] == (key, value)
        }),
{
    let done = rolling::sunk_into(requests, lower);
    if let Request::Sink { key, value, .. } = request {
        let other = choose|other: int| #[trigger]
            rolling::next_below(route, other, lower) && {
                let shed = rolling::shed_by(requests, replies, other);
                &&& done.len() < shed.len()
                &&& done == shed.take(done.len() as int)
                &&& shed[done.len() as int] == (key, value)
            };
        assert(rolling::next_below(route, other, lower));
        if other < upper {
            assert(!rolling::open_to_writes(route, upper));
        }
        if upper < other {
            assert(!rolling::open_to_writes(route, other));
        }
    }
}

/// No more has sunk than was displaced, whatever is asked for.
proof fn lemma_sunk_within<K, V, E>(
    route: Route,
    requests: Seq<Request<K, V>>,
    replies: Seq<Reply<K, V, E>>,
    request: Request<K, V>,
    upper: int,
    lower: int,
)
    requires
        rolling::next_below(route, upper, lower),
        rolling::rolls_on(route, requests, replies, request),
        request.writes(upper),
    ensures
        rolling::sunk_into(requests, lower).len() <= rolling::shed_by(
            requests,
            replies,
            upper,
        ).len(),
{
}

/// What an honest tier makes of a write of one entry.
proof fn lemma_took_one<K, V, E>(
    request: Request<K, V>,
    tier: int,
    written: K,
    value: V,
    displaced: Seq<(K, V)>,
    reply: Reply<K, V, E>,
    before: Seq<Map<K, V>>,
    after: Seq<Map<K, V>>,
    key: K,
)
    requires
        world::writes(before, tier, written, value, displaced, after),
        reply == Reply::<K, V, E>::Put(Ok(displaced)),
        request == (Request::<K, V>::Write { tier }) || request == (Request::Sink {
            tier,
            key: written,
            value,
        }),
    ensures
        took(request, reply, before, after, key),
{
    lemma_names_keys(displaced, key);
    let full = before[tier].insert(written, value);
    assert(full.contains_key(key) ==> after[tier].contains_key(key) || world::keys(
        displaced,
    ).contains(key));
}

proof fn lemma_names_keys<K, V>(entries: Seq<(K, V)>, key: K)
    ensures
        world::keys(entries).contains(key) ==> names(entries, key),
{
    if world::keys(entries).contains(key) {
        let i = choose|i: int| 0 <= i < world::keys(entries).len() && world::keys(entries)[i] == key;
        assert(entries[i].0 == key);
    }
}

proof fn lemma_read_safe<K, V, E>(run: GetRun<K, V, E>, key: K, count: int)
    requires
        run.honest(),
        run.log.route.policy.demote_displaced,
        held(run.log.route, run.worlds[0], key),
        0 <= count <= run.log.replies.len(),
    ensures
        run.worlds[count].len() == run.log.route.lanes.len(),
        safe(
            run.log.route,
            rolling::read_requests(run.log.prefix(count)),
            run.log.replies.take(count),
            run.worlds[count],
            key,
        ),
        run.log.prefix(count).sound(),
    decreases count,
{
    let log = run.log;
    let early = log.prefix(count);
    if count > 0 {
        let at = count - 1;
        lemma_read_safe(run, key, at);
        let shorter = log.prefix(at);
        let step = log.asked()[at];
        let reply = log.replies[at];
        assert(promotion::answers(
            log.key,
            crate::fetch::hit_in(log.replies.take(at)),
            step,
            reply,
            run.worlds[at],
            run.worlds[count],
        ));
        assert(step == shorter.step());
        assert(step.fits(reply));
        let request = rolling::read_request(step);
        rolling::law_read_rolls_displaced_entries_down(shorter);
        crate::laws::read::law_reads_only_promote(shorter);
        match (step, reply) {
            (GetMove::Promote { tier }, Reply::Put(Ok(displaced))) => {
                let value = crate::fetch::hit_in(log.replies.take(at))->0;
                lemma_took_one(
                    request,
                    tier,
                    log.key,
                    value,
                    displaced,
                    reply,
                    run.worlds[at],
                    run.worlds[count],
                    key,
                );
            },
            (GetMove::Demote { tier, key: k, value }, Reply::Put(Ok(displaced))) => {
                lemma_took_one(
                    request,
                    tier,
                    k,
                    value,
                    displaced,
                    reply,
                    run.worlds[at],
                    run.worlds[count],
                    key,
                );
            },
            _ => {},
        }
        lemma_safe_step(
            log.route,
            rolling::read_requests(shorter),
            shorter.replies,
            request,
            reply,
            run.worlds[at],
            run.worlds[count],
            key,
        );
        assert forall|i: int| 0 <= i < count implies #[trigger] early.asked()[i]
            == log.asked()[i] by {
            assert(early.replies.take(i) =~= log.replies.take(i));
        }
        assert forall|i: int| 0 <= i < at implies #[trigger] shorter.asked()[i]
            == log.asked()[i] by {
            assert(shorter.replies.take(i) =~= log.replies.take(i));
        }
        assert(early.sound()) by {
            assert forall|i: int| 0 <= i < count implies (#[trigger] early.asked()[i]).fits(
                early.replies[i],
            ) by {
                if i < at {
                    assert(shorter.asked()[i].fits(shorter.replies[i]));
                }
            }
        }
        assert(early.replies =~= shorter.replies.push(reply));
        assert(rolling::read_requests(early) =~= rolling::read_requests(shorter).push(request));
    } else {
        assert(safe(
            log.route,
            rolling::read_requests(early),
            log.replies.take(0),
            run.worlds[0],
            key,
        ));
    }
}

/// A read loses no key. Over honest tiers, and under any policy that demotes,
/// a key that some writable tier held before a read is held by some writable
/// tier when the read ends, unless the bottommost writable tier displaced it.
pub proof fn law_read_loses_no_key<K, V, E>(run: GetRun<K, V, E>, key: K)
    requires
        run.honest(),
        run.log.route.policy.demote_displaced,
        run.log.step() is Done,
        held(run.log.route, run.worlds[0], key),
    ensures
        held(run.log.route, run.worlds.last(), key) || fell_off(
            run.log.route,
            rolling::read_requests(run.log),
            run.log.replies,
            key,
        ),
{
    let log = run.log;
    let n = log.replies.len() as int;
    lemma_read_safe(run, key, n);
    assert(log.prefix(n) =~= log);
    assert(log.replies.take(n) =~= log.replies);
    rolling::law_read_rolls_displaced_entries_down(log);
    lemma_nothing_sinks(log.route, rolling::read_requests(log), log.replies, key);
}

proof fn lemma_nothing_sinks<K, V, E>(
    route: Route,
    requests: Seq<Request<K, V>>,
    replies: Seq<Reply<K, V, E>>,
    key: K,
)
    requires
        rolling::all_sunk(route, requests, replies),
    ensures
        !sinking(route, requests, replies, key),
{
    if sinking(route, requests, replies, key) {
        let (upper, lower) = choose|upper: int, lower: int| #[trigger]
            rolling::next_below(route, upper, lower) && names(
                rolling::shed_by(requests, replies, upper).skip(
                    rolling::sunk_into(requests, lower).len() as int,
                ),
                key,
            );
        assert(rolling::next_below(route, upper, lower));
    }
}

proof fn lemma_many_safe<K, V, E>(run: ReadManyRun<K, V, E>, key: K, count: int)
    requires
        run.honest(),
        run.log.route.policy.demote_displaced,
        held(run.log.route, run.worlds[0], key),
        0 <= count <= run.log.replies.len(),
    ensures
        run.worlds[count].len() == run.log.route.lanes.len(),
        safe(
            run.log.route,
            rolling::many_requests(run.log.prefix(count)),
            run.log.replies.take(count),
            run.worlds[count],
            key,
        ),
        run.log.prefix(count).sound(),
    decreases count,
{
    let log = run.log;
    let early = log.prefix(count);
    if count > 0 {
        let at = count - 1;
        lemma_many_safe(run, key, at);
        let shorter = log.prefix(at);
        let step = log.asked()[at];
        let reply = log.replies[at];
        assert(promotion_many::answers(
            log.keys,
            shorter.statuses(),
            step,
            reply,
            run.worlds[at],
            run.worlds[count],
        ));
        assert(step == shorter.step());
        assert(step.fits(reply));
        let request = rolling::many_request(step);
        rolling::law_batched_read_rolls_displaced_entries_down(shorter);
        crate::laws::read::law_batched_reads_only_promote(shorter);
        match (step, reply) {
            (ReadManyMove::Promote { tier, hits }, Reply::Put(Ok(displaced))) => {
                let entries = promotion_many::entries_at(
                    log.keys,
                    shorter.statuses()->0,
                    hits,
                );
                lemma_names_keys(displaced, key);
                if run.worlds[at][tier].contains_key(key) {
                    crate::laws::eviction::lemma_accepted_all(
                        run.worlds[at][tier],
                        entries,
                        displaced,
                        run.worlds[count][tier],
                        key,
                    );
                }
            },
            (ReadManyMove::Demote { tier, key: k, value }, Reply::Put(Ok(displaced))) => {
                lemma_took_one(
                    request,
                    tier,
                    k,
                    value,
                    displaced,
                    reply,
                    run.worlds[at],
                    run.worlds[count],
                    key,
                );
            },
            _ => {},
        }
        lemma_safe_step(
            log.route,
            rolling::many_requests(shorter),
            shorter.replies,
            request,
            reply,
            run.worlds[at],
            run.worlds[count],
            key,
        );
        assert forall|i: int| 0 <= i < count implies #[trigger] early.asked()[i]
            == log.asked()[i] by {
            assert(early.replies.take(i) =~= log.replies.take(i));
        }
        assert forall|i: int| 0 <= i < at implies #[trigger] shorter.asked()[i]
            == log.asked()[i] by {
            assert(shorter.replies.take(i) =~= log.replies.take(i));
        }
        assert(early.sound()) by {
            assert forall|i: int| 0 <= i < count implies (#[trigger] early.asked()[i]).fits(
                early.replies[i],
            ) by {
                if i < at {
                    assert(shorter.asked()[i].fits(shorter.replies[i]));
                }
            }
        }
        assert(early.replies =~= shorter.replies.push(reply));
        assert(rolling::many_requests(early) =~= rolling::many_requests(shorter).push(request));
    } else {
        assert(safe(
            log.route,
            rolling::many_requests(early),
            log.replies.take(0),
            run.worlds[0],
            key,
        ));
    }
}

/// A batched read loses no key. Over honest tiers, and under any policy that
/// demotes, a key that some writable tier held before the read is held by some
/// writable tier when the read ends, unless the bottommost writable tier
/// displaced it.
pub proof fn law_batched_read_loses_no_key<K, V, E>(run: ReadManyRun<K, V, E>, key: K)
    requires
        run.honest(),
        run.log.route.policy.demote_displaced,
        run.log.step() is Done,
        held(run.log.route, run.worlds[0], key),
    ensures
        held(run.log.route, run.worlds.last(), key) || fell_off(
            run.log.route,
            rolling::many_requests(run.log),
            run.log.replies,
            key,
        ),
{
    let log = run.log;
    let n = log.replies.len() as int;
    lemma_many_safe(run, key, n);
    assert(log.prefix(n) =~= log);
    assert(log.replies.take(n) =~= log.replies);
    rolling::law_batched_read_rolls_displaced_entries_down(log);
    lemma_nothing_sinks(log.route, rolling::many_requests(log), log.replies, key);
}

} // verus!
