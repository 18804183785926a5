//! What holds of reads.
use vstd::prelude::*;

use crate::batch;
use crate::batch::{Probed, ReadManyLog, ReadManyMove};
use crate::error::{Failure, Trouble};
use crate::fetch;
use crate::fetch::{ExistsLog, ExistsMove, GetLog, GetMove};
use crate::policy::{OnReadError, Promote};
use crate::read::{Probe, ReadOutcome, ReadProgress};
use crate::report::KeyStatus;
use crate::rollover;
use crate::rollover::{Reply, Rolled};
use crate::router::Route;

verus! {

/// What the tiers hold between them for one key.
pub enum Finding<V> {
    /// `tier` is the topmost that holds the key.
    Hit {
        /// The tier.
        tier: int,
        /// Its value.
        value: V,
    },
    /// No tier holds the key.
    Miss,
    /// No tier that answers holds the key, but some tier does not answer.
    Inconclusive,
    /// `tier` is the topmost that does not answer, no tier above it holds the
    /// key, and the policy aborts on the first failure.
    Failed {
        /// The tier.
        tier: int,
    },
}

/// What the tiers from `from` down hold for `key`. `snapshot[t]` is the
/// contents of tier `t`, or `None` if it fails; `failed` says whether a tier
/// above failed.
pub open spec fn find<K, V>(
    on_error: OnReadError,
    snapshot: Seq<Option<Map<K, V>>>,
    key: K,
    from: int,
    failed: bool,
) -> Finding<V>
    decreases snapshot.len() - from,
{
    if from >= snapshot.len() {
        if failed {
            Finding::Inconclusive
        } else {
            Finding::Miss
        }
    } else {
        match snapshot[from] {
            Some(contents) => if contents.contains_key(key) {
                Finding::Hit { tier: from, value: contents[key] }
            } else {
                find(on_error, snapshot, key, from + 1, failed)
            },
            None => match on_error {
                OnReadError::FailFast => Finding::Failed { tier: from },
                OnReadError::FallThrough => find(on_error, snapshot, key, from + 1, true),
            },
        }
    }
}

/// The tiers among the topmost `upto` that fail.
pub open spec fn failing<K, V>(snapshot: Seq<Option<Map<K, V>>>, upto: int) -> Seq<int>
    decreases upto,
{
    if upto <= 0 {
        Seq::empty()
    } else if snapshot[upto - 1] is None {
        failing(snapshot, upto - 1).push(upto - 1)
    } else {
        failing(snapshot, upto - 1)
    }
}

/// The tiers that some failures came from.
pub open spec fn tiers_of<E>(failures: Seq<Failure<E>>) -> Seq<int> {
    failures.map_values(|failure: Failure<E>| failure.tier)
}

/// Whether a tier answers a read of `key` for its contents.
pub open spec fn tells<K, V, E>(
    contents: Option<Map<K, V>>,
    key: K,
    reply: Result<Option<V>, E>,
) -> bool {
    match contents {
        None => reply is Err,
        Some(contents) => reply == Ok::<Option<V>, E>(
            if contents.contains_key(key) {
                Some(contents[key])
            } else {
                None
            },
        ),
    }
}

pub(crate) proof fn lemma_promote_result<K, V, E>(
    route: Route,
    reach: int,
    target: int,
    value: V,
    replies: Seq<Reply<K, V, E>>,
)
    ensures
        fetch::promote(route, reach, target, value, replies) matches GetMove::Done(result) ==> result
            == Ok::<Option<V>, Trouble<E>>(Some(value)),
        !(fetch::promote(route, reach, target, value, replies) is Get),
        fetch::promote(route, reach, target, value, replies) matches GetMove::Promote { tier }
            ==> target <= tier < reach && route.writable(tier),
        fetch::promote(route, reach, target, value, replies) matches GetMove::Demote { tier, .. }
            ==> route.policy.demote_displaced && route.writable(tier) && target < tier,
        reach <= target ==> fetch::promote(route, reach, target, value, replies) is Done,
    decreases reach - target,
{
    if target < reach {
        if !route.writable(target) {
            lemma_promote_result(route, reach, target + 1, value, replies);
        } else if replies.len() > 0 {
            match replies[0] {
                Reply::Put(Ok(displaced)) => {
                    if route.policy.demote_displaced {
                        let rolled = rollover::sink(
                            route,
                            target + 1,
                            displaced,
                            replies.skip(1),
                        );
                        crate::laws::write::law_displaced_entries_sink(
                            route,
                            target + 1,
                            displaced,
                            replies.skip(1),
                        );
                        assert(fetch::promote(route, reach, target, value, replies)
                            == fetch::roll_up(route, reach, target + 1, value, rolled));
                        if let Rolled::Settled { rest, .. } = rolled {
                            lemma_promote_result(route, reach, target + 1, value, rest);
                        }
                    } else {
                        lemma_promote_result(route, reach, target + 1, value, replies.skip(1));
                    }
                },
                Reply::Put(Err(_)) => {
                    lemma_promote_result(route, reach, target + 1, value, replies.skip(1));
                },
                _ => {},
            }
        }
    }
}

/// What a read of one key asks for, as a function of the answers.
spec fn probing<K, V, E>(route: Route, tier: int, failures: Seq<Failure<E>>) -> spec_fn(
    Seq<Reply<K, V, E>>,
) -> GetMove<K, V, E> {
    |s: Seq<Reply<K, V, E>>| fetch::probe(route, tier, failures, s)
}

/// Whether every probe is answered from `snapshot`.
spec fn told_by<K, V, E>(
    play: spec_fn(Seq<Reply<K, V, E>>) -> GetMove<K, V, E>,
    snapshot: Seq<Option<Map<K, V>>>,
    key: K,
    replies: Seq<Reply<K, V, E>>,
) -> bool {
    forall|i: int|
        #![trigger replies.take(i)]
        0 <= i < replies.len() ==> {
            &&& play(replies.take(i)).fits(replies[i])
            &&& (play(replies.take(i)), replies[i]) matches (GetMove::Get { tier }, Reply::Got(reply))
                ==> tells(snapshot[tier], key, reply)
        }
}

proof fn lemma_told_first<K, V, E>(
    play: spec_fn(Seq<Reply<K, V, E>>) -> GetMove<K, V, E>,
    next: spec_fn(Seq<Reply<K, V, E>>) -> GetMove<K, V, E>,
    snapshot: Seq<Option<Map<K, V>>>,
    key: K,
    replies: Seq<Reply<K, V, E>>,
)
    requires
        replies.len() > 0,
        told_by(play, snapshot, key, replies),
        forall|s: Seq<Reply<K, V, E>>| #[trigger] next(s) == play(seq![replies[0]] + s),
    ensures
        told_by(next, snapshot, key, replies.skip(1)),
        play(replies) == next(replies.skip(1)),
{
    let rest = replies.skip(1);
    assert forall|i: int|
        #![trigger rest.take(i)]
        0 <= i < rest.len() implies {
        &&& next(rest.take(i)).fits(rest[i])
        &&& (next(rest.take(i)), rest[i]) matches (GetMove::Get { tier }, Reply::Got(reply))
            ==> tells(snapshot[tier], key, reply)
    } by {
        assert(seq![replies[0]] + rest.take(i) =~= replies.take(i + 1));
        assert(next(rest.take(i)) == play(replies.take(i + 1)));
    }
    assert(seq![replies[0]] + rest =~= replies);
}

/// Whether `result` is what a read has to return for `finding`.
pub open spec fn reports<V, E>(
    finding: Finding<V>,
    failing: Seq<int>,
    result: Result<Option<V>, Trouble<E>>,
) -> bool {
    match finding {
        Finding::Hit { value, .. } => result == Ok::<Option<V>, Trouble<E>>(Some(value)),
        Finding::Miss => result == Ok::<Option<V>, Trouble<E>>(None),
        Finding::Inconclusive => result matches Err(Trouble::Inconclusive(failures)) && tiers_of(
            failures,
        ) == failing && failing.len() > 0,
        Finding::Failed { tier } => result matches Err(Trouble::Tier(failure)) && failure.tier
            == tier,
    }
}

proof fn lemma_probe<K, V, E>(
    route: Route,
    tier: int,
    failures: Seq<Failure<E>>,
    snapshot: Seq<Option<Map<K, V>>>,
    key: K,
    replies: Seq<Reply<K, V, E>>,
)
    requires
        0 <= tier <= route.lanes.len(),
        snapshot.len() == route.lanes.len(),
        tiers_of(failures) == failing(snapshot, tier),
        told_by(probing(route, tier, failures), snapshot, key, replies),
    ensures
        fetch::probe(route, tier, failures, replies) matches GetMove::Done(result) ==> reports(
            find(route.policy.read.on_error, snapshot, key, tier, failures.len() > 0),
            failing(snapshot, snapshot.len() as int),
            result,
        ),
    decreases route.lanes.len() - tier,
{
    let play = probing::<K, V, E>(route, tier, failures);
    if tier < route.lanes.len() && replies.len() > 0 {
        let reply = replies[0];
        let rest = replies.skip(1);
        assert(replies.take(0) =~= Seq::empty());
        assert(play(Seq::empty()) == GetMove::<K, V, E>::Get { tier });
        match reply {
            Reply::Got(Ok(Some(value))) => {
                lemma_promote_result(
                    route,
                    route.policy.read.promote.reach(tier),
                    0,
                    value,
                    rest,
                );
            },
            Reply::Got(Ok(None)) => {
                let next = probing::<K, V, E>(route, tier + 1, failures);
                assert forall|s: Seq<Reply<K, V, E>>| #[trigger] next(s) == play(
                    seq![reply] + s,
                ) by {
                    assert((seq![reply] + s).skip(1) =~= s);
                }
                lemma_told_first(play, next, snapshot, key, replies);
                lemma_probe(route, tier + 1, failures, snapshot, key, rest);
            },
            Reply::Got(Err(source)) => {
                if route.policy.read.on_error == OnReadError::FallThrough {
                    let more = failures.push(route.failure(tier, source));
                    let next = probing::<K, V, E>(route, tier + 1, more);
                    assert forall|s: Seq<Reply<K, V, E>>| #[trigger] next(s) == play(
                        seq![reply] + s,
                    ) by {
                        assert((seq![reply] + s).skip(1) =~= s);
                    }
                    lemma_told_first(play, next, snapshot, key, replies);
                    assert(tiers_of(more) =~= tiers_of(failures).push(tier));
                    lemma_probe(route, tier + 1, more, snapshot, key, rest);
                }
            },
            _ => {},
        }
    }
}

/// A read returns what the tiers hold. If every probe is answered from
/// `snapshot`, a finished read returns the value of the topmost tier that
/// holds the key; it returns `None` only if every tier answered and none
/// holds the key; if a tier failed and no other holds the key it is
/// inconclusive, and names the tiers that failed; and under a fail-fast
/// policy it stops at the first tier that fails. Promotions, and whether they
/// succeed, do not matter.
pub proof fn law_read_returns_what_tiers_hold<K, V, E>(
    log: GetLog<K, V, E>,
    snapshot: Seq<Option<Map<K, V>>>,
)
    requires
        log.sound(),
        snapshot.len() == log.route.lanes.len(),
        forall|i: int|
            0 <= i < log.replies.len() ==> ((#[trigger] log.asked()[i], log.replies[i]) matches (
                GetMove::Get { tier },
                Reply::Got(reply),
            ) ==> tells(snapshot[tier], log.key, reply)),
    ensures
        log.step() matches GetMove::Done(result) ==> reports(
            find(log.route.policy.read.on_error, snapshot, log.key, 0, false),
            failing(snapshot, snapshot.len() as int),
            result,
        ),
{
    let none = Seq::<Failure<E>>::empty();
    let play = probing::<K, V, E>(log.route, 0, none);
    assert forall|i: int|
        #![trigger log.replies.take(i)]
        0 <= i < log.replies.len() implies {
        &&& play(log.replies.take(i)).fits(log.replies[i])
        &&& (play(log.replies.take(i)), log.replies[i]) matches (
            GetMove::Get { tier },
            Reply::Got(reply),
        ) ==> tells(snapshot[tier], log.key, reply)
    } by {
        assert(log.asked()[i] == play(log.replies.take(i)));
        assert(log.asked()[i].fits(log.replies[i]));
    }
    assert(tiers_of(none) =~= failing(snapshot, 0));
    lemma_probe(log.route, 0, none, snapshot, log.key, log.replies);
}

/// Whether one of the answers is a hit whose promotion reaches beyond
/// `bound`, the first answer being that of `tier`.
pub open spec fn hit_reaches<K, V, E>(
    route: Route,
    tier: int,
    replies: Seq<Reply<K, V, E>>,
    bound: int,
) -> bool {
    exists|h: int|
        0 <= h < replies.len() && (#[trigger] replies[h] matches Reply::Got(Ok(Some(_)))) && bound
            < route.policy.read.promote.reach(tier + h)
}

proof fn lemma_probe_writes<K, V, E>(
    route: Route,
    tier: int,
    failures: Seq<Failure<E>>,
    replies: Seq<Reply<K, V, E>>,
)
    requires
        0 <= tier,
    ensures
        match fetch::probe(route, tier, failures, replies) {
            GetMove::Promote { tier: target } => route.writable(target) && hit_reaches(
                route,
                tier,
                replies,
                target,
            ),
            GetMove::Demote { tier: target, .. } => route.writable(target)
                && route.policy.demote_displaced && hit_reaches(route, tier, replies, 0),
            _ => true,
        },
    decreases route.lanes.len() - tier,
{
    if tier < route.lanes.len() && replies.len() > 0 {
        let rest = replies.skip(1);
        assert forall|bound: int| #[trigger]
            hit_reaches(route, tier + 1, rest, bound) implies hit_reaches(
            route,
            tier,
            replies,
            bound,
        ) by {
            let h = choose|h: int|
                0 <= h < rest.len() && (#[trigger] rest[h] matches Reply::Got(Ok(Some(_)))) && bound
                    < route.policy.read.promote.reach(tier + 1 + h);
            assert(replies[h + 1] == rest[h]);
            assert(tier + (h + 1) == tier + 1 + h);
        }
        match replies[0] {
            Reply::Got(Ok(Some(value))) => {
                lemma_promote_result(
                    route,
                    route.policy.read.promote.reach(tier),
                    0,
                    value,
                    rest,
                );
                assert(replies[0] matches Reply::Got(Ok(Some(_))));
            },
            Reply::Got(Ok(None)) => {
                lemma_probe_writes(route, tier + 1, failures, rest);
            },
            Reply::Got(Err(source)) => {
                if route.policy.read.on_error == OnReadError::FallThrough {
                    let more = failures.push(route.failure(tier, source));
                    lemma_probe_writes(route, tier + 1, more, rest);
                }
            },
            _ => {},
        }
    }
}

/// A read writes only to promote: it copies a hit into writable tiers above
/// the tier that served it, as far as the policy reaches, and displaced
/// entries sink into writable tiers if the policy says so.
pub proof fn law_reads_only_promote<K, V, E>(log: GetLog<K, V, E>)
    ensures
        match log.step() {
            GetMove::Promote { tier } => log.route.writable(tier) && hit_reaches(
                log.route,
                0,
                log.replies,
                tier,
            ),
            GetMove::Demote { tier, .. } => log.route.writable(tier)
                && log.route.policy.demote_displaced,
            _ => true,
        },
{
    lemma_probe_writes(log.route, 0, Seq::<Failure<E>>::empty(), log.replies);
}

/// Without promotion a read moves nothing.
pub proof fn law_no_promotion_unless_policy_says_so<K, V, E>(log: GetLog<K, V, E>)
    requires
        log.route.policy.read.promote == Promote::Never,
    ensures
        log.step() is Get || log.step() is Done,
{
    lemma_probe_writes(log.route, 0, Seq::<Failure<E>>::empty(), log.replies);
}

/// Whether `result` is what an existence check has to return for `finding`.
pub open spec fn confirms<V, E>(
    finding: Finding<V>,
    failing: Seq<int>,
    result: Result<bool, Trouble<E>>,
) -> bool {
    match finding {
        Finding::Hit { .. } => result == Ok::<bool, Trouble<E>>(true),
        Finding::Miss => result == Ok::<bool, Trouble<E>>(false),
        Finding::Inconclusive => result matches Err(Trouble::Inconclusive(failures)) && tiers_of(
            failures,
        ) == failing && failing.len() > 0,
        Finding::Failed { tier } => result matches Err(Trouble::Tier(failure)) && failure.tier
            == tier,
    }
}

/// What was answered so far leaves the question to the tiers below.
proof fn lemma_exists<K, V, E>(
    log: ExistsLog<K, E>,
    snapshot: Seq<Option<Map<K, V>>>,
    count: int,
)
    requires
        log.sound(),
        0 <= count < log.replies.len() || (count == log.replies.len() && log.step() is Exists)
            || count == 0,
        log.replies.len() <= log.route.lanes.len() == snapshot.len(),
        forall|i: int|
            0 <= i < log.replies.len() ==> match snapshot[i] {
                None => #[trigger] log.replies[i] is Err,
                Some(contents) => log.replies[i] == Ok::<bool, E>(contents.contains_key(log.key)),
            },
    ensures
        ({
            let on_error = log.route.policy.read.on_error;
            let before = fetch::failures_among(log.route, log.replies.take(count));
            &&& tiers_of(before) == failing(snapshot, count)
            &&& find(on_error, snapshot, log.key, 0, false) == find(
                on_error,
                snapshot,
                log.key,
                count,
                before.len() > 0,
            )
        }),
    decreases count,
{
    let before = fetch::failures_among(log.route, log.replies.take(count));
    if count > 0 {
        lemma_exists(log, snapshot, count - 1);
        let taken = log.replies.take(count);
        assert(taken.drop_last() =~= log.replies.take(count - 1));
        assert(taken.last() == log.replies[count - 1]);
        let earlier = fetch::failures_among(log.route, taken.drop_last());
        if count < log.replies.len() {
            assert(log.prefix(count).step() is Exists);
            assert(log.prefix(count).replies == taken);
        } else {
            assert(taken =~= log.replies);
        }
        if taken.last() is Err {
            assert(tiers_of(before) =~= tiers_of(earlier).push(count - 1));
        }
    } else {
        assert(log.replies.take(0) =~= Seq::empty());
        assert(tiers_of(before) =~= failing(snapshot, 0));
    }
}

/// An existence check agrees with a read: if every tier answers for what it
/// holds, the check confirms exactly the keys that a read would find.
pub proof fn law_existence_checks_agree_with_reads<K, V, E>(
    log: ExistsLog<K, E>,
    snapshot: Seq<Option<Map<K, V>>>,
)
    requires
        log.sound(),
        snapshot.len() == log.route.lanes.len(),
        forall|i: int|
            0 <= i < log.replies.len() ==> match snapshot[i] {
                None => #[trigger] log.replies[i] is Err,
                Some(contents) => log.replies[i] == Ok::<bool, E>(contents.contains_key(log.key)),
            },
    ensures
        log.step() matches ExistsMove::Done(result) ==> confirms(
            find(log.route.policy.read.on_error, snapshot, log.key, 0, false),
            failing(snapshot, snapshot.len() as int),
            result,
        ),
{
    let on_error = log.route.policy.read.on_error;
    let count = log.replies.len() as int;
    let last = count - 1;
    if count > 0 {
        assert(log.prefix(last).step() is Exists);
    }
    if log.step() is Done {
        if count == 0 {
            lemma_exists(log, snapshot, 0);
            assert(log.replies.take(0) =~= log.replies);
        } else {
            lemma_exists(log, snapshot, last);
            let earlier = fetch::failures_among(log.route, log.replies.take(last));
            assert(log.replies.drop_last() =~= log.replies.take(last));
            let all = fetch::failures_among(log.route, log.replies);
            if count == snapshot.len() {
                assert(find(on_error, snapshot, log.key, last + 1, true) is Inconclusive);
                assert(find(on_error, snapshot, log.key, last + 1, false) is Miss);
            }
            assert(match snapshot[last] {
                None => log.replies[last] is Err,
                Some(contents) => log.replies[last] == Ok::<bool, E>(
                    contents.contains_key(log.key),
                ),
            });
            match log.replies[last] {
                Ok(true) => {},
                Ok(false) => {
                    assert(failing(snapshot, count) == failing(snapshot, last));
                },
                Err(source) => {
                    assert(tiers_of(all) =~= tiers_of(earlier).push(last));
                },
            }
        }
    }
}

/// A read flow reports a miss only if every tier answered, and is
/// inconclusive if some tier did not.
pub proof fn law_read_flow_is_honest_about_misses(progress: ReadProgress)
    requires
        progress.probes.len() <= progress.tiers,
    ensures
        progress.outcome() == Some(ReadOutcome::Miss) ==> progress.probes.len() == progress.tiers
            && !progress.probes.contains(Probe::Error),
        progress.outcome() == Some(ReadOutcome::Inconclusive) ==> progress.probes.len()
            == progress.tiers && progress.probes.contains(Probe::Error),
{
}

/// Whether `status` tells `finding`.
pub open spec fn describes<V>(finding: Finding<V>, status: KeyStatus<V>) -> bool {
    match (finding, status) {
        (Finding::Hit { tier, value }, KeyStatus::Hit { tier: t, value: v }) => t == tier && v
            == value,
        (Finding::Miss, KeyStatus::Miss) => true,
        (Finding::Inconclusive, KeyStatus::Inconclusive) => true,
        _ => false,
    }
}

/// Whether a tier answers a read of the keys at positions `pending` for its
/// contents.
pub open spec fn tells_many<K, V, E>(
    contents: Option<Map<K, V>>,
    keys: Seq<K>,
    pending: Seq<int>,
    reply: Result<Seq<Option<V>>, E>,
) -> bool {
    match (contents, reply) {
        (None, Err(_)) => true,
        (Some(contents), Ok(found)) => {
            &&& found.len() == pending.len()
            &&& forall|p: int|
                0 <= p < pending.len() ==> #[trigger] found[p] == if contents.contains_key(
                    keys[pending[p]],
                ) {
                    Some(contents[keys[pending[p]]])
                } else {
                    None
                }
        },
        _ => false,
    }
}

/// What learning the answer of one tier does to the statuses and to the
/// positions that stay missing.
pub(crate) proof fn lemma_learned<V>(
    statuses: Seq<KeyStatus<V>>,
    pending: Seq<int>,
    tier: int,
    found: Seq<Option<V>>,
    upto: int,
)
    requires
        pending.no_duplicates(),
        batch::within(pending, statuses.len() as int),
        0 <= upto <= pending.len(),
        upto <= found.len(),
    ensures
        ({
            let after = batch::resolved(statuses, pending, tier, found, upto);
            let left = batch::missing(pending, found, upto);
            &&& after.len() == statuses.len()
            &&& forall|p: int|
                0 <= p < upto ==> after[#[trigger] pending[p]] == match found[p] {
                    Some(value) => KeyStatus::Hit { tier: tier as usize, value },
                    None => statuses[pending[p]],
                }
            &&& forall|j: int|
                0 <= j < statuses.len() && !pending.take(upto).contains(j) ==> #[trigger] after[j]
                    == statuses[j]
            &&& left.no_duplicates()
            &&& batch::within(left, statuses.len() as int)
            &&& forall|j: int| #[trigger]
                left.contains(j) <==> exists|p: int|
                    0 <= p < upto && #[trigger] pending[p] == j && found[p] is None
        }),
    decreases upto,
{
    let after = batch::resolved(statuses, pending, tier, found, upto);
    let left = batch::missing(pending, found, upto);
    if upto > 0 {
        let last = upto - 1;
        lemma_learned(statuses, pending, tier, found, last);
        let earlier = batch::resolved(statuses, pending, tier, found, last);
        let rest = batch::missing(pending, found, last);
        assert forall|p: int| 0 <= p < last implies pending[p] != #[trigger] pending[last] by {}
        assert forall|j: int|
            0 <= j < statuses.len() && !pending.take(upto).contains(j) implies #[trigger] after[j]
            == statuses[j] by {
            assert(pending.take(upto)[last] == pending[last]);
            if pending.take(last).contains(j) {
                let p = choose|p: int| 0 <= p < last && pending.take(last)[p] == j;
                assert(pending.take(upto)[p] == j);
            }
        }
        assert(!pending.take(last).contains(pending[last])) by {
            if pending.take(last).contains(pending[last]) {
                let p = choose|p: int| 0 <= p < last && pending.take(last)[p] == pending[last];
                assert(pending[p] == pending[last]);
            }
        }
        if found[last] is None {
            assert(left == rest.push(pending[last]));
            assert(!rest.contains(pending[last])) by {
                if rest.contains(pending[last]) {
                    let p = choose|p: int|
                        0 <= p < last && #[trigger] pending[p] == pending[last] && found[p] is None;
                    assert(pending[p] != pending[last]);
                }
            }
            assert forall|j: int| #[trigger] left.contains(j) <==> exists|p: int|
                0 <= p < upto && #[trigger] pending[p] == j && found[p] is None by {
                if left.contains(j) {
                    let i = choose|i: int| 0 <= i < left.len() && left[i] == j;
                    if i < rest.len() {
                        assert(rest[i] == j);
                        assert(rest.contains(j));
                        let p = choose|p: int|
                            0 <= p < last && #[trigger] pending[p] == j && found[p] is None;
                        assert(pending[p] == j);
                    } else {
                        assert(pending[last] == j);
                    }
                }
                if exists|p: int| 0 <= p < upto && #[trigger] pending[p] == j && found[p] is None {
                    let p = choose|p: int|
                        0 <= p < upto && #[trigger] pending[p] == j && found[p] is None;
                    if p < last {
                        assert(rest.contains(j));
                        let i = choose|i: int| 0 <= i < rest.len() && rest[i] == j;
                        assert(left[i] == j);
                    } else {
                        assert(left[rest.len() as int] == j);
                    }
                }
            }
        } else {
            assert forall|j: int| #[trigger] left.contains(j) <==> exists|p: int|
                0 <= p < upto && #[trigger] pending[p] == j && found[p] is None by {
                if left.contains(j) {
                    let p = choose|p: int|
                        0 <= p < last && #[trigger] pending[p] == j && found[p] is None;
                    assert(pending[p] == j);
                }
                if exists|p: int| 0 <= p < upto && #[trigger] pending[p] == j && found[p] is None {
                    let p = choose|p: int|
                        0 <= p < upto && #[trigger] pending[p] == j && found[p] is None;
                    assert(p < last);
                }
            }
        }
    }
}

/// Whether `hits` are the positions that some tier from `first` down served,
/// and the promotion of what that tier served reaches `target`.
pub open spec fn copies_hits<V>(
    route: Route,
    statuses: Seq<KeyStatus<V>>,
    first: int,
    target: int,
    hits: Seq<int>,
) -> bool {
    exists|from: int|
        first <= from < route.lanes.len() && target < route.policy.read.promote.reach(from) && hits
            == #[trigger] batch::served(statuses, from, statuses.len() as int)
}

pub(crate) proof fn lemma_promote_many_result<K, V, E>(
    route: Route,
    statuses: Seq<KeyStatus<V>>,
    failures: Seq<Failure<E>>,
    from: int,
    target: int,
    replies: Seq<Reply<K, V, E>>,
)
    requires
        0 <= target,
    ensures
        match batch::promote_many(route, statuses, failures, from, target, replies) {
            ReadManyMove::GetMany { .. } => false,
            ReadManyMove::Promote { tier, hits } => route.writable(tier) && copies_hits(
                route,
                statuses,
                from,
                tier,
                hits,
            ),
            ReadManyMove::Demote { tier, .. } => route.writable(tier)
                && route.policy.demote_displaced && route.policy.read.promote != Promote::Never,
            ReadManyMove::Done(result) => result == Ok::<
                (Seq<KeyStatus<V>>, Seq<Failure<E>>),
                Trouble<E>,
            >((statuses, failures)),
        },
    decreases
            route.lanes.len() - from,
            route.policy.read.promote.reach(from) - target,
{
    let hits = batch::served(statuses, from, statuses.len() as int);
    if from < route.lanes.len() {
        if target >= route.policy.read.promote.reach(from) || hits.len() == 0 {
            lemma_promote_many_result(route, statuses, failures, from + 1, 0, replies);
        } else if !route.writable(target) {
            lemma_promote_many_result(route, statuses, failures, from, target + 1, replies);
        } else if replies.len() > 0 {
            match replies[0] {
                Reply::Put(Ok(displaced)) => {
                    if route.policy.demote_displaced {
                        let rolled = rollover::sink(
                            route,
                            target + 1,
                            displaced,
                            replies.skip(1),
                        );
                        crate::laws::write::law_displaced_entries_sink(
                            route,
                            target + 1,
                            displaced,
                            replies.skip(1),
                        );
                        assert(batch::promote_many(
                            route,
                            statuses,
                            failures,
                            from,
                            target,
                            replies,
                        ) == batch::roll_many(
                            route,
                            statuses,
                            failures,
                            from,
                            target + 1,
                            rolled,
                        ));
                        if let Rolled::Settled { rest, .. } = rolled {
                            lemma_promote_many_result(
                                route,
                                statuses,
                                failures,
                                from,
                                target + 1,
                                rest,
                            );
                        }
                    } else {
                        lemma_promote_many_result(
                            route,
                            statuses,
                            failures,
                            from,
                            target + 1,
                            replies.skip(1),
                        );
                    }
                },
                Reply::Put(Err(_)) => {
                    lemma_promote_many_result(
                        route,
                        statuses,
                        failures,
                        from,
                        target + 1,
                        replies.skip(1),
                    );
                },
                _ => {},
            }
        }
    }
}

/// What a batched read asks for, as a function of the answers.
spec fn batching<K, V, E>(
    route: Route,
    tier: int,
    statuses: Seq<KeyStatus<V>>,
    pending: Seq<int>,
    failures: Seq<Failure<E>>,
) -> spec_fn(Seq<Reply<K, V, E>>) -> ReadManyMove<K, V, E> {
    |s: Seq<Reply<K, V, E>>|
        batch::after_probing(
            route,
            batch::probe_many(route, tier, statuses, pending, failures, s),
        )
}

/// Whether every answer is one to what was asked for.
spec fn fits_by<K, V, E>(
    play: spec_fn(Seq<Reply<K, V, E>>) -> ReadManyMove<K, V, E>,
    replies: Seq<Reply<K, V, E>>,
) -> bool {
    forall|i: int|
        #![trigger replies.take(i)]
        0 <= i < replies.len() ==> play(replies.take(i)).fits(replies[i])
}

/// Whether every probe is answered from `snapshot`.
spec fn told_many_by<K, V, E>(
    play: spec_fn(Seq<Reply<K, V, E>>) -> ReadManyMove<K, V, E>,
    snapshot: Seq<Option<Map<K, V>>>,
    keys: Seq<K>,
    replies: Seq<Reply<K, V, E>>,
) -> bool {
    forall|i: int|
        #![trigger replies.take(i)]
        0 <= i < replies.len() ==> ((play(replies.take(i)), replies[i]) matches (
            ReadManyMove::GetMany { tier, pending },
            Reply::GotMany(reply),
        ) ==> tells_many(snapshot[tier], keys, pending, reply))
}

proof fn lemma_told_many_first<K, V, E>(
    play: spec_fn(Seq<Reply<K, V, E>>) -> ReadManyMove<K, V, E>,
    next: spec_fn(Seq<Reply<K, V, E>>) -> ReadManyMove<K, V, E>,
    snapshot: Seq<Option<Map<K, V>>>,
    keys: Seq<K>,
    replies: Seq<Reply<K, V, E>>,
)
    requires
        replies.len() > 0,
        fits_by(play, replies),
        forall|s: Seq<Reply<K, V, E>>| #[trigger] next(s) == play(seq![replies[0]] + s),
    ensures
        fits_by(next, replies.skip(1)),
        told_many_by(play, snapshot, keys, replies) ==> told_many_by(
            next,
            snapshot,
            keys,
            replies.skip(1),
        ),
        play(replies) == next(replies.skip(1)),
{
    let rest = replies.skip(1);
    assert forall|i: int| 0 <= i < rest.len() implies next(#[trigger] rest.take(i)) == play(
        replies.take(i + 1),
    ) by {
        assert(seq![replies[0]] + rest.take(i) =~= replies.take(i + 1));
    }
    assert forall|i: int|
        #![trigger rest.take(i)]
        0 <= i < rest.len() implies next(rest.take(i)).fits(rest[i]) by {
        assert(next(rest.take(i)) == play(replies.take(i + 1)));
    }
    if told_many_by(play, snapshot, keys, replies) {
        assert forall|i: int|
            #![trigger rest.take(i)]
            0 <= i < rest.len() implies ((next(rest.take(i)), rest[i]) matches (
            ReadManyMove::GetMany { tier, pending },
            Reply::GotMany(reply),
        ) ==> tells_many(snapshot[tier], keys, pending, reply)) by {
            assert(next(rest.take(i)) == play(replies.take(i + 1)));
        }
    }
    assert(seq![replies[0]] + rest =~= replies);
}

/// The keys that are not pending have been found, and the others have not.
spec fn sorted_out<V>(statuses: Seq<KeyStatus<V>>, pending: Seq<int>) -> bool {
    &&& pending.no_duplicates()
    &&& batch::within(pending, statuses.len() as int)
    &&& forall|j: int|
        0 <= j < statuses.len() ==> (if pending.contains(j) {
            #[trigger] statuses[j] is Miss
        } else {
            statuses[j] is Hit
        })
}

/// What the tiers from `tier` down still have to tell about the pending keys,
/// and what those above told about the others, agrees with `snapshot`.
spec fn informed<K, V>(
    on_error: OnReadError,
    snapshot: Seq<Option<Map<K, V>>>,
    keys: Seq<K>,
    tier: int,
    statuses: Seq<KeyStatus<V>>,
    pending: Seq<int>,
    failed: bool,
) -> bool {
    &&& statuses.len() == keys.len()
    &&& forall|j: int|
        0 <= j < keys.len() ==> (if pending.contains(j) {
            find(on_error, snapshot, #[trigger] keys[j], 0, false) == find(
                on_error,
                snapshot,
                keys[j],
                tier,
                failed,
            )
        } else {
            describes(find(on_error, snapshot, keys[j], 0, false), statuses[j])
        })
}

/// The keys found so far were served by the tiers above `tier`, and the one
/// just above served some if nothing is pending any more.
spec fn descended<V>(tier: int, statuses: Seq<KeyStatus<V>>, pending: Seq<int>) -> bool {
    &&& forall|j: int|
        0 <= j < statuses.len() ==> (#[trigger] statuses[j] matches KeyStatus::Hit {
            tier: t,
            ..
        } ==> t < tier)
    &&& pending.len() > 0 || tier == 0 || exists|j: int|
        0 <= j < statuses.len() && (#[trigger] statuses[j]).served_by(tier - 1)
}

/// Learning the answer of one tier more.
proof fn lemma_descended<V>(
    tier: int,
    statuses: Seq<KeyStatus<V>>,
    pending: Seq<int>,
    found: Seq<Option<V>>,
)
    requires
        0 <= tier < usize::MAX,
        pending.len() > 0,
        found.len() == pending.len(),
        pending.no_duplicates(),
        batch::within(pending, statuses.len() as int),
        descended(tier, statuses, pending),
    ensures
        descended(
            tier + 1,
            batch::resolved(statuses, pending, tier, found, pending.len() as int),
            batch::missing(pending, found, pending.len() as int),
        ),
{
    let upto = pending.len() as int;
    let after = batch::resolved(statuses, pending, tier, found, upto);
    let left = batch::missing(pending, found, upto);
    lemma_learned(statuses, pending, tier, found, upto);
    assert(pending.take(upto) =~= pending);
    assert forall|j: int| 0 <= j < after.len() implies (#[trigger] after[j] matches KeyStatus::Hit {
        tier: t,
        ..
    } ==> t < tier + 1) by {
        assert(statuses[j] matches KeyStatus::Hit { tier: t, .. } ==> t < tier);
        if pending.contains(j) {
            let p = choose|p: int| 0 <= p < pending.len() && pending[p] == j;
            assert(after[pending[p]] == match found[p] {
                Some(value) => KeyStatus::Hit { tier: tier as usize, value },
                None => statuses[pending[p]],
            });
        } else {
            assert(after[j] == statuses[j]);
        }
    }
    if left.len() == 0 {
        if found[0] is None {
            assert(pending[0] == pending[0]);
            assert(left.contains(pending[0]));
        }
        assert(after[pending[0]].served_by(tier));
    }
}

/// Whether `result` is what a batched read of `keys` has to return.
pub open spec fn batch_reports<K, V, E>(
    route: Route,
    snapshot: Seq<Option<Map<K, V>>>,
    keys: Seq<K>,
    result: Result<(Seq<KeyStatus<V>>, Seq<Failure<E>>), Trouble<E>>,
) -> bool {
    let on_error = route.policy.read.on_error;
    match result {
        Ok((statuses, failures)) => {
            &&& statuses.len() == keys.len()
            &&& forall|j: int|
                0 <= j < keys.len() ==> describes(
                    find(on_error, snapshot, #[trigger] keys[j], 0, false),
                    statuses[j],
                )
            &&& exists|depth: int| #[trigger]
                went_to(snapshot.len() as int, statuses, depth) && tiers_of(failures) == failing(
                    snapshot,
                    depth,
                )
        },
        Err(trouble) => {
            &&& on_error == OnReadError::FailFast
            &&& trouble matches Trouble::Tier(failure) && failing(
                snapshot,
                failure.tier + 1,
            ) == seq![failure.tier] && fails_some(snapshot, keys, failure.tier)
        },
    }
}

/// Whether a fail-fast read of some of the keys stops at `tier`.
pub open spec fn fails_some<K, V>(
    snapshot: Seq<Option<Map<K, V>>>,
    keys: Seq<K>,
    tier: int,
) -> bool {
    exists|j: int|
        0 <= j < keys.len() && find(
            OnReadError::FailFast,
            snapshot,
            #[trigger] keys[j],
            0,
            false,
        ) == Finding::<V>::Failed { tier }
}

/// Whether `depth` tiers were asked to come to `statuses`: all of them if some
/// key was not found, and otherwise those down to the lowest one that served
/// a key.
pub open spec fn went_to<V>(tiers: int, statuses: Seq<KeyStatus<V>>, depth: int) -> bool {
    &&& 0 <= depth <= tiers
    &&& forall|j: int|
        0 <= j < statuses.len() ==> match #[trigger] statuses[j] {
            KeyStatus::Hit { tier, .. } => tier < depth,
            _ => depth == tiers,
        }
    &&& depth == 0 || exists|j: int|
        0 <= j < statuses.len() && (!(#[trigger] statuses[j] is Hit) || statuses[j].served_by(
            depth - 1,
        ))
}

proof fn lemma_probe_many<K, V, E>(
    route: Route,
    tier: int,
    statuses: Seq<KeyStatus<V>>,
    pending: Seq<int>,
    failures: Seq<Failure<E>>,
    snapshot: Seq<Option<Map<K, V>>>,
    keys: Seq<K>,
    replies: Seq<Reply<K, V, E>>,
)
    requires
        0 <= tier <= route.lanes.len() <= usize::MAX,
        snapshot.len() == route.lanes.len(),
        statuses.len() == keys.len(),
        sorted_out(statuses, pending),
        route.policy.read.on_error == OnReadError::FailFast ==> failures.len() == 0,
        fits_by(batching(route, tier, statuses, pending, failures), replies),
    ensures
        batching(route, tier, statuses, pending, failures)(replies) matches ReadManyMove::Done(
            Ok((st, fs)),
        ) ==> {
            &&& st.len() == statuses.len()
            &&& fs.len() == 0 ==> forall|j: int|
                0 <= j < st.len() ==> !(#[trigger] st[j] is Inconclusive)
            &&& fs.len() > 0 ==> forall|j: int| 0 <= j < st.len() ==> !(#[trigger] st[j] is Miss)
        },
        (told_many_by(batching(route, tier, statuses, pending, failures), snapshot, keys, replies)
            && informed(
            route.policy.read.on_error,
            snapshot,
            keys,
            tier,
            statuses,
            pending,
            failures.len() > 0,
        ) && descended(tier, statuses, pending) && tiers_of(failures) == failing(
            snapshot,
            tier,
        )) ==> (batching(route, tier, statuses, pending, failures)(
            replies,
        ) matches ReadManyMove::Done(result) ==> batch_reports(route, snapshot, keys, result)),
    decreases route.lanes.len() - tier,
{
    let play = batching::<K, V, E>(route, tier, statuses, pending, failures);
    let on_error = route.policy.read.on_error;
    let honest = told_many_by(play, snapshot, keys, replies) && informed(
        on_error,
        snapshot,
        keys,
        tier,
        statuses,
        pending,
        failures.len() > 0,
    ) && descended(tier, statuses, pending) && tiers_of(failures) == failing(snapshot, tier);
    if tier >= route.lanes.len() || pending.len() == 0 {
        let st = batch::settled(statuses, pending, failures);
        lemma_promote_many_result(route, st, failures, 1, 0, replies);
        if honest {
            assert forall|j: int| 0 <= j < keys.len() implies describes(
                find(on_error, snapshot, #[trigger] keys[j], 0, false),
                st[j],
            ) by {
                if pending.contains(j) {
                    assert(statuses[j] is Miss);
                    assert(tier >= snapshot.len());
                }
            }
            assert(went_to(snapshot.len() as int, st, tier)) by {
                assert forall|j: int| 0 <= j < st.len() implies match #[trigger] st[j] {
                    KeyStatus::Hit { tier: t, .. } => t < tier,
                    _ => tier == snapshot.len(),
                } by {
                    assert(if pending.contains(j) {
                        statuses[j] is Miss
                    } else {
                        statuses[j] is Hit
                    });
                }
                if pending.len() > 0 {
                    let j = pending[0];
                    assert(pending.contains(j));
                    assert(statuses[j] is Miss);
                    assert(!(st[j] is Hit));
                } else if tier != 0 {
                    let j = choose|j: int|
                        0 <= j < statuses.len() && (#[trigger] statuses[j]).served_by(tier - 1);
                    assert(statuses[j] is Hit);
                    assert(!pending.contains(j));
                    assert(st[j].served_by(tier - 1));
                }
            }
        }
        assert(st.len() == statuses.len());
        assert forall|j: int| 0 <= j < st.len() && failures.len() == 0 implies !(
        #[trigger] st[j] is Inconclusive) by {
            assert(if pending.contains(j) {
                statuses[j] is Miss
            } else {
                statuses[j] is Hit
            });
        }
        assert forall|j: int| 0 <= j < st.len() && failures.len() > 0 implies !(
        #[trigger] st[j] is Miss) by {
            assert(if pending.contains(j) {
                statuses[j] is Miss
            } else {
                statuses[j] is Hit
            });
        }
    } else if replies.len() > 0 {
        let reply = replies[0];
        let rest = replies.skip(1);
        assert(replies.take(0) =~= Seq::empty());
        assert(play(replies.take(0)).fits(reply));
        assert(play(Seq::empty()) == ReadManyMove::<K, V, E>::GetMany { tier, pending });
        match reply {
            Reply::GotMany(Ok(found)) => {
                let upto = pending.len() as int;
                lemma_learned(statuses, pending, tier, found, upto);
                assert(pending.take(upto) =~= pending);
                let after = batch::resolved(statuses, pending, tier, found, upto);
                let left = batch::missing(pending, found, upto);
                let next = batching::<K, V, E>(route, tier + 1, after, left, failures);
                assert forall|s: Seq<Reply<K, V, E>>| #[trigger] next(s) == play(
                    seq![reply] + s,
                ) by {
                    assert((seq![reply] + s).skip(1) =~= s);
                }
                lemma_told_many_first(play, next, snapshot, keys, replies);
                assert forall|j: int| 0 <= j < after.len() implies (if left.contains(j) {
                    #[trigger] after[j] is Miss
                } else {
                    after[j] is Hit
                }) by {
                    assert(statuses[j] is Miss || statuses[j] is Hit);
                    if pending.contains(j) {
                        let p = choose|p: int| 0 <= p < pending.len() && pending[p] == j;
                        assert(pending[p] == j);
                        if left.contains(j) {
                            let q = choose|q: int|
                                0 <= q < upto && #[trigger] pending[q] == j && found[q] is None;
                            assert(q == p);
                        }
                    } else if left.contains(j) {
                        let q = choose|q: int|
                            0 <= q < upto && #[trigger] pending[q] == j && found[q] is None;
                        assert(pending.contains(j));
                    }
                }
                if honest {
                    lemma_informed(
                        on_error,
                        snapshot,
                        keys,
                        tier,
                        statuses,
                        pending,
                        failures,
                        found,
                    );
                    lemma_descended(tier, statuses, pending, found);
                    assert(failing(snapshot, tier + 1) == failing(snapshot, tier));
                }
                lemma_probe_many(
                    route,
                    tier + 1,
                    after,
                    left,
                    failures,
                    snapshot,
                    keys,
                    rest,
                );
            },
            Reply::GotMany(Err(source)) => {
                match route.policy.read.on_error {
                    OnReadError::FailFast => {
                        if honest {
                            assert(tells_many(snapshot[tier], keys, pending, Err(source)));
                            assert(failing(snapshot, tier) =~= Seq::<int>::empty());
                            assert(failing(snapshot, tier + 1) =~= seq![tier]);
                            let j = pending[0];
                            assert(pending.contains(j));
                            assert(find(on_error, snapshot, keys[j], 0, false) == find(
                                on_error,
                                snapshot,
                                keys[j],
                                tier,
                                false,
                            ));
                            assert(fails_some(snapshot, keys, tier));
                        }
                    },
                    OnReadError::FallThrough => {
                        let more = failures.push(route.failure(tier, source));
                        let next = batching::<K, V, E>(route, tier + 1, statuses, pending, more);
                        assert forall|s: Seq<Reply<K, V, E>>| #[trigger] next(s) == play(
                            seq![reply] + s,
                        ) by {
                            assert((seq![reply] + s).skip(1) =~= s);
                        }
                        lemma_told_many_first(play, next, snapshot, keys, replies);
                        if honest {
                            assert(tells_many(snapshot[tier], keys, pending, Err(source)));
                            assert(tiers_of(more) =~= tiers_of(failures).push(tier));
                            assert(informed(
                                on_error,
                                snapshot,
                                keys,
                                tier + 1,
                                statuses,
                                pending,
                                true,
                            ));
                        }
                        lemma_probe_many(
                            route,
                            tier + 1,
                            statuses,
                            pending,
                            more,
                            snapshot,
                            keys,
                            rest,
                        );
                    },
                }
            },
            _ => {},
        }
    }
}

/// Learning an honest answer keeps what is known in line with `snapshot`.
proof fn lemma_informed<K, V, E>(
    on_error: OnReadError,
    snapshot: Seq<Option<Map<K, V>>>,
    keys: Seq<K>,
    tier: int,
    statuses: Seq<KeyStatus<V>>,
    pending: Seq<int>,
    failures: Seq<Failure<E>>,
    found: Seq<Option<V>>,
)
    requires
        0 <= tier < snapshot.len() <= usize::MAX,
        sorted_out(statuses, pending),
        informed(on_error, snapshot, keys, tier, statuses, pending, failures.len() > 0),
        tells_many(snapshot[tier], keys, pending, Ok::<Seq<Option<V>>, E>(found)),
    ensures
        informed(
            on_error,
            snapshot,
            keys,
            tier + 1,
            batch::resolved(statuses, pending, tier, found, pending.len() as int),
            batch::missing(pending, found, pending.len() as int),
            failures.len() > 0,
        ),
{
    let upto = pending.len() as int;
    let failed = failures.len() > 0;
    lemma_learned(statuses, pending, tier, found, upto);
    assert(pending.take(upto) =~= pending);
    let after = batch::resolved(statuses, pending, tier, found, upto);
    let left = batch::missing(pending, found, upto);
    assert forall|j: int| 0 <= j < keys.len() implies (if left.contains(j) {
        find(on_error, snapshot, #[trigger] keys[j], 0, false) == find(
            on_error,
            snapshot,
            keys[j],
            tier + 1,
            failed,
        )
    } else {
        describes(find(on_error, snapshot, keys[j], 0, false), after[j])
    }) by {
        if pending.contains(j) {
            let p = choose|p: int| 0 <= p < pending.len() && pending[p] == j;
            assert(found[p] is Some ==> after[pending[p]] == KeyStatus::Hit {
                tier: tier as usize,
                value: found[p]->0,
            });
            if left.contains(j) {
                let q = choose|q: int|
                    0 <= q < upto && #[trigger] pending[q] == j && found[q] is None;
                assert(q == p);
            }
        } else {
            if left.contains(j) {
                let q = choose|q: int|
                    0 <= q < upto && #[trigger] pending[q] == j && found[q] is None;
                assert(pending.contains(j));
            }
            assert(after[j] == statuses[j]);
        }
    }
}

/// The log of a batched read in terms of plays.
proof fn lemma_batch_history<K, V, E>(log: ReadManyLog<K, V, E>)
    requires
        log.sound(),
    ensures
        ({
            let statuses = Seq::new(log.keys.len(), |i: int| KeyStatus::<V>::Miss);
            let pending = Seq::new(log.keys.len(), |i: int| i);
            let play = batching::<K, V, E>(log.route, 0, statuses, pending, Seq::empty());
            &&& fits_by(play, log.replies)
            &&& log.step() == play(log.replies)
            &&& sorted_out(statuses, pending)
            &&& forall|i: int|
                0 <= i < log.replies.len() ==> #[trigger] log.asked()[i] == play(
                    log.replies.take(i),
                )
        }),
{
    let statuses = Seq::new(log.keys.len(), |i: int| KeyStatus::<V>::Miss);
    let pending = Seq::new(log.keys.len(), |i: int| i);
    let play = batching::<K, V, E>(log.route, 0, statuses, pending, Seq::empty());
    assert forall|i: int|
        #![trigger log.replies.take(i)]
        0 <= i < log.replies.len() implies play(log.replies.take(i)).fits(log.replies[i]) by {
        assert(log.asked()[i].fits(log.replies[i]));
    }
    assert forall|j: int| 0 <= j < statuses.len() implies (if pending.contains(j) {
        #[trigger] statuses[j] is Miss
    } else {
        statuses[j] is Hit
    }) by {
        assert(pending[j] == j);
    }
}

/// A batched read returns, for every key, what a read of that key alone would
/// find. If every probe is answered from `snapshot`, each status is a hit in
/// the topmost tier that holds the key, a miss if every tier answered and
/// none holds it, and inconclusive if none that answered holds it but some
/// tier failed. The failures reported are those of all tiers that were asked
/// and failed, topmost first. Only a fail-fast policy makes the batch fail as
/// a whole, with the topmost tier that fails. Promotions, and whether they succeed, do not matter.
pub proof fn law_batched_read_returns_what_tiers_hold<K, V, E>(
    log: ReadManyLog<K, V, E>,
    snapshot: Seq<Option<Map<K, V>>>,
)
    requires
        log.sound(),
        log.route.lanes.len() <= usize::MAX,
        snapshot.len() == log.route.lanes.len(),
        forall|i: int|
            0 <= i < log.replies.len() ==> ((#[trigger] log.asked()[i], log.replies[i]) matches (
                ReadManyMove::GetMany { tier, pending },
                Reply::GotMany(reply),
            ) ==> tells_many(snapshot[tier], log.keys, pending, reply)),
    ensures
        log.step() matches ReadManyMove::Done(result) ==> batch_reports(
            log.route,
            snapshot,
            log.keys,
            result,
        ),
{
    let none = Seq::<Failure<E>>::empty();
    let statuses = Seq::new(log.keys.len(), |i: int| KeyStatus::<V>::Miss);
    let pending = Seq::new(log.keys.len(), |i: int| i);
    let play = batching::<K, V, E>(log.route, 0, statuses, pending, none);
    lemma_batch_history(log);
    assert(told_many_by(play, snapshot, log.keys, log.replies)) by {
        assert forall|i: int|
            #![trigger log.replies.take(i)]
            0 <= i < log.replies.len() implies ((play(log.replies.take(i)), log.replies[i]) matches (
            ReadManyMove::GetMany { tier, pending },
            Reply::GotMany(reply),
        ) ==> tells_many(snapshot[tier], log.keys, pending, reply)) by {
            assert(log.asked()[i] == play(log.replies.take(i)));
        }
    }
    assert forall|j: int| 0 <= j < log.keys.len() implies pending.contains(j) by {
        assert(pending[j] == j);
    }
    assert(tiers_of(none) =~= failing(snapshot, 0));
    lemma_probe_many(
        log.route,
        0,
        statuses,
        pending,
        none,
        snapshot,
        log.keys,
        log.replies,
    );
}

/// The tiers that fail, topmost first: exactly those, each once.
pub proof fn law_failing_tiers_ascend<K, V>(snapshot: Seq<Option<Map<K, V>>>, upto: int)
    ensures
        forall|a: int, b: int|
            0 <= a < b < failing(snapshot, upto).len() ==> failing(snapshot, upto)[a] < failing(
                snapshot,
                upto,
            )[b],
        forall|tier: int| #[trigger]
            failing(snapshot, upto).contains(tier) <==> 0 <= tier < upto && snapshot[tier] is None,
    decreases upto,
{
    if upto > 0 {
        law_failing_tiers_ascend(snapshot, upto - 1);
        let before = failing(snapshot, upto - 1);
        let all = failing(snapshot, upto);
        assert forall|a: int| 0 <= a < before.len() implies #[trigger] before[a] < upto - 1 by {
            assert(before.contains(before[a]));
        }
        assert forall|tier: int| #[trigger] all.contains(tier) <==> 0 <= tier < upto
            && snapshot[tier] is None by {
            assert(before.contains(tier) <==> 0 <= tier < upto - 1 && snapshot[tier] is None);
            if snapshot[upto - 1] is None {
                assert(all[before.len() as int] == upto - 1);
                if before.contains(tier) {
                    let i = choose|i: int| 0 <= i < before.len() && before[i] == tier;
                    assert(all[i] == tier);
                }
                if all.contains(tier) {
                    let i = choose|i: int| 0 <= i < all.len() && all[i] == tier;
                    if i < before.len() {
                        assert(before[i] == tier);
                    }
                }
            }
        }
    }
}

/// The failures of the tiers that were asked for keys and failed, in the
/// order in which they were asked.
pub open spec fn failed_probes<K, V, E>(
    route: Route,
    asked: Seq<ReadManyMove<K, V, E>>,
    replies: Seq<Reply<K, V, E>>,
) -> Seq<Failure<E>>
    decreases replies.len(),
{
    if replies.len() == 0 {
        Seq::empty()
    } else {
        (match (asked[0], replies[0]) {
            (ReadManyMove::GetMany { tier, .. }, Reply::GotMany(Err(source))) => seq![
                route.failure(tier, source),
            ],
            _ => Seq::empty(),
        }) + failed_probes(route, asked.skip(1), replies.skip(1))
    }
}

/// Whether the failures come from tiers at or below `from`, topmost first.
pub open spec fn ascend_from<E>(failures: Seq<Failure<E>>, from: int) -> bool {
    &&& forall|a: int| 0 <= a < failures.len() ==> from <= (#[trigger] failures[a]).tier
    &&& forall|a: int, b: int|
        0 <= a < b < failures.len() ==> (#[trigger] failures[a]).tier < (
        #[trigger] failures[b]).tier
}

spec fn batch_asked_by<K, V, E>(
    play: spec_fn(Seq<Reply<K, V, E>>) -> ReadManyMove<K, V, E>,
    replies: Seq<Reply<K, V, E>>,
) -> Seq<ReadManyMove<K, V, E>> {
    Seq::new(replies.len(), |i: int| play(replies.take(i)))
}

/// Who does not ask for keys has no failed probes.
proof fn lemma_no_probes<K, V, E>(
    route: Route,
    asked: Seq<ReadManyMove<K, V, E>>,
    replies: Seq<Reply<K, V, E>>,
)
    requires
        asked.len() == replies.len(),
        forall|i: int| 0 <= i < asked.len() ==> !(#[trigger] asked[i] is GetMany),
    ensures
        failed_probes(route, asked, replies).len() == 0,
    decreases replies.len(),
{
    if replies.len() > 0 {
        assert(!(asked[0] is GetMany));
        lemma_no_probes(route, asked.skip(1), replies.skip(1));
    }
}

proof fn lemma_failures_are_probes<K, V, E>(
    route: Route,
    tier: int,
    statuses: Seq<KeyStatus<V>>,
    pending: Seq<int>,
    failures: Seq<Failure<E>>,
    replies: Seq<Reply<K, V, E>>,
)
    requires
        0 <= tier <= route.lanes.len(),
        route.policy.read.on_error == OnReadError::FailFast ==> failures.len() == 0,
        fits_by(batching(route, tier, statuses, pending, failures), replies),
    ensures
        ({
            let play = batching::<K, V, E>(route, tier, statuses, pending, failures);
            let failed = failed_probes(route, batch_asked_by(play, replies), replies);
            &&& ascend_from(failed, tier)
            &&& play(replies) matches ReadManyMove::Done(Ok((_, all))) ==> all == failures + failed
            &&& play(replies) matches ReadManyMove::Done(Err(trouble)) ==> {
                &&& route.policy.read.on_error == OnReadError::FailFast
                &&& failed.len() == 1
                &&& trouble == Trouble::Tier(failed[0])
            }
        }),
    decreases route.lanes.len() - tier,
{
    let play = batching::<K, V, E>(route, tier, statuses, pending, failures);
    let asked = batch_asked_by(play, replies);
    let failed = failed_probes(route, asked, replies);
    if tier >= route.lanes.len() || pending.len() == 0 {
        let st = batch::settled(statuses, pending, failures);
        assert forall|i: int| 0 <= i < asked.len() implies !(#[trigger] asked[i] is GetMany) by {
            lemma_promote_many_result(route, st, failures, 1, 0, replies.take(i));
        }
        lemma_no_probes(route, asked, replies);
        lemma_promote_many_result(route, st, failures, 1, 0, replies);
        assert(failures + failed =~= failures);
    } else if replies.len() == 0 {
        assert(play(replies) is GetMany);
    } else {
        let reply = replies[0];
        let rest = replies.skip(1);
        assert(replies.take(0) =~= Seq::empty());
        assert(play(replies.take(0)).fits(reply));
        assert(asked[0] == ReadManyMove::<K, V, E>::GetMany { tier, pending });
        match reply {
            Reply::GotMany(Ok(found)) => {
                let upto = pending.len() as int;
                let after = batch::resolved(statuses, pending, tier, found, upto);
                let left = batch::missing(pending, found, upto);
                let next = batching::<K, V, E>(route, tier + 1, after, left, failures);
                assert forall|s: Seq<Reply<K, V, E>>| #[trigger] next(s) == play(
                    seq![reply] + s,
                ) by {
                    assert((seq![reply] + s).skip(1) =~= s);
                }
                lemma_batch_asked_first(play, next, replies);
                lemma_failures_are_probes(route, tier + 1, after, left, failures, rest);
                assert(failed =~= failed_probes(route, batch_asked_by(next, rest), rest));
            },
            Reply::GotMany(Err(source)) => {
                let failure = route.failure(tier, source);
                match route.policy.read.on_error {
                    OnReadError::FailFast => {
                        if rest.len() > 0 {
                            assert(play(replies.take(1)).fits(replies[1]));
                            assert(replies.take(1)[0] == reply);
                        }
                        assert(failed_probes(route, asked.skip(1), rest).len() == 0);
                        assert(failed =~= seq![failure]);
                    },
                    OnReadError::FallThrough => {
                        let more = failures.push(failure);
                        let next = batching::<K, V, E>(route, tier + 1, statuses, pending, more);
                        assert forall|s: Seq<Reply<K, V, E>>| #[trigger] next(s) == play(
                            seq![reply] + s,
                        ) by {
                            assert((seq![reply] + s).skip(1) =~= s);
                        }
                        lemma_batch_asked_first(play, next, replies);
                        lemma_failures_are_probes(route, tier + 1, statuses, pending, more, rest);
                        let later = failed_probes(route, batch_asked_by(next, rest), rest);
                        assert(failed =~= seq![failure] + later);
                        assert(failures + failed =~= more + later);
                        assert forall|a: int| 0 <= a < failed.len() implies tier <= (
                        #[trigger] failed[a]).tier by {
                            if a > 0 {
                                assert(failed[a] == later[a - 1]);
                            }
                        }
                        assert forall|a: int, b: int| 0 <= a < b < failed.len() implies (
                        #[trigger] failed[a]).tier < (#[trigger] failed[b]).tier by {
                            assert(failed[b] == later[b - 1]);
                            if a > 0 {
                                assert(failed[a] == later[a - 1]);
                            }
                        }
                    },
                }
            },
            _ => {},
        }
    }
}

/// Splits off the first request.
proof fn lemma_batch_asked_first<K, V, E>(
    play: spec_fn(Seq<Reply<K, V, E>>) -> ReadManyMove<K, V, E>,
    next: spec_fn(Seq<Reply<K, V, E>>) -> ReadManyMove<K, V, E>,
    replies: Seq<Reply<K, V, E>>,
)
    requires
        replies.len() > 0,
        fits_by(play, replies),
        forall|s: Seq<Reply<K, V, E>>| #[trigger] next(s) == play(seq![replies[0]] + s),
    ensures
        batch_asked_by(play, replies).skip(1) == batch_asked_by(next, replies.skip(1)),
        fits_by(next, replies.skip(1)),
        play(replies) == next(replies.skip(1)),
{
    let rest = replies.skip(1);
    assert forall|i: int| 0 <= i < rest.len() implies next(#[trigger] rest.take(i)) == play(
        replies.take(i + 1),
    ) by {
        assert(seq![replies[0]] + rest.take(i) =~= replies.take(i + 1));
    }
    assert forall|i: int|
        #![trigger rest.take(i)]
        0 <= i < rest.len() implies next(rest.take(i)).fits(rest[i]) by {
        assert(next(rest.take(i)) == play(replies.take(i + 1)));
    }
    assert(batch_asked_by(play, replies).skip(1) =~= batch_asked_by(next, rest));
    assert(seq![replies[0]] + rest =~= replies);
}

/// The failures in a read report are exactly those of the tiers that were
/// asked and failed, one per tier, topmost first. A batch that fails as a
/// whole fails with the one tier that failed.
pub proof fn law_batched_read_reports_every_failure<K, V, E>(log: ReadManyLog<K, V, E>)
    requires
        log.sound(),
    ensures
        ({
            let failed = failed_probes(log.route, log.asked(), log.replies);
            &&& ascend_from(failed, 0)
            &&& log.step() matches ReadManyMove::Done(Ok((_, failures))) ==> failures == failed
            &&& log.step() matches ReadManyMove::Done(Err(trouble)) ==> {
                &&& log.route.policy.read.on_error == OnReadError::FailFast
                &&& failed.len() == 1
                &&& trouble == Trouble::Tier(failed[0])
            }
        }),
{
    let none = Seq::<Failure<E>>::empty();
    let statuses = Seq::new(log.keys.len(), |i: int| KeyStatus::<V>::Miss);
    let pending = Seq::new(log.keys.len(), |i: int| i);
    let play = batching::<K, V, E>(log.route, 0, statuses, pending, none);
    lemma_batch_history(log);
    assert(log.asked() =~= batch_asked_by(play, log.replies));
    lemma_failures_are_probes(log.route, 0, statuses, pending, none, log.replies);
    let failed = failed_probes(log.route, log.asked(), log.replies);
    assert(none + failed =~= failed);
}

/// Whether a read of one key by itself, and the report of the same read as a
/// batch of one key, say the same: the same value, the same confirmed or
/// unconfirmed absence with failures of the same tiers, or the failure of the
/// same tier.
pub open spec fn agree<V, E>(
    alone: Result<Option<V>, Trouble<E>>,
    reported: Result<(Seq<KeyStatus<V>>, Seq<Failure<E>>), Trouble<E>>,
) -> bool {
    match reported {
        Ok((statuses, failures)) => statuses.len() == 1 && match statuses[0] {
            KeyStatus::Hit { value, .. } => alone == Ok::<Option<V>, Trouble<E>>(Some(value)),
            KeyStatus::Miss => alone == Ok::<Option<V>, Trouble<E>>(None) && failures.len() == 0,
            KeyStatus::Inconclusive => alone matches Err(Trouble::Inconclusive(others))
                && tiers_of(failures) == tiers_of(others),
        },
        Err(Trouble::Tier(failure)) => alone matches Err(Trouble::Tier(other)) && failure.tier
            == other.tier,
        Err(_) => false,
    }
}

/// A read of one key with provenance agrees with a plain read of it, if the
/// tiers answer both from the same `snapshot`.
pub proof fn law_read_with_provenance_agrees_with_plain_read<K, V, E>(
    plain: GetLog<K, V, E>,
    batch: ReadManyLog<K, V, E>,
    snapshot: Seq<Option<Map<K, V>>>,
)
    requires
        plain.sound(),
        batch.sound(),
        batch.route == plain.route,
        batch.keys == seq![plain.key],
        plain.route.lanes.len() <= usize::MAX,
        snapshot.len() == plain.route.lanes.len(),
        forall|i: int|
            0 <= i < plain.replies.len() ==> ((
            #[trigger] plain.asked()[i], plain.replies[i]) matches (
                GetMove::Get { tier },
                Reply::Got(reply),
            ) ==> tells(snapshot[tier], plain.key, reply)),
        forall|i: int|
            0 <= i < batch.replies.len() ==> ((
            #[trigger] batch.asked()[i], batch.replies[i]) matches (
                ReadManyMove::GetMany { tier, pending },
                Reply::GotMany(reply),
            ) ==> tells_many(snapshot[tier], batch.keys, pending, reply)),
    ensures
        (plain.step(), batch.step()) matches (GetMove::Done(alone), ReadManyMove::Done(reported))
            ==> agree(alone, reported),
{
    law_read_returns_what_tiers_hold(plain, snapshot);
    law_batched_read_returns_what_tiers_hold(batch, snapshot);
    law_batched_read_is_honest_about_misses(batch);
    assert(batch.keys[0] == plain.key);
    if let ReadManyMove::Done(Err(trouble)) = batch.step() {
        if let Trouble::Tier(failure) = trouble {
            let j = choose|j: int|
                0 <= j < batch.keys.len() && find(
                    OnReadError::FailFast,
                    snapshot,
                    #[trigger] batch.keys[j],
                    0,
                    false,
                ) == Finding::<V>::Failed { tier: failure.tier };
            assert(j == 0);
        }
    }
}

/// Whether one of the topmost `upto` tiers answers and holds `key`.
pub open spec fn held_above<K, V>(
    snapshot: Seq<Option<Map<K, V>>>,
    key: K,
    upto: int,
) -> bool {
    exists|tier: int|
        0 <= tier < upto && (#[trigger] snapshot[tier] matches Some(contents)
            && contents.contains_key(key))
}

/// Whether `pending` lists, in the order of the request, exactly the keys
/// that no tier above `tier` holds.
pub open spec fn still_missing<K, V>(
    snapshot: Seq<Option<Map<K, V>>>,
    keys: Seq<K>,
    tier: int,
    pending: Seq<int>,
) -> bool {
    &&& forall|a: int, b: int| 0 <= a < b < pending.len() ==> pending[a] < pending[b]
    &&& batch::within(pending, keys.len() as int)
    &&& forall|j: int|
        0 <= j < keys.len() ==> (pending.contains(j) <==> !held_above(
            snapshot,
            #[trigger] keys[j],
            tier,
        ))
}

pub(crate) proof fn lemma_missing_ascends<V>(pending: Seq<int>, found: Seq<Option<V>>, upto: int)
    requires
        forall|a: int, b: int| 0 <= a < b < pending.len() ==> pending[a] < pending[b],
        0 <= upto <= pending.len(),
    ensures
        ({
            let left = batch::missing(pending, found, upto);
            &&& forall|a: int, b: int| 0 <= a < b < left.len() ==> left[a] < left[b]
            &&& forall|a: int| 0 <= a < left.len() && upto < pending.len() ==> #[trigger] left[a]
                < pending[upto]
        }),
    decreases upto,
{
    if upto > 0 {
        lemma_missing_ascends(pending, found, upto - 1);
        let before = batch::missing(pending, found, upto - 1);
        let left = batch::missing(pending, found, upto);
        assert(left == if found[upto - 1] is Some {
            before
        } else {
            before.push(pending[upto - 1])
        });
        assert forall|a: int| 0 <= a < left.len() && upto < pending.len() implies #[trigger] left[a]
            < pending[upto] by {
            assert(pending[upto - 1] < pending[upto]);
        }
    }
}

/// Learning an honest answer leaves exactly the keys missing that this tier
/// does not hold either.
proof fn lemma_still_missing<K, V, E>(
    snapshot: Seq<Option<Map<K, V>>>,
    keys: Seq<K>,
    tier: int,
    pending: Seq<int>,
    found: Seq<Option<V>>,
)
    requires
        0 <= tier,
        still_missing(snapshot, keys, tier, pending),
        tells_many(snapshot[tier], keys, pending, Ok::<Seq<Option<V>>, E>(found)),
    ensures
        still_missing(
            snapshot,
            keys,
            tier + 1,
            batch::missing(pending, found, pending.len() as int),
        ),
{
    let upto = pending.len() as int;
    let left = batch::missing(pending, found, upto);
    let statuses = Seq::new(keys.len(), |i: int| KeyStatus::<V>::Miss);
    let contents = snapshot[tier]->0;
    lemma_missing_ascends(pending, found, upto);
    lemma_learned(statuses, pending, tier, found, upto);
    assert forall|j: int| 0 <= j < keys.len() implies (left.contains(j) <==> !held_above(
        snapshot,
        #[trigger] keys[j],
        tier + 1,
    )) by {
        if left.contains(j) {
            let p = choose|p: int| 0 <= p < upto && #[trigger] pending[p] == j && found[p] is None;
            assert(pending.contains(j));
            assert(!contents.contains_key(keys[j]));
        } else if pending.contains(j) {
            let p = choose|p: int| 0 <= p < upto && pending[p] == j;
            assert(pending[p] == j);
            assert(found[p] is Some);
            assert(snapshot[tier] matches Some(c) && c.contains_key(keys[j]));
        } else {
            let above = choose|above: int|
                0 <= above < tier && (#[trigger] snapshot[above] matches Some(c)
                    && c.contains_key(keys[j]));
            assert(snapshot[above] matches Some(c) && c.contains_key(keys[j]));
        }
    }
}

proof fn lemma_asks<K, V, E>(
    route: Route,
    tier: int,
    statuses: Seq<KeyStatus<V>>,
    pending: Seq<int>,
    failures: Seq<Failure<E>>,
    snapshot: Seq<Option<Map<K, V>>>,
    keys: Seq<K>,
    replies: Seq<Reply<K, V, E>>,
)
    requires
        0 <= tier <= route.lanes.len(),
        still_missing(snapshot, keys, tier, pending),
        fits_by(batching(route, tier, statuses, pending, failures), replies),
        told_many_by(batching(route, tier, statuses, pending, failures), snapshot, keys, replies),
    ensures
        batching(route, tier, statuses, pending, failures)(replies) matches ReadManyMove::GetMany {
            tier: asked,
            pending: missing,
        } ==> {
            &&& tier <= asked < route.lanes.len()
            &&& missing.len() > 0
            &&& still_missing(snapshot, keys, asked, missing)
        },
    decreases route.lanes.len() - tier,
{
    let play = batching::<K, V, E>(route, tier, statuses, pending, failures);
    if tier >= route.lanes.len() || pending.len() == 0 {
        let st = batch::settled(statuses, pending, failures);
        lemma_promote_many_result(route, st, failures, 1, 0, replies);
    } else if replies.len() > 0 {
        let reply = replies[0];
        let rest = replies.skip(1);
        assert(replies.take(0) =~= Seq::empty());
        assert(play(replies.take(0)).fits(reply));
        assert(play(Seq::empty()) == ReadManyMove::<K, V, E>::GetMany { tier, pending });
        match reply {
            Reply::GotMany(Ok(found)) => {
                let upto = pending.len() as int;
                let after = batch::resolved(statuses, pending, tier, found, upto);
                let left = batch::missing(pending, found, upto);
                let next = batching::<K, V, E>(route, tier + 1, after, left, failures);
                assert forall|s: Seq<Reply<K, V, E>>| #[trigger] next(s) == play(
                    seq![reply] + s,
                ) by {
                    assert((seq![reply] + s).skip(1) =~= s);
                }
                lemma_told_many_first(play, next, snapshot, keys, replies);
                lemma_still_missing::<K, V, E>(snapshot, keys, tier, pending, found);
                lemma_asks(route, tier + 1, after, left, failures, snapshot, keys, rest);
            },
            Reply::GotMany(Err(source)) => {
                if route.policy.read.on_error == OnReadError::FallThrough {
                    let more = failures.push(route.failure(tier, source));
                    let next = batching::<K, V, E>(route, tier + 1, statuses, pending, more);
                    assert forall|s: Seq<Reply<K, V, E>>| #[trigger] next(s) == play(
                        seq![reply] + s,
                    ) by {
                        assert((seq![reply] + s).skip(1) =~= s);
                    }
                    lemma_told_many_first(play, next, snapshot, keys, replies);
                    assert(tells_many(snapshot[tier], keys, pending, Err(source)));
                    assert forall|j: int| 0 <= j < keys.len() implies (pending.contains(j)
                        <==> !held_above(snapshot, #[trigger] keys[j], tier + 1)) by {
                        if held_above(snapshot, keys[j], tier) {
                            let above = choose|above: int|
                                0 <= above < tier && (#[trigger] snapshot[above] matches Some(c)
                                    && c.contains_key(keys[j]));
                            assert(snapshot[above] matches Some(c) && c.contains_key(keys[j]));
                        }
                    }
                    lemma_asks(
                        route,
                        tier + 1,
                        statuses,
                        pending,
                        more,
                        snapshot,
                        keys,
                        rest,
                    );
                }
            },
            _ => {},
        }
    }
}

/// A batched read asks each lower tier only for the keys still missing: if
/// every probe is answered from `snapshot`, the keys it asks a tier for are
/// exactly those that no tier above holds, in the order of the request, and
/// there is at least one.
pub proof fn law_batched_read_asks_only_for_missing_keys<K, V, E>(
    log: ReadManyLog<K, V, E>,
    snapshot: Seq<Option<Map<K, V>>>,
)
    requires
        log.sound(),
        snapshot.len() == log.route.lanes.len(),
        forall|i: int|
            0 <= i < log.replies.len() ==> ((#[trigger] log.asked()[i], log.replies[i]) matches (
                ReadManyMove::GetMany { tier, pending },
                Reply::GotMany(reply),
            ) ==> tells_many(snapshot[tier], log.keys, pending, reply)),
    ensures
        log.step() matches ReadManyMove::GetMany { tier, pending } ==> {
            &&& 0 <= tier < log.route.lanes.len()
            &&& pending.len() > 0
            &&& still_missing(snapshot, log.keys, tier, pending)
        },
{
    let none = Seq::<Failure<E>>::empty();
    let statuses = Seq::new(log.keys.len(), |i: int| KeyStatus::<V>::Miss);
    let pending = Seq::new(log.keys.len(), |i: int| i);
    let play = batching::<K, V, E>(log.route, 0, statuses, pending, none);
    lemma_batch_history(log);
    assert(told_many_by(play, snapshot, log.keys, log.replies)) by {
        assert forall|i: int|
            #![trigger log.replies.take(i)]
            0 <= i < log.replies.len() implies ((play(log.replies.take(i)), log.replies[i]) matches (
            ReadManyMove::GetMany { tier, pending },
            Reply::GotMany(reply),
        ) ==> tells_many(snapshot[tier], log.keys, pending, reply)) by {
            assert(log.asked()[i] == play(log.replies.take(i)));
        }
    }
    assert forall|j: int| 0 <= j < log.keys.len() implies pending.contains(j) by {
        assert(pending[j] == j);
    }
    lemma_asks(log.route, 0, statuses, pending, none, snapshot, log.keys, log.replies);
}

/// A batched read owns up to what it does not know: a report without tier
/// failures has no inconclusive status, and one with failures has no status
/// that claims a confirmed miss.
pub proof fn law_batched_read_is_honest_about_misses<K, V, E>(log: ReadManyLog<K, V, E>)
    requires
        log.sound(),
        log.route.lanes.len() <= usize::MAX,
    ensures
        log.step() matches ReadManyMove::Done(Ok((statuses, failures))) ==> {
            &&& statuses.len() == log.keys.len()
            &&& failures.len() == 0 ==> forall|j: int|
                0 <= j < statuses.len() ==> !(#[trigger] statuses[j] is Inconclusive)
            &&& failures.len() > 0 ==> forall|j: int|
                0 <= j < statuses.len() ==> !(#[trigger] statuses[j] is Miss)
        },
{
    let statuses = Seq::new(log.keys.len(), |i: int| KeyStatus::<V>::Miss);
    let pending = Seq::new(log.keys.len(), |i: int| i);
    let snapshot = Seq::new(log.route.lanes.len(), |i: int| None::<Map<K, V>>);
    lemma_batch_history(log);
    lemma_probe_many(
        log.route,
        0,
        statuses,
        pending,
        Seq::<Failure<E>>::empty(),
        snapshot,
        log.keys,
        log.replies,
    );
}

/// A batched read writes only to promote: the entries that one tier served
/// are copied together into a writable tier above it, as far as the policy
/// reaches, and displaced entries sink into writable tiers if the policy says
/// so. Without promotion it writes nothing.
pub proof fn law_batched_reads_only_promote<K, V, E>(log: ReadManyLog<K, V, E>)
    ensures
        match log.step() {
            ReadManyMove::Promote { tier, hits } => log.route.writable(tier) && (
            log.statuses() matches Some(statuses) && copies_hits(
                log.route,
                statuses,
                1,
                tier,
                hits,
            )),
            ReadManyMove::Demote { tier, .. } => log.route.writable(tier)
                && log.route.policy.demote_displaced && log.route.policy.read.promote
                != Promote::Never,
            _ => true,
        },
{
    if let Probed::Resolved { statuses, failures, rest } = log.probed() {
        lemma_promote_many_result(log.route, statuses, failures, 1, 0, rest);
    }
}

} // verus!
