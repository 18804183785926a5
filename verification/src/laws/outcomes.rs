//! What operations return, said of the answers that the tiers gave.
use vstd::prelude::*;

use crate::cache::{LoadLog, LoadReply, LoadStep};
use crate::delete;
use crate::delete::{DeleteLog, DeleteMove, RemoveLog, RemoveMove};
use crate::error::{Failure, Trouble};
use crate::fetch;
use crate::fetch::{ExistsLog, ExistsMove, GetLog, GetMove};
use crate::laws::cache;
use crate::laws::rolling;
use crate::policy::{OnReadError, OnWriteError, Promote, WriteMode};
use crate::read::{Probe, ReadOutcome, ReadProgress, ReadStep};
use crate::rollover;
use crate::rollover::{Reply, Rolled};
use crate::router::Route;
use crate::write::{WriteLog, WriteMove};

verus! {

/// Whether `failures` are those that `failed` tells of, each with its tier's
/// number and name, topmost first: all of them, once, and no others.
pub open spec fn are_the_failures<E>(
    route: Route,
    failures: Seq<Failure<E>>,
    failed: spec_fn(int, E) -> bool,
) -> bool {
    &&& forall|a: int, b: int|
        0 <= a < b < failures.len() ==> (#[trigger] failures[a]).tier < (
        #[trigger] failures[b]).tier
    &&& forall|k: int|
        0 <= k < failures.len() ==> {
            let failure = #[trigger] failures[k];
            &&& 0 <= failure.tier < route.lanes.len()
            &&& failure.name == route.lanes[failure.tier].name
            &&& failed(failure.tier, failure.source)
        }
    &&& forall|tier: int, source: E| #[trigger]
        failed(tier, source) ==> exists|k: int|
            0 <= k < failures.len() && (#[trigger] failures[k]).tier == tier && failures[k].source
                == source
}

/// The tier that a delete asked for the `i`-th time.
pub open spec fn deleted_at<K, E>(log: DeleteLog<K, E>, i: int) -> int {
    match log.prefix(i).step() {
        DeleteMove::Delete { tier } => tier,
        DeleteMove::Done(_) => -1,
    }
}

/// The tier that a batched delete asked for the `i`-th time.
pub open spec fn removed_at<K, E>(log: RemoveLog<K, E>, i: int) -> int {
    match log.prefix(i).step() {
        RemoveMove::DeleteMany { tier } => tier,
        RemoveMove::Done { .. } => -1,
    }
}

/// Whether `tiers` are the writable tiers among the topmost `below`, in
/// order.
pub open spec fn are_the_writable(route: Route, tiers: Seq<int>, below: int) -> bool {
    &&& forall|a: int, b: int|
        0 <= a < b < tiers.len() ==> (#[trigger] tiers[a]) < (#[trigger] tiers[b])
    &&& forall|i: int|
        0 <= i < tiers.len() ==> rolling::open_to_writes(route, #[trigger] tiers[i]) && tiers[i]
            < below
    &&& forall|t: int| #[trigger]
        rolling::open_to_writes(route, t) && t < below ==> tiers.contains(t)
}

/// The failures among answers of writable tiers.
proof fn lemma_failures_at<A, E>(
    route: Route,
    replies: Seq<Result<A, E>>,
    failed: spec_fn(int, E) -> bool,
)
    requires
        replies.len() <= route.writables(route.lanes.len() as int).len(),
        forall|tier: int, source: E| #[trigger]
            failed(tier, source) <==> exists|i: int|
                0 <= i < replies.len() && route.writables(route.lanes.len() as int)[i] == tier
                    && #[trigger] replies[i] == Err::<A, E>(source),
    ensures
        are_the_failures(route, delete::failures_at(route, replies), failed),
    decreases replies.len(),
{
    let tiers = route.writables(route.lanes.len() as int);
    route.lemma_writables(route.lanes.len() as int);
    let failures = delete::failures_at(route, replies);
    if replies.len() > 0 {
        let rest = replies.drop_last();
        let last = replies.len() - 1;
        let before = delete::failures_at(route, rest);
        let earlier = |tier: int, source: E|
            exists|i: int|
                0 <= i < rest.len() && tiers[i] == tier && #[trigger] rest[i] == Err::<A, E>(
                    source,
                );
        lemma_failures_at(route, rest, earlier);
        assert(route.writable(tiers[last]));
        assert forall|k: int| 0 <= k < before.len() implies (#[trigger] before[k]).tier
            < tiers[last] && failed(before[k].tier, before[k].source) by {
            assert(earlier(before[k].tier, before[k].source));
            let i = choose|i: int|
                0 <= i < rest.len() && tiers[i] == before[k].tier && #[trigger] rest[i] == Err::<
                    A,
                    E,
                >(before[k].source);
            assert(replies[i] == rest[i]);
            assert(tiers[i] < tiers[last]);
        }
        if let Err(source) = replies.last() {
            assert(replies[last] == Err::<A, E>(source));
            assert(failed(tiers[last], source));
            assert forall|k: int| 0 <= k < failures.len() implies {
                let failure = #[trigger] failures[k];
                &&& 0 <= failure.tier < route.lanes.len()
                &&& failure.name == route.lanes[failure.tier].name
                &&& failed(failure.tier, failure.source)
            } by {
                if k < before.len() {
                    assert(failures[k] == before[k]);
                }
            }
        } else {
            assert(failures == before);
        }
        assert forall|tier: int, source: E| #[trigger] failed(tier, source) implies exists|k: int|
            0 <= k < failures.len() && (#[trigger] failures[k]).tier == tier && failures[k].source
                == source by {
            let i = choose|i: int|
                0 <= i < replies.len() && tiers[i] == tier && #[trigger] replies[i] == Err::<A, E>(
                    source,
                );
            if i < last {
                assert(rest[i] == replies[i]);
                assert(earlier(tier, source));
                let k = choose|k: int|
                    0 <= k < before.len() && (#[trigger] before[k]).tier == tier
                        && before[k].source == source;
                assert(failures[k] == before[k]);
            } else {
                assert(failures[before.len() as int].tier == tier);
            }
        }
    }
}

/// A delete asks every writable tier once, topmost first, whatever the tiers
/// answer. It ends well exactly if none failed, and then tells whether some
/// tier held the key; otherwise it names the tiers that failed, with what
/// each reported.
pub proof fn law_delete_tells_what_the_tiers_answered<K, E>(log: DeleteLog<K, E>)
    requires
        log.sound(),
    ensures
        ({
            let asked = Seq::new(log.replies.len(), |i: int| deleted_at(log, i));
            let failed = |tier: int, source: E|
                exists|i: int|
                    0 <= i < log.replies.len() && deleted_at(log, i) == tier
                        && #[trigger] log.replies[i] == Err::<bool, E>(source);
            match log.step() {
                DeleteMove::Delete { tier } => are_the_writable(log.route, asked, tier)
                    && rolling::open_to_writes(log.route, tier),
                DeleteMove::Done(result) => {
                    &&& are_the_writable(log.route, asked, log.route.lanes.len() as int)
                    &&& match result {
                        Ok(existed) => {
                            &&& forall|i: int|
                                0 <= i < log.replies.len() ==> (#[trigger] log.replies[i]) is Ok
                            &&& existed == exists|i: int|
                                0 <= i < log.replies.len() && #[trigger] log.replies[i] == Ok::<
                                    bool,
                                    E,
                                >(true)
                        },
                        Err(trouble) => {
                            &&& trouble matches Trouble::Partial(failures)
                            &&& failures.len() > 0
                            &&& are_the_failures(log.route, failures, failed)
                        },
                    }
                },
            }
        }),
{
    let route = log.route;
    let n = route.lanes.len() as int;
    let tiers = route.writables(n);
    let asked = Seq::new(log.replies.len(), |i: int| deleted_at(log, i));
    route.lemma_writables(n);
    if log.replies.len() > 0 {
        assert(log.prefix(log.replies.len() - 1).step() is Delete);
    }
    assert forall|i: int| 0 <= i < log.replies.len() implies #[trigger] deleted_at(log, i)
        == tiers[i] by {
        assert(log.prefix(i).step() is Delete);
    }
    assert(asked =~= tiers.take(log.replies.len() as int));
    lemma_listed(route, log.replies.len() as int);
    let failed = |tier: int, source: E|
        exists|i: int|
            0 <= i < log.replies.len() && deleted_at(log, i) == tier && #[trigger] log.replies[i]
                == Err::<bool, E>(source);
    assert forall|tier: int, source: E| #[trigger] failed(tier, source) <==> exists|i: int|
        0 <= i < log.replies.len() && tiers[i] == tier && #[trigger] log.replies[i] == Err::<
            bool,
            E,
        >(source) by {
        if failed(tier, source) {
            let i = choose|i: int|
                0 <= i < log.replies.len() && deleted_at(log, i) == tier
                    && #[trigger] log.replies[i] == Err::<bool, E>(source);
            assert(tiers[i] == tier);
        }
        if exists|i: int|
            0 <= i < log.replies.len() && tiers[i] == tier && #[trigger] log.replies[i] == Err::<
                bool,
                E,
            >(source) {
            let i = choose|i: int|
                0 <= i < log.replies.len() && tiers[i] == tier && #[trigger] log.replies[i] == Err::<
                    bool,
                    E,
                >(source);
            assert(deleted_at(log, i) == tier);
        }
    }
    lemma_failures_at(route, log.replies, failed);
    let failures = delete::failures_at(route, log.replies);
    if failures.len() == 0 {
        assert forall|i: int| 0 <= i < log.replies.len() implies (
        #[trigger] log.replies[i]) is Ok by {
            if let Err(source) = log.replies[i] {
                assert(deleted_at(log, i) == tiers[i]);
                assert(failed(tiers[i], source));
            }
        }
    }
}

/// The first `count` writable tiers are those above the next one.
proof fn lemma_listed(route: Route, count: int)
    requires
        0 <= count <= route.writables(route.lanes.len() as int).len(),
    ensures
        ({
            let tiers = route.writables(route.lanes.len() as int);
            are_the_writable(
                route,
                tiers.take(count),
                if count < tiers.len() {
                    tiers[count]
                } else {
                    route.lanes.len() as int
                },
            )
        }),
        count < route.writables(route.lanes.len() as int).len() ==> rolling::open_to_writes(
            route,
            route.writables(route.lanes.len() as int)[count],
        ),
{
    let n = route.lanes.len() as int;
    let tiers = route.writables(n);
    let some = tiers.take(count);
    route.lemma_writables(n);
    let below = if count < tiers.len() {
        tiers[count]
    } else {
        n
    };
    assert forall|i: int| 0 <= i < some.len() implies rolling::open_to_writes(
        route,
        #[trigger] some[i],
    ) && some[i] < below by {
        assert(route.writable(tiers[i]));
    }
    assert forall|t: int| #[trigger]
        rolling::open_to_writes(route, t) && t < below implies some.contains(t) by {
        assert(route.writable(t));
        assert(tiers.contains(t));
        let i = choose|i: int| 0 <= i < tiers.len() && tiers[i] == t;
        if i >= count {
            assert(count < tiers.len());
        }
        assert(some[i] == t);
    }
    if count < tiers.len() {
        assert(route.writable(tiers[count]));
    }
}

/// A batched delete asks every writable tier once, topmost first, whatever the
/// tiers answer. Per key it tells whether some tier that answered held it,
/// whether or not other tiers failed; and it names the tiers that failed,
/// with what each reported.
pub proof fn law_batched_delete_tells_what_the_tiers_answered<K, E>(log: RemoveLog<K, E>)
    requires
        log.sound(),
    ensures
        ({
            let asked = Seq::new(log.replies.len(), |i: int| removed_at(log, i));
            let failed = |tier: int, source: E|
                exists|i: int|
                    0 <= i < log.replies.len() && removed_at(log, i) == tier
                        && #[trigger] log.replies[i] == Err::<Seq<bool>, E>(source);
            match log.step() {
                RemoveMove::DeleteMany { tier } => are_the_writable(log.route, asked, tier)
                    && rolling::open_to_writes(log.route, tier),
                RemoveMove::Done { removed, failures } => {
                    &&& are_the_writable(log.route, asked, log.route.lanes.len() as int)
                    &&& removed.len() == log.keys.len()
                    &&& forall|j: int|
                        0 <= j < removed.len() ==> (#[trigger] removed[j] <==> exists|i: int|
                            0 <= i < log.replies.len() && (#[trigger] log.replies[i] matches Ok(
                                flags,
                            ) && j < flags.len() && flags[j]))
                    &&& are_the_failures(log.route, failures, failed)
                },
            }
        }),
{
    let route = log.route;
    let n = route.lanes.len() as int;
    let tiers = route.writables(n);
    let asked = Seq::new(log.replies.len(), |i: int| removed_at(log, i));
    route.lemma_writables(n);
    if log.replies.len() > 0 {
        assert(log.prefix(log.replies.len() - 1).step() is DeleteMany);
    }
    assert forall|i: int| 0 <= i < log.replies.len() implies #[trigger] removed_at(log, i)
        == tiers[i] by {
        assert(log.prefix(i).step() is DeleteMany);
    }
    assert(asked =~= tiers.take(log.replies.len() as int));
    lemma_listed(route, log.replies.len() as int);
    let failed = |tier: int, source: E|
        exists|i: int|
            0 <= i < log.replies.len() && removed_at(log, i) == tier && #[trigger] log.replies[i]
                == Err::<Seq<bool>, E>(source);
    assert forall|tier: int, source: E| #[trigger] failed(tier, source) <==> exists|i: int|
        0 <= i < log.replies.len() && tiers[i] == tier && #[trigger] log.replies[i] == Err::<
            Seq<bool>,
            E,
        >(source) by {
        if failed(tier, source) {
            let i = choose|i: int|
                0 <= i < log.replies.len() && removed_at(log, i) == tier
                    && #[trigger] log.replies[i] == Err::<Seq<bool>, E>(source);
            assert(tiers[i] == tier);
        }
        if exists|i: int|
            0 <= i < log.replies.len() && tiers[i] == tier && #[trigger] log.replies[i] == Err::<
                Seq<bool>,
                E,
            >(source) {
            let i = choose|i: int|
                0 <= i < log.replies.len() && tiers[i] == tier && #[trigger] log.replies[i] == Err::<
                    Seq<bool>,
                    E,
                >(source);
            assert(removed_at(log, i) == tier);
        }
    }
    lemma_failures_at(route, log.replies, failed);
    if let RemoveMove::Done { removed, .. } = log.step() {
        assert forall|j: int| 0 <= j < removed.len() implies (#[trigger] removed[j] <==> exists|
            i: int,
        |
            0 <= i < log.replies.len() && (#[trigger] log.replies[i] matches Ok(flags) && j
                < flags.len() && flags[j])) by {
            if removed[j] {
                let i = choose|i: int|
                    0 <= i < log.replies.len() && #[trigger] delete::flagged(log.replies[i], j);
                assert(log.replies[i] is Ok);
            }
            if exists|i: int|
                0 <= i < log.replies.len() && (#[trigger] log.replies[i] matches Ok(flags) && j
                    < flags.len() && flags[j]) {
                let i = choose|i: int|
                    0 <= i < log.replies.len() && (#[trigger] log.replies[i] matches Ok(flags) && j
                        < flags.len() && flags[j]);
                assert(delete::flagged(log.replies[i], j));
            }
        }
    }
}

pub(crate) proof fn lemma_failures_among<A, E>(
    route: Route,
    replies: Seq<Result<A, E>>,
    failed: spec_fn(int, E) -> bool,
)
    requires
        replies.len() <= route.lanes.len(),
        forall|tier: int, source: E| #[trigger]
            failed(tier, source) <==> 0 <= tier < replies.len() && replies[tier] == Err::<A, E>(
                source,
            ),
    ensures
        are_the_failures(route, fetch::failures_among(route, replies), failed),
    decreases replies.len(),
{
    let failures = fetch::failures_among(route, replies);
    if replies.len() > 0 {
        let rest = replies.drop_last();
        let before = fetch::failures_among(route, rest);
        let earlier = |tier: int, source: E|
            0 <= tier < rest.len() && rest[tier] == Err::<A, E>(source);
        lemma_failures_among(route, rest, earlier);
        assert forall|tier: int, source: E| #[trigger] failed(tier, source) implies exists|k: int|
            0 <= k < failures.len() && (#[trigger] failures[k]).tier == tier && failures[k].source
                == source by {
            if tier < rest.len() {
                assert(rest[tier] == Err::<A, E>(source));
                assert(earlier(tier, source));
                let k = choose|k: int|
                    0 <= k < before.len() && (#[trigger] before[k]).tier == tier
                        && before[k].source == source;
                assert(failures[k] == before[k]);
            } else {
                assert(failures[before.len() as int].tier == tier);
            }
        }
        assert forall|k: int| 0 <= k < failures.len() implies {
            let failure = #[trigger] failures[k];
            &&& 0 <= failure.tier < route.lanes.len()
            &&& failure.name == route.lanes[failure.tier].name
            &&& failed(failure.tier, failure.source)
        } by {
            if k < before.len() {
                assert(failures[k] == before[k]);
                assert(earlier(before[k].tier, before[k].source));
            }
        }
        assert forall|k: int| 0 <= k < before.len() implies (#[trigger] before[k]).tier
            < rest.len() by {
            assert(earlier(before[k].tier, before[k].source));
        }
    }
}

/// An existence check asks the tiers top-down, as long as none holds the key,
/// and stops at the first failure if the policy says so. It confirms a key
/// that the last tier asked holds; it denies one only if every tier answered
/// that it does not hold it; and otherwise it names the tiers that failed,
/// with what each reported.
pub proof fn law_existence_check_tells_what_the_tiers_answered<K, E>(log: ExistsLog<K, E>)
    requires
        log.sound(),
    ensures
        ({
            let asked = log.replies.len() as int;
            let all = log.route.lanes.len();
            let failed = |tier: int, source: E|
                0 <= tier < asked && log.replies[tier] == Err::<bool, E>(source);
            let fails_fast = log.route.policy.read.on_error == OnReadError::FailFast;
            &&& asked <= all
            &&& forall|i: int|
                0 <= i < asked - 1 ==> match #[trigger] log.replies[i] {
                    Ok(present) => !present,
                    Err(_) => !fails_fast,
                }
            &&& match log.step() {
                ExistsMove::Exists { tier } => tier == asked < all && (asked > 0
                    ==> match log.replies[asked - 1] {
                    Ok(present) => !present,
                    Err(_) => !fails_fast,
                }),
                ExistsMove::Done(Ok(true)) => asked > 0 && log.replies[asked - 1] == Ok::<bool, E>(
                    true,
                ),
                ExistsMove::Done(Ok(false)) => asked == all && forall|i: int|
                    0 <= i < asked ==> #[trigger] log.replies[i] == Ok::<bool, E>(false),
                ExistsMove::Done(Err(Trouble::Inconclusive(failures))) => {
                    &&& asked == all
                    &&& !fails_fast
                    &&& failures.len() > 0
                    &&& are_the_failures(log.route, failures, failed)
                    &&& forall|i: int|
                        0 <= i < asked ==> #[trigger] log.replies[i] != Ok::<bool, E>(true)
                },
                ExistsMove::Done(Err(Trouble::Tier(failure))) => {
                    &&& fails_fast
                    &&& asked > 0
                    &&& failure.tier == asked - 1
                    &&& failure.name == log.route.lanes[asked - 1].name
                    &&& log.replies[asked - 1] == Err::<bool, E>(failure.source)
                },
                ExistsMove::Done(Err(_)) => false,
            }
        }),
{
    let asked = log.replies.len() as int;
    assert forall|i: int| 0 <= i < asked - 1 implies match #[trigger] log.replies[i] {
        Ok(present) => !present,
        Err(_) => log.route.policy.read.on_error != OnReadError::FailFast,
    } by {
        let early = log.prefix(i + 1);
        assert(early.step() is Exists);
        assert(early.replies[i] == log.replies[i]);
    }
    if asked > 0 {
        assert(log.prefix(asked - 1).step() is Exists);
    }
    let failed = |tier: int, source: E|
        0 <= tier < asked && log.replies[tier] == Err::<bool, E>(source);
    lemma_failures_among(log.route, log.replies, failed);
    let failures = fetch::failures_among(log.route, log.replies);
    if failures.len() == 0 {
        assert forall|i: int| 0 <= i < asked implies (#[trigger] log.replies[i]) is Ok by {
            if let Err(source) = log.replies[i] {
                assert(failed(i, source));
            }
        }
        if log.step() == ExistsMove::<E>::Done(Ok(false)) {
            assert forall|i: int| 0 <= i < asked implies #[trigger] log.replies[i] == Ok::<
                bool,
                E,
            >(false) by {
                assert(log.replies[i] is Ok);
                if let Ok(present) = log.replies[i] {
                    if present && i == asked - 1 {
                        assert(log.replies[asked - 1] == Ok::<bool, E>(true));
                    }
                    assert(!present);
                }
            }
        }
    } else {
        let failure = failures[0];
        assert(failed(failure.tier, failure.source));
    }
}

/// How far up a hit in tier `hit` is to be copied.
pub open spec fn due(promote: Promote, hit: int, tier: int) -> bool {
    match promote {
        Promote::Never => false,
        Promote::TopOnly => tier == 0 && hit > 0,
        Promote::AllAbove => 0 <= tier < hit,
    }
}

/// A read flow probes the tiers top-down until one has the key, or fails under
/// a policy that stops there, or all were probed. Then it copies a hit into
/// the tiers that are due, topmost first, and ends with the outcome that the
/// probes call for.
pub proof fn law_read_flow_follows_its_probes(progress: ReadProgress)
    requires
        progress.tiers <= usize::MAX,
        progress.probes.len() <= progress.tiers,
        0 <= progress.promoted <= progress.tiers,
        forall|i: int|
            0 <= i < progress.probes.len() - 1 ==> match #[trigger] progress.probes[i] {
                Probe::Hit => false,
                Probe::Miss => true,
                Probe::Error => progress.policy.on_error == OnReadError::FallThrough,
            },
    ensures
        ({
            let probed = progress.probes.len() as int;
            let last = progress.probes[probed - 1];
            let fails_fast = progress.policy.on_error == OnReadError::FailFast;
            match progress.step() {
                ReadStep::Get { tier } => {
                    &&& tier == probed < progress.tiers
                    &&& probed > 0 ==> last != Probe::Hit && (last == Probe::Error ==> !fails_fast)
                },
                ReadStep::Promote { tier } => {
                    &&& probed > 0 && last == Probe::Hit
                    &&& tier == progress.promoted
                    &&& due(progress.policy.promote, probed - 1, tier as int)
                },
                ReadStep::Done(ReadOutcome::Hit { tier }) => {
                    &&& probed > 0 && last == Probe::Hit
                    &&& tier == probed - 1
                    &&& forall|t: int|
                        progress.promoted <= t ==> !(#[trigger] due(
                            progress.policy.promote,
                            tier as int,
                            t,
                        ))
                },
                ReadStep::Done(ReadOutcome::Failed { tier }) => {
                    &&& fails_fast
                    &&& probed > 0 && last == Probe::Error
                    &&& tier == probed - 1
                },
                ReadStep::Done(ReadOutcome::Miss) => probed == progress.tiers && forall|i: int|
                    0 <= i < probed ==> #[trigger] progress.probes[i] == Probe::Miss,
                ReadStep::Done(ReadOutcome::Inconclusive) => {
                    &&& !fails_fast
                    &&& probed == progress.tiers
                    &&& probed > 0 ==> last != Probe::Hit
                    &&& exists|i: int|
                        0 <= i < probed && #[trigger] progress.probes[i] == Probe::Error
                },
            }
        }),
{
    let probes = progress.probes;
    let probed = probes.len() as int;
    if probes.contains(Probe::Error) {
        let i = choose|i: int| 0 <= i < probes.len() && probes[i] == Probe::Error;
        assert(probes[i] == Probe::Error);
    } else {
        assert forall|i: int| 0 <= i < probed implies #[trigger] probes[i] != Probe::Error by {
            assert(probes.contains(probes[i]));
        }
    }
}

/// A read-through with a loader, from start to end. If the first probe finds a
/// value, that is all. Otherwise, with coalescing, it takes the lock and
/// probes once more, and whatever happens then it gives the lock back at the
/// end. If that probe finds nothing either the loader runs, once; a value
/// that it returns is offered to the tiers before anything else happens, and
/// an error is not. A failed probe counts as one that found nothing.
pub proof fn law_load_from_start_to_end<K, V, E, L>(log: LoadLog<K, V, E, L>)
    requires
        log.sound(),
        log.step() is Done,
    ensures
        ({
            let r = log.replies;
            let start = if log.coalesced {
                3int
            } else {
                1
            };
            let end = if log.coalesced {
                r.len() - 1
            } else {
                r.len() as int
            };
            &&& log.step() matches LoadStep::Done(result)
            &&& r.len() > 0 && r[0] is Probed
            &&& match r[0].hit() {
                Some(value) => r.len() == 1 && result == Ok::<V, L>(value),
                None => {
                    &&& log.coalesced ==> {
                        &&& r.len() >= 4
                        &&& r[1] is Acquired
                        &&& r[2] is Probed
                        &&& r[r.len() - 1] is Released
                    }
                    &&& if log.coalesced && r[2].hit() is Some {
                        end == 3 && result == Ok::<V, L>(r[2].hit()->0)
                    } else {
                        &&& end > start
                        &&& r[start] == LoadReply::<V, E, L>::Loaded(result)
                        &&& result is Ok ==> end == start + 2 && r[start + 1] is Filled
                        &&& result is Err ==> end == start + 1
                    }
                },
            }
        }),
{
    cache::lemma_shaped(log);
    let r = log.replies;
    let n = r.len() as int;
    if n >= 3 {
        assert forall|k: int| 0 <= k < n - 3 implies #[trigger] r.skip(3)[k] == r[k + 3] by {}
    }
    if n >= 1 {
        assert forall|k: int| 0 <= k < n - 1 implies #[trigger] r.skip(1)[k] == r[k + 1] by {}
    }
}

/// Whether an answer says that a tier does not have the key, or that it failed
/// under a policy that goes on.
pub open spec fn passes_on<K, V, E>(route: Route, reply: Reply<K, V, E>) -> bool {
    match reply {
        Reply::Got(Ok(found)) => found is None,
        Reply::Got(Err(_)) => route.policy.read.on_error == OnReadError::FallThrough,
        _ => false,
    }
}

/// Where a read that goes on stands: every tier above `tier` passed on.
spec fn passed<K, V, E>(log: GetLog<K, V, E>, tier: int, failures: Seq<Failure<E>>) -> bool {
    &&& 0 <= tier <= log.replies.len()
    &&& tier <= log.route.lanes.len()
    &&& forall|i: int|
        0 <= i < tier ==> passes_on(log.route, #[trigger] log.replies[i]) && log.asked()[i]
            == (GetMove::<K, V, E>::Get { tier: i })
    &&& failures == fetch::failures_among(log.route, gets(log.replies.take(tier)))
    &&& forall|x: Seq<Reply<K, V, E>>|
        (#[trigger] (GetLog { replies: log.replies.take(tier) + x, ..log }).step())
            == fetch::probe(log.route, tier, failures, x)
}

/// The answers to gets.
pub open spec fn gets<K, V, E>(replies: Seq<Reply<K, V, E>>) -> Seq<Result<Option<V>, E>> {
    replies.map_values(
        |reply: Reply<K, V, E>|
            match reply {
                Reply::Got(result) => result,
                _ => Ok(None),
            },
    )
}

/// How a read stands.
pub open spec fn stands<K, V, E>(log: GetLog<K, V, E>) -> bool {
    let asked = log.replies.len() as int;
    let all = log.route.lanes.len() as int;
    let failed = |tier: int, source: E|
        0 <= tier < asked && log.replies[tier] == Reply::<K, V, E>::Got(Err(source));
    match log.step() {
        GetMove::Get { tier } => {
            &&& tier == asked < all
            &&& forall|i: int|
                0 <= i < asked ==> passes_on(log.route, #[trigger] log.replies[i])
                    && log.asked()[i] == (GetMove::<K, V, E>::Get { tier: i })
        },
        GetMove::Done(Ok(None)) => {
            &&& asked == all
            &&& forall|i: int|
                0 <= i < asked ==> #[trigger] log.replies[i] == Reply::<K, V, E>::Got(Ok(None))
                    && log.asked()[i] == (GetMove::<K, V, E>::Get { tier: i })
        },
        GetMove::Done(Err(Trouble::Inconclusive(failures))) => {
            &&& asked == all
            &&& failures.len() > 0
            &&& are_the_failures(log.route, failures, failed)
            &&& forall|i: int|
                0 <= i < asked ==> passes_on(log.route, #[trigger] log.replies[i])
                    && log.asked()[i] == (GetMove::<K, V, E>::Get { tier: i })
        },
        GetMove::Done(Err(Trouble::Tier(failure))) => {
            &&& log.route.policy.read.on_error == OnReadError::FailFast
            &&& 0 < asked <= all
            &&& failure.tier == asked - 1
            &&& failure.name == log.route.lanes[asked - 1].name
            &&& log.replies[asked - 1] == Reply::<K, V, E>::Got(Err(failure.source))
            &&& forall|i: int|
                0 <= i < asked - 1 ==> #[trigger] log.replies[i] == Reply::<K, V, E>::Got(Ok(None))
                    && log.asked()[i] == (GetMove::<K, V, E>::Get { tier: i })
        },
        GetMove::Done(Err(_)) => false,
        _ => exists|hit: int| #[trigger] hits_at(log, hit),
    }
}

/// Whether a read found its value in the `hit`-th answer, that of tier `hit`,
/// after all tiers above passed on. A read that is done returns that value.
pub open spec fn hits_at<K, V, E>(log: GetLog<K, V, E>, hit: int) -> bool {
    &&& 0 <= hit < log.replies.len()
    &&& hit < log.route.lanes.len()
    &&& log.replies[hit] matches Reply::Got(Ok(Some(value)))
    &&& log.asked()[hit] == (GetMove::<K, V, E>::Get { tier: hit })
    &&& forall|i: int|
        0 <= i < hit ==> passes_on(log.route, #[trigger] log.replies[i]) && log.asked()[i] == (
        GetMove::<K, V, E>::Get { tier: i })
    &&& forall|i: int|
        hit < i < log.replies.len() ==> !(#[trigger] log.asked()[i] is Get)
    &&& !(log.step() is Get)
    &&& log.step() matches GetMove::Done(result) ==> result == Ok::<Option<V>, Trouble<E>>(
        Some(value),
    )
    &&& promotes_what_is_due(log, hit)
}

/// Whether a read with a hit in tier `hit` copies it into the writable tiers
/// that are due, and only those, topmost first, and is not done before it
/// has.
pub open spec fn promotes_what_is_due<K, V, E>(log: GetLog<K, V, E>, hit: int) -> bool {
    &&& forall|i: int|
        hit < i < log.replies.len() ==> (#[trigger] log.asked()[i] matches GetMove::Promote { tier }
            ==> rolling::open_to_writes(log.route, tier) && due(
            log.route.policy.read.promote,
            hit,
            tier,
        ))
    &&& forall|i: int, j: int|
        hit < i < j < log.replies.len() ==> ((
        #[trigger] log.asked()[i], #[trigger] log.asked()[j]) matches (
            GetMove::Promote { tier: first },
            GetMove::Promote { tier: second },
        ) ==> first < second)
    &&& log.step() is Done ==> forall|t: int| #[trigger]
        rolling::open_to_writes(log.route, t) && due(log.route.policy.read.promote, hit, t)
            ==> exists|i: int|
            hit < i < log.replies.len() && #[trigger] log.asked()[i] == (GetMove::<
                K,
                V,
                E,
            >::Promote { tier: t })
}

/// The copies into tiers from `target` on are all that is left.
spec fn promoted_up_to<K, V, E>(log: GetLog<K, V, E>, hit: int, start: int, target: int) -> bool {
    &&& forall|i: int|
        hit < i < start ==> {
            &&& !(#[trigger] log.asked()[i] is Get)
            &&& log.asked()[i] matches GetMove::Promote { tier } ==> tier < target
                && rolling::open_to_writes(log.route, tier) && due(
                log.route.policy.read.promote,
                hit,
                tier,
            )
        }
    &&& forall|i: int, j: int|
        hit < i < j < start ==> ((
        #[trigger] log.asked()[i], #[trigger] log.asked()[j]) matches (
            GetMove::Promote { tier: first },
            GetMove::Promote { tier: second },
        ) ==> first < second)
    &&& forall|t: int| #[trigger]
        rolling::open_to_writes(log.route, t) && due(log.route.policy.read.promote, hit, t) && t
            < target ==> exists|i: int|
            hit < i < start && #[trigger] log.asked()[i] == (GetMove::<K, V, E>::Promote {
                tier: t,
            })
}

/// What a rollover in the middle of a read asks for, and where the read goes
/// on.
proof fn lemma_read_rolls<K, V, E>(
    log: GetLog<K, V, E>,
    start: int,
    reach: int,
    target: int,
    value: V,
    displaced: Seq<(K, V)>,
) -> (next: int)
    requires
        0 <= start <= log.replies.len(),
        forall|x: Seq<Reply<K, V, E>>|
            (#[trigger] (GetLog { replies: log.replies.take(start) + x, ..log }).step())
                == fetch::roll_up(
                log.route,
                reach,
                target,
                value,
                rollover::sink(log.route, target, displaced, x),
            ),
    ensures
        start <= next <= log.replies.len(),
        forall|i: int| start <= i < next ==> #[trigger] log.asked()[i] is Demote,
        match rollover::sink(log.route, target, displaced, log.replies.skip(start)) {
            Rolled::Ask { .. } => next == log.replies.len() && log.step() is Demote,
            Rolled::Settled { .. } => forall|x: Seq<Reply<K, V, E>>|
                (#[trigger] (GetLog { replies: log.replies.take(next) + x, ..log }).step())
                    == fetch::promote(log.route, reach, target, value, x),
        },
{
    let route = log.route;
    let replies = log.replies;
    let s = replies.skip(start);
    let play = rolling::sink_from::<K, V, E>(route, target, displaced);
    let used = rolling::lemma_sink_consumes(route, target, displaced, s);
    let next = start + used;
    assert forall|i: int| start <= i < next implies #[trigger] log.asked()[i] is Demote by {
        assert(replies.take(start) + s.take(i - start) =~= replies.take(i));
        assert((GetLog { replies: replies.take(start) + s.take(i - start), ..log }) =~= log.prefix(
            i,
        ));
        assert(play(s.take(i - start)) is Ask);
    }
    assert(replies.take(start) + s =~= replies);
    assert((GetLog { replies: replies.take(start) + s, ..log }) =~= log);
    if let Rolled::Settled { evicted, .. } = play(s) {
        assert forall|x: Seq<Reply<K, V, E>>|
            (#[trigger] (GetLog { replies: replies.take(next) + x, ..log }).step())
                == fetch::promote(route, reach, target, value, x) by {
            assert(replies.take(start) + (s.take(used) + x) =~= replies.take(next) + x);
            assert((GetLog { replies: replies.take(start) + (s.take(used) + x), ..log })
                =~= (GetLog { replies: replies.take(next) + x, ..log }));
            assert(play(s.take(used) + x) == (Rolled::<K, V, E>::Settled { evicted, rest: x }));
        }
    }
    next
}

/// The read found its value in the `hit`-th answer.
spec fn found_at<K, V, E>(log: GetLog<K, V, E>, hit: int, value: V) -> bool {
    &&& 0 <= hit < log.replies.len()
    &&& hit < log.route.lanes.len()
    &&& log.replies[hit] == Reply::<K, V, E>::Got(Ok(Some(value)))
    &&& log.asked()[hit] == (GetMove::<K, V, E>::Get { tier: hit })
    &&& forall|i: int|
        0 <= i < hit ==> passes_on(log.route, #[trigger] log.replies[i]) && log.asked()[i] == (
        GetMove::<K, V, E>::Get { tier: i })
}

proof fn lemma_promoted<K, V, E>(
    log: GetLog<K, V, E>,
    hit: int,
    value: V,
    start: int,
    target: int,
)
    requires
        log.sound(),
        found_at(log, hit, value),
        hit < start <= log.replies.len(),
        0 <= target,
        promoted_up_to(log, hit, start, target),
        forall|x: Seq<Reply<K, V, E>>|
            (#[trigger] (GetLog { replies: log.replies.take(start) + x, ..log }).step())
                == fetch::promote(
                log.route,
                log.route.policy.read.promote.reach(hit),
                target,
                value,
                x,
            ),
    ensures
        hits_at(log, hit),
    decreases log.route.policy.read.promote.reach(hit) - target,
{
    let route = log.route;
    let replies = log.replies;
    let promote = route.policy.read.promote;
    let reach = promote.reach(hit);
    let none = Seq::<Reply<K, V, E>>::empty();
    assert(replies.take(start) + none =~= replies.take(start));
    assert((GetLog { replies: replies.take(start) + none, ..log }) =~= log.prefix(start));
    let step = log.prefix(start).step();
    assert(step == fetch::promote(route, reach, target, value, none));
    assert(log.prefix(replies.len() as int) =~= log);
    if start < replies.len() {
        assert(log.asked()[start] == step);
        assert(step.fits(replies[start]));
    }
    if target >= reach {
        assert forall|t: int| #[trigger]
            rolling::open_to_writes(route, t) && due(promote, hit, t) implies exists|i: int|
            hit < i < replies.len() && #[trigger] log.asked()[i] == (GetMove::<K, V, E>::Promote {
                tier: t,
            }) by {
            assert(t < target);
        }
    } else if !route.writable(target) {
        assert(promoted_up_to(log, hit, start, target + 1)) by {
            assert(!rolling::open_to_writes(route, target));
            assert forall|t: int| #[trigger]
                rolling::open_to_writes(route, t) && due(promote, hit, t) && t < target
                    + 1 implies exists|i: int|
                hit < i < start && #[trigger] log.asked()[i] == (GetMove::<K, V, E>::Promote {
                    tier: t,
                }) by {
                assert(t < target);
            }
        }
        lemma_promoted(log, hit, value, start, target + 1);
    } else {
        assert(rolling::open_to_writes(route, target));
        assert(due(promote, hit, target));
        if start < replies.len() {
            let reply = replies[start];
            assert forall|x: Seq<Reply<K, V, E>>|
                (#[trigger] (GetLog { replies: replies.take(start + 1) + x, ..log }).step())
                    == fetch::promote(route, reach, target, value, seq![reply] + x) by {
                assert(replies.take(start) + (seq![reply] + x) =~= replies.take(start + 1) + x);
                assert((GetLog { replies: replies.take(start) + (seq![reply] + x), ..log })
                    =~= (GetLog { replies: replies.take(start + 1) + x, ..log }));
                assert((seq![reply] + x).skip(1) =~= x);
            }
            let sunk = match reply {
                Reply::Put(Ok(_)) => route.policy.demote_displaced,
                _ => false,
            };
            let next = if sunk {
                let displaced = reply.displaced();
                assert forall|x: Seq<Reply<K, V, E>>|
                    (#[trigger] (GetLog { replies: replies.take(start + 1) + x, ..log }).step())
                        == fetch::roll_up(
                        route,
                        reach,
                        target + 1,
                        value,
                        rollover::sink(route, target + 1, displaced, x),
                    ) by {
                    assert((seq![reply] + x).skip(1) =~= x);
                }
                lemma_read_rolls(log, start + 1, reach, target + 1, value, displaced)
            } else {
                assert forall|x: Seq<Reply<K, V, E>>|
                    (#[trigger] (GetLog { replies: replies.take(start + 1) + x, ..log }).step())
                        == fetch::promote(route, reach, target + 1, value, x) by {
                    assert((seq![reply] + x).skip(1) =~= x);
                }
                start + 1
            };
            assert(promoted_up_to(log, hit, next, target + 1)) by {
                assert forall|i: int| hit < i < next implies {
                    &&& !(#[trigger] log.asked()[i] is Get)
                    &&& log.asked()[i] matches GetMove::Promote { tier } ==> tier < target + 1
                        && rolling::open_to_writes(log.route, tier) && due(promote, hit, tier)
                } by {
                    if i > start {
                        assert(log.asked()[i] is Demote);
                    }
                }
                assert forall|i: int, j: int| hit < i < j < next implies ((
                #[trigger] log.asked()[i], #[trigger] log.asked()[j]) matches (
                    GetMove::Promote { tier: first },
                    GetMove::Promote { tier: second },
                ) ==> first < second) by {
                    if j > start {
                        assert(log.asked()[j] is Demote);
                    }
                }
                assert forall|t: int| #[trigger]
                    rolling::open_to_writes(route, t) && due(promote, hit, t) && t < target
                        + 1 implies exists|i: int|
                    hit < i < next && #[trigger] log.asked()[i] == (GetMove::<K, V, E>::Promote {
                        tier: t,
                    }) by {
                    if t == target {
                        assert(log.asked()[start] == (GetMove::<K, V, E>::Promote { tier: t }));
                    } else {
                        let i = choose|i: int|
                            hit < i < start && #[trigger] log.asked()[i] == (GetMove::<
                                K,
                                V,
                                E,
                            >::Promote { tier: t });
                        assert(log.asked()[i] == (GetMove::<K, V, E>::Promote { tier: t }));
                    }
                }
            }
            if !(log.step() is Demote && next == replies.len()) {
                lemma_promoted(log, hit, value, next, target + 1);
            }
        }
    }
}

proof fn lemma_stands<K, V, E>(log: GetLog<K, V, E>, tier: int, failures: Seq<Failure<E>>)
    requires
        log.sound(),
        passed(log, tier, failures),
    ensures
        stands(log),
    decreases log.route.lanes.len() - tier,
{
    let route = log.route;
    let replies = log.replies;
    let n = route.lanes.len() as int;
    let none = Seq::<Reply<K, V, E>>::empty();
    assert(replies.take(tier) + none =~= replies.take(tier));
    assert((GetLog { replies: replies.take(tier) + none, ..log }) =~= log.prefix(tier));
    let step = log.prefix(tier).step();
    assert(step == fetch::probe(route, tier, failures, none));
    assert(log.prefix(replies.len() as int) =~= log);
    if tier < replies.len() {
        assert(log.asked()[tier] == step);
        assert(step.fits(replies[tier]));
        let reply = replies[tier];
        assert forall|x: Seq<Reply<K, V, E>>|
            (#[trigger] (GetLog { replies: replies.take(tier + 1) + x, ..log }).step())
                == fetch::probe(route, tier, failures, seq![reply] + x) by {
            assert(replies.take(tier) + (seq![reply] + x) =~= replies.take(tier + 1) + x);
            assert((GetLog { replies: replies.take(tier) + (seq![reply] + x), ..log }) =~= (GetLog {
                replies: replies.take(tier + 1) + x,
                ..log
            }));
            assert((seq![reply] + x).skip(1) =~= x);
        }
        let taken = gets(replies.take(tier + 1));
        assert(taken.drop_last() =~= gets(replies.take(tier)));
        match reply {
            Reply::Got(Ok(Some(value))) => {
                let reach = route.policy.read.promote.reach(tier);
                assert forall|x: Seq<Reply<K, V, E>>|
                    (#[trigger] (GetLog { replies: replies.take(tier + 1) + x, ..log }).step())
                        == fetch::promote(route, reach, 0, value, x) by {
                    assert((seq![reply] + x).skip(1) =~= x);
                }
                lemma_promoted(log, tier, value, tier + 1, 0);
                assert(hits_at(log, tier));
            },
            Reply::Got(Ok(None)) => {
                assert forall|x: Seq<Reply<K, V, E>>|
                    (#[trigger] (GetLog { replies: replies.take(tier + 1) + x, ..log }).step())
                        == fetch::probe(route, tier + 1, failures, x) by {
                    assert((seq![reply] + x).skip(1) =~= x);
                }
                lemma_stands(log, tier + 1, failures);
            },
            Reply::Got(Err(source)) => {
                if route.policy.read.on_error == OnReadError::FallThrough {
                    let more = failures.push(route.failure(tier, source));
                    assert forall|x: Seq<Reply<K, V, E>>|
                        (#[trigger] (GetLog {
                            replies: replies.take(tier + 1) + x,
                            ..log
                        }).step()) == fetch::probe(route, tier + 1, more, x) by {
                        assert((seq![reply] + x).skip(1) =~= x);
                    }
                    lemma_stands(log, tier + 1, more);
                } else {
                    assert(replies.take(tier + 1) + none =~= replies.take(tier + 1));
                    assert((GetLog { replies: replies.take(tier + 1) + none, ..log })
                        =~= log.prefix(tier + 1));
                    assert(log.prefix(tier + 1).step() is Done);
                    if tier + 1 < replies.len() {
                        assert(log.asked()[tier + 1].fits(replies[tier + 1]));
                    }
                }
            },
            _ => {},
        }
    } else if tier >= n {
        let answers = gets(replies);
        assert(replies.take(tier) =~= replies);
        let failed = |t: int, source: E|
            0 <= t < replies.len() && replies[t] == Reply::<K, V, E>::Got(Err(source));
        assert forall|t: int, source: E| #[trigger]
            failed(t, source) <==> 0 <= t < answers.len() && answers[t] == Err::<Option<V>, E>(
            source,
        ) by {
            if 0 <= t < replies.len() {
                assert(passes_on(route, replies[t]));
            }
        }
        lemma_failures_among(route, answers, failed);
        if failures.len() == 0 {
            assert forall|i: int| 0 <= i < replies.len() implies #[trigger] replies[i] == Reply::<
                K,
                V,
                E,
            >::Got(Ok(None)) by {
                assert(passes_on(route, replies[i]));
                if let Reply::Got(Err(source)) = replies[i] {
                    assert(failed(i, source));
                }
            }
        }
    }
}

/// What a read asks for and returns, said of the tiers' answers. It asks the
/// tiers top-down, as long as each passes on: it has not got the key, or it
/// fails and the policy goes on. It returns nothing only if every tier
/// answered that it has not got the key; it is inconclusive only if all
/// passed on and some failed, and then names those, with what each reported;
/// and it fails with the tier at which a failure stops it. Once a tier has
/// the key the read asks no further tier for it, copies the value into the
/// writable tiers that are due, topmost first, whether or not they accept it,
/// and returns the value.
pub proof fn law_read_tells_what_the_tiers_answered<K, V, E>(log: GetLog<K, V, E>)
    requires
        log.sound(),
    ensures
        stands(log),
{
    let none = Seq::<Failure<E>>::empty();
    assert forall|x: Seq<Reply<K, V, E>>|
        (#[trigger] (GetLog { replies: log.replies.take(0) + x, ..log }).step()) == fetch::probe(
            log.route,
            0,
            none,
            x,
        ) by {
        assert(log.replies.take(0) + x =~= x);
    }
    lemma_stands(log, 0, none);
}

/// Whether a write-through wrote the requested entries into `tier` before its
/// `i`-th request.
pub open spec fn wrote<K, V, E>(log: WriteLog<K, V, E>, tier: int, i: int) -> bool {
    exists|j: int|
        0 <= j < i && #[trigger] log.asked()[j] == (WriteMove::<K, V, E>::Put { tier })
}

/// Whether the `i`-th request of a write-through comes in its turn: the
/// requested entries go into a writable tier once they went into every
/// writable tier below it, and only then; displaced entries are written only
/// if the policy says so; nothing is deleted; and the write succeeds only
/// once it has written every writable tier.
pub open spec fn in_turn<K, V, E>(
    log: WriteLog<K, V, E>,
    request: WriteMove<K, V, E>,
    i: int,
) -> bool {
    match request {
        WriteMove::Put { tier } => {
            &&& rolling::open_to_writes(log.route, tier)
            &&& forall|other: int| #[trigger]
                rolling::open_to_writes(log.route, other) ==> (wrote(log, other, i) <==> other
                    > tier)
        },
        WriteMove::Demote { .. } => log.route.policy.demote_displaced,
        WriteMove::Delete { .. } => false,
        WriteMove::Done(Ok(_)) => forall|other: int| #[trigger]
            rolling::open_to_writes(log.route, other) ==> wrote(log, other, i),
        WriteMove::Done(Err(_)) => true,
    }
}

/// Whether the `i`-th answer of a write-through is a tier's refusal of the
/// requested entries.
pub open spec fn refused_at<K, V, E>(
    log: WriteLog<K, V, E>,
    i: int,
    tier: int,
    source: E,
) -> bool {
    &&& 0 <= i < log.replies.len()
    &&& log.asked()[i] == (WriteMove::<K, V, E>::Put { tier })
    &&& log.replies[i] == Reply::<K, V, E>::Put(Err(source))
}

/// How a refusal at the `i`-th answer ends a write that stops at the first.
pub open spec fn stops_at<K, V, E>(
    log: WriteLog<K, V, E>,
    i: int,
    tier: int,
    source: E,
) -> bool {
    &&& i + 1 == log.replies.len()
    &&& log.step() == WriteMove::<K, V, E>::Done(
        Err(Trouble::Tier(Failure { tier, name: log.route.lanes[tier].name, source })),
    )
}

spec fn written_from<K, V, E>(log: WriteLog<K, V, E>, start: int, left: int) -> bool {
    &&& forall|i: int| 0 <= i < start ==> in_turn(log, #[trigger] log.asked()[i], i)
    &&& forall|other: int| #[trigger]
        rolling::open_to_writes(log.route, other) ==> (wrote(log, other, start) <==> other >= left)
    &&& forall|i: int, tier: int, source: E|
        i < start && #[trigger] refused_at(log, i, tier, source) ==> log.route.policy.on_write_error
            == OnWriteError::BestEffort
    &&& forall|i: int| 0 <= i < start ==> !(#[trigger] log.asked()[i] is Done)
}

spec fn written_out<K, V, E>(log: WriteLog<K, V, E>) -> bool {
    let fail_fast = log.route.policy.on_write_error == OnWriteError::FailFast;
    &&& forall|i: int| 0 <= i < log.replies.len() ==> in_turn(log, #[trigger] log.asked()[i], i)
    &&& in_turn(log, log.step(), log.replies.len() as int)
    &&& forall|i: int, tier: int, source: E| #[trigger]
        refused_at(log, i, tier, source) && fail_fast ==> stops_at(log, i, tier, source)
    &&& log.step() matches WriteMove::Done(Err(_)) ==> fail_fast && exists|
        i: int,
        tier: int,
        source: E,
    | #[trigger]
        refused_at(log, i, tier, source)
}

/// What a rollover in the middle of a write asks for, and where the write
/// goes on.
proof fn lemma_write_rolls_on<K, V, E>(
    log: WriteLog<K, V, E>,
    start: int,
    left: int,
    evicted: Seq<(K, V)>,
    displaced: Seq<(K, V)>,
) -> (next: int)
    requires
        0 <= start <= log.replies.len(),
        forall|x: Seq<Reply<K, V, E>>|
            (#[trigger] (WriteLog { replies: log.replies.take(start) + x, ..log }).step())
                == crate::write::roll_through(
                log.route,
                left,
                evicted,
                rollover::sink(log.route, left + 1, displaced, x),
            ),
    ensures
        start <= next <= log.replies.len(),
        forall|i: int| start <= i < next ==> #[trigger] log.asked()[i] is Demote,
        match rollover::sink(log.route, left + 1, displaced, log.replies.skip(start)) {
            Rolled::Ask { .. } => next == log.replies.len() && log.step() is Demote,
            Rolled::Settled { evicted: fallen, .. } => forall|x: Seq<Reply<K, V, E>>|
                (#[trigger] (WriteLog { replies: log.replies.take(next) + x, ..log }).step())
                    == crate::write::write_through(log.route, left, evicted + fallen, x),
        },
{
    let route = log.route;
    let replies = log.replies;
    let s = replies.skip(start);
    let play = rolling::sink_from::<K, V, E>(route, left + 1, displaced);
    let used = rolling::lemma_sink_consumes(route, left + 1, displaced, s);
    let next = start + used;
    assert forall|i: int| start <= i < next implies #[trigger] log.asked()[i] is Demote by {
        assert(replies.take(start) + s.take(i - start) =~= replies.take(i));
        assert((WriteLog { replies: replies.take(start) + s.take(i - start), ..log })
            =~= log.prefix(i));
        assert(play(s.take(i - start)) is Ask);
    }
    assert(replies.take(start) + s =~= replies);
    assert((WriteLog { replies: replies.take(start) + s, ..log }) =~= log);
    if let Rolled::Settled { evicted: fallen, .. } = play(s) {
        assert forall|x: Seq<Reply<K, V, E>>|
            (#[trigger] (WriteLog { replies: replies.take(next) + x, ..log }).step())
                == crate::write::write_through(route, left, evicted + fallen, x) by {
            assert(replies.take(start) + (s.take(used) + x) =~= replies.take(next) + x);
            assert((WriteLog { replies: replies.take(start) + (s.take(used) + x), ..log })
                =~= (WriteLog { replies: replies.take(next) + x, ..log }));
            assert(play(s.take(used) + x) == (Rolled::<K, V, E>::Settled {
                evicted: fallen,
                rest: x,
            }));
        }
    }
    next
}

proof fn lemma_wrote_more<K, V, E>(log: WriteLog<K, V, E>, start: int, next: int, left: int)
    requires
        0 <= start < next <= log.replies.len(),
        written_from(log, start, left),
        rolling::open_to_writes(log.route, left - 1),
        log.asked()[start] == (WriteMove::<K, V, E>::Put { tier: left - 1 }),
        forall|i: int| start < i < next ==> #[trigger] log.asked()[i] is Demote,
        start + 1 < next ==> log.route.policy.demote_displaced,
        forall|source: E|
            log.replies[start] == Reply::<K, V, E>::Put(Err(source))
                ==> log.route.policy.on_write_error == OnWriteError::BestEffort,
    ensures
        written_from(log, next, left - 1),
{
    let route = log.route;
    assert forall|other: int| #[trigger] rolling::open_to_writes(route, other) implies (wrote(
        log,
        other,
        next,
    ) <==> other >= left - 1) by {
        assert(wrote(log, other, start) <==> other >= left);
        if wrote(log, other, start) {
            let j = choose|j: int|
                0 <= j < start && #[trigger] log.asked()[j] == (WriteMove::<K, V, E>::Put {
                    tier: other,
                });
            assert(log.asked()[j] == (WriteMove::<K, V, E>::Put { tier: other }));
        }
        if other == left - 1 {
            assert(log.asked()[start] == (WriteMove::<K, V, E>::Put { tier: other }));
        }
        if wrote(log, other, next) {
            let j = choose|j: int|
                0 <= j < next && #[trigger] log.asked()[j] == (WriteMove::<K, V, E>::Put {
                    tier: other,
                });
            if j > start {
                assert(log.asked()[j] is Demote);
            } else if j < start {
                assert(log.asked()[j] == (WriteMove::<K, V, E>::Put { tier: other }));
                assert(wrote(log, other, start));
            }
        }
    }
    assert forall|i: int| 0 <= i < next implies in_turn(log, #[trigger] log.asked()[i], i) && !(
    log.asked()[i] is Done) by {
        if i > start {
            assert(log.asked()[i] is Demote);
        }
    }
    assert forall|i: int, tier: int, source: E| i < next && #[trigger]
        refused_at(log, i, tier, source) implies route.policy.on_write_error
        == OnWriteError::BestEffort by {
        if i > start {
            assert(log.asked()[i] is Demote);
        }
    }
}

proof fn lemma_written_out<K, V, E>(
    log: WriteLog<K, V, E>,
    start: int,
    left: int,
    evicted: Seq<(K, V)>,
)
    requires
        log.sound(),
        0 <= start <= log.replies.len(),
        left <= log.route.lanes.len(),
        written_from(log, start, left),
        forall|x: Seq<Reply<K, V, E>>|
            (#[trigger] (WriteLog { replies: log.replies.take(start) + x, ..log }).step())
                == crate::write::write_through(log.route, left, evicted, x),
    ensures
        written_out(log),
    decreases left,
{
    let route = log.route;
    let replies = log.replies;
    let none = Seq::<Reply<K, V, E>>::empty();
    assert(replies.take(start) + none =~= replies.take(start));
    assert((WriteLog { replies: replies.take(start) + none, ..log }) =~= log.prefix(start));
    let step = log.prefix(start).step();
    assert(step == crate::write::write_through(route, left, evicted, none));
    assert(log.prefix(replies.len() as int) =~= log);
    if start < replies.len() {
        assert(log.asked()[start] == step);
        assert(step.fits(replies[start]));
    }
    if left <= 0 {
        assert(start == replies.len());
    } else if !route.writable(left - 1) {
        assert(!rolling::open_to_writes(route, left - 1));
        assert(written_from(log, start, left - 1));
        lemma_written_out(log, start, left - 1, evicted);
    } else {
        assert(rolling::open_to_writes(route, left - 1));
        assert(step == (WriteMove::<K, V, E>::Put { tier: left - 1 }));
        assert(in_turn(log, step, start));
        if start < replies.len() {
            let reply = replies[start];
            assert forall|x: Seq<Reply<K, V, E>>|
                (#[trigger] (WriteLog { replies: replies.take(start + 1) + x, ..log }).step())
                    == crate::write::write_through(route, left, evicted, seq![reply] + x) by {
                assert(replies.take(start) + (seq![reply] + x) =~= replies.take(start + 1) + x);
                assert((WriteLog { replies: replies.take(start) + (seq![reply] + x), ..log })
                    =~= (WriteLog { replies: replies.take(start + 1) + x, ..log }));
                assert((seq![reply] + x).skip(1) =~= x);
            }
            match reply {
                Reply::Put(Ok(displaced)) => if route.policy.demote_displaced {
                    assert forall|x: Seq<Reply<K, V, E>>|
                        (#[trigger] (WriteLog {
                            replies: replies.take(start + 1) + x,
                            ..log
                        }).step()) == crate::write::roll_through(
                            route,
                            left - 1,
                            evicted,
                            rollover::sink(route, left, displaced, x),
                        ) by {
                        assert((seq![reply] + x).skip(1) =~= x);
                    }
                    let next = lemma_write_rolls_on(log, start + 1, left - 1, evicted, displaced);
                    lemma_wrote_more(log, start, next, left);
                    match rollover::sink(route, left, displaced, replies.skip(start + 1)) {
                        Rolled::Ask { .. } => {},
                        Rolled::Settled { evicted: fallen, .. } => {
                            lemma_written_out(log, next, left - 1, evicted + fallen);
                        },
                    }
                } else {
                    assert forall|x: Seq<Reply<K, V, E>>|
                        (#[trigger] (WriteLog {
                            replies: replies.take(start + 1) + x,
                            ..log
                        }).step()) == crate::write::write_through(
                            route,
                            left - 1,
                            evicted + displaced,
                            x,
                        ) by {
                        assert((seq![reply] + x).skip(1) =~= x);
                    }
                    lemma_wrote_more(log, start, start + 1, left);
                    lemma_written_out(log, start + 1, left - 1, evicted + displaced);
                },
                Reply::Put(Err(source)) => match route.policy.on_write_error {
                    OnWriteError::BestEffort => {
                        assert forall|x: Seq<Reply<K, V, E>>|
                            (#[trigger] (WriteLog {
                                replies: replies.take(start + 1) + x,
                                ..log
                            }).step()) == crate::write::write_through(route, left - 1, evicted, x) by {
                            assert((seq![reply] + x).skip(1) =~= x);
                        }
                        lemma_wrote_more(log, start, start + 1, left);
                        lemma_written_out(log, start + 1, left - 1, evicted);
                    },
                    OnWriteError::FailFast => {
                        assert(replies.take(start + 1) + none =~= replies.take(start + 1));
                        assert((WriteLog { replies: replies.take(start + 1) + none, ..log })
                            =~= log.prefix(start + 1));
                        assert(log.prefix(start + 1).step() is Done);
                        if start + 1 < replies.len() {
                            assert(log.asked()[start + 1].fits(replies[start + 1]));
                        }
                        assert(refused_at(log, start, left - 1, source));
                    },
                },
                _ => {},
            }
        }
    }
}

/// What a write-through asks for and returns, said of the tiers' answers. The
/// requested entries go into every writable tier once, bottommost first, and
/// the write succeeds only then. A tier's refusal of them ends the write at
/// once, with that tier's failure, if the policy is to stop at the first, and
/// is passed over otherwise; nothing else makes the write fail.
pub proof fn law_write_through_tells_what_the_tiers_answered<K, V, E>(log: WriteLog<K, V, E>)
    requires
        log.sound(),
        log.route.policy.write == WriteMode::WriteThrough,
        exists|tier: int| rolling::open_to_writes(log.route, tier),
    ensures
        forall|i: int| 0 <= i < log.replies.len() ==> in_turn(log, #[trigger] log.asked()[i], i),
        in_turn(log, log.step(), log.replies.len() as int),
        forall|i: int, tier: int, source: E| #[trigger]
            refused_at(log, i, tier, source) && log.route.policy.on_write_error
                == OnWriteError::FailFast ==> stops_at(log, i, tier, source),
        log.step() matches WriteMove::Done(Err(_)) ==> log.route.policy.on_write_error
            == OnWriteError::FailFast && exists|
            i: int,
            tier: int,
            source: E,
        | #[trigger]
            refused_at(log, i, tier, source),
{
    let n = log.route.lanes.len() as int;
    let tier = choose|tier: int| rolling::open_to_writes(log.route, tier);
    assert(log.route.writable(tier));
    log.route.lemma_writables(n);
    assert(log.route.writables(n).len() > 0);
    let none = Seq::<(K, V)>::empty();
    assert forall|x: Seq<Reply<K, V, E>>|
        (#[trigger] (WriteLog { replies: log.replies.take(0) + x, ..log }).step())
            == crate::write::write_through(log.route, n, none, x) by {
        assert(log.replies.take(0) + x =~= x);
    }
    lemma_written_out(log, 0, n, none);
}

} // verus!
