//! What the counters tell: one answer moves the counters of one tier.
use vstd::prelude::*;

use crate::batch;
use crate::batch::{Probed, ReadManyLog, ReadManyMove};
use crate::delete::{DeleteLog, DeleteMove, RemoveLog, RemoveMove};
use crate::error::Failure;
use crate::fetch::{ExistsLog, ExistsMove, GetLog, GetMove};
use crate::laws::outcomes;
use crate::laws::read;
use crate::report::KeyStatus;
use crate::rollover::Reply;
use crate::router::{Counters, Lane, Route, TierStats};
use crate::write::{WriteLog, WriteMove};

verus! {

/// Whether a counter went up from `before` to `after` by `amount`, starting
/// over at the end of its range.
pub open spec fn went_up(before: u64, after: u64, amount: int) -> bool {
    after == before + amount || after == before + amount - 0x1_0000_0000_0000_0000
}

/// How many events of each kind one answer stands for.
pub struct Events {
    /// Read probes that found the key.
    pub hits: int,
    /// Read probes that confirmed absence.
    pub misses: int,
    /// Failed calls.
    pub errors: int,
    /// Entries that were written.
    pub puts: int,
    /// Keys that were deleted.
    pub deletes: int,
}

/// No event.
pub open spec fn no_event() -> Events {
    Events { hits: 0, misses: 0, errors: 0, puts: 0, deletes: 0 }
}

/// Whether `events` at `tier` lead from the counters `before` to `after`: the
/// counters of every other tier stay.
pub open spec fn counts(
    before: Seq<Counters>,
    after: Seq<Counters>,
    tier: int,
    events: Events,
) -> bool {
    &&& after.len() == before.len()
    &&& 0 <= tier < before.len()
    &&& went_up(before[tier].hits, after[tier].hits, events.hits)
    &&& went_up(before[tier].misses, after[tier].misses, events.misses)
    &&& went_up(before[tier].errors, after[tier].errors, events.errors)
    &&& went_up(before[tier].puts, after[tier].puts, events.puts)
    &&& went_up(before[tier].deletes, after[tier].deletes, events.deletes)
    &&& forall|other: int|
        0 <= other < before.len() && other != tier ==> #[trigger] after[other] == before[other]
}

/// The events that the answer to a write of `entries` entries stands for: a
/// failed write counts once, whatever it was to write.
pub open spec fn put_events<K, V, E>(reply: Reply<K, V, E>, entries: int) -> Events {
    if reply matches Reply::Put(Ok(_)) {
        Events { puts: entries, ..no_event() }
    } else {
        Events { errors: 1, ..no_event() }
    }
}

/// The statistics of a tier show its name, whether it is only read, and its
/// counters.
pub proof fn law_statistics_show_the_counters(stats: TierStats, lane: Lane, counters: Counters)
    ensures
        stats.describes(lane, counters) <==> {
            &&& stats.name@ == lane.name
            &&& stats.read_only <==> !lane.writable
            &&& (stats.hits, stats.misses, stats.errors) == (
                counters.hits,
                counters.misses,
                counters.errors,
            )
            &&& (stats.puts, stats.deletes) == (counters.puts, counters.deletes)
        },
{
}

/// A read counts a hit or a miss of the tier it probed, and one written entry
/// for each copy or displaced entry that a tier accepted; a call that fails
/// counts as one error of its tier.
pub proof fn law_read_counts_each_answer<K, V, E>(
    log: GetLog<K, V, E>,
    counters: Seq<Counters>,
    reply: Reply<K, V, E>,
)
    requires
        log.sound(),
        log.step().fits(reply),
        counters.len() == log.route.lanes.len(),
    ensures
        match log.step() {
            GetMove::Get { tier } => counts(
                counters,
                log.tally(counters, reply),
                tier,
                match reply {
                    Reply::Got(Ok(Some(_))) => Events { hits: 1, ..no_event() },
                    Reply::Got(Ok(None)) => Events { misses: 1, ..no_event() },
                    _ => Events { errors: 1, ..no_event() },
                },
            ),
            GetMove::Promote { tier } => counts(
                counters,
                log.tally(counters, reply),
                tier,
                put_events(reply, 1),
            ),
            GetMove::Demote { tier, .. } => counts(
                counters,
                log.tally(counters, reply),
                tier,
                put_events(reply, 1),
            ),
            GetMove::Done(_) => false,
        },
{
    outcomes::law_read_tells_what_the_tiers_answered(log);
    read::law_reads_only_promote(log);
}

/// An existence check counts as a read probe does.
pub proof fn law_existence_check_counts_each_answer<K, E>(
    log: ExistsLog<K, E>,
    counters: Seq<Counters>,
    reply: Result<bool, E>,
)
    requires
        log.sound(),
        log.step() is Exists,
        counters.len() == log.route.lanes.len(),
    ensures
        log.step() matches ExistsMove::Exists { tier } && counts(
            counters,
            log.tally(counters, reply),
            tier,
            match reply {
                Ok(true) => Events { hits: 1, ..no_event() },
                Ok(false) => Events { misses: 1, ..no_event() },
                Err(_) => Events { errors: 1, ..no_event() },
            },
        ),
{
    outcomes::law_existence_check_tells_what_the_tiers_answered(log);
}

proof fn lemma_found_count<V>(found: Seq<Option<V>>)
    ensures
        batch::found_count(found) == found.filter(|value: Option<V>| value is Some).len(),
        0 <= batch::found_count(found) <= found.len(),
    decreases found.len(),
{
    reveal(Seq::filter);
    if found.len() > 0 {
        lemma_found_count(found.drop_last());
    }
}

proof fn lemma_probes_a_tier<K, V, E>(
    route: Route,
    tier: int,
    statuses: Seq<KeyStatus<V>>,
    pending: Seq<int>,
    failures: Seq<Failure<E>>,
    replies: Seq<Reply<K, V, E>>,
    most: int,
)
    requires
        0 <= tier,
        pending.len() <= most,
        forall|k: int| 0 <= k < pending.len() ==> 0 <= #[trigger] pending[k] < statuses.len(),
    ensures
        match batch::probe_many(route, tier, statuses, pending, failures, replies) {
            Probed::Ask { tier: asked, pending: keys } => 0 <= asked < route.lanes.len()
                && keys.len() <= most,
            Probed::Failed(_) => true,
            Probed::Resolved { statuses: known, .. } => known.len() == statuses.len(),
        },
    decreases route.lanes.len() - tier,
{
    if tier < route.lanes.len() && pending.len() > 0 && replies.len() > 0 {
        match replies[0] {
            Reply::GotMany(Ok(found)) => {
                let upto = batch::paired(pending, found);
                lemma_missing_is_short(pending, found, upto);
                lemma_resolved_length(statuses, pending, tier, found, upto);
                let later = batch::missing(pending, found, upto);
                assert forall|k: int| 0 <= k < later.len() implies 0 <= #[trigger] later[k]
                    < statuses.len() by {
                    assert(pending.contains(later[k]));
                }
                lemma_probes_a_tier(
                    route,
                    tier + 1,
                    batch::resolved(statuses, pending, tier, found, upto),
                    batch::missing(pending, found, upto),
                    failures,
                    replies.skip(1),
                    most,
                );
            },
            Reply::GotMany(Err(source)) => {
                lemma_probes_a_tier(
                    route,
                    tier + 1,
                    statuses,
                    pending,
                    failures.push(route.failure(tier, source)),
                    replies.skip(1),
                    most,
                );
            },
            _ => {},
        }
    }
}

proof fn lemma_resolved_length<V>(
    statuses: Seq<KeyStatus<V>>,
    pending: Seq<int>,
    tier: int,
    found: Seq<Option<V>>,
    upto: int,
)
    requires
        upto <= pending.len(),
        forall|k: int| 0 <= k < pending.len() ==> 0 <= #[trigger] pending[k] < statuses.len(),
    ensures
        batch::resolved(statuses, pending, tier, found, upto).len() == statuses.len(),
    decreases upto,
{
    if upto > 0 {
        lemma_resolved_length(statuses, pending, tier, found, upto - 1);
    }
}

proof fn lemma_missing_is_short<V>(pending: Seq<int>, found: Seq<Option<V>>, upto: int)
    requires
        upto <= pending.len(),
    ensures
        forall|k: int|
            0 <= k < batch::missing(pending, found, upto).len() ==> pending.contains(
                #[trigger] batch::missing(pending, found, upto)[k],
            ),
        batch::missing(pending, found, upto).len() <= pending.len(),
        upto >= 0 ==> batch::missing(pending, found, upto).len() <= upto,
    decreases upto,
{
    if upto > 0 {
        lemma_missing_is_short(pending, found, upto - 1);
    }
}

proof fn lemma_serves_few<V>(statuses: Seq<KeyStatus<V>>, tier: int, upto: int)
    requires
        0 <= upto,
    ensures
        batch::served(statuses, tier, upto).len() <= upto,
    decreases upto,
{
    if upto > 0 {
        lemma_serves_few(statuses, tier, upto - 1);
    }
}

/// A batched read counts a hit of the probed tier for every key that was
/// found there and a miss for every other key it was asked for, one written
/// entry for each entry that was copied, and one for each displaced entry; a
/// call that fails counts as one error, whatever it was to do.
pub proof fn law_batched_read_counts_each_answer<K, V, E>(
    log: ReadManyLog<K, V, E>,
    counters: Seq<Counters>,
    reply: Reply<K, V, E>,
)
    requires
        log.step().fits(reply),
        counters.len() == log.route.lanes.len(),
        log.keys.len() <= u64::MAX,
    ensures
        match log.step() {
            ReadManyMove::GetMany { tier, pending } => counts(
                counters,
                log.tally(counters, reply),
                tier,
                match reply {
                    Reply::GotMany(Ok(found)) => {
                        let hits = found.filter(|value: Option<V>| value is Some).len();
                        Events { hits: hits as int, misses: pending.len() - hits, ..no_event() }
                    },
                    _ => Events { errors: 1, ..no_event() },
                },
            ),
            ReadManyMove::Promote { tier, hits } => counts(
                counters,
                log.tally(counters, reply),
                tier,
                put_events(reply, hits.len() as int),
            ),
            ReadManyMove::Demote { tier, .. } => counts(
                counters,
                log.tally(counters, reply),
                tier,
                put_events(reply, 1),
            ),
            ReadManyMove::Done(_) => false,
        },
{
    read::law_batched_reads_only_promote(log);
    lemma_probes_a_tier(
        log.route,
        0,
        Seq::new(log.keys.len(), |i: int| KeyStatus::<V>::Miss),
        Seq::new(log.keys.len(), |i: int| i),
        Seq::<Failure<E>>::empty(),
        log.replies,
        log.keys.len() as int,
    );
    if let Reply::GotMany(Ok(found)) = reply {
        lemma_found_count(found);
    }
    if let Probed::Resolved { statuses, failures, rest } = log.probed() {
        read::lemma_promote_many_result(log.route, statuses, failures, 1, 0, rest);
        if let ReadManyMove::Promote { tier, hits } = log.step() {
            let from = choose|from: int|
                1 <= from < log.route.lanes.len() && tier < log.route.policy.read.promote.reach(
                    from,
                ) && hits == #[trigger] batch::served(statuses, from, statuses.len() as int);
            lemma_serves_few(statuses, from, statuses.len() as int);
        }
    }
}

/// A write counts each entry that a tier accepted as one written entry, each
/// key that a tier was asked to delete as one deleted key, and a call that
/// fails as one error.
pub proof fn law_write_counts_each_answer<K, V, E>(
    log: WriteLog<K, V, E>,
    counters: Seq<Counters>,
    reply: Reply<K, V, E>,
)
    requires
        log.step().fits(reply),
        counters.len() == log.route.lanes.len(),
        log.entries.len() <= u64::MAX,
    ensures
        match log.step() {
            WriteMove::Put { tier } => counts(
                counters,
                log.tally(counters, reply),
                tier,
                put_events(reply, log.entries.len() as int),
            ),
            WriteMove::Demote { tier, .. } => counts(
                counters,
                log.tally(counters, reply),
                tier,
                put_events(reply, 1),
            ),
            WriteMove::Delete { tier } => counts(
                counters,
                log.tally(counters, reply),
                tier,
                if reply matches Reply::Deleted(Ok(_)) {
                    Events { deletes: log.entries.len() as int, ..no_event() }
                } else {
                    Events { errors: 1, ..no_event() }
                },
            ),
            WriteMove::Done(_) => false,
        },
{
    crate::laws::write::law_writes_spare_read_only_tiers(log);
}

/// A delete counts one deleted key of each tier that carried it out, whether
/// or not the tier held the key, and one error of each that failed.
pub proof fn law_delete_counts_each_answer<K, E>(
    log: DeleteLog<K, E>,
    counters: Seq<Counters>,
    reply: Result<bool, E>,
)
    requires
        log.sound(),
        log.step() is Delete,
        counters.len() == log.route.lanes.len(),
    ensures
        log.step() matches DeleteMove::Delete { tier } && counts(
            counters,
            log.tally(counters, reply),
            tier,
            if reply is Ok {
                Events { deletes: 1, ..no_event() }
            } else {
                Events { errors: 1, ..no_event() }
            },
        ),
{
    outcomes::law_delete_tells_what_the_tiers_answered(log);
    log.route.lemma_writables(log.route.lanes.len() as int);
}

/// A batched delete counts every requested key as a deleted key of each tier
/// that carried it out, and one error of each that failed.
pub proof fn law_batched_delete_counts_each_answer<K, E>(
    log: RemoveLog<K, E>,
    counters: Seq<Counters>,
    reply: Result<Seq<bool>, E>,
)
    requires
        log.sound(),
        log.step() is DeleteMany,
        counters.len() == log.route.lanes.len(),
        log.keys.len() <= u64::MAX,
    ensures
        log.step() matches RemoveMove::DeleteMany { tier } && counts(
            counters,
            log.tally(counters, reply),
            tier,
            if reply is Ok {
                Events { deletes: log.keys.len() as int, ..no_event() }
            } else {
                Events { errors: 1, ..no_event() }
            },
        ),
{
    outcomes::law_batched_delete_tells_what_the_tiers_answered(log);
    log.route.lemma_writables(log.route.lanes.len() as int);
}

} // verus!
