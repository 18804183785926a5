//! What the words mean that contracts and laws are written in: policies,
//! answers, requests, statuses and prices.
use vstd::prelude::*;

use crate::batch;
use crate::batch::{ReadManyLog, ReadManyMove, ReadManyStep};
use crate::cache;
use crate::cache::{LoadLog, LoadReply, LookupLog, LookupReply};
use crate::delete;
use crate::delete::{DeleteLog, DeleteMove, DeleteStep, RemoveLog, RemoveMove, RemoveStep};
use crate::error;
use crate::error::{RouterError, TierFailure, Trouble};
use crate::fetch;
use crate::fetch::{ExistsLog, ExistsMove, ExistsStep, GetLog, GetMove, GetStep};
use crate::laws::outcomes;
use crate::memory;
use crate::memory::state;
use crate::memory::state::{Held, Limits, MemoryState};
use crate::memory::{MemoryTier, Weigher};
use crate::policy::{Eviction, OnReadError, OnWriteError, Policy, Promote, WriteMode};
use crate::read::{Probe, ReadProgress};
use crate::report::{DeleteReport, KeyStatus, ReadReport};
use crate::rollover;
use crate::rollover::Reply;
use crate::router;
use crate::router::{Counters, Lane, Route};
use crate::tier::{Displaced, Tier};
use crate::write::{WriteLog, WriteMove, WriteStep};

verus! {

/// The neutral policy moves no data on its own: it neither promotes nor
/// demotes, goes on past tiers that fail a read, writes every tier, and stops
/// at the first that refuses.
pub proof fn law_neutral_policy_moves_nothing()
    ensures
        Policy::neutral().read.promote == Promote::Never,
        Policy::neutral().read.on_error == OnReadError::FallThrough,
        Policy::neutral().write == WriteMode::WriteThrough,
        Policy::neutral().on_write_error == OnWriteError::FailFast,
        !Policy::neutral().demote_displaced,
{
}

/// The cache policy keeps each entry in about one tier: hits are copied to
/// the top and what is displaced rolls down. A tier that fails blocks neither
/// reads nor writes.
pub proof fn law_cache_policy_rolls_over()
    ensures
        cache::cache_policy().read.promote == Promote::TopOnly,
        cache::cache_policy().read.on_error == OnReadError::FallThrough,
        cache::cache_policy().write == WriteMode::WriteThrough,
        cache::cache_policy().on_write_error == OnWriteError::BestEffort,
        cache::cache_policy().demote_displaced,
{
}

/// The reach of a promotion is where copies stop being due.
pub proof fn law_reach_is_where_copies_stop(promote: Promote, hit: int, tier: int)
    requires
        0 <= hit,
    ensures
        outcomes::due(promote, hit, tier) <==> 0 <= tier < promote.reach(hit),
        promote.reach(hit) <= hit,
{
}

/// A tier is written only if it exists and its lane says so; a failure names
/// the tier's number and its lane's name.
pub proof fn law_lanes_tell_of_their_tiers<E>(route: Route, tier: int, source: E)
    ensures
        route.writable(tier) <==> 0 <= tier < route.lanes.len() && route.lanes[tier].writable,
        route.failure(tier, source).tier == tier,
        route.failure(tier, source).name == route.lanes[tier].name,
        route.failure(tier, source).source == source,
{
}

/// A tier that is added comes last, under the name it gives; the lanes before
/// it and the policy stay.
pub proof fn law_added_tier_comes_last<T: Tier>(
    before: Route,
    added: T,
    writable: bool,
    after: Route,
)
    ensures
        router::adds_lane(before, added, writable, after) ==> {
            &&& after.policy == before.policy
            &&& after.lanes.len() == before.lanes.len() + 1
            &&& forall|i: int|
                0 <= i < before.lanes.len() ==> #[trigger] after.lanes[i] == before.lanes[i]
            &&& after.lanes.last().writable == writable
            &&& exists|given: &str| #[trigger]
                call_ensures(T::name, (&added,), given) && given@ == after.lanes.last().name
        },
{
    if router::adds_lane(before, added, writable, after) {
        assert forall|i: int| 0 <= i < before.lanes.len() implies #[trigger] after.lanes[i]
            == before.lanes[i] by {
            assert(after.lanes.drop_last()[i] == before.lanes[i]);
        }
    }
}

/// A lane is shown by its name, and a lane that is never written is marked
/// behind it.
pub proof fn law_labels_mark_read_only_lanes(lane: Lane)
    ensures
        lane.writable ==> router::lane_label(lane) == lane.name,
        !lane.writable ==> router::lane_label(lane) == lane.name + " (read-only)"@,
{
}

/// Before any event every counter is zero.
pub proof fn law_counters_start_at_zero()
    ensures
        Counters::zero().hits == 0,
        Counters::zero().misses == 0,
        Counters::zero().errors == 0,
        Counters::zero().puts == 0,
        Counters::zero().deletes == 0,
{
}

/// A status tells of a value and of a serving tier exactly if it is a hit.
pub proof fn law_only_hits_tell_of_values<V>(status: KeyStatus<V>, value: V, tier: int)
    ensures
        status.found() == Some(value) <==> exists|t: usize|
            status == (#[trigger] hit_of(t, value)),
        status.found() is None <==> status is Miss || status is Inconclusive,
        status.served_by(tier) <==> exists|t: usize, v: V|
            t == tier && status == (#[trigger] hit_of(t, v)),
{
    if let KeyStatus::Hit { tier: t, value: v } = status {
        assert(status == hit_of(t, v));
    }
}

/// A hit in tier `tier` with `value`.
pub open spec fn hit_of<V>(tier: usize, value: V) -> KeyStatus<V> {
    KeyStatus::Hit { tier, value }
}

/// What is recorded of a tier's answer is the whole of it.
pub proof fn law_answers_are_taken_whole<K, V, E>(
    put: Result<Displaced<K, V>, E>,
    many: Result<Vec<Option<V>>, E>,
    flags: Result<Vec<bool>, E>,
    index: int,
)
    requires
        0 <= index,
    ensures
        put matches Ok(displaced) ==> rollover::put_reply(put) == Reply::<K, V, E>::Put(
            Ok(displaced@),
        ) && rollover::put_reply(put).displaced() == displaced@,
        put matches Err(source) ==> rollover::put_reply(put) == Reply::<K, V, E>::Put(Err(source))
            && rollover::put_reply(put).displaced().len() == 0,
        many matches Ok(found) ==> batch::many_reply::<K, V, E>(many) == Reply::<
            K,
            V,
            E,
        >::GotMany(Ok(found@)),
        many matches Err(source) ==> batch::many_reply::<K, V, E>(many) == Reply::<
            K,
            V,
            E,
        >::GotMany(Err(source)),
        flags matches Ok(present) ==> delete::flags_reply(flags) == Ok::<Seq<bool>, E>(present@),
        flags matches Err(source) ==> delete::flags_reply(flags) == Err::<Seq<bool>, E>(source),
        delete::flagged(delete::flags_reply(flags), index) <==> (flags matches Ok(present) && index
            < present@.len() && present@[index]),
{
}

/// A read starts with no answer; each further answer is recorded behind those
/// before, and what was asked for is told by the answers before it.
pub proof fn law_read_records_its_answers<K, V, E>(
    log: GetLog<K, V, E>,
    route: Route,
    key: K,
    reply: Reply<K, V, E>,
    i: int,
)
    ensures
        GetLog::<K, V, E>::begin(route, key) == (GetLog::<K, V, E> { route, key, replies: Seq::empty() }),
        log.answered(reply) == (GetLog { replies: log.replies.push(reply), ..log }),
        log.prefix(i) == (GetLog { replies: log.replies.take(i), ..log }),
        log.asked().len() == log.replies.len(),
        0 <= i < log.replies.len() ==> log.asked()[i] == log.prefix(i).step(),
{
}

/// An existence check records its answers as a read does.
pub proof fn law_existence_check_records_its_answers<K, E>(
    log: ExistsLog<K, E>,
    route: Route,
    key: K,
    reply: Result<bool, E>,
    i: int,
)
    ensures
        ExistsLog::<K, E>::begin(route, key) == (ExistsLog::<K, E> { route, key, replies: Seq::empty() }),
        log.answered(reply) == (ExistsLog { replies: log.replies.push(reply), ..log }),
        log.prefix(i) == (ExistsLog { replies: log.replies.take(i), ..log }),
{
}

/// A batched read records its answers as a read does.
pub proof fn law_batched_read_records_its_answers<K, V, E>(
    log: ReadManyLog<K, V, E>,
    route: Route,
    keys: Seq<K>,
    reply: Reply<K, V, E>,
    i: int,
)
    ensures
        ReadManyLog::<K, V, E>::begin(route, keys) == (ReadManyLog::<K, V, E> {
            route,
            keys,
            replies: Seq::empty(),
        }),
        log.answered(reply) == (ReadManyLog { replies: log.replies.push(reply), ..log }),
        log.prefix(i) == (ReadManyLog { replies: log.replies.take(i), ..log }),
        log.asked().len() == log.replies.len(),
        0 <= i < log.replies.len() ==> log.asked()[i] == log.prefix(i).step(),
{
}

/// A write records its answers as a read does.
pub proof fn law_write_records_its_answers<K, V, E>(
    log: WriteLog<K, V, E>,
    route: Route,
    entries: Seq<(K, V)>,
    reply: Reply<K, V, E>,
    i: int,
)
    ensures
        WriteLog::<K, V, E>::begin(route, entries) == (WriteLog::<K, V, E> {
            route,
            entries,
            replies: Seq::empty(),
        }),
        log.answered(reply) == (WriteLog { replies: log.replies.push(reply), ..log }),
        log.prefix(i) == (WriteLog { replies: log.replies.take(i), ..log }),
        log.asked().len() == log.replies.len(),
        0 <= i < log.replies.len() ==> log.asked()[i] == log.prefix(i).step(),
{
}

/// A delete records its answers as a read does.
pub proof fn law_delete_records_its_answers<K, E>(
    log: DeleteLog<K, E>,
    route: Route,
    key: K,
    reply: Result<bool, E>,
    i: int,
)
    ensures
        DeleteLog::<K, E>::begin(route, key) == (DeleteLog::<K, E> { route, key, replies: Seq::empty() }),
        log.answered(reply) == (DeleteLog { replies: log.replies.push(reply), ..log }),
        log.prefix(i) == (DeleteLog { replies: log.replies.take(i), ..log }),
{
}

/// A batched delete records its answers as a read does.
pub proof fn law_batched_delete_records_its_answers<K, E>(
    log: RemoveLog<K, E>,
    route: Route,
    keys: Seq<K>,
    reply: Result<Seq<bool>, E>,
    i: int,
)
    ensures
        RemoveLog::<K, E>::begin(route, keys) == (RemoveLog::<K, E> { route, keys, replies: Seq::empty() }),
        log.answered(reply) == (RemoveLog { replies: log.replies.push(reply), ..log }),
        log.prefix(i) == (RemoveLog { replies: log.replies.take(i), ..log }),
{
}

/// Cache reads record their answers as a read does.
pub proof fn law_cache_reads_record_their_answers<K, V, E, L>(
    lookup: LookupLog<K, V, E>,
    load: LoadLog<K, V, E, L>,
    key: K,
    coalesced: bool,
    looked: LookupReply<V, E>,
    loaded: LoadReply<V, E, L>,
    i: int,
)
    ensures
        LookupLog::<K, V, E>::begin(key, coalesced) == (LookupLog::<K, V, E> {
            key,
            coalesced,
            replies: Seq::empty(),
        }),
        LoadLog::<K, V, E, L>::begin(key, coalesced) == (LoadLog::<K, V, E, L> {
            key,
            coalesced,
            replies: Seq::empty(),
        }),
        lookup.answered(looked) == (LookupLog { replies: lookup.replies.push(looked), ..lookup }),
        load.answered(loaded) == (LoadLog { replies: load.replies.push(loaded), ..load }),
        lookup.prefix(i) == (LookupLog { replies: lookup.replies.take(i), ..lookup }),
        load.prefix(i) == (LoadLog { replies: load.replies.take(i), ..load }),
{
}

/// A probe found a value only if it succeeded with one, and a loader's answer
/// is its result.
pub proof fn law_probes_find_what_they_return<V, E, L>(reply: LoadReply<V, E, L>, value: V)
    ensures
        reply.hit() == Some(value) <==> reply == LoadReply::<V, E, L>::Probed(Ok(Some(value))),
        forall|result: Result<V, L>| #[trigger]
            reply.loaded() == Some(result) <==> reply == LoadReply::<V, E, L>::Loaded(result),
{
}

/// While a loaded value is offered to the tiers, it is the one that the
/// loader returned last.
pub proof fn law_fill_offers_the_loaded_value<K, V, E, L>(log: LoadLog<K, V, E, L>)
    requires
        log.sound(),
        log.step() is Fill,
    ensures
        log.replies.len() > 0,
        log.replies.last() matches LoadReply::Loaded(Ok(value)) && log.value() == Some(value),
{
    crate::laws::cache::law_load_returns_hit_or_loaded(log);
    crate::laws::cache::lemma_shaped(log);
}

/// A read flow records its probes in order and its copies by their number.
pub proof fn law_read_flow_records_its_probes(progress: ReadProgress, probe: Probe)
    ensures
        progress.probed(probe) == (ReadProgress {
            probes: progress.probes.push(probe),
            ..progress
        }),
        progress.promoted_once() == (ReadProgress { promoted: progress.promoted + 1, ..progress }),
{
}

/// What a read is to do next, or returns, is what is said of it.
pub proof fn law_read_steps_say_what_they_are<K, V, E>(tier: usize, key: K, value: V)
    ensures
        (GetStep::<K, V, E>::Get { tier })@ == (GetMove::<K, V, E>::Get { tier: tier as int }),
        (GetStep::<K, V, E>::Promote { tier })@ == (GetMove::<K, V, E>::Promote {
            tier: tier as int,
        }),
        (GetStep::<K, V, E>::Demote { tier, key, value })@ == (GetMove::<K, V, E>::Demote {
            tier: tier as int,
            key,
            value,
        }),
        forall|found: Option<V>|
            (#[trigger] GetStep::<K, V, E>::Done(Ok(found))@) == GetMove::<K, V, E>::Done(
                Ok(found),
            ),
        forall|error: RouterError<E>|
            (#[trigger] GetStep::<K, V, E>::Done(Err(error))@) == GetMove::<K, V, E>::Done(
                Err(error@),
            ),
        (ExistsStep::<E>::Exists { tier })@ == (ExistsMove::<E>::Exists { tier: tier as int }),
        forall|present: bool|
            (#[trigger] ExistsStep::<E>::Done(Ok(present))@) == ExistsMove::<E>::Done(Ok(present)),
        forall|error: RouterError<E>|
            (#[trigger] ExistsStep::<E>::Done(Err(error))@) == ExistsMove::<E>::Done(Err(error@)),
{
}

/// What a batched read is to do next, or returns, is what is said of it.
pub proof fn law_batched_read_steps_say_what_they_are<K, V, E>(
    tier: usize,
    indices: Vec<usize>,
    key: K,
    value: V,
    report: ReadReport<V, E>,
    error: RouterError<E>,
)
    ensures
        (ReadManyStep::<K, V, E>::GetMany { tier, pending: indices })@ matches ReadManyMove::GetMany {
            tier: t,
            pending,
        } && t == tier && same_positions(indices@, pending),
        (ReadManyStep::<K, V, E>::Promote { tier, hits: indices })@ matches ReadManyMove::Promote {
            tier: t,
            hits,
        } && t == tier && same_positions(indices@, hits),
        (ReadManyStep::<K, V, E>::Demote { tier, key, value })@ == (ReadManyMove::<
            K,
            V,
            E,
        >::Demote { tier: tier as int, key, value }),
        ReadManyStep::<K, V, E>::Done(Ok(report))@ == ReadManyMove::<K, V, E>::Done(
            Ok((report.statuses@, error::failures_of(report.failures@))),
        ),
        ReadManyStep::<K, V, E>::Done(Err(error))@ == ReadManyMove::<K, V, E>::Done(Err(error@)),
{
}

/// Whether `positions` are the numbers that `indices` holds.
pub open spec fn same_positions(indices: Seq<usize>, positions: Seq<int>) -> bool {
    &&& positions.len() == indices.len()
    &&& forall|i: int| 0 <= i < indices.len() ==> #[trigger] positions[i] == indices[i]
}

/// What a write is to do next, or returns, is what is said of it.
pub proof fn law_write_steps_say_what_they_are<K, V, E>(
    tier: usize,
    key: K,
    value: V,
    evicted: Displaced<K, V>,
    error: RouterError<E>,
)
    ensures
        (WriteStep::<K, V, E>::Put { tier })@ == (WriteMove::<K, V, E>::Put { tier: tier as int }),
        (WriteStep::<K, V, E>::Demote { tier, key, value })@ == (WriteMove::<K, V, E>::Demote {
            tier: tier as int,
            key,
            value,
        }),
        (WriteStep::<K, V, E>::Delete { tier })@ == (WriteMove::<K, V, E>::Delete {
            tier: tier as int,
        }),
        WriteStep::<K, V, E>::Done(Ok(evicted))@ == WriteMove::<K, V, E>::Done(Ok(evicted@)),
        WriteStep::<K, V, E>::Done(Err(error))@ == WriteMove::<K, V, E>::Done(Err(error@)),
{
}

/// What a delete is to do next, or returns, is what is said of it.
pub proof fn law_delete_steps_say_what_they_are<E>(
    tier: usize,
    existed: bool,
    error: RouterError<E>,
    report: DeleteReport<E>,
)
    ensures
        (DeleteStep::<E>::Delete { tier })@ == (DeleteMove::<E>::Delete { tier: tier as int }),
        DeleteStep::<E>::Done(Ok(existed))@ == DeleteMove::<E>::Done(Ok(existed)),
        DeleteStep::<E>::Done(Err(error))@ == DeleteMove::<E>::Done(Err(error@)),
        (RemoveStep::<E>::DeleteMany { tier })@ == (RemoveMove::<E>::DeleteMany {
            tier: tier as int,
        }),
        RemoveStep::<E>::Done(report)@ == (RemoveMove::<E>::Done {
            removed: report.removed@,
            failures: error::failures_of(report.failures@),
        }),
{
}

/// An error is what is said of it, with every failure it carries, in order.
pub proof fn law_errors_say_what_they_are<E>(
    failure: TierFailure<E>,
    failures: Vec<TierFailure<E>>,
    i: int,
)
    ensures
        RouterError::Tier(failure)@ == Trouble::Tier(failure@),
        RouterError::<E>::ReadOnly@ == Trouble::<E>::ReadOnly,
        RouterError::Inconclusive(failures)@ == Trouble::Inconclusive(
            error::failures_of(failures@),
        ),
        RouterError::Partial(failures)@ == Trouble::Partial(error::failures_of(failures@)),
        error::failures_of(failures@).len() == failures@.len(),
        0 <= i < failures@.len() ==> error::failures_of(failures@)[i] == failures@[i]@,
{
}

/// An entry's price is what the weigher says, and nothing without one.
pub proof fn law_prices_are_the_weighers<K, V, W: Weigher<K, V>>(
    weigher: Option<W>,
    key: K,
    value: V,
    weight: usize,
)
    ensures
        weigher is None ==> (memory::prices(weigher, key, value, weight) <==> weight == 0),
        weigher matches Some(by) ==> (memory::prices(weigher, key, value, weight) <==> by.weighs(
            &key,
            &value,
            weight,
        )),
        weigher is None ==> memory::priceable(weigher, key, value),
        weigher matches Some(by) ==> (memory::priceable(weigher, key, value) <==> by.accepts(
            &key,
            &value,
        )),
{
}

/// Entries are weighed one by one and keep their order.
pub proof fn law_entries_are_weighed_in_order<K, V>(
    entries: Seq<(K, V)>,
    weights: Seq<usize>,
    i: int,
)
    ensures
        memory::weighed(entries, weights).len() == entries.len(),
        0 <= i < entries.len() ==> memory::weighed(entries, weights)[i] == (Held {
            key: entries[i].0,
            value: entries[i].1,
            weight: weights[i] as int,
        }),
{
}

/// The keys and the pairs of entries come in the order of the entries.
pub proof fn law_keys_and_pairs_keep_the_order<K, V>(entries: Seq<Held<K, V>>, i: int)
    ensures
        state::keys_of(entries).len() == entries.len(),
        state::pairs(entries).len() == entries.len(),
        0 <= i < entries.len() ==> state::keys_of(entries)[i] == entries[i].key,
        0 <= i < entries.len() ==> state::pairs(entries)[i] == (entries[i].key, entries[i].value),
{
}

/// Tiers that are configured alike have the same bounds, weigher and order.
pub proof fn law_configuration_is_bounds_weigher_and_order<K, V, W>(
    tier: MemoryTier<K, V, W>,
    other: MemoryTier<K, V, W>,
)
    ensures
        tier.configured_like(&other) <==> tier.bounds() == other.bounds() && tier.weigher()
            == other.weigher() && tier.order() == other.order(),
{
}

/// A queue of recency tickets is short if it has at most two for each entry,
/// or few altogether.
pub open spec fn short(tickets: int, entries: int) -> bool {
    tickets <= 2 * entries || tickets <= 16
}

/// Reads that record no use leave the queue of tickets alone; those that do,
/// and writes, keep it short.
pub proof fn law_tickets_are_kept_short<K, V>(
    tier: MemoryState<K, V>,
    keys: Seq<K>,
    eviction: Eviction,
    items: Seq<Held<K, V>>,
    limits: Limits,
    before: int,
    after: int,
    entries: int,
)
    ensures
        after <= state::ticket_limit(entries) <==> short(after, entries),
        tier.reading_leaves(keys, eviction, before, after) ==> after == before || short(
            after,
            tier.entries.len() as int,
        ),
        tier.reading_leaves(keys, eviction, before, after) && tier.read_all_uses(keys, eviction)
            == 0 ==> after == before,
        tier.writing_leaves(Seq::empty(), limits, eviction, before, after) ==> after == before,
        items.len() > 0 && tier.writing_leaves(items, limits, eviction, before, after) ==> short(
            after,
            tier.inserted_all(items.drop_last(), limits, eviction).entries.len() + 1int,
        ),
{
}

/// A tier that holds nothing has no entry and no weight.
pub proof fn law_empty_tier_holds_nothing<K, V>()
    ensures
        MemoryState::<K, V>::empty().entries.len() == 0,
        MemoryState::<K, V>::empty().weight == 0,
{
}

/// While a read copies its hit upward, the value it copies is the one that
/// the serving tier gave.
pub proof fn law_read_copies_what_it_found<K, V, E>(log: GetLog<K, V, E>)
    requires
        log.sound(),
        log.step() is Promote,
    ensures
        exists|served: int| #[trigger]
            outcomes::hits_at(log, served) && (log.replies[served] matches Reply::Got(
                Ok(Some(value)),
            ) && fetch::hit_in(log.replies) == Some(value)),
{
    outcomes::law_read_tells_what_the_tiers_answered(log);
    let served = choose|served: int| #[trigger] outcomes::hits_at(log, served);
    assert(outcomes::hits_at(log, served));
    lemma_first_hit(log.replies, served);
}

proof fn lemma_first_hit<K, V, E>(replies: Seq<Reply<K, V, E>>, served: int)
    requires
        0 <= served < replies.len(),
        forall|i: int|
            0 <= i < served ==> !(#[trigger] replies[i] matches Reply::Got(Ok(Some(_)))),
        replies[served] matches Reply::Got(Ok(Some(_))),
    ensures
        replies[served] matches Reply::Got(Ok(Some(value))) && fetch::hit_in(replies) == Some(
            value,
        ),
    decreases replies.len(),
{
    let before = replies.drop_last();
    if served < before.len() {
        lemma_first_hit(before, served);
    } else {
        lemma_no_hit(before);
    }
}

proof fn lemma_no_hit<K, V, E>(replies: Seq<Reply<K, V, E>>)
    requires
        forall|i: int|
            0 <= i < replies.len() ==> !(#[trigger] replies[i] matches Reply::Got(Ok(Some(_)))),
    ensures
        fetch::hit_in(replies) is None,
    decreases replies.len(),
{
    if replies.len() > 0 {
        let before = replies.drop_last();
        assert forall|i: int| 0 <= i < before.len() implies !(
        #[trigger] before[i] matches Reply::Got(Ok(Some(_)))) by {
            assert(before[i] == replies[i]);
        }
        lemma_no_hit(before);
    }
}

} // verus!
