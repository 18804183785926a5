//! What holds of memory tiers over any sequence of calls.
use vstd::prelude::*;

use crate::laws::memory;
use crate::memory::state;
use crate::memory::state::{Held, Limits, MemoryState};
use crate::policy::Eviction;

verus! {

/// One call of a memory tier. Written entries come with what they weigh.
pub enum Call<K, V> {
    /// A write of one entry.
    Put(Held<K, V>),
    /// A write of entries in turn.
    PutMany(Seq<Held<K, V>>),
    /// A read of one key.
    Get(K),
    /// A read of keys in turn.
    GetMany(Seq<K>),
    /// A delete of one key.
    Delete(K),
    /// A delete of keys in turn.
    DeleteMany(Seq<K>),
}

impl<K, V> Call<K, V> {
    /// What the tier holds after the call.
    pub open spec fn apply(
        self,
        state: MemoryState<K, V>,
        limits: Limits,
        eviction: Eviction,
    ) -> MemoryState<K, V> {
        match self {
            Call::Put(held) => state.inserted(held, limits, eviction),
            Call::PutMany(items) => state.inserted_all(items, limits, eviction),
            Call::Get(key) => state.read(key, eviction),
            Call::GetMany(keys) => state.read_all(keys, eviction),
            Call::Delete(key) => state.removed(key),
            Call::DeleteMany(keys) => state.removed_all(keys),
        }
    }

    /// What the call displaces.
    pub open spec fn displaces(
        self,
        state: MemoryState<K, V>,
        limits: Limits,
        eviction: Eviction,
    ) -> Seq<(K, V)> {
        match self {
            Call::Put(held) => state.displaced(held, limits, eviction),
            Call::PutMany(items) => state.displaced_all(items, limits, eviction),
            _ => Seq::empty(),
        }
    }

    /// Whether a tier that queued `before` recency tickets may queue `after`
    /// once the call is made.
    pub open spec fn leaves(
        self,
        state: MemoryState<K, V>,
        limits: Limits,
        eviction: Eviction,
        before: int,
        after: int,
    ) -> bool {
        match self {
            Call::Put(held) => after <= state::ticket_limit(state.len_with(held.key)),
            Call::PutMany(items) => state.writing_leaves(items, limits, eviction, before, after),
            Call::Get(key) => state.reading_leaves(seq![key], eviction, before, after),
            Call::GetMany(keys) => state.reading_leaves(keys, eviction, before, after),
            Call::Delete(_) | Call::DeleteMany(_) => after == before,
        }
    }

    /// Whether the tier holds at most `most` entries before the call, and
    /// before every write of a batch.
    pub open spec fn holds_at_most(
        self,
        state: MemoryState<K, V>,
        limits: Limits,
        eviction: Eviction,
        most: int,
    ) -> bool {
        &&& state.entries.len() <= most
        &&& self matches Call::PutMany(items) ==> forall|j: int|
            0 <= j < items.len() ==> (#[trigger] state.inserted_all(
                items.take(j),
                limits,
                eviction,
            )).entries.len() <= most
    }

    /// The entries the call writes.
    pub open spec fn written(self) -> Seq<Held<K, V>> {
        match self {
            Call::Put(held) => seq![held],
            Call::PutMany(items) => items,
            _ => Seq::empty(),
        }
    }

    /// Whether what is written weighs what a tier with these bounds prices it
    /// at: nothing, unless there is a byte budget.
    pub open spec fn priced(self, limits: Limits) -> bool {
        forall|i: int|
            0 <= i < self.written().len() ==> {
                &&& (#[trigger] self.written()[i]).weight >= 0
                &&& limits.bytes is None ==> self.written()[i].weight == 0
            }
    }
}

/// What a tier that held nothing holds after `calls`.
pub open spec fn reached<K, V>(
    calls: Seq<Call<K, V>>,
    limits: Limits,
    eviction: Eviction,
) -> MemoryState<K, V>
    decreases calls.len(),
{
    if calls.len() == 0 {
        MemoryState::empty()
    } else {
        calls.last().apply(reached(calls.drop_last(), limits, eviction), limits, eviction)
    }
}

/// Whether a tier that held nothing may have queued `tickets[i]` recency
/// tickets when it was called for the `i`-th time.
pub open spec fn queued<K, V>(
    calls: Seq<Call<K, V>>,
    limits: Limits,
    eviction: Eviction,
    tickets: Seq<int>,
) -> bool {
    &&& tickets.len() == calls.len() + 1
    &&& tickets[0] == 0
    &&& forall|i: int|
        0 <= i < calls.len() ==> (#[trigger] calls[i]).leaves(
            reached(calls.take(i), limits, eviction),
            limits,
            eviction,
            tickets[i],
            tickets[i + 1],
        )
}

/// Whether every call writes priced entries.
pub open spec fn all_priced<K, V>(calls: Seq<Call<K, V>>, limits: Limits) -> bool {
    forall|i: int| 0 <= i < calls.len() ==> (#[trigger] calls[i]).priced(limits)
}

/// Whether every entry satisfies `fact`.
pub open spec fn all_are<K, V>(entries: Seq<Held<K, V>>, fact: spec_fn(Held<K, V>) -> bool) -> bool {
    forall|i: int| 0 <= i < entries.len() ==> fact(#[trigger] entries[i])
}

/// Every reachable tier is valid, and within its bounds. So the weight it
/// accounts for is the sum of what the entries weigh that it holds, at most
/// the budget, and nothing without a budget; and it holds at most as many
/// entries as it may.
pub proof fn law_every_reachable_tier_keeps_its_bounds<K, V>(
    calls: Seq<Call<K, V>>,
    limits: Limits,
    eviction: Eviction,
)
    requires
        all_priced(calls, limits),
    ensures
        ({
            let tier = reached(calls, limits, eviction);
            &&& tier.valid()
            &&& tier.weight == state::total_weight(tier.entries)
            &&& 0 <= tier.weight
            &&& limits.bytes matches Some(budget) ==> tier.weight <= budget
            &&& limits.bytes is None ==> tier.weight == 0
            &&& limits.entries matches Some(capacity) ==> tier.entries.len() <= capacity
        }),
{
    lemma_reached(calls, limits, eviction);
    state::lemma_total_nonnegative(reached(calls, limits, eviction).entries);
}

proof fn lemma_reached<K, V>(calls: Seq<Call<K, V>>, limits: Limits, eviction: Eviction)
    requires
        all_priced(calls, limits),
    ensures
        reached(calls, limits, eviction).valid(),
        reached(calls, limits, eviction).within(limits),
    decreases calls.len(),
{
    if calls.len() > 0 {
        let earlier = calls.drop_last();
        let before = reached(earlier, limits, eviction);
        let last = calls.last();
        assert(all_priced(earlier, limits)) by {
            assert forall|i: int| 0 <= i < earlier.len() implies (#[trigger] earlier[i]).priced(
                limits,
            ) by {
                assert(calls[i].priced(limits));
            }
        }
        lemma_reached(earlier, limits, eviction);
        assert(calls[calls.len() - 1].priced(limits));
        match last {
            Call::Put(held) => {
                assert(last.written()[0] == held);
                state::lemma_inserted_within(before, held, limits, eviction);
            },
            Call::PutMany(items) => {
                assert forall|i: int| 0 <= i < items.len() implies (#[trigger] items[i]).weight >= 0
                    && (limits.bytes is None ==> items[i].weight == 0) by {
                    assert(last.written()[i] == items[i]);
                }
                state::lemma_inserted_all_within(before, items, limits, eviction);
            },
            Call::Get(key) => {
                state::lemma_used_within(before, key, limits, eviction);
            },
            Call::GetMany(keys) => {
                state::lemma_used_all_within(before, keys, limits, eviction);
            },
            Call::Delete(key) => {
                state::lemma_used_within(before, key, limits, eviction);
            },
            Call::DeleteMany(keys) => {
                state::lemma_used_all_within(before, keys, limits, eviction);
            },
        }
    } else {
        assert(state::keys_of(Seq::<Held<K, V>>::empty()) =~= Seq::empty());
    }
}

/// Where entries are priced by a function of key and value, every reachable
/// tier weighs what that function prices the entries at that it holds.
pub proof fn law_weight_is_the_price_of_what_is_held<K, V>(
    calls: Seq<Call<K, V>>,
    limits: Limits,
    eviction: Eviction,
    price: spec_fn(K, V) -> int,
)
    requires
        all_priced(calls, limits),
        forall|i: int|
            0 <= i < calls.len() ==> all_are(
                (#[trigger] calls[i]).written(),
                |held: Held<K, V>| held.weight == price(held.key, held.value),
            ),
    ensures
        ({
            let tier = reached(calls, limits, eviction);
            &&& all_are(
                tier.entries,
                |held: Held<K, V>| held.weight == price(held.key, held.value),
            )
            &&& tier.weight == state::total_weight(tier.entries)
        }),
{
    lemma_reached(calls, limits, eviction);
    lemma_reached_are(
        calls,
        limits,
        eviction,
        |held: Held<K, V>| held.weight == price(held.key, held.value),
    );
}

/// What is true of all entries that were written is true of those held.
proof fn lemma_reached_are<K, V>(
    calls: Seq<Call<K, V>>,
    limits: Limits,
    eviction: Eviction,
    fact: spec_fn(Held<K, V>) -> bool,
)
    requires
        all_priced(calls, limits),
        forall|i: int| 0 <= i < calls.len() ==> all_are((#[trigger] calls[i]).written(), fact),
    ensures
        all_are(reached(calls, limits, eviction).entries, fact),
    decreases calls.len(),
{
    if calls.len() > 0 {
        let earlier = calls.drop_last();
        let before = reached(earlier, limits, eviction);
        let last = calls.last();
        assert forall|i: int| 0 <= i < earlier.len() implies (#[trigger] earlier[i]).priced(limits)
            && all_are(earlier[i].written(), fact) by {
            assert(calls[i].priced(limits));
            assert(all_are(calls[i].written(), fact));
        }
        lemma_reached(earlier, limits, eviction);
        lemma_reached_are(earlier, limits, eviction, fact);
        assert(calls[calls.len() - 1].priced(limits));
        assert(all_are(calls[calls.len() - 1].written(), fact));
        match last {
            Call::Put(held) => {
                assert(last.written()[0] == held);
                lemma_inserted_are(before, held, limits, eviction, fact);
            },
            Call::PutMany(items) => {
                assert forall|i: int| 0 <= i < items.len() implies (#[trigger] items[i]).weight >= 0
                    && (limits.bytes is None ==> items[i].weight == 0) by {
                    assert(last.written()[i] == items[i]);
                }
                lemma_inserted_all_are(before, items, limits, eviction, fact);
            },
            Call::Get(key) => {
                lemma_used_are(before, key, eviction, fact);
            },
            Call::GetMany(keys) => {
                lemma_used_all_are(before, keys, eviction, fact);
            },
            Call::Delete(key) => {
                lemma_used_are(before, key, eviction, fact);
            },
            Call::DeleteMany(keys) => {
                lemma_used_all_are(before, keys, eviction, fact);
            },
        }
    }
}

proof fn lemma_without_are<K, V>(
    entries: Seq<Held<K, V>>,
    key: K,
    fact: spec_fn(Held<K, V>) -> bool,
)
    requires
        all_are(entries, fact),
    ensures
        all_are(state::without(entries, key), fact),
{
    let less = state::without(entries, key);
    state::lemma_without(entries, key);
    assert forall|i: int| 0 <= i < less.len() implies fact(#[trigger] less[i]) by {
        assert(less.contains(less[i]));
        let j = choose|j: int| 0 <= j < entries.len() && entries[j] == less[i];
        assert(fact(entries[j]));
    }
}

proof fn lemma_inserted_are<K, V>(
    state: MemoryState<K, V>,
    held: Held<K, V>,
    limits: Limits,
    eviction: Eviction,
    fact: spec_fn(Held<K, V>) -> bool,
)
    requires
        state.valid(),
        held.weight >= 0,
        all_are(state.entries, fact),
        fact(held),
    ensures
        all_are(state.inserted(held, limits, eviction).entries, fact),
{
    let placed = state.placed(held, eviction);
    lemma_without_are(state.entries, held.key, fact);
    state::lemma_placed_valid(state, held, eviction);
    state::lemma_shed_excess(placed, limits);
    assert forall|i: int| 0 <= i < placed.entries.len() implies fact(
        #[trigger] placed.entries[i],
    ) by {
        if state.lookup(held.key) is Some && eviction == Eviction::Lru {
            let less = state::without(state.entries, held.key);
            if i < less.len() {
                assert(fact(less[i]));
            }
        } else if i < state.entries.len() {
            assert(fact(state.entries[i]));
        }
    }
    let after = state.inserted(held, limits, eviction).entries;
    let count = placed.excess(limits) as int;
    assert forall|i: int| 0 <= i < after.len() implies fact(#[trigger] after[i]) by {
        assert(after[i] == placed.entries[i + count]);
    }
}

proof fn lemma_inserted_all_are<K, V>(
    state: MemoryState<K, V>,
    items: Seq<Held<K, V>>,
    limits: Limits,
    eviction: Eviction,
    fact: spec_fn(Held<K, V>) -> bool,
)
    requires
        state.valid(),
        state.within(limits),
        forall|i: int|
            0 <= i < items.len() ==> (#[trigger] items[i]).weight >= 0 && (limits.bytes is None
                ==> items[i].weight == 0),
        all_are(state.entries, fact),
        all_are(items, fact),
    ensures
        all_are(state.inserted_all(items, limits, eviction).entries, fact),
    decreases items.len(),
{
    if items.len() > 0 {
        let earlier = items.drop_last();
        assert(fact(items[items.len() - 1]));
        assert forall|i: int| 0 <= i < earlier.len() implies fact(#[trigger] earlier[i]) by {
            assert(fact(items[i]));
        }
        lemma_inserted_all_are(state, earlier, limits, eviction, fact);
        state::lemma_inserted_all_within(state, earlier, limits, eviction);
        lemma_inserted_are(
            state.inserted_all(earlier, limits, eviction),
            items.last(),
            limits,
            eviction,
            fact,
        );
    }
}

proof fn lemma_used_are<K, V>(
    state: MemoryState<K, V>,
    key: K,
    eviction: Eviction,
    fact: spec_fn(Held<K, V>) -> bool,
)
    requires
        all_are(state.entries, fact),
    ensures
        all_are(state.read(key, eviction).entries, fact),
        all_are(state.removed(key).entries, fact),
{
    lemma_without_are(state.entries, key, fact);
    state::lemma_lookup_found(state.entries, key);
    if let Some(held) = state.lookup(key) {
        let i = choose|i: int| 0 <= i < state.entries.len() && state.entries[i] == held;
        assert(fact(state.entries[i]));
    }
}

proof fn lemma_used_all_are<K, V>(
    state: MemoryState<K, V>,
    keys: Seq<K>,
    eviction: Eviction,
    fact: spec_fn(Held<K, V>) -> bool,
)
    requires
        all_are(state.entries, fact),
    ensures
        all_are(state.read_all(keys, eviction).entries, fact),
        all_are(state.removed_all(keys).entries, fact),
    decreases keys.len(),
{
    if keys.len() > 0 {
        let earlier = keys.drop_last();
        lemma_used_all_are(state, earlier, eviction, fact);
        lemma_used_are(state.read_all(earlier, eviction), keys.last(), eviction, fact);
        lemma_used_are(state.removed_all(earlier), keys.last(), eviction, fact);
    }
}

/// A tier without bounds.
pub open spec fn no_limits() -> Limits {
    Limits { entries: None, bytes: None }
}

/// A tier with a bound on the number of entries alone.
pub open spec fn at_most(capacity: usize) -> Limits {
    Limits { entries: Some(capacity), bytes: None }
}

/// `map` after the items were written in turn.
pub open spec fn written_over<K, V>(map: Map<K, V>, items: Seq<Held<K, V>>) -> Map<K, V>
    decreases items.len(),
{
    if items.len() == 0 {
        map
    } else {
        written_over(map, items.drop_last()).insert(items.last().key, items.last().value)
    }
}

/// The last value written for every key that was not deleted since.
pub open spec fn ledger<K, V>(calls: Seq<Call<K, V>>) -> Map<K, V>
    decreases calls.len(),
{
    if calls.len() == 0 {
        Map::empty()
    } else {
        let before = ledger(calls.drop_last());
        match calls.last() {
            Call::Put(held) => before.insert(held.key, held.value),
            Call::PutMany(items) => written_over(before, items),
            Call::Delete(key) => before.remove(key),
            Call::DeleteMany(keys) => before.remove_keys(keys.to_set()),
            _ => before,
        }
    }
}

/// An unbounded tier never evicts: over any sequence of calls it displaces
/// nothing, holds for every key the last value written and not deleted since,
/// as many entries as there are such keys, and weighs nothing.
pub proof fn law_unbounded_tier_never_evicts<K, V>(
    calls: Seq<Call<K, V>>,
    next: Call<K, V>,
    eviction: Eviction,
)
    requires
        all_priced(calls, no_limits()),
        next.priced(no_limits()),
    ensures
        ({
            let tier = reached(calls, no_limits(), eviction);
            &&& next.displaces(tier, no_limits(), eviction).len() == 0
            &&& memory::contents(tier) == ledger(calls)
            &&& forall|key: K|
                (match #[trigger] tier.lookup(key) {
                    Some(held) => ledger(calls).contains_key(key) && ledger(calls)[key]
                        == held.value,
                    None => !ledger(calls).contains_key(key),
                })
            &&& tier.entries.len() == ledger(calls).dom().len()
            &&& tier.weight == 0
        }),
{
    let tier = reached(calls, no_limits(), eviction);
    lemma_reached(calls, no_limits(), eviction);
    lemma_ledger(calls, eviction);
    match next {
        Call::Put(held) => {
            lemma_unbounded_put(tier, held, eviction);
        },
        Call::PutMany(items) => {
            lemma_unbounded_put_many(tier, items, eviction);
        },
        _ => {},
    }
    assert forall|key: K|
        (match #[trigger] tier.lookup(key) {
            Some(held) => ledger(calls).contains_key(key) && ledger(calls)[key] == held.value,
            None => !ledger(calls).contains_key(key),
        }) by {
        assert(memory::contents(tier).contains_key(key) <==> tier.lookup(key) is Some);
    }
    let keys = state::keys_of(tier.entries);
    keys.unique_seq_to_set();
    assert(keys.to_set() =~= ledger(calls).dom()) by {
        assert forall|key: K| keys.to_set().contains(key) <==> #[trigger] ledger(
            calls,
        ).dom().contains(key) by {
            state::lemma_lookup_found(tier.entries, key);
            assert(memory::contents(tier).contains_key(key) <==> tier.lookup(key) is Some);
            if keys.contains(key) {
                let i = choose|i: int| 0 <= i < keys.len() && keys[i] == key;
                assert(tier.entries[i].key == key);
            }
            if let Some(held) = tier.lookup(key) {
                let i = choose|i: int| 0 <= i < tier.entries.len() && tier.entries[i] == held;
                assert(keys[i] == key);
            }
        }
    }
}

proof fn lemma_unbounded_put<K, V>(
    state: MemoryState<K, V>,
    held: Held<K, V>,
    eviction: Eviction,
)
    ensures
        state.displaced(held, no_limits(), eviction).len() == 0,
        memory::contents(state.inserted(held, no_limits(), eviction)) == memory::contents(
            state,
        ).insert(held.key, held.value),
{
    let placed = state.placed(held, eviction);
    assert(placed.excess(no_limits()) == 0);
    assert(placed.shed(0) == placed);
    let after = memory::contents(placed);
    let full = memory::contents(state).insert(held.key, held.value);
    assert forall|key: K|
        #![trigger after.contains_key(key)]
        #![trigger full.contains_key(key)]
        after.contains_key(key) == full.contains_key(key) && (after.contains_key(key) ==> after[key]
            == full[key]) by {
        memory::lemma_placed_lookup(state, held, eviction, key);
    }
    assert(after =~= full);
}

proof fn lemma_unbounded_put_many<K, V>(
    state: MemoryState<K, V>,
    items: Seq<Held<K, V>>,
    eviction: Eviction,
)
    ensures
        state.displaced_all(items, no_limits(), eviction).len() == 0,
        memory::contents(state.inserted_all(items, no_limits(), eviction)) == written_over(
            memory::contents(state),
            items,
        ),
    decreases items.len(),
{
    if items.len() > 0 {
        let earlier = items.drop_last();
        lemma_unbounded_put_many(state, earlier, eviction);
        lemma_unbounded_put(
            state.inserted_all(earlier, no_limits(), eviction),
            items.last(),
            eviction,
        );
    }
}

proof fn lemma_read_all_keeps<K, V>(state: MemoryState<K, V>, keys: Seq<K>, eviction: Eviction)
    ensures
        memory::contents(state.read_all(keys, eviction)) == memory::contents(state),
    decreases keys.len(),
{
    if keys.len() > 0 {
        lemma_read_all_keeps(state, keys.drop_last(), eviction);
        memory::law_reads_keep_and_deletes_remove(
            state.read_all(keys.drop_last(), eviction),
            keys.last(),
            eviction,
        );
    }
}

proof fn lemma_ledger<K, V>(calls: Seq<Call<K, V>>, eviction: Eviction)
    ensures
        memory::contents(reached(calls, no_limits(), eviction)) == ledger(calls),
    decreases calls.len(),
{
    if calls.len() == 0 {
        assert(memory::contents(MemoryState::<K, V>::empty()) =~= Map::empty());
    } else {
        let before = reached(calls.drop_last(), no_limits(), eviction);
        lemma_ledger(calls.drop_last(), eviction);
        match calls.last() {
            Call::Put(held) => {
                lemma_unbounded_put(before, held, eviction);
            },
            Call::PutMany(items) => {
                lemma_unbounded_put_many(before, items, eviction);
            },
            Call::Get(key) => {
                memory::law_reads_keep_and_deletes_remove(before, key, eviction);
            },
            Call::GetMany(keys) => {
                lemma_read_all_keeps(before, keys, eviction);
            },
            Call::Delete(key) => {
                memory::law_reads_keep_and_deletes_remove(before, key, eviction);
            },
            Call::DeleteMany(keys) => {
                if keys.len() > 0 {
                    memory::law_batched_deletes_remove_the_named_keys(before, keys, keys[0]);
                } else {
                    assert(memory::contents(before).remove_keys(keys.to_set())
                        =~= memory::contents(before));
                }
            },
        }
    }
}

/// A tier bounded by the number of entries never holds more, over any
/// sequence of calls. A write displaces something exactly if its key is new
/// and the tier is full, and then exactly one entry: the first one that a
/// listing shows.
pub proof fn law_full_tier_displaces_its_first_entry<K, V>(
    calls: Seq<Call<K, V>>,
    held: Held<K, V>,
    capacity: usize,
    eviction: Eviction,
)
    requires
        capacity > 0,
        all_priced(calls, at_most(capacity)),
        held.weight == 0,
    ensures
        ({
            let tier = reached(calls, at_most(capacity), eviction);
            let displaced = tier.displaced(held, at_most(capacity), eviction);
            &&& tier.entries.len() <= capacity
            &&& tier.inserted(held, at_most(capacity), eviction).entries.len() <= capacity
            &&& displaced.len() > 0 <==> tier.lookup(held.key) is None && tier.entries.len()
                == capacity
            &&& displaced.len() > 0 ==> {
                &&& displaced == seq![(tier.entries[0].key, tier.entries[0].value)]
                &&& state::paged(state::keys_of(tier.entries), 0, 1) == seq![displaced[0].0]
            }
        }),
{
    let limits = at_most(capacity);
    let tier = reached(calls, limits, eviction);
    let placed = tier.placed(held, eviction);
    let displaced = tier.displaced(held, limits, eviction);
    lemma_reached(calls, limits, eviction);
    state::lemma_inserted_within(tier, held, limits, eviction);
    if tier.lookup(held.key) is Some {
        memory::law_replacement_does_not_evict(tier, held, limits, eviction);
    } else if tier.entries.len() < capacity {
        assert(placed.excess(limits) == 0);
    } else {
        assert(placed.shifted().excess(limits) == 0);
        assert(placed.excess(limits) == 1);
        let first = tier.entries[0];
        assert(displaced =~= seq![(first.key, first.value)]);
        assert(state::paged(state::keys_of(tier.entries), 0, 1) =~= seq![first.key]);
    }
}

/// Stale tickets never pile up. Over any sequence of calls of a tier that held
/// at most `most` entries at any time, it never queues more recency tickets
/// than it may for one entry more.
pub proof fn law_tickets_stay_proportional<K, V>(
    calls: Seq<Call<K, V>>,
    limits: Limits,
    eviction: Eviction,
    tickets: Seq<int>,
    most: int,
)
    requires
        queued(calls, limits, eviction, tickets),
        forall|i: int|
            0 <= i < calls.len() ==> (#[trigger] calls[i]).holds_at_most(
                reached(calls.take(i), limits, eviction),
                limits,
                eviction,
                most,
            ),
    ensures
        tickets.last() <= state::ticket_limit(most + 1),
    decreases calls.len(),
{
    if calls.len() > 0 {
        let earlier = calls.drop_last();
        let last = calls.len() - 1;
        let before = reached(calls.take(last), limits, eviction);
        assert forall|i: int| 0 <= i < earlier.len() implies (#[trigger] earlier[i]).leaves(
            reached(earlier.take(i), limits, eviction),
            limits,
            eviction,
            tickets.drop_last()[i],
            tickets.drop_last()[i + 1],
        ) && earlier[i].holds_at_most(
            reached(earlier.take(i), limits, eviction),
            limits,
            eviction,
            most,
        ) by {
            assert(calls[i] == earlier[i]);
            assert(earlier.take(i) =~= calls.take(i));
        }
        law_tickets_stay_proportional(earlier, limits, eviction, tickets.drop_last(), most);
        assert(calls[last].leaves(before, limits, eviction, tickets[last], tickets[last + 1]));
        assert(calls[last].holds_at_most(before, limits, eviction, most));
        if let Call::PutMany(items) = calls[last] {
            if items.len() > 0 {
                assert(items.drop_last() =~= items.take(items.len() - 1));
                assert(before.inserted_all(
                    items.take(items.len() - 1),
                    limits,
                    eviction,
                ).entries.len() <= most);
            }
        }
    }
}

/// A tier bounded by entries never queues more recency tickets than it may
/// for one entry more than it may hold, however it is called.
pub proof fn law_bounded_tier_bounds_its_tickets<K, V>(
    calls: Seq<Call<K, V>>,
    limits: Limits,
    eviction: Eviction,
    tickets: Seq<int>,
)
    requires
        all_priced(calls, limits),
        queued(calls, limits, eviction, tickets),
        limits.entries is Some,
    ensures
        tickets.last() <= state::ticket_limit(limits.entries->0 + 1),
{
    let capacity = limits.entries->0 as int;
    assert forall|i: int| 0 <= i < calls.len() implies (#[trigger] calls[i]).holds_at_most(
        reached(calls.take(i), limits, eviction),
        limits,
        eviction,
        capacity,
    ) by {
        let earlier = calls.take(i);
        let before = reached(earlier, limits, eviction);
        assert(all_priced(earlier, limits)) by {
            assert forall|j: int| 0 <= j < earlier.len() implies (#[trigger] earlier[j]).priced(
                limits,
            ) by {
                assert(calls[j].priced(limits));
            }
        }
        lemma_reached(earlier, limits, eviction);
        if let Call::PutMany(items) = calls[i] {
            assert forall|j: int| 0 <= j < items.len() implies (#[trigger] before.inserted_all(
                items.take(j),
                limits,
                eviction,
            )).entries.len() <= capacity by {
                assert forall|k: int| 0 <= k < j implies (#[trigger] items.take(j)[k]).weight >= 0
                    && (limits.bytes is None ==> items.take(j)[k].weight == 0) by {
                    assert(calls[i].written()[k] == items[k]);
                }
                state::lemma_inserted_all_within(before, items.take(j), limits, eviction);
            }
        }
    }
    law_tickets_stay_proportional(calls, limits, eviction, tickets, capacity);
}

} // verus!
