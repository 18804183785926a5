//! What holds of memory tiers.
use vstd::prelude::*;

use crate::laws::world;
use crate::memory::state;
use crate::memory::state::{Held, Limits, MemoryState};
use crate::policy::Eviction;

verus! {

/// What a tier answers for: the value of every key it holds.
pub open spec fn contents<K, V>(state: MemoryState<K, V>) -> Map<K, V> {
    Map::new(|key: K| state.lookup(key) is Some, |key: K| state.lookup(key).unwrap().value)
}

/// A tier never exceeds its bounds: whatever is written, it ends up valid and
/// under every bound.
pub proof fn law_writes_respect_the_bounds<K, V>(
    state: MemoryState<K, V>,
    held: Held<K, V>,
    limits: Limits,
    eviction: Eviction,
)
    requires
        state.valid(),
        held.weight >= 0,
    ensures
        state.inserted(held, limits, eviction).valid(),
        !state.inserted(held, limits, eviction).over(limits),
{
    state::lemma_placed_valid(state, held, eviction);
    state::lemma_shed_excess(state.placed(held, eviction), limits);
}

/// Reads and deletes keep a tier valid and never make it exceed a bound.
pub proof fn law_reads_and_deletes_respect_the_bounds<K, V>(
    state: MemoryState<K, V>,
    key: K,
    limits: Limits,
    eviction: Eviction,
)
    requires
        state.valid(),
        !state.over(limits),
    ensures
        state.read(key, eviction).valid(),
        !state.read(key, eviction).over(limits),
        state.removed(key).valid(),
        !state.removed(key).over(limits),
{
    state::lemma_touched_valid(state, key);
    state::lemma_removed_valid(state, key);
    state::lemma_without_len(state.entries, key);
    state::lemma_lookup_found(state.entries, key);
    if let Some(old) = state.lookup(key) {
        let i = choose|i: int| 0 <= i < state.entries.len() && state.entries[i] == old;
        assert(state.entries[i].weight >= 0);
    }
}

/// No more leaves than has to: before the last displaced entry left, the tier
/// exceeded a bound. What leaves does so in eviction order.
pub proof fn law_eviction_is_minimal<K, V>(
    state: MemoryState<K, V>,
    held: Held<K, V>,
    limits: Limits,
    eviction: Eviction,
    count: nat,
)
    requires
        count < state.placed(held, eviction).excess(limits),
    ensures
        state.placed(held, eviction).shed(count).over(limits),
{
    lemma_over_before(state.placed(held, eviction), limits, count);
}

proof fn lemma_over_before<K, V>(state: MemoryState<K, V>, limits: Limits, count: nat)
    requires
        count < state.excess(limits),
    ensures
        state.shed(count).over(limits),
    decreases count,
{
    if count > 0 {
        lemma_over_before(state.shifted(), limits, (count - 1) as nat);
    }
}

/// What is found in the tier with an entry placed in it.
pub(crate) proof fn lemma_placed_lookup<K, V>(
    state: MemoryState<K, V>,
    held: Held<K, V>,
    eviction: Eviction,
    key: K,
)
    ensures
        state.placed(held, eviction).lookup(key) == if key == held.key {
            Some(held)
        } else {
            state.lookup(key)
        },
{
    let placed = state.placed(held, eviction);
    match state.lookup(held.key) {
        None => {
            assert(placed.entries.drop_last() =~= state.entries);
        },
        Some(_) => match eviction {
            Eviction::Fifo => {
                lemma_replaced_lookup(state.entries, held, key);
            },
            Eviction::Lru => {
                let less = state::without(state.entries, held.key);
                assert(placed.entries.drop_last() =~= less);
                state::lemma_lookup_without(state.entries, held.key, key);
            },
        },
    }
}

proof fn lemma_replaced_lookup<K, V>(entries: Seq<Held<K, V>>, held: Held<K, V>, key: K)
    ensures
        state::lookup(state::replaced(entries, held), key) == if key == held.key
            && state::lookup(entries, key) is Some {
            Some(held)
        } else {
            state::lookup(entries, key)
        },
    decreases entries.len(),
{
    if entries.len() > 0 {
        lemma_replaced_lookup(entries.drop_last(), held, key);
        assert(state::replaced(entries, held).drop_last() =~= state::replaced(
            entries.drop_last(),
            held,
        ));
    }
}

/// An entry is found among the later ones exactly if it is not among the
/// earlier ones.
proof fn lemma_skip_lookup<K, V>(entries: Seq<Held<K, V>>, count: int, key: K)
    requires
        0 <= count <= entries.len(),
        state::keys_of(entries).no_duplicates(),
    ensures
        state::lookup(entries.skip(count), key) == if state::keys_of(entries.take(count)).contains(
            key,
        ) {
            None
        } else {
            state::lookup(entries, key)
        },
{
    let late = entries.skip(count);
    let early = entries.take(count);
    assert forall|i: int, j: int|
        0 <= i < late.len() && 0 <= j < late.len() && i != j implies state::keys_of(late)[i]
        != state::keys_of(late)[j] by {
        assert(state::keys_of(entries)[i + count] != state::keys_of(entries)[j + count]);
    }
    state::lemma_lookup_found(late, key);
    state::lemma_lookup_found(entries, key);
    if state::keys_of(early).contains(key) {
        let i = choose|i: int| 0 <= i < early.len() && state::keys_of(early)[i] == key;
        assert(entries[i].key == key);
        assert forall|j: int| 0 <= j < late.len() implies (#[trigger] late[j]).key != key by {
            assert(state::keys_of(entries)[i] != state::keys_of(entries)[j + count]);
        }
    } else {
        match state::lookup(entries, key) {
            Some(held) => {
                let i = choose|i: int| 0 <= i < entries.len() && entries[i] == held;
                if i < count {
                    assert(state::keys_of(early)[i] == key);
                }
                assert(late[i - count].key == key);
            },
            None => {
                assert forall|j: int| 0 <= j < late.len() implies (#[trigger] late[j]).key
                    != key by {
                    assert(entries[j + count].key != key);
                }
            },
        }
    }
}

/// A memory tier is honest: once an entry was written the tier answers for
/// it, and for everything it held before, except for what it reports as
/// displaced.
pub proof fn law_memory_tier_is_honest<K, V>(
    state: MemoryState<K, V>,
    held: Held<K, V>,
    limits: Limits,
    eviction: Eviction,
)
    requires
        state.valid(),
        held.weight >= 0,
    ensures
        world::accepts(
            contents(state),
            held.key,
            held.value,
            state.displaced(held, limits, eviction),
            contents(state.inserted(held, limits, eviction)),
        ),
{
    let placed = state.placed(held, eviction);
    let count = placed.excess(limits) as int;
    let displaced = state.displaced(held, limits, eviction);
    let after = contents(state.inserted(held, limits, eviction));
    let full = contents(state).insert(held.key, held.value);
    state::lemma_placed_valid(state, held, eviction);
    state::lemma_shed_excess(placed, limits);
    assert(world::keys(displaced) =~= state::keys_of(placed.entries.take(count)));
    assert forall|i: int| 0 <= i < displaced.len() implies full.contains_pair(
        (#[trigger] displaced[i]).0,
        displaced[i].1,
    ) by {
        let entry = placed.entries[i];
        state::lemma_lookup_found(placed.entries, entry.key);
        lemma_placed_lookup(state, held, eviction, entry.key);
    }
    assert forall|key: K| #[trigger]
        after.contains_key(key) <==> full.contains_key(key) && !world::keys(displaced).contains(
            key,
        ) by {
        lemma_skip_lookup(placed.entries, count, key);
        lemma_placed_lookup(state, held, eviction, key);
    }
    assert forall|key: K| #[trigger] after.contains_key(key) implies after[key] == full[key] by {
        lemma_skip_lookup(placed.entries, count, key);
        lemma_placed_lookup(state, held, eviction, key);
    }
}

/// The entries without their weights.
pub open spec fn unweighed<K, V>(items: Seq<Held<K, V>>) -> Seq<(K, V)> {
    items.map_values(|held: Held<K, V>| (held.key, held.value))
}

/// A memory tier is honest about batches as well: it answers for what it held
/// and what the batch wrote, later entries winning over earlier ones, except
/// for what it reports as displaced, in the order it left. Its bounds hold
/// afterwards.
pub proof fn law_memory_tier_is_honest_about_batches<K, V>(
    state: MemoryState<K, V>,
    items: Seq<Held<K, V>>,
    limits: Limits,
    eviction: Eviction,
)
    requires
        state.valid(),
        forall|i: int| 0 <= i < items.len() ==> (#[trigger] items[i]).weight >= 0,
    ensures
        world::accepts_all(
            contents(state),
            unweighed(items),
            state.displaced_all(items, limits, eviction),
            contents(state.inserted_all(items, limits, eviction)),
        ),
        state.inserted_all(items, limits, eviction).valid(),
        items.len() > 0 || !state.over(limits) ==> !state.inserted_all(
            items,
            limits,
            eviction,
        ).over(limits),
    decreases items.len(),
{
    if items.len() > 0 {
        let earlier = items.drop_last();
        let last = items.last();
        let between = state.inserted_all(earlier, limits, eviction);
        let first = state.displaced_all(earlier, limits, eviction);
        let second = between.displaced(last, limits, eviction);
        let displaced = state.displaced_all(items, limits, eviction);
        law_memory_tier_is_honest_about_batches(state, earlier, limits, eviction);
        assert(last == items[items.len() - 1]);
        law_memory_tier_is_honest(between, last, limits, eviction);
        law_writes_respect_the_bounds(between, last, limits, eviction);
        assert(unweighed(items).drop_last() =~= unweighed(earlier));
        assert(displaced.take(first.len() as int) =~= first);
        assert(displaced.skip(first.len() as int) =~= second);
        assert(world::accepts(
            contents(between),
            unweighed(items).last().0,
            unweighed(items).last().1,
            displaced.skip(first.len() as int),
            contents(state.inserted_all(items, limits, eviction)),
        ));
    }
}

/// Reads do not change what the tier answers for, and deleting a key removes
/// that key and nothing else.
pub proof fn law_reads_keep_and_deletes_remove<K, V>(
    state: MemoryState<K, V>,
    key: K,
    eviction: Eviction,
)
    ensures
        contents(state.read(key, eviction)) == contents(state),
        contents(state.removed(key)) == contents(state).remove(key),
{
    assert forall|other: K| state.touched(key).lookup(other) == #[trigger] state.lookup(other) by {
        state::lemma_lookup_touched(state, key, other);
    }
    assert(contents(state.read(key, eviction)) =~= contents(state));
    assert forall|other: K| #[trigger] state.removed(key).lookup(other) == if other == key {
        None
    } else {
        state.lookup(other)
    } by {
        state::lemma_lookup_without(state.entries, key, other);
    }
    assert(contents(state.removed(key)) =~= contents(state).remove(key));
}

/// A batched delete removes the keys it names and nothing else. After `keys`
/// were removed, the tier still holds `key`, and a further delete would find
/// it, exactly if the tier held it before and `keys` do not name it.
pub proof fn law_batched_deletes_remove_the_named_keys<K, V>(state: MemoryState<K, V>, keys: Seq<K>, key: K)
    ensures
        state.removed_all(keys).lookup(key) is Some <==> state.lookup(key) is Some
            && !keys.contains(key),
        contents(state.removed_all(keys)) == contents(state).remove_keys(keys.to_set()),
    decreases keys.len(),
{
    lemma_removed_all(state, keys);
    assert(contents(state.removed_all(keys)) =~= contents(state).remove_keys(keys.to_set()));
    assert(state.removed_all(keys).lookup(key) is Some <==> contents(
        state.removed_all(keys),
    ).contains_key(key));
}

proof fn lemma_removed_all<K, V>(state: MemoryState<K, V>, keys: Seq<K>)
    ensures
        forall|key: K| #[trigger]
            state.removed_all(keys).lookup(key) == if keys.contains(key) {
                None
            } else {
                state.lookup(key)
            },
    decreases keys.len(),
{
    if keys.len() > 0 {
        let rest = keys.drop_last();
        let last = keys.last();
        lemma_removed_all(state, rest);
        assert forall|key: K| #[trigger] state.removed_all(keys).lookup(key) == if keys.contains(
            key,
        ) {
            None
        } else {
            state.lookup(key)
        } by {
            let before = state.removed_all(rest);
            state::lemma_lookup_without(before.entries, last, key);
            assert(state.removed_all(keys) == before.removed(last));
            assert(before.lookup(key) == if rest.contains(key) {
                None
            } else {
                state.lookup(key)
            });
            assert(before.removed(last).lookup(key) == if key == last {
                None
            } else {
                before.lookup(key)
            });
            assert(keys[keys.len() - 1] == last);
            if rest.contains(key) {
                let i = choose|i: int| 0 <= i < rest.len() && rest[i] == key;
                assert(keys[i] == key);
            }
            if keys.contains(key) && key != last {
                let i = choose|i: int| 0 <= i < keys.len() && keys[i] == key;
                assert(rest[i] == key);
            }
        }
    }
}

/// The weight accounted for is what the entries weigh, whatever is written,
/// read or deleted.
pub proof fn law_weight_is_exact<K, V>(
    state: MemoryState<K, V>,
    held: Held<K, V>,
    limits: Limits,
    eviction: Eviction,
)
    requires
        state.valid(),
        held.weight >= 0,
    ensures
        ({
            let after = state.inserted(held, limits, eviction);
            after.weight == state::total_weight(after.entries)
        }),
        ({
            let after = state.removed(held.key);
            after.weight == state::total_weight(after.entries)
        }),
        ({
            let after = state.read(held.key, eviction);
            after.weight == state::total_weight(after.entries)
        }),
{
    state::lemma_placed_valid(state, held, eviction);
    state::lemma_shed_excess(state.placed(held, eviction), limits);
    state::lemma_removed_valid(state, held.key);
    state::lemma_touched_valid(state, held.key);
}

/// An entry heavier than the whole budget never stays: it is displaced at
/// once. If it is the newest entry, everything else is displaced before it.
pub proof fn law_oversized_entry_rolls_through<K, V>(
    state: MemoryState<K, V>,
    held: Held<K, V>,
    limits: Limits,
    eviction: Eviction,
)
    requires
        state.valid(),
        limits.bytes matches Some(budget) && held.weight > budget,
    ensures
        state.inserted(held, limits, eviction).lookup(held.key) is None,
        state.displaced(held, limits, eviction).contains((held.key, held.value)),
        state.lookup(held.key) is None || eviction == Eviction::Lru ==> {
            &&& state.inserted(held, limits, eviction).entries.len() == 0
            &&& state.displaced(held, limits, eviction).last() == (held.key, held.value)
        },
{
    let placed = state.placed(held, eviction);
    let count = placed.excess(limits) as int;
    let after = state.inserted(held, limits, eviction);
    state::lemma_placed_valid(state, held, eviction);
    state::lemma_shed_excess(placed, limits);
    state::lemma_lookup_found(after.entries, held.key);
    lemma_placed_lookup(state, held, eviction, held.key);
    state::lemma_lookup_found(placed.entries, held.key);
    let i = choose|i: int| 0 <= i < placed.entries.len() && placed.entries[i] == held;
    if count <= i {
        assert(after.entries[i - count] == held);
        lemma_weighs_at_most_total(after.entries, i - count);
    }
    let displaced = state.displaced(held, limits, eviction);
    assert(displaced[i] == (held.key, held.value));
    lemma_skip_lookup(placed.entries, count, held.key);
    assert(state::keys_of(placed.entries.take(count))[i] == held.key);
    if state.lookup(held.key) is None || eviction == Eviction::Lru {
        let last = placed.entries.len() - 1;
        assert(placed.entries[last] == held);
        if i != last {
            assert(state::keys_of(placed.entries)[i] != state::keys_of(placed.entries)[last]);
        }
    }
}

/// An entry weighs at most what all of them do.
proof fn lemma_weighs_at_most_total<K, V>(entries: Seq<Held<K, V>>, index: int)
    requires
        0 <= index < entries.len(),
        forall|i: int| 0 <= i < entries.len() ==> (#[trigger] entries[i]).weight >= 0,
    ensures
        entries[index].weight <= state::total_weight(entries),
    decreases entries.len(),
{
    let rest = entries.drop_last();
    assert forall|i: int| 0 <= i < rest.len() implies (#[trigger] rest[i]).weight >= 0 by {
        assert(entries[i].weight >= 0);
    }
    state::lemma_total_nonnegative(rest);
    if index < rest.len() {
        lemma_weighs_at_most_total(rest, index);
        assert(entries[entries.len() - 1].weight >= 0);
    }
}

/// Replacing a value displaces nothing from a tier that is bounded by the
/// number of entries alone.
pub proof fn law_replacement_does_not_evict<K, V>(
    state: MemoryState<K, V>,
    held: Held<K, V>,
    limits: Limits,
    eviction: Eviction,
)
    requires
        state.valid(),
        !state.over(limits),
        limits.bytes is None,
        state.lookup(held.key) is Some,
    ensures
        state.displaced(held, limits, eviction).len() == 0,
        state.inserted(held, limits, eviction).entries.len() == state.entries.len(),
{
    state::lemma_without_len(state.entries, held.key);
    let placed = state.placed(held, eviction);
    assert(placed.excess(limits) == 0);
    assert(placed.shed(0) == placed);
}

/// A used entry is the last to be evicted, and the order of the others does
/// not change. Under FIFO, reads have no such effect.
pub proof fn law_eviction_orders<K, V>(state: MemoryState<K, V>, key: K)
    requires
        state.lookup(key) is Some,
    ensures
        state.read(key, Eviction::Fifo) == state,
        state.read(key, Eviction::Lru).entries == state::without(state.entries, key).push(
            state.lookup(key).unwrap(),
        ),
        state.read(key, Eviction::Lru).entries.last().key == key,
{
    state::lemma_lookup_key(state.entries, key);
}

/// The pages of a listing that starts at `offset`, one after the other. The
/// next page starts where this one ends, as long as there are keys left.
pub open spec fn pages<K>(keys: Seq<K>, offset: int, limit: int) -> Seq<K>
    decreases keys.len() - offset,
{
    let shown = state::paged(keys, offset, limit);
    if 0 <= offset && 0 < limit && offset + limit < keys.len() {
        shown + pages(keys, offset + limit, limit)
    } else {
        shown
    }
}

/// Paging through a listing shows every key once, in order.
pub proof fn law_paging_shows_every_key<K>(keys: Seq<K>, offset: int, limit: int)
    requires
        limit > 0,
        0 <= offset <= keys.len(),
    ensures
        pages(keys, offset, limit) == keys.skip(offset),
        offset + state::paged(keys, offset, limit).len() < keys.len() <==> offset + limit
            < keys.len(),
        offset + limit < keys.len() ==> state::paged(keys, offset, limit).len() == limit,
    decreases keys.len() - offset,
{
    if offset + limit < keys.len() {
        law_paging_shows_every_key(keys, offset + limit, limit);
    }
    assert(pages(keys, offset, limit) =~= keys.skip(offset));
}

} // verus!
