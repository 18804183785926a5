//! What a memory tier holds, as contracts speak of it.
//!
//! A tier is its entries in eviction order (first to leave first) and the
//! weight it accounts for. Every operation of the tier is a function on that
//! [`MemoryState`].
use vstd::prelude::*;
use vstd::std_specs::hash::*;

use crate::policy::Eviction;

verus! {

/// Whether keys behave: hashing and comparing agree with what keys are, and
/// copies are the same key.
pub open spec fn keys_behave<K: Clone>() -> bool {
    &&& obeys_key_model::<K>()
    &&& forall|a: K, b: K| #[trigger] cloned(a, b) ==> a == b
}

/// The tier's configured bounds.
#[derive(Debug, Clone, Copy, PartialEq, Eq)]
pub struct Limits {
    /// Most entries the tier may hold.
    pub entries: Option<usize>,
    /// Most weight the tier may hold.
    pub bytes: Option<usize>,
}

/// One entry a tier holds.
#[verifier::ext_equal]
pub struct Held<K, V> {
    /// The entry's key.
    pub key: K,
    /// The entry's value.
    pub value: V,
    /// What the entry weighs.
    pub weight: int,
}

/// The contents of a memory tier.
#[verifier::ext_equal]
pub struct MemoryState<K, V> {
    /// The entries, in the order in which they would be evicted.
    pub entries: Seq<Held<K, V>>,
    /// The weight accounted for.
    pub weight: int,
}

/// How many recency tickets a tier may queue for `entries` entries: twice as
/// many, and at least a few.
pub open spec fn ticket_limit(entries: int) -> int {
    if 2 * entries < 16 {
        16
    } else {
        2 * entries
    }
}

/// The entry with key `key`.
pub open spec fn lookup<K, V>(entries: Seq<Held<K, V>>, key: K) -> Option<Held<K, V>>
    decreases entries.len(),
{
    if entries.len() == 0 {
        None
    } else if entries.last().key == key {
        Some(entries.last())
    } else {
        lookup(entries.drop_last(), key)
    }
}

/// The entries whose key is not `key`.
pub open spec fn without<K, V>(entries: Seq<Held<K, V>>, key: K) -> Seq<Held<K, V>>
    decreases entries.len(),
{
    if entries.len() == 0 {
        Seq::empty()
    } else if entries.last().key == key {
        without(entries.drop_last(), key)
    } else {
        without(entries.drop_last(), key).push(entries.last())
    }
}

/// The entries with `held` in the place of the entry that has its key.
pub open spec fn replaced<K, V>(entries: Seq<Held<K, V>>, held: Held<K, V>) -> Seq<Held<K, V>> {
    entries.map_values(
        |old: Held<K, V>|
            if old.key == held.key {
                held
            } else {
                old
            },
    )
}

/// What the entries weigh together.
pub open spec fn total_weight<K, V>(entries: Seq<Held<K, V>>) -> int
    decreases entries.len(),
{
    if entries.len() == 0 {
        0
    } else {
        total_weight(entries.drop_last()) + entries.last().weight
    }
}

/// The entries as key-value pairs.
pub open spec fn pairs<K, V>(entries: Seq<Held<K, V>>) -> Seq<(K, V)> {
    entries.map_values(|held: Held<K, V>| (held.key, held.value))
}

/// The keys of the entries.
pub open spec fn keys_of<K, V>(entries: Seq<Held<K, V>>) -> Seq<K> {
    entries.map_values(|held: Held<K, V>| held.key)
}

/// The part of `keys` that a page of `limit` keys from `offset` on shows.
pub open spec fn paged<K>(keys: Seq<K>, offset: int, limit: int) -> Seq<K> {
    let start = if offset <= keys.len() {
        offset
    } else {
        keys.len() as int
    };
    let end = if offset + limit <= keys.len() {
        offset + limit
    } else {
        keys.len() as int
    };
    keys.subrange(start, end)
}

impl<K, V> MemoryState<K, V> {
    /// A tier that holds nothing.
    pub open spec fn empty() -> Self {
        MemoryState { entries: Seq::empty(), weight: 0 }
    }

    /// No key is held twice, and the weight accounted for is what the entries
    /// weigh.
    pub open spec fn valid(self) -> bool {
        &&& keys_of(self.entries).no_duplicates()
        &&& forall|i: int| 0 <= i < self.entries.len() ==> (#[trigger] self.entries[i]).weight >= 0
        &&& self.weight == total_weight(self.entries)
    }

    /// The entry with key `key`.
    pub open spec fn lookup(self, key: K) -> Option<Held<K, V>> {
        lookup(self.entries, key)
    }

    /// Whether the tier exceeds a bound.
    pub open spec fn over(self, limits: Limits) -> bool {
        ||| (limits.entries matches Some(max) && self.entries.len() > max)
        ||| (limits.bytes matches Some(max) && self.weight > max)
    }

    /// Whether the tier keeps to its bounds: it exceeds none, and without a
    /// byte budget nothing weighs anything.
    pub open spec fn within(self, limits: Limits) -> bool {
        &&& !self.over(limits)
        &&& limits.bytes is None ==> self.weight == 0
    }

    /// The tier without its first entry.
    pub open spec fn shifted(self) -> Self {
        MemoryState {
            entries: self.entries.skip(1),
            weight: self.weight - self.entries[0].weight,
        }
    }

    /// How many entries have to leave, in eviction order, until the tier is
    /// back under every bound.
    pub open spec fn excess(self, limits: Limits) -> nat
        decreases self.entries.len(),
    {
        if self.over(limits) && self.entries.len() > 0 {
            1 + self.shifted().excess(limits)
        } else {
            0
        }
    }

    /// The tier after its first `count` entries left.
    pub open spec fn shed(self, count: nat) -> Self
        decreases count,
    {
        if count == 0 {
            self
        } else {
            self.shifted().shed((count - 1) as nat)
        }
    }

    /// The tier with `held` in it, before any eviction. A new key goes last;
    /// a known key keeps its place, unless uses refresh recency.
    pub open spec fn placed(self, held: Held<K, V>, eviction: Eviction) -> Self {
        match self.lookup(held.key) {
            None => MemoryState {
                entries: self.entries.push(held),
                weight: self.weight + held.weight,
            },
            Some(old) => MemoryState {
                entries: match eviction {
                    Eviction::Fifo => replaced(self.entries, held),
                    Eviction::Lru => without(self.entries, held.key).push(held),
                },
                weight: self.weight + held.weight - old.weight,
            },
        }
    }

    /// The tier after `held` was written.
    pub open spec fn inserted(self, held: Held<K, V>, limits: Limits, eviction: Eviction) -> Self {
        let placed = self.placed(held, eviction);
        placed.shed(placed.excess(limits))
    }

    /// What leaves the tier when `held` is written, in the order it leaves.
    pub open spec fn displaced(
        self,
        held: Held<K, V>,
        limits: Limits,
        eviction: Eviction,
    ) -> Seq<(K, V)> {
        let placed = self.placed(held, eviction);
        pairs(placed.entries.take(placed.excess(limits) as int))
    }

    /// The tier after `key` was removed.
    pub open spec fn removed(self, key: K) -> Self {
        match self.lookup(key) {
            None => self,
            Some(old) => MemoryState {
                entries: without(self.entries, key),
                weight: self.weight - old.weight,
            },
        }
    }

    /// The tier after `key` was used.
    pub open spec fn touched(self, key: K) -> Self {
        match self.lookup(key) {
            None => self,
            Some(held) => MemoryState { entries: without(self.entries, key).push(held), ..self },
        }
    }

    /// The tier after `key` was read.
    pub open spec fn read(self, key: K, eviction: Eviction) -> Self {
        match eviction {
            Eviction::Fifo => self,
            Eviction::Lru => self.touched(key),
        }
    }

    /// How many uses a read of `key` records.
    pub open spec fn read_uses(self, key: K, eviction: Eviction) -> int {
        if eviction == Eviction::Lru && self.lookup(key) is Some {
            1
        } else {
            0
        }
    }

    /// How many uses reading `keys` records: one for each that is held, under
    /// LRU.
    pub open spec fn read_all_uses(self, keys: Seq<K>, eviction: Eviction) -> int
        decreases keys.len(),
    {
        if keys.len() == 0 {
            0
        } else {
            self.read_all_uses(keys.drop_last(), eviction) + self.read_uses(keys.last(), eviction)
        }
    }

    /// How many entries there are once `key` is one of them.
    pub open spec fn len_with(self, key: K) -> int {
        if self.lookup(key) is Some {
            self.entries.len() as int
        } else {
            self.entries.len() + 1int
        }
    }

    /// Whether a queue of `before` tickets may have `after` once `keys` were
    /// read: reads that record no use leave it alone, and those that do keep
    /// it short.
    pub open spec fn reading_leaves(
        self,
        keys: Seq<K>,
        eviction: Eviction,
        before: int,
        after: int,
    ) -> bool {
        if self.read_all_uses(keys, eviction) == 0 {
            after == before
        } else {
            after <= ticket_limit(self.entries.len() as int)
        }
    }

    /// Whether a queue of `before` tickets may have `after` once `items` were
    /// written in turn: every write keeps it short.
    pub open spec fn writing_leaves(
        self,
        items: Seq<Held<K, V>>,
        limits: Limits,
        eviction: Eviction,
        before: int,
        after: int,
    ) -> bool {
        if items.len() == 0 {
            after == before
        } else {
            after <= ticket_limit(
                self.inserted_all(items.drop_last(), limits, eviction).len_with(items.last().key),
            )
        }
    }

    /// Reading one key.
    pub proof fn lemma_one_read_uses(self, key: K, eviction: Eviction)
        ensures
            self.read_all_uses(seq![key], eviction) == self.read_uses(key, eviction),
    {
        reveal_with_fuel(MemoryState::read_all_uses, 2);
        assert(seq![key].drop_last() =~= Seq::<K>::empty());
    }

    /// The tier after `items` were written in turn.
    pub open spec fn inserted_all(
        self,
        items: Seq<Held<K, V>>,
        limits: Limits,
        eviction: Eviction,
    ) -> Self
        decreases items.len(),
    {
        if items.len() == 0 {
            self
        } else {
            self.inserted_all(items.drop_last(), limits, eviction).inserted(
                items.last(),
                limits,
                eviction,
            )
        }
    }

    /// What leaves the tier when `items` are written in turn, in the order it
    /// leaves.
    pub open spec fn displaced_all(
        self,
        items: Seq<Held<K, V>>,
        limits: Limits,
        eviction: Eviction,
    ) -> Seq<(K, V)>
        decreases items.len(),
    {
        if items.len() == 0 {
            Seq::empty()
        } else {
            self.displaced_all(items.drop_last(), limits, eviction) + self.inserted_all(
                items.drop_last(),
                limits,
                eviction,
            ).displaced(items.last(), limits, eviction)
        }
    }

    /// The tier after `keys` were removed in turn.
    pub open spec fn removed_all(self, keys: Seq<K>) -> Self
        decreases keys.len(),
    {
        if keys.len() == 0 {
            self
        } else {
            self.removed_all(keys.drop_last()).removed(keys.last())
        }
    }

    /// The tier after `keys` were read in turn.
    pub open spec fn read_all(self, keys: Seq<K>, eviction: Eviction) -> Self
        decreases keys.len(),
    {
        if keys.len() == 0 {
            self
        } else {
            self.read_all(keys.drop_last(), eviction).read(keys.last(), eviction)
        }
    }
}

/// Shedding one more entry sheds the first of those that are left.
pub proof fn lemma_shed_step<K, V>(state: MemoryState<K, V>, count: nat)
    requires
        count < state.entries.len(),
    ensures
        state.shed(count).entries == state.entries.skip(count as int),
        state.shed(count + 1) == state.shed(count).shifted(),
        state.shed(count + 1).entries == state.entries.skip(count as int + 1),
    decreases count,
{
    if count == 0 {
        assert(state.entries.skip(0) =~= state.entries);
        assert(state.shed(1) == state.shifted().shed(0));
    } else {
        lemma_shed_step(state.shifted(), (count - 1) as nat);
        assert(state.entries.skip(1).skip(count - 1) =~= state.entries.skip(count as int));
        assert(state.entries.skip(1).skip(count as int) =~= state.entries.skip(count as int + 1));
        assert(state.shed(count + 1) == state.shifted().shed(count));
    }
}

/// Forgetting one key does not affect what is found for others.
pub proof fn lemma_lookup_without<K, V>(entries: Seq<Held<K, V>>, key: K, other: K)
    ensures
        lookup(without(entries, key), other) == if other == key {
            None
        } else {
            lookup(entries, other)
        },
    decreases entries.len(),
{
    if entries.len() > 0 {
        lemma_lookup_without(entries.drop_last(), key, other);
        if entries.last().key != key {
            assert(without(entries, key).drop_last() =~= without(entries.drop_last(), key));
        }
    }
}

/// Using a key does not change what is found for any key.
pub proof fn lemma_lookup_touched<K, V>(state: MemoryState<K, V>, key: K, other: K)
    ensures
        state.touched(key).lookup(other) == state.lookup(other),
{
    if let Some(held) = state.lookup(key) {
        lemma_lookup_key(state.entries, key);
        lemma_lookup_without(state.entries, key, other);
        let rest = without(state.entries, key);
        assert(rest.push(held).drop_last() =~= rest);
    }
}

/// What a lookup finds carries the key it was asked for.
pub proof fn lemma_lookup_key<K, V>(entries: Seq<Held<K, V>>, key: K)
    ensures
        lookup(entries, key) matches Some(held) ==> held.key == key,
    decreases entries.len(),
{
    if entries.len() > 0 {
        lemma_lookup_key(entries.drop_last(), key);
    }
}

/// A lookup finds nothing exactly if no entry has the key, and otherwise the
/// entry that has it.
pub proof fn lemma_lookup_found<K, V>(entries: Seq<Held<K, V>>, key: K)
    ensures
        lookup(entries, key) is None <==> forall|i: int|
            0 <= i < entries.len() ==> (#[trigger] entries[i]).key != key,
        lookup(entries, key) matches Some(held) ==> held.key == key && entries.contains(held),
        keys_of(entries).no_duplicates() ==> forall|i: int|
            0 <= i < entries.len() && (#[trigger] entries[i]).key == key ==> lookup(entries, key)
                == Some(entries[i]),
    decreases entries.len(),
{
    if entries.len() > 0 {
        let rest = entries.drop_last();
        let last = entries.len() - 1;
        lemma_lookup_found(rest, key);
        if entries.last().key == key {
            assert(entries[last].key == key);
            assert(entries.contains(entries[last]));
        } else {
            if forall|i: int| 0 <= i < rest.len() ==> (#[trigger] rest[i]).key != key {
                assert forall|i: int| 0 <= i < entries.len() implies (#[trigger] entries[i]).key
                    != key by {
                    if i < last {
                        assert(rest[i].key != key);
                    }
                }
            } else {
                let i = choose|i: int| 0 <= i < rest.len() && (#[trigger] rest[i]).key == key;
                assert(entries[i].key == key);
            }
            if let Some(held) = lookup(rest, key) {
                let i = choose|i: int| 0 <= i < rest.len() && rest[i] == held;
                assert(entries[i] == held);
            }
        }
        if keys_of(entries).no_duplicates() {
            assert(keys_of(rest) =~= keys_of(entries).drop_last());
            assert forall|i: int|
                0 <= i < entries.len() && (#[trigger] entries[i]).key == key implies lookup(
                entries,
                key,
            ) == Some(entries[i]) by {
                if i < last {
                    assert(keys_of(entries)[i] != keys_of(entries)[last]);
                    assert(rest[i].key == key);
                }
            }
        }
    }
}

/// What forgetting a key does to the entries.
pub proof fn lemma_without<K, V>(entries: Seq<Held<K, V>>, key: K)
    ensures
        forall|held: Held<K, V>| #[trigger]
            without(entries, key).contains(held) <==> entries.contains(held) && held.key != key,
        keys_of(entries).no_duplicates() ==> keys_of(without(entries, key)).no_duplicates(),
        keys_of(entries).no_duplicates() ==> total_weight(entries) == total_weight(
            without(entries, key),
        ) + match lookup(entries, key) {
            Some(held) => held.weight,
            None => 0,
        },
    decreases entries.len(),
{
    if entries.len() > 0 {
        let rest = entries.drop_last();
        let last = entries.last();
        lemma_without(rest, key);
        let less = without(rest, key);
        let all = without(entries, key);
        assert(entries[entries.len() - 1] == last);
        assert forall|held: Held<K, V>| #[trigger] all.contains(held) <==> entries.contains(held)
            && held.key != key by {
            if entries.contains(held) {
                let i = choose|i: int| 0 <= i < entries.len() && entries[i] == held;
                if i < rest.len() {
                    assert(rest[i] == held);
                }
            }
            if rest.contains(held) {
                let i = choose|i: int| 0 <= i < rest.len() && rest[i] == held;
                assert(entries[i] == held);
            }
            if last.key != key {
                if all.contains(held) {
                    let i = choose|i: int| 0 <= i < all.len() && all[i] == held;
                    if i < less.len() {
                        assert(less[i] == held);
                        assert(less.contains(held));
                    }
                }
                if less.contains(held) {
                    let i = choose|i: int| 0 <= i < less.len() && less[i] == held;
                    assert(all[i] == held);
                }
                assert(all[less.len() as int] == last);
            }
        }
        if keys_of(entries).no_duplicates() {
            assert(keys_of(rest) =~= keys_of(entries).drop_last());
            if last.key != key {
                assert(all.drop_last() =~= less);
                assert forall|i: int| 0 <= i < less.len() implies (#[trigger] less[i]).key
                    != last.key by {
                    assert(less.contains(less[i]));
                    let j = choose|j: int| 0 <= j < rest.len() && rest[j] == less[i];
                    assert(keys_of(entries)[j] != keys_of(entries)[entries.len() - 1]);
                }
                assert(keys_of(all) =~= keys_of(less).push(last.key));
            } else {
                lemma_lookup_found(rest, key);
                assert forall|i: int| 0 <= i < rest.len() implies (#[trigger] rest[i]).key
                    != key by {
                    assert(keys_of(entries)[i] != keys_of(entries)[entries.len() - 1]);
                }
                assert(lookup(rest, key) is None);
            }
        }
    }
}

/// What replacing an entry does to the total weight.
pub proof fn lemma_replaced_weight<K, V>(entries: Seq<Held<K, V>>, held: Held<K, V>)
    requires
        keys_of(entries).no_duplicates(),
    ensures
        total_weight(replaced(entries, held)) == total_weight(entries) + match lookup(
            entries,
            held.key,
        ) {
            Some(old) => held.weight - old.weight,
            None => 0,
        },
    decreases entries.len(),
{
    if entries.len() > 0 {
        let rest = entries.drop_last();
        let last = entries.last();
        assert(keys_of(rest) =~= keys_of(entries).drop_last());
        lemma_replaced_weight(rest, held);
        assert(replaced(entries, held).drop_last() =~= replaced(rest, held));
        if last.key == held.key {
            lemma_lookup_found(rest, held.key);
            assert forall|i: int| 0 <= i < rest.len() implies (#[trigger] rest[i]).key
                != held.key by {
                assert(keys_of(entries)[i] != keys_of(entries)[entries.len() - 1]);
            }
            assert(lookup(rest, held.key) is None);
        }
    }
}

/// What one more entry does to the total weight.
pub proof fn lemma_total_push<K, V>(entries: Seq<Held<K, V>>, held: Held<K, V>)
    ensures
        total_weight(entries.push(held)) == total_weight(entries) + held.weight,
{
    assert(entries.push(held).drop_last() =~= entries);
}

/// The total weight, seen from the front.
pub proof fn lemma_total_first<K, V>(entries: Seq<Held<K, V>>)
    requires
        entries.len() > 0,
    ensures
        total_weight(entries) == entries[0].weight + total_weight(entries.skip(1)),
    decreases entries.len(),
{
    if entries.len() == 1 {
        assert(entries.skip(1) =~= Seq::<Held<K, V>>::empty());
        assert(entries.drop_last() =~= Seq::<Held<K, V>>::empty());
    } else {
        lemma_total_first(entries.drop_last());
        assert(entries.drop_last().skip(1) =~= entries.skip(1).drop_last());
    }
}

/// Entries weigh nothing only together.
pub proof fn lemma_total_nonnegative<K, V>(entries: Seq<Held<K, V>>)
    requires
        forall|i: int| 0 <= i < entries.len() ==> (#[trigger] entries[i]).weight >= 0,
    ensures
        total_weight(entries) >= 0,
    decreases entries.len(),
{
    if entries.len() > 0 {
        let rest = entries.drop_last();
        assert forall|i: int| 0 <= i < rest.len() implies (#[trigger] rest[i]).weight >= 0 by {
            assert(entries[i].weight >= 0);
        }
        lemma_total_nonnegative(rest);
        assert(entries[entries.len() - 1].weight >= 0);
    }
}

/// An entry that is held weighs at most what all of them do.
pub proof fn lemma_lookup_weight<K, V>(state: MemoryState<K, V>, key: K)
    requires
        state.valid(),
    ensures
        state.weight >= 0,
        state.lookup(key) matches Some(held) ==> 0 <= held.weight <= state.weight,
{
    lemma_total_nonnegative(state.entries);
    lemma_without(state.entries, key);
    lemma_without_nonnegative(state.entries, key);
    lemma_lookup_found(state.entries, key);
    if let Some(held) = state.lookup(key) {
        let i = choose|i: int| 0 <= i < state.entries.len() && state.entries[i] == held;
        assert(state.entries[i].weight >= 0);
    }
}

/// Placing an entry keeps a tier valid.
pub proof fn lemma_placed_valid<K, V>(
    state: MemoryState<K, V>,
    held: Held<K, V>,
    eviction: Eviction,
)
    requires
        state.valid(),
        held.weight >= 0,
    ensures
        state.placed(held, eviction).valid(),
{
    let entries = state.entries;
    let placed = state.placed(held, eviction);
    lemma_lookup_found(entries, held.key);
    match state.lookup(held.key) {
        None => {
            lemma_total_push(entries, held);
            assert(keys_of(placed.entries) =~= keys_of(entries).push(held.key));
            assert forall|i: int| 0 <= i < entries.len() implies keys_of(entries)[i]
                != held.key by {
                assert(entries[i].key != held.key);
            }
            lemma_total_nonnegative(entries);
        },
        Some(old) => {
            let i = choose|i: int| 0 <= i < entries.len() && entries[i] == old;
            assert(entries[i].weight >= 0);
            match eviction {
                Eviction::Fifo => {
                    lemma_replaced_weight(entries, held);
                    assert(keys_of(placed.entries) =~= keys_of(entries));
                    assert forall|j: int| 0 <= j < placed.entries.len() implies (
                    #[trigger] placed.entries[j]).weight >= 0 by {
                        assert(entries[j].weight >= 0);
                    }
                },
                Eviction::Lru => {
                    lemma_without(entries, held.key);
                    let less = without(entries, held.key);
                    lemma_total_push(less, held);
                    assert(keys_of(placed.entries) =~= keys_of(less).push(held.key));
                    assert forall|j: int| 0 <= j < less.len() implies (#[trigger] less[j]).key
                        != held.key && less[j].weight >= 0 by {
                        assert(less.contains(less[j]));
                        let k = choose|k: int| 0 <= k < entries.len() && entries[k] == less[j];
                        assert(entries[k].weight >= 0);
                    }
                },
            }
            lemma_total_nonnegative(placed.entries);
        },
    }
}

/// Losing the first entry keeps a tier valid.
pub proof fn lemma_shifted_valid<K, V>(state: MemoryState<K, V>)
    requires
        state.valid(),
        state.entries.len() > 0,
    ensures
        state.shifted().valid(),
{
    let rest = state.entries.skip(1);
    lemma_total_first(state.entries);
    assert(state.entries[0].weight >= 0);
    assert forall|i: int| 0 <= i < rest.len() implies (#[trigger] rest[i]).weight >= 0 by {
        assert(state.entries[i + 1].weight >= 0);
    }
    lemma_total_nonnegative(rest);
    assert forall|i: int, j: int|
        0 <= i < rest.len() && 0 <= j < rest.len() && i != j implies keys_of(rest)[i] != keys_of(
        rest,
    )[j] by {
        assert(keys_of(state.entries)[i + 1] != keys_of(state.entries)[j + 1]);
    }
}

/// Shedding the excess keeps a tier valid, and takes it back under every
/// bound.
pub proof fn lemma_shed_excess<K, V>(state: MemoryState<K, V>, limits: Limits)
    requires
        state.valid(),
    ensures
        state.excess(limits) <= state.entries.len(),
        state.shed(state.excess(limits)).valid(),
        !state.shed(state.excess(limits)).over(limits),
        state.shed(state.excess(limits)).entries == state.entries.skip(
            state.excess(limits) as int,
        ),
    decreases state.entries.len(),
{
    if state.over(limits) && state.entries.len() > 0 {
        lemma_shifted_valid(state);
        lemma_shed_excess(state.shifted(), limits);
        let more = state.shifted().excess(limits);
        assert(state.shed(1 + more) == state.shifted().shed(more));
        assert(state.entries.skip(1).skip(more as int) =~= state.entries.skip(1 + more as int));
    } else {
        assert(state.entries.skip(0) =~= state.entries);
        if state.entries.len() == 0 {
            assert(total_weight(state.entries) == 0);
        }
    }
}

/// Removing a key keeps a tier valid.
pub proof fn lemma_removed_valid<K, V>(state: MemoryState<K, V>, key: K)
    requires
        state.valid(),
    ensures
        state.removed(key).valid(),
{
    let entries = state.entries;
    let less = without(entries, key);
    lemma_without(entries, key);
    lemma_lookup_found(entries, key);
    assert forall|i: int| 0 <= i < less.len() implies (#[trigger] less[i]).weight >= 0 by {
        assert(less.contains(less[i]));
        let k = choose|k: int| 0 <= k < entries.len() && entries[k] == less[i];
        assert(entries[k].weight >= 0);
    }
    lemma_total_nonnegative(less);
    if let Some(old) = state.lookup(key) {
        let i = choose|i: int| 0 <= i < entries.len() && entries[i] == old;
        assert(entries[i].weight >= 0);
    }
}

/// Using a key keeps a tier valid.
pub proof fn lemma_touched_valid<K, V>(state: MemoryState<K, V>, key: K)
    requires
        state.valid(),
    ensures
        state.touched(key).valid(),
{
    let entries = state.entries;
    let less = without(entries, key);
    lemma_without(entries, key);
    lemma_lookup_found(entries, key);
    if let Some(held) = state.lookup(key) {
        let after = state.touched(key).entries;
        lemma_total_push(less, held);
        assert(keys_of(after) =~= keys_of(less).push(key));
        let i = choose|i: int| 0 <= i < entries.len() && entries[i] == held;
        assert(entries[i].weight >= 0);
        assert forall|j: int| 0 <= j < less.len() implies (#[trigger] less[j]).key != key
            && less[j].weight >= 0 by {
            assert(less.contains(less[j]));
            let k = choose|k: int| 0 <= k < entries.len() && entries[k] == less[j];
            assert(entries[k].weight >= 0);
        }
    }
}

/// What is left after forgetting a key weighs something or nothing.
pub proof fn lemma_without_nonnegative<K, V>(entries: Seq<Held<K, V>>, key: K)
    requires
        forall|i: int| 0 <= i < entries.len() ==> (#[trigger] entries[i]).weight >= 0,
    ensures
        forall|i: int|
            0 <= i < without(entries, key).len() ==> (#[trigger] without(entries, key)[i]).weight
                >= 0,
        total_weight(without(entries, key)) >= 0,
{
    let less = without(entries, key);
    lemma_without(entries, key);
    assert forall|i: int| 0 <= i < less.len() implies (#[trigger] less[i]).weight >= 0 by {
        assert(less.contains(less[i]));
        let k = choose|k: int| 0 <= k < entries.len() && entries[k] == less[i];
        assert(entries[k].weight >= 0);
    }
    lemma_total_nonnegative(less);
}

/// Shedding entries makes a tier no heavier.
pub proof fn lemma_shed_weight<K, V>(state: MemoryState<K, V>, limits: Limits)
    requires
        state.valid(),
    ensures
        state.shed(state.excess(limits)).weight <= state.weight,
    decreases state.entries.len(),
{
    if state.over(limits) && state.entries.len() > 0 {
        lemma_shifted_valid(state);
        assert(state.entries[0].weight >= 0);
        lemma_shed_weight(state.shifted(), limits);
        let more = state.shifted().excess(limits);
        assert(state.shed(1 + more) == state.shifted().shed(more));
    }
}

/// A write leaves a tier valid and within its bounds.
pub proof fn lemma_inserted_within<K, V>(
    state: MemoryState<K, V>,
    held: Held<K, V>,
    limits: Limits,
    eviction: Eviction,
)
    requires
        state.valid(),
        held.weight >= 0,
        limits.bytes is None ==> state.weight == 0 && held.weight == 0,
    ensures
        state.inserted(held, limits, eviction).valid(),
        state.inserted(held, limits, eviction).within(limits),
        state.inserted(held, limits, eviction).weight >= 0,
{
    let placed = state.placed(held, eviction);
    lemma_placed_valid(state, held, eviction);
    lemma_shed_excess(placed, limits);
    lemma_shed_weight(placed, limits);
    lemma_lookup_weight(state, held.key);
    lemma_lookup_weight(state.inserted(held, limits, eviction), held.key);
}

/// So does a batch of writes.
pub proof fn lemma_inserted_all_within<K, V>(
    state: MemoryState<K, V>,
    items: Seq<Held<K, V>>,
    limits: Limits,
    eviction: Eviction,
)
    requires
        state.valid(),
        state.within(limits),
        forall|i: int| 0 <= i < items.len() ==> (#[trigger] items[i]).weight >= 0,
        limits.bytes is None ==> forall|i: int|
            0 <= i < items.len() ==> (#[trigger] items[i]).weight == 0,
    ensures
        state.inserted_all(items, limits, eviction).valid(),
        state.inserted_all(items, limits, eviction).within(limits),
    decreases items.len(),
{
    if items.len() > 0 {
        let earlier = items.drop_last();
        lemma_inserted_all_within(state, earlier, limits, eviction);
        assert(items.last() == items[items.len() - 1]);
        lemma_inserted_within(
            state.inserted_all(earlier, limits, eviction),
            items.last(),
            limits,
            eviction,
        );
    }
}

/// Reading and removing a key keep a tier valid and within its bounds.
pub proof fn lemma_used_within<K, V>(
    state: MemoryState<K, V>,
    key: K,
    limits: Limits,
    eviction: Eviction,
)
    requires
        state.valid(),
        state.within(limits),
    ensures
        state.read(key, eviction).valid(),
        state.read(key, eviction).within(limits),
        state.removed(key).valid(),
        state.removed(key).within(limits),
{
    lemma_touched_valid(state, key);
    lemma_removed_valid(state, key);
    lemma_without_len(state.entries, key);
    lemma_lookup_weight(state, key);
    lemma_lookup_weight(state.removed(key), key);
}

/// So do reading and removing keys in turn.
pub proof fn lemma_used_all_within<K, V>(
    state: MemoryState<K, V>,
    keys: Seq<K>,
    limits: Limits,
    eviction: Eviction,
)
    requires
        state.valid(),
        state.within(limits),
    ensures
        state.read_all(keys, eviction).valid(),
        state.read_all(keys, eviction).within(limits),
        state.removed_all(keys).valid(),
        state.removed_all(keys).within(limits),
    decreases keys.len(),
{
    if keys.len() > 0 {
        let earlier = keys.drop_last();
        lemma_used_all_within(state, earlier, limits, eviction);
        lemma_used_within(state.read_all(earlier, eviction), keys.last(), limits, eviction);
        lemma_used_within(state.removed_all(earlier), keys.last(), limits, eviction);
    }
}

/// Using a key leaves as many entries.
pub proof fn lemma_touched_len<K, V>(state: MemoryState<K, V>, key: K)
    requires
        state.valid(),
    ensures
        state.touched(key).entries.len() == state.entries.len(),
{
    lemma_without_len(state.entries, key);
}

/// How many entries forgetting a key leaves.
pub proof fn lemma_without_len<K, V>(entries: Seq<Held<K, V>>, key: K)
    requires
        keys_of(entries).no_duplicates(),
    ensures
        without(entries, key).len() == entries.len() - if lookup(entries, key) is Some {
            1int
        } else {
            0
        },
    decreases entries.len(),
{
    if entries.len() > 0 {
        let rest = entries.drop_last();
        assert(keys_of(rest) =~= keys_of(entries).drop_last());
        lemma_without_len(rest, key);
        if entries.last().key == key {
            lemma_lookup_found(rest, key);
            assert forall|i: int| 0 <= i < rest.len() implies (#[trigger] rest[i]).key != key by {
                assert(keys_of(entries)[i] != keys_of(entries)[entries.len() - 1]);
            }
            assert(lookup(rest, key) is None);
        }
    }
}

} // verus!
