//! In-memory tier: the "hot" layer.
use std::convert::Infallible;
use std::hash::Hash;
use vstd::prelude::*;

use crate::memory::inner::Inner;
use crate::memory::state::{Held, Limits, MemoryState};
use crate::policy::Eviction;
use crate::tier::{Displaced, Page, Tier};

mod inner;
pub mod state;

verus! {

/// Prices entries, typically by their byte size.
pub trait Weigher<K, V> {
    /// Whether the entry can be priced.
    spec fn accepts(&self, key: &K, value: &V) -> bool;

    /// Whether `weight` is a price of the entry.
    spec fn weighs(&self, key: &K, value: &V, weight: usize) -> bool;

    /// The entry's price.
    fn weigh(&self, key: &K, value: &V) -> (weight: usize)
        requires
            self.accepts(key, value),
        ensures
            self.weighs(key, value, weight),
    ;
}

impl<K, V, F: Fn(&K, &V) -> usize> Weigher<K, V> for F {
    open spec fn accepts(&self, key: &K, value: &V) -> bool {
        call_requires(*self, (key, value))
    }

    open spec fn weighs(&self, key: &K, value: &V, weight: usize) -> bool {
        call_ensures(*self, (key, value), weight)
    }

    fn weigh(&self, key: &K, value: &V) -> (weight: usize) {
        self(key, value)
    }
}

/// The weigher of tiers without a byte budget: entries weigh nothing.
#[derive(Debug, Clone, Copy, PartialEq, Eq)]
pub struct Unweighed;

impl<K, V> Weigher<K, V> for Unweighed {
    open spec fn accepts(&self, key: &K, value: &V) -> bool {
        true
    }

    open spec fn weighs(&self, key: &K, value: &V, weight: usize) -> bool {
        weight == 0
    }

    fn weigh(&self, key: &K, value: &V) -> (weight: usize) {
        0
    }
}

struct ByteBudget<W> {
    budget: usize,
    weigh: W,
}

/// An in-memory map with optional entry-count and byte-budget bounds and
/// FIFO or LRU eviction.
///
/// Bounds compose with rollover: displaced entries are returned from
/// [`MemoryTier::put`] so a router demotes them instead of dropping them.
/// With a byte budget, an entry heavier than the whole budget is displaced
/// *immediately* (including itself).
///
/// Eviction order defaults to FIFO; opt into LRU with
/// [`MemoryTier::with_eviction`]. Recency is tracked with stamped queue
/// tickets; stale ones are skipped, and dropped once they dominate the queue.
/// This tier cannot fail: its error type is [`Infallible`].
pub struct MemoryTier<K, V, W = Unweighed> {
    max_entries: Option<usize>,
    bytes: Option<ByteBudget<W>>,
    eviction: Eviction,
    inner: Inner<K, V>,
}

impl<K, V, W> MemoryTier<K, V, W> {
    /// What the tier holds.
    pub closed spec fn state(&self) -> MemoryState<K, V> {
        self.inner.state()
    }

    /// The tier's bounds.
    pub closed spec fn bounds(&self) -> Limits {
        Limits {
            entries: self.max_entries,
            bytes: match self.bytes {
                Some(bytes) => Some(bytes.budget),
                None => None,
            },
        }
    }

    /// What prices the entries, if anything does.
    pub closed spec fn weigher(&self) -> Option<W> {
        match self.bytes {
            Some(bytes) => Some(bytes.weigh),
            None => None,
        }
    }

    /// The order in which entries leave.
    pub closed spec fn order(&self) -> Eviction {
        self.eviction
    }

    /// How many uses the tier has recorded; it can record [`u64::MAX`].
    pub closed spec fn uses(&self) -> int {
        self.inner.stamps()
    }

    /// How many recency tickets the tier has queued. Stale tickets are among
    /// them until they are dropped.
    pub closed spec fn tickets(&self) -> int {
        self.inner.tickets()
    }

    /// Whether `other` has the same bounds, weigher and eviction order.
    pub open spec fn configured_like(&self, other: &Self) -> bool {
        &&& self.bounds() == other.bounds()
        &&& self.weigher() == other.weigher()
        &&& self.order() == other.order()
    }
}

impl<K: Eq + Hash + Clone, V, W> MemoryTier<K, V, W> {
    /// What every tier whose keys behave satisfies.
    pub closed spec fn inv(&self) -> bool {
        &&& self.inner.inv()
        &&& self.state().within(self.bounds())
    }

    /// No key is held twice, the weight accounted for is what the entries
    /// weigh, and no bound is exceeded. Without a byte budget nothing weighs
    /// anything.
    pub proof fn lemma_valid(&self)
        requires
            self.inv(),
        ensures
            self.state().valid(),
            self.state().within(self.bounds()),
            0 <= self.state().weight <= usize::MAX,
    {
        self.inner.lemma_valid();
        state::lemma_total_nonnegative(self.state().entries);
    }
}

impl<K: Eq + Hash + Clone, V> MemoryTier<K, V, Unweighed> {
    /// A tier that never evicts.
    #[must_use]
    pub fn unbounded() -> (tier: Self)
        ensures
            state::keys_behave::<K>() ==> tier.inv(),
            tier.state() == MemoryState::<K, V>::empty(),
            tier.bounds() == (Limits { entries: None, bytes: None }),
            tier.weigher() is None,
            tier.order() == Eviction::Fifo,
            tier.uses() == 0,
            tier.tickets() == 0,
    {
        MemoryTier { max_entries: None, bytes: None, eviction: Eviction::Fifo, inner: Inner::new() }
    }

    /// A tier holding at most `capacity` entries; inserts beyond that
    /// displace entries in eviction order.
    #[must_use]
    pub fn bounded(capacity: usize) -> (tier: Self)
        requires
            capacity > 0,
        ensures
            state::keys_behave::<K>() ==> tier.inv(),
            tier.state() == MemoryState::<K, V>::empty(),
            tier.bounds() == (Limits { entries: Some(capacity), bytes: None }),
            tier.weigher() is None,
            tier.order() == Eviction::Fifo,
            tier.uses() == 0,
            tier.tickets() == 0,
    {
        MemoryTier {
            max_entries: Some(capacity),
            bytes: None,
            eviction: Eviction::Fifo,
            inner: Inner::new(),
        }
    }
}

impl<K: Eq + Hash + Clone, V, F: Fn(&K, &V) -> usize> MemoryTier<K, V, F> {
    /// A tier bounded by total weight: `weigh` prices each entry (typically
    /// its byte size), and inserts that push the total over `budget` displace
    /// entries in eviction order until it fits again. An entry heavier than
    /// the whole budget is displaced immediately, itself included.
    #[must_use]
    pub fn bounded_bytes(budget: usize, weigh: F) -> (tier: Self)
        requires
            budget > 0,
        ensures
            state::keys_behave::<K>() ==> tier.inv(),
            tier.state() == MemoryState::<K, V>::empty(),
            tier.bounds() == (Limits { entries: None, bytes: Some(budget) }),
            tier.weigher() == Some(weigh),
            tier.order() == Eviction::Fifo,
            tier.uses() == 0,
            tier.tickets() == 0,
    {
        MemoryTier {
            max_entries: None,
            bytes: Some(ByteBudget { budget, weigh }),
            eviction: Eviction::Fifo,
            inner: Inner::new(),
        }
    }
}

impl<K: Eq + Hash + Clone, V> Default for MemoryTier<K, V, Unweighed> {
    fn default() -> (tier: Self)
        ensures
            state::keys_behave::<K>() ==> tier.inv(),
            tier.state() == MemoryState::<K, V>::empty(),
            tier.bounds() == (Limits { entries: None, bytes: None }),
            tier.weigher() is None,
            tier.order() == Eviction::Fifo,
            tier.uses() == 0,
            tier.tickets() == 0,
    {
        MemoryTier::unbounded()
    }
}

impl<K, V, W> Tier for MemoryTier<K, V, W> {
    type Key = K;

    type Value = V;

    type Error = Infallible;

    fn name(&self) -> (name: &str)
        ensures
            name@ == "memory"@,
    {
        "memory"
    }
}

/// Whether `weight` is what `weigher` prices the entry at.
pub open spec fn prices<K, V, W: Weigher<K, V>>(
    weigher: Option<W>,
    key: K,
    value: V,
    weight: usize,
) -> bool {
    match weigher {
        Some(weigher) => weigher.weighs(&key, &value, weight),
        None => weight == 0,
    }
}

/// Whether `weigher` can price the entry.
pub open spec fn priceable<K, V, W: Weigher<K, V>>(weigher: Option<W>, key: K, value: V) -> bool {
    weigher matches Some(weigher) ==> weigher.accepts(&key, &value)
}

/// An entry can be priced if the pricing function can be called on it.
pub proof fn lemma_priceable<K, V, F: Fn(&K, &V) -> usize>(weigh: F, key: K, value: V)
    ensures
        priceable(Some(weigh), key, value) == call_requires(weigh, (&key, &value)),
{
}

/// What the pricing function returns for an entry is the entry's price.
pub proof fn lemma_prices<K, V, F: Fn(&K, &V) -> usize>(
    weigh: F,
    key: K,
    value: V,
    weight: usize,
)
    ensures
        prices(Some(weigh), key, value, weight) == call_ensures(weigh, (&key, &value), weight),
{
}

/// The entries with their weights.
pub open spec fn weighed<K, V>(entries: Seq<(K, V)>, weights: Seq<usize>) -> Seq<Held<K, V>> {
    Seq::new(
        entries.len(),
        |i: int|
            Held { key: entries[i].0, value: entries[i].1, weight: weights[i] as int },
    )
}

impl<K: Eq + Hash + Clone, V, W> MemoryTier<K, V, W> {
    /// Sets the eviction ordering (default: [`Eviction::Fifo`]).
    #[must_use]
    pub fn with_eviction(self, eviction: Eviction) -> (tier: Self)
        ensures
            tier.inv() == self.inv(),
            tier.state() == self.state(),
            tier.bounds() == self.bounds(),
            tier.weigher() == self.weigher(),
            tier.order() == eviction,
            tier.uses() == self.uses(),
            tier.tickets() == self.tickets(),
    {
        MemoryTier {
            max_entries: self.max_entries,
            bytes: self.bytes,
            eviction,
            inner: self.inner,
        }
    }

    /// Current number of entries.
    #[must_use]
    pub fn len(&self) -> (len: usize)
        requires
            self.inv(),
        ensures
            len == self.state().entries.len(),
    {
        self.inner.len()
    }

    /// Whether the tier is empty.
    #[must_use]
    pub fn is_empty(&self) -> (empty: bool)
        requires
            self.inv(),
        ensures
            empty == (self.state().entries.len() == 0),
    {
        self.len() == 0
    }

    /// Current total weight (0 unless built with a byte budget).
    #[must_use]
    pub fn weight(&self) -> (weight: usize)
        requires
            self.inv(),
        ensures
            weight == self.state().weight,
    {
        proof {
            self.lemma_valid();
        }
        self.inner.weight()
    }

    /// How many more uses the tier can record. A write is one use per entry,
    /// and so is a read under LRU.
    #[must_use]
    pub fn uses_left(&self) -> (left: u64)
        ensures
            left == u64::MAX - self.uses(),
    {
        self.inner.stamps_left()
    }

    /// The value of `key`, in place and without refreshing its recency.
    #[must_use]
    pub fn peek(&self, key: &K) -> (value: Option<&V>)
        requires
            self.inv(),
        ensures
            match self.state().lookup(*key) {
                Some(held) => value == Some(&held.value),
                None => value is None,
            },
    {
        self.inner.peek(key)
    }

    fn limits(&self) -> (limits: Limits)
        ensures
            limits == self.bounds(),
    {
        Limits {
            entries: self.max_entries,
            bytes: match &self.bytes {
                Some(bytes) => Some(bytes.budget),
                None => None,
            },
        }
    }

    /// Reads `key`. Under LRU a read refreshes recency.
    pub fn get(&mut self, key: &K) -> (value: Result<Option<V>, Infallible>) where V: Clone
        requires
            old(self).inv(),
            old(self).order() == Eviction::Lru ==> old(self).uses() < u64::MAX,
        ensures
            final(self).inv(),
            final(self).configured_like(old(self)),
            final(self).uses() == old(self).uses() + old(self).state().read_uses(
                *key,
                old(self).order(),
            ),
            old(self).state().reading_leaves(
                seq![*key],
                old(self).order(),
                old(self).tickets(),
                final(self).tickets(),
            ),
            final(self).state() == old(self).state().read(*key, old(self).order()),
            match old(self).state().lookup(*key) {
                Some(held) => value matches Ok(Some(v)) && cloned(held.value, v),
                None => value == Ok::<Option<V>, Infallible>(None),
            },
    {
        proof {
            self.lemma_valid();
            state::lemma_used_within(self.state(), *key, self.bounds(), self.order());
        }
        let eviction = self.eviction;
        Ok(self.inner.fetch(key, eviction))
    }

    /// Whether the tier holds `key`. Existence checks do not refresh LRU
    /// recency.
    pub fn contains(&self, key: &K) -> (present: Result<bool, Infallible>)
        requires
            self.inv(),
        ensures
            present == Ok::<bool, Infallible>(self.state().lookup(*key) is Some),
    {
        Ok(self.inner.has(key))
    }

    /// Reads the keys in turn.
    pub fn get_many(&mut self, keys: &[K]) -> (values: Result<Vec<Option<V>>, Infallible>) where
        V: Clone,

        requires
            old(self).inv(),
            old(self).order() == Eviction::Lru ==> old(self).uses() + keys@.len() <= u64::MAX,
        ensures
            final(self).inv(),
            final(self).configured_like(old(self)),
            final(self).uses() == old(self).uses() + old(self).state().read_all_uses(
                keys@,
                old(self).order(),
            ),
            old(self).state().reading_leaves(
                keys@,
                old(self).order(),
                old(self).tickets(),
                final(self).tickets(),
            ),
            final(self).state() == old(self).state().read_all(keys@, old(self).order()),
            values matches Ok(values) && {
                &&& values@.len() == keys@.len()
                &&& forall|i: int|
                    0 <= i < keys@.len() ==> match old(self).state().lookup(keys@[i]) {
                        Some(held) => #[trigger] values@[i] matches Some(v) && cloned(
                            held.value,
                            v,
                        ),
                        None => values@[i] is None,
                    }
            },
    {
        proof {
            self.lemma_valid();
            state::lemma_used_all_within(self.state(), keys@, self.bounds(), self.order());
        }
        let eviction = self.eviction;
        Ok(self.inner.fetch_batch(keys, eviction))
    }

    /// Removes `key`; returns whether it was there.
    pub fn delete(&mut self, key: &K) -> (present: Result<bool, Infallible>)
        requires
            old(self).inv(),
        ensures
            final(self).inv(),
            final(self).configured_like(old(self)),
            final(self).uses() == old(self).uses(),
            final(self).tickets() == old(self).tickets(),
            final(self).state() == old(self).state().removed(*key),
            present == Ok::<bool, Infallible>(old(self).state().lookup(*key) is Some),
    {
        proof {
            self.lemma_valid();
            state::lemma_used_within(self.state(), *key, self.bounds(), self.order());
        }
        Ok(self.inner.remove(key))
    }

    /// Removes the keys in turn; returns for each whether it was there.
    pub fn delete_many(&mut self, keys: &[K]) -> (flags: Result<Vec<bool>, Infallible>)
        requires
            old(self).inv(),
        ensures
            final(self).inv(),
            final(self).configured_like(old(self)),
            final(self).uses() == old(self).uses(),
            final(self).tickets() == old(self).tickets(),
            final(self).state() == old(self).state().removed_all(keys@),
            flags matches Ok(flags) && {
                &&& flags@.len() == keys@.len()
                &&& forall|i: int|
                    0 <= i < keys@.len() ==> #[trigger] flags@[i] == (old(
                        self,
                    ).state().removed_all(keys@.take(i)).lookup(keys@[i]) is Some)
            },
    {
        proof {
            self.lemma_valid();
            state::lemma_used_all_within(self.state(), keys@, self.bounds(), self.order());
        }
        Ok(self.inner.remove_batch(keys))
    }

    /// One page of keys in eviction order (insertion order under FIFO,
    /// least-recently-used-first under LRU), from position `cursor` on.
    pub fn list(&self, cursor: Option<usize>, limit: usize) -> (page: Result<
        Page<K, usize>,
        Infallible,
    >)
        requires
            self.inv(),
        ensures
            page matches Ok(page) && {
                let keys = state::keys_of(self.state().entries);
                let offset = if let Some(offset) = cursor {
                    offset as int
                } else {
                    0
                };
                &&& page.keys@ == state::paged(keys, offset, limit as int)
                &&& page.next is Some <==> limit > 0 && offset + limit < keys.len()
                &&& page.next matches Some(next) ==> next == offset + limit
            },
    {
        Ok(self.inner.page(cursor, limit))
    }
}

impl<K: Eq + Hash + Clone, V, W: Weigher<K, V>> MemoryTier<K, V, W> {
    fn weight_of(&self, key: &K, value: &V) -> (weight: usize)
        requires
            priceable(self.weigher(), *key, *value),
        ensures
            prices(self.weigher(), *key, *value, weight),
    {
        match &self.bytes {
            Some(bytes) => bytes.weigh.weigh(key, value),
            None => 0,
        }
    }

    /// Writes an entry; returns what that displaced, in the order it left.
    pub fn put(&mut self, key: K, value: V) -> (displaced: Result<Displaced<K, V>, Infallible>)
        requires
            old(self).inv(),
            old(self).uses() < u64::MAX,
            priceable(old(self).weigher(), key, value),
        ensures
            final(self).inv(),
            final(self).configured_like(old(self)),
            final(self).uses() == old(self).uses() + 1,
            final(self).tickets() <= state::ticket_limit(old(self).state().len_with(key)),
            exists|weight: usize|
                {
                    let held = Held { key, value, weight: weight as int };
                    &&& #[trigger] prices(old(self).weigher(), key, value, weight)
                    &&& final(self).state() == old(self).state().inserted(
                        held,
                        old(self).bounds(),
                        old(self).order(),
                    )
                    &&& displaced matches Ok(displaced) && displaced@ == old(
                        self,
                    ).state().displaced(held, old(self).bounds(), old(self).order())
                },
    {
        let weight = self.weight_of(&key, &value);
        let limits = self.limits();
        let eviction = self.eviction;
        proof {
            self.lemma_valid();
            state::lemma_inserted_within(
                self.state(),
                Held { key, value, weight: weight as int },
                limits,
                eviction,
            );
        }
        let displaced = self.inner.insert(key, value, weight, limits, eviction);
        assert(prices(old(self).weigher(), key, value, weight));
        Ok(displaced)
    }

    /// Writes the entries in turn; returns what that displaced, in the order
    /// it left.
    pub fn put_many(&mut self, entries: Vec<(K, V)>) -> (displaced: Result<
        Displaced<K, V>,
        Infallible,
    >)
        requires
            old(self).inv(),
            old(self).uses() + entries@.len() <= u64::MAX,
            forall|i: int|
                0 <= i < entries@.len() ==> priceable(
                    old(self).weigher(),
                    (#[trigger] entries@[i]).0,
                    entries@[i].1,
                ),
        ensures
            final(self).inv(),
            final(self).configured_like(old(self)),
            final(self).uses() == old(self).uses() + entries@.len(),
            exists|weights: Seq<usize>|
                {
                    let items = #[trigger] weighed(entries@, weights);
                    &&& weights.len() == entries@.len()
                    &&& forall|i: int|
                        0 <= i < entries@.len() ==> prices(
                            old(self).weigher(),
                            (#[trigger] entries@[i]).0,
                            entries@[i].1,
                            weights[i],
                        )
                    &&& final(self).state() == old(self).state().inserted_all(
                        items,
                        old(self).bounds(),
                        old(self).order(),
                    )
                    &&& displaced matches Ok(displaced) && displaced@ == old(
                        self,
                    ).state().displaced_all(items, old(self).bounds(), old(self).order())
                    &&& old(self).state().writing_leaves(
                        items,
                        old(self).bounds(),
                        old(self).order(),
                        old(self).tickets(),
                        final(self).tickets(),
                    )
                },
    {
        let ghost all = entries@;
        let ghost mut weights: Seq<usize> = Seq::empty();
        let mut priced: Vec<(K, V, usize)> = Vec::new();
        for entry in iter: entries
            invariant
                iter.seq() == all,
                *self == *old(self),
                forall|i: int|
                    0 <= i < all.len() ==> priceable(
                        self.weigher(),
                        (#[trigger] all[i]).0,
                        all[i].1,
                    ),
                weights.len() == iter.index(),
                priced@.len() == iter.index(),
                forall|i: int|
                    0 <= i < weights.len() ==> {
                        &&& prices(self.weigher(), (#[trigger] all[i]).0, all[i].1, weights[i])
                        &&& priced@[i] == (all[i].0, all[i].1, weights[i])
                    },
        {
            let (key, value) = entry;
            assert(all[iter.index() as int] == (key, value));
            let weight = self.weight_of(&key, &value);
            priced.push((key, value, weight));
            proof {
                weights = weights.push(weight);
            }
        }
        let limits = self.limits();
        let eviction = self.eviction;
        proof {
            let items = weighed(all, weights);
            assert(inner::weighed(priced@) =~= items);
            self.lemma_valid();
            assert forall|i: int| 0 <= i < priced@.len() && limits.bytes is None implies (
            #[trigger] priced@[i]).2 == 0 by {
                assert(prices(self.weigher(), all[i].0, all[i].1, weights[i]));
            }
            assert forall|i: int| 0 <= i < items.len() && limits.bytes is None implies (
            #[trigger] items[i]).weight == 0 by {
                assert(priced@[i].2 == 0);
            }
            state::lemma_inserted_all_within(self.state(), items, limits, eviction);
        }
        Ok(self.inner.insert_batch(priced, limits, eviction))
    }
}

/// Zero-copy view into a [`MemoryTier`] entry.
///
/// Borrows the tier for its lifetime, which is what makes the view sound: no
/// `put` or `delete` can displace the entry while the view exists.
pub struct MemoryRef<'a, K, V> {
    inner: &'a Inner<K, V>,
    key: K,
}

impl<'a, K, V> MemoryRef<'a, K, V> {
    /// Present by construction.
    #[verifier::type_invariant]
    spec fn pinned(self) -> bool {
        self.inner.pins(self.key)
    }

    /// The value the view shows.
    pub closed spec fn shows(&self) -> V {
        self.inner.pinned(self.key)
    }
}

impl<'a, K: Eq + Hash, V> core::ops::Deref for MemoryRef<'a, K, V> {
    type Target = V;

    fn deref(&self) -> (value: &V)
        ensures
            *value == self.shows(),
    {
        proof {
            use_type_invariant(self);
        }
        self.inner.pin(&self.key)
    }
}

impl<K: Eq + Hash + Clone, V, W> MemoryTier<K, V, W> {
    /// Reads `key` in place. Under LRU this refreshes recency like
    /// [`MemoryTier::get`].
    pub fn get_ref<'s>(&'s mut self, key: &K) -> (view: Result<
        Option<MemoryRef<'s, K, V>>,
        Infallible,
    >)
        requires
            old(self).inv(),
            old(self).order() == Eviction::Lru ==> old(self).uses() < u64::MAX,
        ensures
            final(self).inv(),
            final(self).configured_like(old(self)),
            final(self).uses() == old(self).uses() + old(self).state().read_uses(
                *key,
                old(self).order(),
            ),
            old(self).state().reading_leaves(
                seq![*key],
                old(self).order(),
                old(self).tickets(),
                final(self).tickets(),
            ),
            final(self).state() == old(self).state().read(*key, old(self).order()),
            match old(self).state().lookup(*key) {
                Some(held) => view matches Ok(Some(view)) && view.shows() == held.value,
                None => view matches Ok(None),
            },
    {
        proof {
            self.lemma_valid();
            state::lemma_used_within(self.state(), *key, self.bounds(), self.order());
        }
        proof {
            old(self).state().lemma_one_read_uses(*key, old(self).order());
        }
        if self.inner.has(key) {
            if let Eviction::Lru = self.eviction {
                self.inner.touch(key);
                proof {
                    state::lemma_lookup_touched(old(self).state(), *key, *key);
                }
            }
            proof {
                self.inner.lemma_pins(*key);
            }
            Ok(Some(MemoryRef { inner: &self.inner, key: inner::copy_key(key) }))
        } else {
            Ok(None)
        }
    }
}

} // verus!
