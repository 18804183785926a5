//! The mutable core of a memory tier.
//!
//! Recency is tracked with stamped queue tickets: a ticket is live iff the
//! map entry of its key carries its stamp. Touches push fresh tickets; stale
//! ones are skipped on eviction and dropped by [`Inner::compact`].
use std::collections::{HashMap, VecDeque};
use std::hash::Hash;
use vstd::prelude::*;
use vstd::std_specs::hash::*;

use crate::memory::state;
use crate::memory::state::{Held, Limits, MemoryState};
use crate::policy::Eviction;
use crate::tier::{Displaced, Page};

verus! {

broadcast use vstd::std_specs::hash::group_hash_axioms;

#[derive(Debug)]
pub(crate) struct Entry<V> {
    pub(crate) value: V,
    pub(crate) weight: usize,
    /// Matches the entry's live ticket in the queue; older tickets are stale.
    pub(crate) stamp: u64,
}

#[derive(Debug)]
pub(crate) struct Inner<K, V> {
    pub(crate) map: HashMap<K, Entry<V>>,
    pub(crate) order: VecDeque<(K, u64)>,
    pub(crate) total_weight: u128,
    pub(crate) next_stamp: u64,
}

/// Whether `ticket` is the current one of its key.
pub(crate) open spec fn live<K, V>(map: Map<K, Entry<V>>, ticket: (K, u64)) -> bool {
    map.contains_key(ticket.0) && map[ticket.0].stamp == ticket.1
}

/// The map's entry for `key`.
pub(crate) open spec fn entry_of<K, V>(map: Map<K, Entry<V>>, key: K) -> Held<K, V> {
    Held { key, value: map[key].value, weight: map[key].weight as int }
}

/// The entries of the live tickets, in queue order.
pub(crate) open spec fn held<K, V>(map: Map<K, Entry<V>>, order: Seq<(K, u64)>) -> Seq<Held<K, V>>
    decreases order.len(),
{
    if order.len() == 0 {
        Seq::empty()
    } else if live(map, order.last()) {
        held(map, order.drop_last()).push(entry_of(map, order.last().0))
    } else {
        held(map, order.drop_last())
    }
}

/// Whether tickets are in the order of their stamps, none newer than `newest`.
pub(crate) open spec fn stamped<K>(order: Seq<(K, u64)>, newest: u64) -> bool {
    &&& forall|i: int, j: int|
        0 <= i < j < order.len() ==> (#[trigger] order[i]).1 < (#[trigger] order[j]).1
    &&& forall|i: int| 0 <= i < order.len() ==> (#[trigger] order[i]).1 <= newest
}

/// Whether every key has a live ticket.
pub(crate) open spec fn ticketed<K, V>(map: Map<K, Entry<V>>, order: Seq<(K, u64)>) -> bool {
    forall|key: K| #[trigger] map.contains_key(key) ==> order.contains((key, map[key].stamp))
}

/// The live ones of some tickets, in the order of the tickets.
pub(crate) open spec fn live_tickets<K, V>(
    map: Map<K, Entry<V>>,
    order: Seq<(K, u64)>,
) -> Seq<(K, u64)> {
    order.filter(|ticket: (K, u64)| live(map, ticket))
}

/// The live ones of one ticket more, and how many there are.
proof fn lemma_live_tickets<K, V>(map: Map<K, Entry<V>>, order: Seq<(K, u64)>)
    ensures
        order.len() == 0 ==> live_tickets(map, order) == Seq::<(K, u64)>::empty(),
        order.len() > 0 ==> live_tickets(map, order) == if live(map, order.last()) {
            live_tickets(map, order.drop_last()).push(order.last())
        } else {
            live_tickets(map, order.drop_last())
        },
        live_tickets(map, order).len() == held(map, order).len(),
    decreases order.len(),
{
    reveal(Seq::filter);
    if order.len() > 0 {
        lemma_live_tickets(map, order.drop_last());
    }
}

proof fn lemma_held_concat<K, V>(map: Map<K, Entry<V>>, a: Seq<(K, u64)>, b: Seq<(K, u64)>)
    ensures
        held(map, a + b) == held(map, a) + held(map, b),
    decreases b.len(),
{
    if b.len() == 0 {
        assert(a + b =~= a);
        assert(held(map, a) + held(map, b) =~= held(map, a));
    } else {
        lemma_held_concat(map, a, b.drop_last());
        assert((a + b).drop_last() =~= a + b.drop_last());
        assert((a + b).last() == b.last());
        assert(held(map, a + b) =~= held(map, a) + held(map, b));
    }
}

/// Splits off the first ticket.
proof fn lemma_held_first<K, V>(map: Map<K, Entry<V>>, order: Seq<(K, u64)>)
    requires
        order.len() > 0,
    ensures
        live(map, order[0]) ==> held(map, order) == seq![entry_of(map, order[0].0)] + held(
            map,
            order.skip(1),
        ),
        !live(map, order[0]) ==> held(map, order) == held(map, order.skip(1)),
{
    let first = seq![order[0]];
    lemma_held_concat(map, first, order.skip(1));
    assert(first + order.skip(1) =~= order);
    assert(first.drop_last() =~= Seq::<(K, u64)>::empty());
    assert(held(map, first.drop_last()) =~= Seq::<Held<K, V>>::empty());
    if live(map, order[0]) {
        assert(held(map, first) =~= seq![entry_of(map, order[0].0)]);
    } else {
        assert(held(map, first) + held(map, order.skip(1)) =~= held(map, order.skip(1)));
    }
}

/// Maps that agree on the keys of the tickets hold the same entries.
proof fn lemma_held_frame<K, V>(
    map: Map<K, Entry<V>>,
    other: Map<K, Entry<V>>,
    order: Seq<(K, u64)>,
)
    requires
        forall|i: int|
            0 <= i < order.len() ==> {
                &&& live(map, #[trigger] order[i]) == live(other, order[i])
                &&& live(map, order[i]) ==> entry_of(map, order[i].0) == entry_of(
                    other,
                    order[i].0,
                )
            },
    ensures
        held(map, order) == held(other, order),
    decreases order.len(),
{
    if order.len() > 0 {
        let last = order.len() - 1;
        assert(live(map, order[last]) == live(other, order[last]));
        assert forall|i: int| 0 <= i < order.drop_last().len() implies {
            &&& live(map, #[trigger] order.drop_last()[i]) == live(other, order.drop_last()[i])
            &&& live(map, order.drop_last()[i]) ==> entry_of(map, order.drop_last()[i].0)
                == entry_of(other, order.drop_last()[i].0)
        } by {
            assert(order.drop_last()[i] == order[i]);
        }
        lemma_held_frame(map, other, order.drop_last());
    }
}

/// Looking a key up among the held entries finds the map's entry, provided
/// the queue holds its live ticket.
proof fn lemma_held_lookup<K, V>(map: Map<K, Entry<V>>, order: Seq<(K, u64)>, key: K)
    ensures
        map.contains_key(key) && order.contains((key, map[key].stamp)) ==> state::lookup(
            held(map, order),
            key,
        ) == Some(entry_of(map, key)),
        !(map.contains_key(key) && order.contains((key, map[key].stamp))) ==> state::lookup(
            held(map, order),
            key,
        ) is None,
    decreases order.len(),
{
    if order.len() > 0 {
        let rest = order.drop_last();
        lemma_held_lookup(map, rest, key);
        let ticket = (key, map[key].stamp);
        if order.contains(ticket) {
            let i = choose|i: int| 0 <= i < order.len() && order[i] == ticket;
            if i < rest.len() {
                assert(rest[i] == ticket);
            }
        }
        if rest.contains(ticket) {
            let i = choose|i: int| 0 <= i < rest.len() && rest[i] == ticket;
            assert(order[i] == ticket);
        }
        if live(map, order.last()) {
            let entries = held(map, order);
            assert(entries.drop_last() =~= held(map, rest));
            if order.last().0 == key {
                assert(order[order.len() - 1] == ticket);
            }
        }
    }
}

/// Every held entry comes from a live ticket.
proof fn lemma_held_source<K, V>(map: Map<K, Entry<V>>, order: Seq<(K, u64)>)
    ensures
        forall|i: int|
            0 <= i < held(map, order).len() ==> {
                let key = (#[trigger] held(map, order)[i]).key;
                map.contains_key(key) && order.contains((key, map[key].stamp)) && held(map, order)[i]
                    == entry_of(map, key)
            },
    decreases order.len(),
{
    if order.len() > 0 {
        let rest = order.drop_last();
        lemma_held_source(map, rest);
        assert forall|i: int| 0 <= i < held(map, order).len() implies {
            let key = (#[trigger] held(map, order)[i]).key;
            map.contains_key(key) && order.contains((key, map[key].stamp)) && held(map, order)[i]
                == entry_of(map, key)
        } by {
            let key = held(map, order)[i].key;
            if i < held(map, rest).len() {
                assert(held(map, order)[i] == held(map, rest)[i]);
                let ticket = (key, map[key].stamp);
                let j = choose|j: int| 0 <= j < rest.len() && rest[j] == ticket;
                assert(order[j] == ticket);
            } else {
                assert(order[order.len() - 1] == (key, map[key].stamp));
            }
        }
    }
}

/// No key is held twice.
proof fn lemma_held_distinct<K, V>(map: Map<K, Entry<V>>, order: Seq<(K, u64)>, newest: u64)
    requires
        stamped(order, newest),
    ensures
        state::keys_of(held(map, order)).no_duplicates(),
    decreases order.len(),
{
    if order.len() > 0 {
        let rest = order.drop_last();
        lemma_held_distinct(map, rest, newest);
        lemma_held_source(map, rest);
        let keys = state::keys_of(held(map, order));
        let before = state::keys_of(held(map, rest));
        if live(map, order.last()) {
            assert(keys =~= before.push(order.last().0));
            assert forall|i: int| 0 <= i < before.len() implies before[i] != order.last().0 by {
                let key = held(map, rest)[i].key;
                let ticket = (key, map[key].stamp);
                let j = choose|j: int| 0 <= j < rest.len() && rest[j] == ticket;
                assert(order[j] == ticket);
                assert(order[j].1 < order[order.len() - 1].1);
            }
        }
    }
}

/// As many entries are held as the map has keys.
proof fn lemma_held_len<K, V>(map: Map<K, Entry<V>>, order: Seq<(K, u64)>, newest: u64)
    requires
        stamped(order, newest),
        ticketed(map, order),
        map.dom().finite(),
    ensures
        held(map, order).len() == map.len(),
{
    let keys = state::keys_of(held(map, order));
    lemma_held_distinct(map, order, newest);
    lemma_held_source(map, order);
    assert forall|key: K| map.contains_key(key) implies keys.contains(key) by {
        lemma_held_lookup(map, order, key);
        lemma_lookup_index(held(map, order), key);
        let i = choose|i: int|
            0 <= i < held(map, order).len() && (#[trigger] held(map, order)[i]).key == key;
        assert(keys[i] == key);
    }
    assert(keys.to_set() =~= map.dom());
    keys.unique_seq_to_set();
}

/// What a lookup finds is one of the entries.
proof fn lemma_lookup_index<K, V>(entries: Seq<Held<K, V>>, key: K)
    ensures
        state::lookup(entries, key) matches Some(found) ==> exists|i: int|
            0 <= i < entries.len() && (#[trigger] entries[i]).key == key && entries[i] == found,
    decreases entries.len(),
{
    if entries.len() > 0 {
        lemma_lookup_index(entries.drop_last(), key);
        if entries.last().key == key {
            assert(entries[entries.len() - 1].key == key);
        } else if state::lookup(entries.drop_last(), key) is Some {
            let i = choose|i: int|
                0 <= i < entries.drop_last().len() && (#[trigger] entries.drop_last()[i]).key == key
                    && entries.drop_last()[i] == state::lookup(entries.drop_last(), key).unwrap();
            assert(entries[i].key == key);
        }
    }
}

/// Once no ticket of `key` is live any more, its entry is gone and the others
/// are where they were.
proof fn lemma_held_forget<K, V>(
    map: Map<K, Entry<V>>,
    other: Map<K, Entry<V>>,
    order: Seq<(K, u64)>,
    key: K,
)
    requires
        forall|k: K|
            k != key ==> {
                &&& #[trigger] map.contains_key(k) == other.contains_key(k)
                &&& map.contains_key(k) ==> map[k] == other[k]
            },
        forall|i: int|
            0 <= i < order.len() && (#[trigger] order[i]).0 == key ==> !live(other, order[i]),
    ensures
        held(other, order) == state::without(held(map, order), key),
    decreases order.len(),
{
    if order.len() > 0 {
        let rest = order.drop_last();
        assert forall|i: int|
            0 <= i < rest.len() && (#[trigger] rest[i]).0 == key implies !live(other, rest[i]) by {
            assert(order[i] == rest[i]);
        }
        lemma_held_forget(map, other, rest, key);
        let last = order[order.len() - 1];
        assert(map.contains_key(last.0) == other.contains_key(last.0) || last.0 == key);
        if live(map, last) {
            assert(held(map, order).drop_last() =~= held(map, rest));
        }
    } else {
        assert(held(other, order) =~= state::without(held(map, order), key));
    }
}

/// A new entry under an unchanged stamp takes the place of the old one.
proof fn lemma_held_replace<K, V>(
    map: Map<K, Entry<V>>,
    other: Map<K, Entry<V>>,
    order: Seq<(K, u64)>,
    key: K,
)
    requires
        map.contains_key(key),
        other.contains_key(key),
        map[key].stamp == other[key].stamp,
        forall|k: K|
            k != key ==> {
                &&& #[trigger] map.contains_key(k) == other.contains_key(k)
                &&& map.contains_key(k) ==> map[k] == other[k]
            },
    ensures
        held(other, order) == state::replaced(held(map, order), entry_of(other, key)),
    decreases order.len(),
{
    if order.len() > 0 {
        let rest = order.drop_last();
        lemma_held_replace(map, other, rest, key);
        let last = order[order.len() - 1];
        assert(map.contains_key(last.0) == other.contains_key(last.0));
        assert(held(other, order) =~= state::replaced(held(map, order), entry_of(other, key)));
    } else {
        assert(held(other, order) =~= state::replaced(held(map, order), entry_of(other, key)));
    }
}

/// The queue after one more ticket.
proof fn lemma_ticketed_push<K, V>(
    map: Map<K, Entry<V>>,
    other: Map<K, Entry<V>>,
    order: Seq<(K, u64)>,
    newest: u64,
    ticket: (K, u64),
)
    requires
        stamped(order, newest),
        ticketed(map, order),
        newest < ticket.1,
        other.contains_key(ticket.0),
        other[ticket.0].stamp == ticket.1,
        forall|k: K|
            k != ticket.0 ==> {
                &&& #[trigger] map.contains_key(k) == other.contains_key(k)
                &&& map.contains_key(k) ==> map[k] == other[k]
            },
    ensures
        stamped(order.push(ticket), ticket.1),
        ticketed(other, order.push(ticket)),
        held(other, order.push(ticket)) == state::without(held(map, order), ticket.0).push(
            entry_of(other, ticket.0),
        ),
{
    let longer = order.push(ticket);
    assert forall|key: K| #[trigger] other.contains_key(key) implies longer.contains(
        (key, other[key].stamp),
    ) by {
        if key == ticket.0 {
            assert(longer[order.len() as int] == (key, other[key].stamp));
        } else {
            assert(map.contains_key(key));
            let i = choose|i: int| 0 <= i < order.len() && order[i] == (key, map[key].stamp);
            assert(longer[i] == (key, other[key].stamp));
        }
    }
    lemma_held_forget(map, other, order, ticket.0);
    assert(longer.drop_last() =~= order);
}

/// Without an entry of `key`, forgetting it changes nothing.
proof fn lemma_without_absent<K, V>(entries: Seq<Held<K, V>>, key: K)
    requires
        state::lookup(entries, key) is None,
    ensures
        state::without(entries, key) == entries,
    decreases entries.len(),
{
    if entries.len() > 0 {
        lemma_without_absent(entries.drop_last(), key);
        assert(state::without(entries, key) =~= entries);
    } else {
        assert(state::without(entries, key) =~= entries);
    }
}

impl<K, V> Inner<K, V> {
    /// What is held, as contracts speak of it.
    pub(crate) closed spec fn state(&self) -> MemoryState<K, V> {
        MemoryState {
            entries: held(self.map@, self.order@),
            weight: self.total_weight as int,
        }
    }

    /// How many stamps were given out.
    pub(crate) closed spec fn stamps(&self) -> int {
        self.next_stamp as int
    }

    /// How many tickets are queued, live and stale.
    pub(crate) closed spec fn tickets(&self) -> int {
        self.order@.len() as int
    }

    /// Whether `key` can be read in place.
    pub(crate) closed spec fn pins(&self, key: K) -> bool {
        obeys_key_model::<K>() && self.map@.contains_key(key)
    }

    /// The value of a key that can be read in place.
    pub(crate) closed spec fn pinned(&self, key: K) -> V {
        self.map@[key].value
    }
}

impl<K: Eq + Hash, V> Inner<K, V> {
    /// Reads `key` in place.
    pub(crate) fn pin(&self, key: &K) -> (value: &V)
        requires
            self.pins(*key),
        ensures
            *value == self.pinned(*key),
    {
        &self.map.get(key).unwrap().value
    }
}

/// Weighed entries as contracts speak of them.
pub(crate) open spec fn weighed<K, V>(entries: Seq<(K, V, usize)>) -> Seq<Held<K, V>> {
    entries.map_values(
        |entry: (K, V, usize)| Held { key: entry.0, value: entry.1, weight: entry.2 as int },
    )
}

/// A copy of `key`.
pub(crate) fn copy_key<K: Clone>(key: &K) -> (copy: K)
    requires
        state::keys_behave::<K>(),
    ensures
        copy == *key,
{
    let copy = key.clone();
    assert(cloned(*key, copy));
    copy
}

impl<K, V> Inner<K, V> where K: Eq + Hash + Clone {
    /// Map, tickets, and weight total stay in sync.
    pub(crate) closed spec fn inv(&self) -> bool {
        &&& state::keys_behave::<K>()
        &&& stamped(self.order@, self.next_stamp)
        &&& ticketed(self.map@, self.order@)
        &&& self.state().valid()
    }

    pub(crate) fn new() -> (inner: Self)
        ensures
            state::keys_behave::<K>() ==> inner.inv(),
            inner.state() == MemoryState::<K, V>::empty(),
            inner.stamps() == 0,
            inner.tickets() == 0,
    {
        let inner = Inner {
            map: HashMap::new(),
            order: VecDeque::new(),
            total_weight: 0,
            next_stamp: 0,
        };
        assert(inner.state() =~= MemoryState::<K, V>::empty());
        inner
    }

    fn fresh_stamp(&mut self) -> (stamp: u64)
        requires
            old(self).next_stamp < u64::MAX,
        ensures
            stamp == old(self).next_stamp + 1,
            *final(self) == (Inner { next_stamp: stamp, ..*old(self) }),
    {
        self.next_stamp = self.next_stamp + 1;
        self.next_stamp
    }

    /// Whether `ticket` is the current one of its key.
    fn is_live(&self, ticket: &(K, u64)) -> (current: bool)
        requires
            obeys_key_model::<K>(),
        ensures
            current == live(self.map@, *ticket),
    {
        match self.map.get(&ticket.0) {
            Some(entry) => entry.stamp == ticket.1,
            None => false,
        }
    }

    /// Drops stale tickets once they dominate the queue, keeping eviction
    /// amortised constant without a linked map.
    fn compact(&mut self)
        requires
            old(self).inv(),
        ensures
            final(self).inv(),
            final(self).state() == old(self).state(),
            final(self).stamps() == old(self).stamps(),
            final(self).map == old(self).map,
            final(self).order@ == if old(self).order@.len() > state::ticket_limit(
                old(self).map@.len() as int,
            ) {
                live_tickets(old(self).map@, old(self).order@)
            } else {
                old(self).order@
            },
            final(self).order@.len() <= state::ticket_limit(old(self).map@.len() as int),
    {
        proof {
            lemma_live_tickets(self.map@, self.order@);
            lemma_held_len(self.map@, self.order@, self.next_stamp);
        }
        let len = self.map.len();
        let doubled = if len <= usize::MAX / 2 {
            2 * len
        } else {
            usize::MAX
        };
        let bound = if doubled < 16 {
            16
        } else {
            doubled
        };
        if self.order.len() > bound {
            self.retain_live();
        }
    }

    /// Drops every stale ticket.
    fn retain_live(&mut self)
        requires
            old(self).inv(),
        ensures
            final(self).inv(),
            final(self).state() == old(self).state(),
            final(self).stamps() == old(self).stamps(),
            final(self).map == old(self).map,
            final(self).order@ == live_tickets(old(self).map@, old(self).order@),
    {
        let ghost map = self.map@;
        let ghost all = self.order@;
        let mut order: VecDeque<(K, u64)> = VecDeque::new();
        core::mem::swap(&mut self.order, &mut order);
        let mut kept: VecDeque<(K, u64)> = VecDeque::new();
        let ghost mut passed: Seq<(K, u64)> = Seq::empty();
        assert(passed + order@ =~= all);
        proof {
            lemma_live_tickets(map, passed);
        }
        loop
            invariant
                state::keys_behave::<K>(),
                map == self.map@,
                self.map == old(self).map,
                self.next_stamp == old(self).next_stamp,
                self.total_weight == old(self).total_weight,
                passed + order@ == all,
                stamped(all, self.next_stamp),
                stamped(kept@, self.next_stamp),
                held(map, kept@) == held(map, passed),
                kept@ == live_tickets(map, passed),
                forall|i: int, j: int|
                    0 <= i < kept@.len() && 0 <= j < order@.len() ==> (#[trigger] kept@[i]).1 < (
                    #[trigger] order@[j]).1,
                forall|j: int|
                    0 <= j < passed.len() && live(map, #[trigger] passed[j]) ==> kept@.contains(
                        passed[j],
                    ),
            ensures
                passed == all,
            decreases order@.len(),
        {
            let ghost earlier = passed;
            let ghost before = kept@;
            let ghost waiting = order@;
            match order.pop_front() {
                Some(ticket) => {
                    proof {
                        passed = passed.push(ticket);
                        assert(passed + order@ =~= all);
                        assert(passed.drop_last() =~= earlier);
                        lemma_live_tickets(map, passed);
                        assert(all[earlier.len() as int] == ticket);
                        assert forall|j: int| 0 <= j < order@.len() implies ticket.1 < (
                        #[trigger] order@[j]).1 by {
                            assert(all[earlier.len() + 1 + j] == order@[j]);
                        }
                        assert forall|i: int| 0 <= i < before.len() implies (
                        #[trigger] before[i]).1 < ticket.1 by {
                            assert(waiting[0] == ticket);
                        }
                        assert forall|i: int, j: int|
                            0 <= i < before.len() && 0 <= j < order@.len() implies (
                        #[trigger] before[i]).1 < (#[trigger] order@[j]).1 by {
                            assert(waiting[j + 1] == order@[j]);
                        }
                    }
                    if self.is_live(&ticket) {
                        kept.push_back(ticket);
                        proof {
                            assert(kept@.drop_last() =~= before);
                            assert forall|j: int|
                                0 <= j < passed.len() && live(
                                    map,
                                    #[trigger] passed[j],
                                ) implies kept@.contains(passed[j]) by {
                                if j < earlier.len() {
                                    assert(earlier[j] == passed[j]);
                                    let i = choose|i: int|
                                        0 <= i < before.len() && before[i] == earlier[j];
                                    assert(kept@[i] == passed[j]);
                                } else {
                                    assert(kept@[before.len() as int] == passed[j]);
                                }
                            }
                        }
                    } else {
                        assert forall|j: int|
                            0 <= j < passed.len() && live(
                                map,
                                #[trigger] passed[j],
                            ) implies kept@.contains(passed[j]) by {
                            assert(earlier[j] == passed[j]);
                        }
                    }
                },
                None => {
                    assert(passed =~= all);
                    break ;
                },
            }
        }
        self.order = kept;
        proof {
            assert forall|key: K| #[trigger] map.contains_key(key) implies self.order@.contains(
                (key, map[key].stamp),
            ) by {
                let i = choose|i: int| 0 <= i < all.len() && all[i] == (key, map[key].stamp);
                assert(live(map, passed[i]));
            }
        }
    }

    fn over(&self, limits: Limits) -> (over: bool)
        requires
            self.inv(),
        ensures
            over == self.state().over(limits),
    {
        proof {
            lemma_held_len(self.map@, self.order@, self.next_stamp);
        }
        if let Some(max) = limits.entries {
            if self.map.len() > max {
                return true;
            }
        }
        if let Some(max) = limits.bytes {
            if self.total_weight > max as u128 {
                return true;
            }
        }
        false
    }

    /// Evicts until back under every configured bound, in ticket order,
    /// skipping stale tickets. The newest entry is evicted last, so an entry
    /// that can never fit is displaced too.
    fn evict_over(&mut self, limits: Limits) -> (displaced: Displaced<K, V>)
        requires
            old(self).inv(),
        ensures
            final(self).inv(),
            final(self).state() == old(self).state().shed(old(self).state().excess(limits)),
            displaced@ == state::pairs(
                old(self).state().entries.take(old(self).state().excess(limits) as int),
            ),
            final(self).stamps() == old(self).stamps(),
            final(self).tickets() <= old(self).tickets(),
    {
        let mut displaced: Displaced<K, V> = Vec::new();
        let ghost start = self.state();
        let ghost mut count: nat = 0;
        assert(displaced@ =~= state::pairs(start.entries.take(0)));
        loop
            invariant
                self.inv(),
                self.stamps() == old(self).stamps(),
                self.tickets() <= old(self).tickets(),
                count <= start.entries.len(),
                self.state() == start.shed(count),
                self.state().entries == start.entries.skip(count as int),
                start.excess(limits) == count + self.state().excess(limits),
                displaced@ == state::pairs(start.entries.take(count as int)),
            ensures
                self.inv(),
                self.stamps() == old(self).stamps(),
                self.tickets() <= old(self).tickets(),
                count == start.excess(limits),
                self.state() == start.shed(count),
                displaced@ == state::pairs(start.entries.take(count as int)),
            decreases self.order@.len(),
        {
            if !self.over(limits) {
                break ;
            }
            let ghost map = self.map@;
            let ghost order = self.order@;
            let ghost current = self.state();
            match self.order.pop_front() {
                None => {
                    assert(current.entries =~= Seq::<Held<K, V>>::empty());
                    break ;
                },
                Some(ticket) => {
                    proof {
                        lemma_held_first(map, order);
                        assert(self.order@ =~= order.skip(1));
                        assert forall|i: int| 0 <= i < self.order@.len() implies ticket.1 < (
                        #[trigger] self.order@[i]).1 by {
                            assert(order[i + 1] == self.order@[i]);
                        }
                        assert forall|key: K|
                            map.contains_key(key) && !(key == ticket.0 && map[key].stamp
                                == ticket.1) implies self.order@.contains(
                            (key, map[key].stamp),
                        ) by {
                            let i = choose|i: int|
                                0 <= i < order.len() && order[i] == (key, map[key].stamp);
                            assert(self.order@[i - 1] == (key, map[key].stamp));
                        }
                    }
                    if self.is_live(&ticket) {
                        let (oldest, stamp) = ticket;
                        proof {
                            assert(current.entries[0] == entry_of(map, oldest));
                            state::lemma_total_first(current.entries);
                            state::lemma_shifted_valid(current);
                            state::lemma_total_nonnegative(current.entries.skip(1));
                        }
                        if let Some(entry) = self.map.remove(&oldest) {
                            self.total_weight = self.total_weight - entry.weight as u128;
                            proof {
                                let rest = self.order@;
                                lemma_held_lookup(map, rest, oldest);
                                assert(!rest.contains((oldest, stamp)));
                                lemma_without_absent(held(map, rest), oldest);
                                lemma_held_forget(map, self.map@, rest, oldest);
                                let first = entry_of(map, oldest);
                                assert(current.entries == seq![first] + held(map, rest));
                                assert(current.entries[0] == first);
                                assert(current.entries.skip(1) =~= held(map, rest));
                                assert(self.state() =~= current.shifted());
                                state::lemma_shifted_valid(current);
                                state::lemma_shed_step(start, count);
                                assert(start.entries.take(count as int + 1) =~= start.entries.take(
                                    count as int,
                                ).push(first));
                                assert(state::pairs(start.entries.take(count as int + 1))
                                    =~= state::pairs(start.entries.take(count as int)).push(
                                    (oldest, entry.value),
                                ));
                                count = count + 1;
                            }
                            displaced.push((oldest, entry.value));
                        }
                    }
                },
            }
        }
        displaced
    }

    pub(crate) fn insert(
        &mut self,
        key: K,
        value: V,
        weight: usize,
        limits: Limits,
        eviction: Eviction,
    ) -> (displaced: Displaced<K, V>)
        requires
            old(self).inv(),
            old(self).stamps() < u64::MAX,
            old(self).state().weight <= usize::MAX,
        ensures
            final(self).inv(),
            final(self).stamps() == old(self).stamps() + 1,
            final(self).tickets() <= state::ticket_limit(old(self).state().len_with(key)),
            ({
                let held = Held { key, value, weight: weight as int };
                &&& final(self).state() == old(self).state().inserted(held, limits, eviction)
                &&& displaced@ == old(self).state().displaced(held, limits, eviction)
            }),
    {
        let ghost map = self.map@;
        let ghost order = self.order@;
        let ghost newest = self.next_stamp;
        let ghost item = Held { key, value, weight: weight as int };
        let stamp = self.fresh_stamp();
        proof {
            lemma_held_lookup(map, order, key);
            state::lemma_lookup_weight(old(self).state(), key);
        }
        let known = match self.map.get(&key) {
            Some(entry) => Some((entry.weight, entry.stamp)),
            None => None,
        };
        match known {
            Some((weighed, kept)) => {
                // A heavier value can overflow the byte budget. FIFO keeps
                // the old queue position; LRU counts a replacement as
                // a use.
                match eviction {
                    Eviction::Lru => {
                        self.map.insert(copy_key(&key), Entry { value, weight, stamp });
                        self.order.push_back((key, stamp));
                        proof {
                            lemma_ticketed_push(map, self.map@, order, newest, (key, stamp));
                        }
                    },
                    Eviction::Fifo => {
                        self.map.insert(key, Entry { value, weight, stamp: kept });
                        proof {
                            lemma_held_replace(map, self.map@, order, key);
                            assert forall|k: K| #[trigger]
                                self.map@.contains_key(k) implies order.contains(
                                (k, self.map@[k].stamp),
                            ) by {
                                assert(map.contains_key(k));
                            }
                        }
                    },
                }
                self.total_weight = self.total_weight + weight as u128 - weighed as u128;
            },
            None => {
                self.map.insert(copy_key(&key), Entry { value, weight, stamp });
                self.order.push_back((key, stamp));
                self.total_weight = self.total_weight + weight as u128;
                proof {
                    lemma_ticketed_push(map, self.map@, order, newest, (key, stamp));
                    lemma_without_absent(held(map, order), key);
                }
            },
        }
        assert(self.state() =~= old(self).state().placed(item, eviction));
        proof {
            state::lemma_placed_valid(old(self).state(), item, eviction);
            lemma_held_len(map, order, newest);
        }
        self.compact();
        self.evict_over(limits)
    }

    /// Refreshes `key`'s recency with a new ticket.
    pub(crate) fn touch(&mut self, key: &K)
        requires
            old(self).inv(),
            old(self).stamps() < u64::MAX,
        ensures
            final(self).inv(),
            final(self).stamps() == old(self).stamps() + 1,
            final(self).tickets() <= state::ticket_limit(
                old(self).state().entries.len() as int,
            ),
            final(self).state() == old(self).state().touched(*key),
    {
        let ghost map = self.map@;
        let ghost order = self.order@;
        let ghost newest = self.next_stamp;
        let stamp = self.fresh_stamp();
        proof {
            lemma_held_lookup(map, order, *key);
        }
        if let Some(entry) = self.map.remove(key) {
            self.map.insert(
                copy_key(key),
                Entry { value: entry.value, weight: entry.weight, stamp },
            );
            self.order.push_back((copy_key(key), stamp));
            proof {
                lemma_ticketed_push(map, self.map@, order, newest, (*key, stamp));
            }
        } else {
            assert(self.map@ =~= map);
        }
        assert(self.state() =~= old(self).state().touched(*key));
        proof {
            state::lemma_touched_valid(old(self).state(), *key);
            lemma_held_len(map, order, newest);
        }
        self.compact();
    }

    /// What is held is valid.
    pub(crate) proof fn lemma_valid(&self)
        requires
            self.inv(),
        ensures
            self.state().valid(),
    {
    }

    /// What is held can be read in place.
    pub(crate) proof fn lemma_pins(&self, key: K)
        requires
            self.inv(),
        ensures
            state::keys_behave::<K>(),
            self.state().lookup(key) matches Some(held) ==> self.pins(key) && self.pinned(key)
                == held.value,
    {
        lemma_held_lookup(self.map@, self.order@, key);
    }

    /// How many entries are held.
    pub(crate) fn len(&self) -> (len: usize)
        requires
            self.inv(),
        ensures
            len == self.state().entries.len(),
    {
        proof {
            lemma_held_len(self.map@, self.order@, self.next_stamp);
        }
        self.map.len()
    }

    /// The weight accounted for.
    pub(crate) fn weight(&self) -> (weight: usize)
        requires
            self.state().weight <= usize::MAX,
        ensures
            weight == self.state().weight,
    {
        self.total_weight as usize
    }

    /// How many stamps can still be given out.
    pub(crate) fn stamps_left(&self) -> (left: u64)
        ensures
            left == u64::MAX - self.stamps(),
    {
        u64::MAX - self.next_stamp
    }

    /// Whether `key` is held.
    pub(crate) fn has(&self, key: &K) -> (present: bool)
        requires
            self.inv(),
        ensures
            present == (self.state().lookup(*key) is Some),
    {
        proof {
            lemma_held_lookup(self.map@, self.order@, *key);
        }
        self.map.contains_key(key)
    }

    /// The value of `key`.
    pub(crate) fn peek(&self, key: &K) -> (value: Option<&V>)
        requires
            self.inv(),
        ensures
            match self.state().lookup(*key) {
                Some(held) => value == Some(&held.value),
                None => value is None,
            },
    {
        proof {
            lemma_held_lookup(self.map@, self.order@, *key);
        }
        match self.map.get(key) {
            Some(entry) => Some(&entry.value),
            None => None,
        }
    }

    pub(crate) fn remove(&mut self, key: &K) -> (present: bool)
        requires
            old(self).inv(),
        ensures
            final(self).inv(),
            final(self).stamps() == old(self).stamps(),
            final(self).tickets() == old(self).tickets(),
            final(self).state() == old(self).state().removed(*key),
            present == (old(self).state().lookup(*key) is Some),
    {
        let ghost map = self.map@;
        let ghost order = self.order@;
        proof {
            lemma_held_lookup(map, order, *key);
            state::lemma_lookup_weight(old(self).state(), *key);
        }
        match self.map.remove(key) {
            None => {
                assert(self.map@ =~= map);
                false
            },
            Some(entry) => {
                self.total_weight = self.total_weight - entry.weight as u128;
                // The queue ticket goes stale and is skipped or compacted
                // later: no scan on the delete path.
                proof {
                    lemma_held_forget(map, self.map@, order, *key);
                    state::lemma_removed_valid(old(self).state(), *key);
                    assert(self.state() =~= old(self).state().removed(*key));
                    assert forall|k: K| #[trigger] self.map@.contains_key(k) implies order.contains(
                        (k, self.map@[k].stamp),
                    ) by {
                        assert(map.contains_key(k));
                    }
                }
                true
            },
        }
    }

    pub(crate) fn fetch(&mut self, key: &K, eviction: Eviction) -> (value: Option<V>) where V: Clone
        requires
            old(self).inv(),
            eviction == Eviction::Lru ==> old(self).stamps() < u64::MAX,
        ensures
            final(self).inv(),
            final(self).stamps() == old(self).stamps() + old(self).state().read_uses(
                *key,
                eviction,
            ),
            old(self).state().reading_leaves(
                seq![*key],
                eviction,
                old(self).tickets(),
                final(self).tickets(),
            ),
            final(self).state() == old(self).state().read(*key, eviction),
            match old(self).state().lookup(*key) {
                Some(held) => value matches Some(v) && cloned(held.value, v),
                None => value is None,
            },
    {
        proof {
            old(self).state().lemma_one_read_uses(*key, eviction);
        }
        if let Eviction::Lru = eviction {
            if self.has(key) {
                self.touch(key);
                proof {
                    state::lemma_lookup_touched(old(self).state(), *key, *key);
                }
            }
        }
        match self.peek(key) {
            Some(value) => Some(value.clone()),
            None => None,
        }
    }

    pub(crate) fn fetch_batch(&mut self, keys: &[K], eviction: Eviction) -> (values: Vec<
        Option<V>,
    >) where V: Clone
        requires
            old(self).inv(),
            eviction == Eviction::Lru ==> old(self).stamps() + keys@.len() <= u64::MAX,
        ensures
            final(self).inv(),
            final(self).stamps() == old(self).stamps() + old(self).state().read_all_uses(
                keys@,
                eviction,
            ),
            old(self).state().reading_leaves(
                keys@,
                eviction,
                old(self).tickets(),
                final(self).tickets(),
            ),
            final(self).state() == old(self).state().read_all(keys@, eviction),
            values@.len() == keys@.len(),
            forall|i: int|
                0 <= i < keys@.len() ==> match old(self).state().lookup(keys@[i]) {
                    Some(held) => #[trigger] values@[i] matches Some(v) && cloned(held.value, v),
                    None => values@[i] is None,
                },
    {
        let ghost start = self.state();
        let mut values: Vec<Option<V>> = Vec::new();
        let mut i: usize = 0;
        assert(keys@.take(0) =~= Seq::<K>::empty());
        while i < keys.len()
            invariant
                i <= keys@.len(),
                self.inv(),
                self.stamps() == old(self).stamps() + start.read_all_uses(
                    keys@.take(i as int),
                    eviction,
                ),
                0 <= start.read_all_uses(keys@.take(i as int), eviction) <= i,
                start.reading_leaves(
                    keys@.take(i as int),
                    eviction,
                    old(self).tickets(),
                    self.tickets(),
                ),
                self.state().entries.len() == start.entries.len(),
                eviction == Eviction::Lru ==> old(self).stamps() + keys@.len() <= u64::MAX,
                self.state() == start.read_all(keys@.take(i as int), eviction),
                values@.len() == i,
                forall|key: K| #[trigger] self.state().lookup(key) == start.lookup(key),
                forall|j: int|
                    0 <= j < i ==> match start.lookup(keys@[j]) {
                        Some(held) => #[trigger] values@[j] matches Some(v) && cloned(
                            held.value,
                            v,
                        ),
                        None => values@[j] is None,
                    },
            decreases keys@.len() - i,
        {
            let ghost before = self.state();
            let value = self.fetch(&keys[i], eviction);
            proof {
                assert(keys@.take(i + 1).drop_last() =~= keys@.take(i as int));
                before.lemma_one_read_uses(keys@[i as int], eviction);
                state::lemma_touched_len(before, keys@[i as int]);
                assert(before.lookup(keys@[i as int]) == start.lookup(keys@[i as int]));
                assert forall|key: K| #[trigger] self.state().lookup(key) == start.lookup(key) by {
                    state::lemma_lookup_touched(before, keys@[i as int], key);
                    assert(before.lookup(key) == start.lookup(key));
                }
            }
            values.push(value);
            i = i + 1;
        }
        assert(keys@.take(i as int) =~= keys@);
        values
    }

    pub(crate) fn insert_batch(
        &mut self,
        entries: Vec<(K, V, usize)>,
        limits: Limits,
        eviction: Eviction,
    ) -> (displaced: Displaced<K, V>)
        requires
            old(self).inv(),
            old(self).stamps() + entries@.len() <= u64::MAX,
            old(self).state().within(limits),
            limits.bytes is None ==> forall|i: int|
                0 <= i < entries@.len() ==> (#[trigger] entries@[i]).2 == 0,
        ensures
            final(self).inv(),
            final(self).stamps() == old(self).stamps() + entries@.len(),
            final(self).state() == old(self).state().inserted_all(
                weighed(entries@),
                limits,
                eviction,
            ),
            displaced@ == old(self).state().displaced_all(weighed(entries@), limits, eviction),
            old(self).state().writing_leaves(
                weighed(entries@),
                limits,
                eviction,
                old(self).tickets(),
                final(self).tickets(),
            ),
    {
        let ghost start = self.state();
        let ghost items = weighed(entries@);
        let mut displaced: Displaced<K, V> = Vec::new();
        assert(items.take(0) =~= Seq::<Held<K, V>>::empty());
        for entry in iter: entries
            invariant
                self.inv(),
                iter.seq() == entries@,
                items == weighed(entries@),
                self.stamps() == old(self).stamps() + iter.index(),
                old(self).stamps() + entries@.len() <= u64::MAX,
                self.state().within(limits),
                limits.bytes is None ==> forall|i: int|
                    0 <= i < entries@.len() ==> (#[trigger] entries@[i]).2 == 0,
                self.state() == start.inserted_all(items.take(iter.index() as int), limits, eviction),
                displaced@ == start.displaced_all(items.take(iter.index() as int), limits, eviction),
                start.writing_leaves(
                    items.take(iter.index() as int),
                    limits,
                    eviction,
                    old(self).tickets(),
                    self.tickets(),
                ),
        {
            let (key, value, weight) = entry;
            proof {
                let i = iter.index() as int;
                assert(items.take(i + 1).drop_last() =~= items.take(i));
                assert(items[i] == Held { key, value, weight: weight as int });
                assert(entries@[i] == (key, value, weight));
                state::lemma_inserted_within(self.state(), items[i], limits, eviction);
            }
            let mut more = self.insert(key, value, weight, limits, eviction);
            displaced.append(&mut more);
        }
        assert(items.take(items.len() as int) =~= items);
        displaced
    }

    pub(crate) fn remove_batch(&mut self, keys: &[K]) -> (flags: Vec<bool>)
        requires
            old(self).inv(),
        ensures
            final(self).inv(),
            final(self).stamps() == old(self).stamps(),
            final(self).tickets() == old(self).tickets(),
            final(self).state() == old(self).state().removed_all(keys@),
            flags@.len() == keys@.len(),
            forall|i: int|
                0 <= i < keys@.len() ==> #[trigger] flags@[i] == (old(self).state().removed_all(
                    keys@.take(i),
                ).lookup(keys@[i]) is Some),
    {
        let ghost start = self.state();
        let mut flags: Vec<bool> = Vec::new();
        let mut i: usize = 0;
        assert(keys@.take(0) =~= Seq::<K>::empty());
        while i < keys.len()
            invariant
                i <= keys@.len(),
                self.inv(),
                self.stamps() == old(self).stamps(),
                self.tickets() == old(self).tickets(),
                self.state() == start.removed_all(keys@.take(i as int)),
                flags@.len() == i,
                forall|j: int|
                    0 <= j < i ==> #[trigger] flags@[j] == (start.removed_all(keys@.take(j)).lookup(
                        keys@[j],
                    ) is Some),
            decreases keys@.len() - i,
        {
            let present = self.remove(&keys[i]);
            proof {
                assert(keys@.take(i + 1).drop_last() =~= keys@.take(i as int));
            }
            flags.push(present);
            i = i + 1;
        }
        assert(keys@.take(i as int) =~= keys@);
        flags
    }

    /// One page of live keys in ticket order (insertion order under FIFO,
    /// least-recently-used-first under LRU), that is, in eviction order.
    pub(crate) fn page(&self, cursor: Option<usize>, limit: usize) -> (page: Page<K, usize>)
        requires
            self.inv(),
        ensures
            ({
                let keys = state::keys_of(self.state().entries);
                let offset = if let Some(offset) = cursor {
                    offset as int
                } else {
                    0
                };
                &&& page.keys@ == state::paged(keys, offset, limit as int)
                &&& page.next is Some <==> limit > 0 && offset + limit < keys.len()
                &&& page.next matches Some(next) ==> next == offset + limit
            }),
    {
        let offset = match cursor {
            Some(offset) => offset,
            None => 0,
        };
        let ghost map = self.map@;
        let ghost order = self.order@;
        let mut keys: Vec<K> = Vec::new();
        let mut seen: usize = 0;
        let mut i: usize = 0;
        assert(order.take(0) =~= Seq::<(K, u64)>::empty());
        assert(keys@ =~= state::paged(
            state::keys_of(held(map, order.take(0))),
            offset as int,
            limit as int,
        ));
        while i < self.order.len()
            invariant
                self.inv(),
                map == self.map@,
                order == self.order@,
                i <= order.len(),
                seen <= i,
                seen == held(map, order.take(i as int)).len(),
                keys@ == state::paged(
                    state::keys_of(held(map, order.take(i as int))),
                    offset as int,
                    limit as int,
                ),
            decreases order.len() - i,
        {
            let ticket = &self.order[i];
            let ghost before = state::keys_of(held(map, order.take(i as int)));
            let ghost after = state::keys_of(held(map, order.take(i + 1)));
            let ghost shown = keys@;
            assert(order.take(i + 1).drop_last() =~= order.take(i as int));
            if self.is_live(ticket) {
                assert(after =~= before.push(ticket.0));
                if seen >= offset && keys.len() < limit {
                    keys.push(copy_key(&ticket.0));
                    assert(state::paged(after, offset as int, limit as int) =~= shown.push(
                        ticket.0,
                    ));
                } else {
                    assert(state::paged(after, offset as int, limit as int) =~= shown);
                }
                seen = seen + 1;
            }
            i = i + 1;
        }
        assert(order.take(i as int) =~= order);
        let end = offset.saturating_add(keys.len());
        let next = if limit > 0 && end < seen {
            Some(end)
        } else {
            None
        };
        Page { keys, next }
    }
}

} // verus!
