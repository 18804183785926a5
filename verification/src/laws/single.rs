//! A batch of one entry is a single write.
use vstd::prelude::*;

use crate::laws::eviction;
use crate::laws::readback;
use crate::laws::readback::WriteRun;
use crate::laws::readback_many;
use crate::laws::readback_many::BatchRun;
use crate::laws::world;
use crate::memory::state::{Held, Limits, MemoryState};
use crate::policy::Eviction;
use crate::rollover::Reply;
use crate::write::{WriteLog, WriteMove};

verus! {

/// How a tier in some state answers, and the state it is then in.
#[verifier::reject_recursive_types(S)]
#[verifier::reject_recursive_types(K)]
#[verifier::reject_recursive_types(V)]
pub struct Behaviour<S, K, V, E> {
    /// A write of one entry: what it displaces.
    pub put: spec_fn(S, K, V) -> (Result<Seq<(K, V)>, E>, S),
    /// A write of entries in turn: what it displaces.
    pub put_many: spec_fn(S, Seq<(K, V)>) -> (Result<Seq<(K, V)>, E>, S),
    /// A delete of one key: whether it was there.
    pub delete: spec_fn(S, K) -> (Result<bool, E>, S),
    /// A delete of keys in turn: whether they were there.
    pub delete_many: spec_fn(S, Seq<K>) -> (Result<Seq<bool>, E>, S),
}

impl<S, K, V, E> Behaviour<S, K, V, E> {
    /// Whether the tier treats a batch of one like the single call.
    pub open spec fn treats_one_alike(self) -> bool {
        &&& forall|state: S, key: K, value: V| #[trigger]
            (self.put)(state, key, value) == (self.put_many)(state, seq![(key, value)])
        &&& forall|state: S, key: K|
            (#[trigger] (self.delete)(state, key)).1 == (self.delete_many)(state, seq![key]).1 && (
            match (self.delete)(state, key).0 {
                Ok(present) => (self.delete_many)(state, seq![key]).0 == Ok::<Seq<bool>, E>(
                    seq![present],
                ),
                Err(source) => (self.delete_many)(state, seq![key]).0 == Err::<Seq<bool>, E>(
                    source,
                ),
            })
    }
}

/// The answer to a delete, without whether the key was there.
pub open spec fn done<A, E>(result: Result<A, E>) -> Result<(), E> {
    match result {
        Ok(_) => Ok(()),
        Err(source) => Err(source),
    }
}

/// How the tiers `tiers`, in the states `stack`, serve the request `step` of
/// a write of `entries`, by batched calls or by single ones.
pub open spec fn served<S, K, V, E>(
    tiers: Seq<Behaviour<S, K, V, E>>,
    batched: bool,
    entries: Seq<(K, V)>,
    step: WriteMove<K, V, E>,
    stack: Seq<S>,
) -> (Reply<K, V, E>, Seq<S>) {
    match step {
        WriteMove::Put { tier } => {
            let (result, after) = if batched {
                (tiers[tier].put_many)(stack[tier], entries)
            } else {
                (tiers[tier].put)(stack[tier], entries[0].0, entries[0].1)
            };
            (Reply::Put(result), stack.update(tier, after))
        },
        WriteMove::Demote { tier, key, value } => {
            let (result, after) = (tiers[tier].put)(stack[tier], key, value);
            (Reply::Put(result), stack.update(tier, after))
        },
        WriteMove::Delete { tier } => {
            if batched {
                let (result, after) = (tiers[tier].delete_many)(stack[tier], world::keys(entries));
                (Reply::Deleted(done(result)), stack.update(tier, after))
            } else {
                let (result, after) = (tiers[tier].delete)(stack[tier], entries[0].0);
                (Reply::Deleted(done(result)), stack.update(tier, after))
            }
        },
        WriteMove::Done(_) => (Reply::Put(Ok(Seq::empty())), stack),
    }
}

/// A write, with the states of all tiers before every request and at the end.
pub struct Drive<S, K, V, E> {
    /// What was asked and answered.
    pub log: WriteLog<K, V, E>,
    /// The states.
    pub stacks: Seq<Seq<S>>,
}

impl<S, K, V, E> Drive<S, K, V, E> {
    /// Whether every request was served by `tiers`.
    pub open spec fn follows(self, tiers: Seq<Behaviour<S, K, V, E>>, batched: bool) -> bool {
        &&& self.stacks.len() == self.log.replies.len() + 1
        &&& forall|i: int|
            0 <= i < self.log.replies.len() ==> {
                &&& !(#[trigger] self.log.asked()[i] is Done)
                &&& (self.log.replies[i], self.stacks[i + 1]) == served(
                    tiers,
                    batched,
                    self.log.entries,
                    self.log.asked()[i],
                    self.stacks[i],
                )
            }
    }
}

/// Up to any point that both reached, the two have gone the same way.
proof fn lemma_same_way<S, K, V, E>(
    tiers: Seq<Behaviour<S, K, V, E>>,
    single: Drive<S, K, V, E>,
    batch: Drive<S, K, V, E>,
    upto: int,
)
    requires
        forall|t: int| 0 <= t < tiers.len() ==> (#[trigger] tiers[t]).treats_one_alike(),
        tiers.len() == single.log.route.lanes.len(),
        single.log.entries.len() == 1,
        batch.log.entries == single.log.entries,
        batch.log.route == single.log.route,
        batch.stacks[0] == single.stacks[0],
        single.follows(tiers, false),
        batch.follows(tiers, true),
        0 <= upto <= single.log.replies.len(),
        upto <= batch.log.replies.len(),
    ensures
        single.log.replies.take(upto) == batch.log.replies.take(upto),
        forall|i: int| 0 <= i <= upto ==> #[trigger] single.stacks[i] == batch.stacks[i],
    decreases upto,
{
    if upto == 0 {
        assert(single.log.replies.take(0) =~= batch.log.replies.take(0));
    } else {
        let last = upto - 1;
        lemma_same_way(tiers, single, batch, last);
        assert(single.log.prefix(last) =~= batch.log.prefix(last));
        let step = single.log.asked()[last];
        assert(batch.log.asked()[last] == step);
        assert(single.stacks[last] == batch.stacks[last]);
        let entry = single.log.entries[0];
        let stack = single.stacks[last];
        assert(single.log.entries =~= seq![entry]);
        assert(world::keys(single.log.entries) =~= seq![entry.0]);
        crate::laws::write::law_writes_spare_read_only_tiers(single.log.prefix(last));
        match step {
            WriteMove::Put { tier } => {
                assert(tiers[tier].treats_one_alike());
                assert((tiers[tier].put)(stack[tier], entry.0, entry.1) == (tiers[tier].put_many)(
                    stack[tier],
                    seq![(entry.0, entry.1)],
                ));
                assert(seq![(entry.0, entry.1)] =~= single.log.entries);
            },
            WriteMove::Delete { tier } => {
                assert(tiers[tier].treats_one_alike());
                assert((tiers[tier].delete)(stack[tier], entry.0).1 == (tiers[tier].delete_many)(
                    stack[tier],
                    seq![entry.0],
                ).1);
            },
            _ => {},
        }
        assert(single.log.replies[last] == batch.log.replies[last]);
        assert(single.log.replies.take(upto) =~= batch.log.replies.take(upto)) by {
            assert forall|i: int| 0 <= i < upto implies single.log.replies.take(upto)[i]
                == batch.log.replies.take(upto)[i] by {
                if i < last {
                    assert(single.log.replies.take(last)[i] == batch.log.replies.take(last)[i]);
                }
            }
        }
    }
}

/// A batched write of one entry is the single write of it. If every tier
/// treats a batch of one like the single call, the two ask for the same, are
/// answered the same, and leave every tier in the same state; so result and
/// counters, which follow from what was asked and answered, are the same too.
pub proof fn law_batch_of_one_is_a_single_write<S, K, V, E>(
    tiers: Seq<Behaviour<S, K, V, E>>,
    single: Drive<S, K, V, E>,
    batch: Drive<S, K, V, E>,
)
    requires
        forall|t: int| 0 <= t < tiers.len() ==> (#[trigger] tiers[t]).treats_one_alike(),
        tiers.len() == single.log.route.lanes.len(),
        single.log.entries.len() == 1,
        batch.log.entries == single.log.entries,
        batch.log.route == single.log.route,
        batch.stacks[0] == single.stacks[0],
        single.follows(tiers, false),
        batch.follows(tiers, true),
        single.log.step() is Done,
        batch.log.step() is Done,
    ensures
        batch.log == single.log,
        batch.log.step() == single.log.step(),
        batch.stacks == single.stacks,
{
    let a = single.log.replies.len() as int;
    let b = batch.log.replies.len() as int;
    let upto = if a <= b {
        a
    } else {
        b
    };
    lemma_same_way(tiers, single, batch, upto);
    assert(single.log.replies.take(a) =~= single.log.replies);
    assert(batch.log.replies.take(b) =~= batch.log.replies);
    if a < b {
        assert(batch.log.prefix(a) =~= single.log);
        assert(!(batch.log.asked()[a] is Done));
    } else if b < a {
        assert(single.log.prefix(b) =~= batch.log);
        assert(!(single.log.asked()[b] is Done));
    }
    assert(batch.log =~= single.log);
    assert(batch.stacks =~= single.stacks) by {
        assert forall|i: int| 0 <= i <= a implies single.stacks[i] == batch.stacks[i] by {}
    }
}

/// Memory tiers treat a batch of one like the single call.
pub proof fn law_memory_tier_treats_one_alike<K, V>(
    state: MemoryState<K, V>,
    held: Held<K, V>,
    limits: Limits,
    eviction: Eviction,
)
    ensures
        state.inserted_all(seq![held], limits, eviction) == state.inserted(held, limits, eviction),
        state.displaced_all(seq![held], limits, eviction) == state.displaced(
            held,
            limits,
            eviction,
        ),
        state.removed_all(seq![held.key]) == state.removed(held.key),
        state.read_all(seq![held.key], eviction) == state.read(held.key, eviction),
{
    let items = seq![held];
    let keys = seq![held.key];
    assert(items.drop_last() =~= Seq::<Held<K, V>>::empty());
    assert(keys.drop_last() =~= Seq::<K>::empty());
    assert(state.inserted_all(items.drop_last(), limits, eviction) == state);
    assert(state.displaced_all(items.drop_last(), limits, eviction) =~= Seq::<(K, V)>::empty());
    assert(state.displaced_all(items, limits, eviction) =~= state.displaced(
        held,
        limits,
        eviction,
    ));
    assert(state.removed_all(keys.drop_last()) == state);
    assert(state.read_all(keys.drop_last(), eviction) == state);
}

/// Over honest tiers, single calls and batched calls of one entry are the
/// same: what holds of the one run holds of the other.
pub proof fn law_honest_tiers_treat_one_alike<K, V, E>(run: WriteRun<K, V, E>)
    requires
        run.log.entries.len() == 1,
    ensures
        run.honest() <==> (BatchRun { log: run.log, worlds: run.worlds }).honest(),
{
    let entries = run.log.entries;
    let entry = entries[0];
    assert(entries =~= seq![entry]);
    assert forall|step: WriteMove<K, V, E>, reply: Reply<K, V, E>, before: Seq<Map<K, V>>, after: Seq<
        Map<K, V>,
    >| #[trigger]
        readback::answers(entry, step, reply, before, after) == readback_many::answers(
            entries,
            step,
            reply,
            before,
            after,
        ) by {
        match (step, reply) {
            (WriteMove::Put { tier }, Reply::Put(Ok(displaced))) => {
                eviction::lemma_one_is_a_batch(before[tier], entry, displaced, after[tier]);
            },
            (WriteMove::Delete { tier }, Reply::Deleted(Ok(_))) => {
                let keys = world::keys(entries).to_set();
                assert forall|key: K| #[trigger] keys.contains(key) <==> key == entry.0 by {
                    assert(world::keys(entries)[0] == entry.0);
                }
                assert(before[tier].remove_keys(keys) =~= before[tier].remove(entry.0));
            },
            _ => {},
        }
    }
    let batch = BatchRun { log: run.log, worlds: run.worlds };
    if run.honest() {
        assert forall|i: int| 0 <= i < batch.log.replies.len() implies readback_many::answers(
            entries,
            #[trigger] batch.log.asked()[i],
            batch.log.replies[i],
            batch.worlds[i],
            batch.worlds[i + 1],
        ) by {
            assert(readback::answers(
                entry,
                run.log.asked()[i],
                run.log.replies[i],
                run.worlds[i],
                run.worlds[i + 1],
            ));
        }
    }
    if batch.honest() {
        assert forall|i: int| 0 <= i < run.log.replies.len() implies readback::answers(
            entry,
            #[trigger] run.log.asked()[i],
            run.log.replies[i],
            run.worlds[i],
            run.worlds[i + 1],
        ) by {
            assert(readback_many::answers(
                entries,
                batch.log.asked()[i],
                batch.log.replies[i],
                batch.worlds[i],
                batch.worlds[i + 1],
            ));
        }
    }
}

} // verus!
