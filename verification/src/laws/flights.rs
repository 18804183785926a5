//! Single-flight: what coalescing achieves for many callers at once.
//!
//! Any number of flows for one key share one lock. Their answers come in one
//! at a time, in any order that the lock allows.
use vstd::prelude::*;

use crate::cache::{LoadLog, LoadReply, LoadStep};
use crate::laws::cache;
use crate::laws::history;

verus! {

/// Whether a load holds the lock.
pub open spec fn holds<K, V, E, L>(log: LoadLog<K, V, E, L>) -> bool {
    log.replies.len() >= 2 && !(log.replies.last() is Released)
}

/// Whether a load has filled the tiers.
pub open spec fn filled<K, V, E, L>(log: LoadLog<K, V, E, L>) -> bool {
    log.replies.len() >= 5 && log.replies[4] is Filled
}

/// Whether one of the loads may be answered `reply` next.
///
/// The lock is given only when nobody holds it. Loaders return values. A
/// probe finds no value but the one that was loaded; and once the tiers were
/// filled, a probe under the lock finds that value.
pub open spec fn may_answer<K, V, E, L>(
    loads: Seq<LoadLog<K, V, E, L>>,
    who: int,
    reply: LoadReply<V, E, L>,
) -> bool {
    &&& 0 <= who < loads.len()
    &&& loads[who].step().fits(reply)
    &&& match reply {
        LoadReply::Acquired => forall|i: int|
            0 <= i < loads.len() ==> !holds(#[trigger] loads[i]),
        LoadReply::Loaded(result) => result is Ok,
        LoadReply::Probed(_) => {
            &&& reply.hit() matches Some(value) ==> exists|i: int|
                0 <= i < loads.len() && (#[trigger] loads[i]).value() == Some(value)
            &&& holds(loads[who]) && (exists|i: int|
                0 <= i < loads.len() && #[trigger] filled(loads[i])) ==> reply.hit() is Some
        },
        _ => true,
    }
}

/// Any number of coalesced loads of one key: the logs of all of them at the
/// start and after every answer.
pub struct LoadParty<K, V, E, L> {
    /// The logs.
    pub states: Seq<Seq<LoadLog<K, V, E, L>>>,
    /// Who was answered what.
    pub turns: Seq<(int, LoadReply<V, E, L>)>,
}

impl<K, V, E, L> LoadParty<K, V, E, L> {
    /// Whether everyone starts afresh, and every answer is one that may come.
    pub open spec fn goes_by_the_lock(self, key: K) -> bool {
        &&& self.states.len() == self.turns.len() + 1
        &&& forall|i: int|
            0 <= i < self.states[0].len() ==> #[trigger] self.states[0][i]
                == LoadLog::<K, V, E, L>::begin(key, true)
        &&& forall|t: int|
            0 <= t < self.turns.len() ==> {
                let (who, reply) = #[trigger] self.turns[t];
                &&& may_answer(self.states[t], who, reply)
                &&& self.states[t + 1] == self.states[t].update(
                    who,
                    self.states[t][who].answered(reply),
                )
            }
    }
}

/// What holds of all loads together at any time.
pub(crate) open spec fn orderly<K, V, E, L>(loads: Seq<LoadLog<K, V, E, L>>) -> bool {
    &&& forall|i: int|
        0 <= i < loads.len() ==> (#[trigger] loads[i]).sound() && loads[i].coalesced
    &&& forall|i: int, j: int|
        0 <= i < loads.len() && 0 <= j < loads.len() && #[trigger] holds(loads[i])
            && #[trigger] holds(loads[j]) ==> i == j
    // One loader ran, and while its result is not in the tiers it holds the
    // lock.
    &&& forall|i: int, j: int|
        0 <= i < loads.len() && 0 <= j < loads.len() && (#[trigger] loads[i]).value() is Some && (
        #[trigger] loads[j]).value() is Some ==> i == j
    &&& forall|i: int|
        0 <= i < loads.len() && (#[trigger] loads[i]).value() is Some ==> holds(loads[i]) || filled(
            loads[i],
        )
    // Who is about to load has the lock, and nobody has loaded yet.
    &&& forall|i: int, j: int|
        0 <= i < loads.len() && 0 <= j < loads.len() && #[trigger] about_to_load(loads[i])
            ==> (#[trigger] loads[j]).value() is None
    // What was found is what was loaded.
    &&& forall|i: int, k: int|
        0 <= i < loads.len() && 0 <= k < loads[i].replies.len() ==> (
        #[trigger] loads[i].replies[k].hit() matches Some(value) ==> exists|j: int|
            0 <= j < loads.len() && (#[trigger] loads[j]).value() == Some(value))
    &&& forall|i: int, k: int|
        0 <= i < loads.len() && 0 <= k < loads[i].replies.len() ==> (
        #[trigger] loads[i].replies[k].loaded() matches Some(result) ==> result is Ok)
}

pub(crate) open spec fn about_to_load<K, V, E, L>(log: LoadLog<K, V, E, L>) -> bool {
    log.replies.len() == 3 && log.replies[2].hit() is None
}

pub(crate) proof fn lemma_orderly<K, V, E, L>(
    before: Seq<LoadLog<K, V, E, L>>,
    who: int,
    reply: LoadReply<V, E, L>,
)
    requires
        orderly(before),
        may_answer(before, who, reply),
    ensures
        orderly(before.update(who, before[who].answered(reply))),
{
    let old = before[who];
    let new = old.answered(reply);
    let after = before.update(who, new);
    history::law_load_logs_are_sound(old.key, old.coalesced, old, reply);
    cache::lemma_shaped(old);
    cache::lemma_shaped(new);
    assert(new.replies.last() == reply);
    let n = old.replies.len() as int;
    assert(forall|k: int| 0 <= k < n ==> #[trigger] new.replies[k] == old.replies[k]);
    assert(n > 0 ==> old.replies.last() == old.replies[n - 1]);
    assert(new.replies[n] == reply);
    // Values stay known.
    assert(old.value() is Some ==> new.value() == old.value());
    assert(new.value() is Some && old.value() is None ==> n == 3 && about_to_load(old));
    assert forall|i: int, j: int|
        0 <= i < after.len() && 0 <= j < after.len() && #[trigger] holds(after[i])
            && #[trigger] holds(after[j]) implies i == j by {
        if i != j {
            if i == who {
                assert(holds(before[j]));
                if !holds(old) {
                    assert(reply is Acquired);
                }
            } else if j == who {
                assert(holds(before[i]));
                if !holds(old) {
                    assert(reply is Acquired);
                }
            } else {
                assert(holds(before[i]) && holds(before[j]));
            }
        }
    }
    assert forall|i: int, j: int|
        0 <= i < after.len() && 0 <= j < after.len() && (#[trigger] after[i]).value() is Some && (
        #[trigger] after[j]).value() is Some implies i == j by {
        if i != j {
            if i == who {
                assert(before[j].value() is Some);
                if old.value() is None {
                    assert(about_to_load(before[who]));
                }
            } else if j == who {
                assert(before[i].value() is Some);
                if old.value() is None {
                    assert(about_to_load(before[who]));
                }
            } else {
                assert(before[i].value() is Some && before[j].value() is Some);
            }
        }
    }
    assert forall|i: int| 0 <= i < after.len() && (#[trigger] after[i]).value() is Some implies holds(
        after[i],
    ) || filled(after[i]) by {
        if i == who {
            if old.value() is Some {
                assert(holds(before[who]) || filled(before[who]));
            }
        } else {
            assert(before[i].value() is Some);
        }
    }
    assert forall|i: int, j: int|
        0 <= i < after.len() && 0 <= j < after.len() && #[trigger] about_to_load(
            after[i],
        ) implies (#[trigger] after[j]).value() is None by {
        if i == who {
            // It has just found nothing under the lock, so nobody filled the
            // tiers, and nobody else can hold the lock.
            assert(holds(old));
            if after[j].value() is Some {
                assert(j != who);
                assert(before[j].value() is Some);
                assert(holds(before[j]) || filled(before[j]));
                assert(holds(before[who]));
                assert(false);
            }
        } else {
            assert(about_to_load(before[i]));
            assert(before[j].value() is None);
            if j == who && after[j].value() is Some {
                lemma_waits_under_lock(before[i]);
                lemma_waits_under_lock(before[who]);
                assert(about_to_load(before[who]));
                assert(holds(before[i]) && holds(before[who]));
                assert(false);
            }
        }
    }
    assert forall|i: int, k: int|
        0 <= i < after.len() && 0 <= k < after[i].replies.len() implies (
    #[trigger] after[i].replies[k].hit() matches Some(value) ==> exists|j: int|
        0 <= j < after.len() && (#[trigger] after[j]).value() == Some(value)) by {
        if let Some(value) = after[i].replies[k].hit() {
            if i == who && k == n {
                assert(reply.hit() == Some(value));
            } else {
                assert(before[i].replies[k].hit() == Some(value));
            }
            let j = choose|j: int| 0 <= j < before.len() && (#[trigger] before[j]).value() == Some(
                value,
            );
            assert(after[j].value() == Some(value));
        }
    }
    assert forall|i: int, k: int|
        0 <= i < after.len() && 0 <= k < after[i].replies.len() implies (
    #[trigger] after[i].replies[k].loaded() matches Some(result) ==> result is Ok) by {
        if !(i == who && k == n) {
            assert(before[i].replies[k].loaded() == after[i].replies[k].loaded());
        }
    }
}

/// Who is about to load holds the lock.
proof fn lemma_waits_under_lock<K, V, E, L>(log: LoadLog<K, V, E, L>)
    requires
        log.sound(),
        log.coalesced,
        about_to_load(log),
    ensures
        holds(log),
{
    cache::lemma_shaped(log);
}

proof fn lemma_always_orderly<K, V, E, L>(party: LoadParty<K, V, E, L>, key: K, at: int)
    requires
        party.goes_by_the_lock(key),
        0 <= at < party.states.len(),
    ensures
        orderly(party.states[at]),
        party.states[at].len() == party.states[0].len(),
    decreases at,
{
    if at > 0 {
        lemma_always_orderly(party, key, at - 1);
        let (who, reply) = party.turns[at - 1];
        lemma_orderly(party.states[at - 1], who, reply);
    } else {
        let loads = party.states[0];
        assert forall|i: int| 0 <= i < loads.len() implies (#[trigger] loads[i]).replies.len() == 0
            && loads[i].coalesced by {
            assert(loads[i] == LoadLog::<K, V, E, L>::begin(key, true));
        }
    }
}

/// Concurrent misses for one key share a single load. However the answers to
/// any number of loads are interleaved, one loader runs at most, in all of
/// them together; whoever is done returns the value that it loaded; and if
/// anyone is done, it has run.
pub proof fn law_concurrent_loads_share_one_loader<K, V, E, L>(
    party: LoadParty<K, V, E, L>,
    key: K,
)
    requires
        party.goes_by_the_lock(key),
    ensures
        ({
            let loads = party.states.last();
            &&& forall|i: int, j: int|
                0 <= i < loads.len() && 0 <= j < loads.len() && cache::loads(
                    #[trigger] loads[i].replies,
                ) > 0 && cache::loads(#[trigger] loads[j].replies) > 0 ==> i == j
            &&& forall|i: int|
                0 <= i < loads.len() ==> cache::loads(#[trigger] loads[i].replies) <= 1
            &&& forall|i: int|
                0 <= i < loads.len() ==> ((#[trigger] loads[i]).step() matches LoadStep::Done(
                    result,
                ) ==> exists|j: int|
                    0 <= j < loads.len() && result == Ok::<V, L>((#[trigger] loads[j]).value()->0)
                        && loads[j].value() is Some)
        }),
{
    let loads = party.states.last();
    lemma_always_orderly(party, key, party.states.len() - 1);
    assert forall|i: int| 0 <= i < loads.len() implies cache::loads(
        #[trigger] loads[i].replies,
    ) <= 1 && (cache::loads(loads[i].replies) > 0 ==> loads[i].value() is Some) by {
        assert(loads[i].sound());
        cache::law_load_runs_once_under_the_lock(loads[i]);
        if cache::loads(loads[i].replies) > 0 {
            lemma_loaded(loads, i);
        }
    }
    assert forall|i: int| 0 <= i < loads.len() implies ((
    #[trigger] loads[i]).step() matches LoadStep::Done(result) ==> exists|j: int|
        0 <= j < loads.len() && result == Ok::<V, L>((#[trigger] loads[j]).value()->0)
            && loads[j].value() is Some) by {
        let log = loads[i];
        assert(log.sound());
        if let LoadStep::Done(result) = log.step() {
            cache::lemma_shaped(log);
            let r = log.replies;
            let n = r.len() as int;
            if n >= 3 {
                assert forall|k: int| 0 <= k < n - 3 implies #[trigger] r.skip(3)[k] == r[k + 3] by {}
            }
            if let Some(value) = r[0].hit() {
                assert(loads[i].replies[0].hit() == Some(value));
            } else if let Some(value) = r[2].hit() {
                assert(loads[i].replies[2].hit() == Some(value));
            } else {
                assert(loads[i].replies[3].loaded() == Some(result));
                assert(log.value() == Some(result->Ok_0));
            }
        }
    }
}

/// A load whose loader ran has its value.
proof fn lemma_loaded<K, V, E, L>(loads: Seq<LoadLog<K, V, E, L>>, i: int)
    requires
        orderly(loads),
        0 <= i < loads.len(),
        cache::loads(loads[i].replies) > 0,
    ensures
        loads[i].value() is Some,
{
    let log = loads[i];
    let r = log.replies;
    assert(log.sound());
    cache::lemma_shaped(log);
    reveal_with_fuel(cache::loads, 7);
    if r.len() > 3 {
        assert(loads[i].replies[3].loaded() matches Some(result) ==> result is Ok);
    }
}

} // verus!
