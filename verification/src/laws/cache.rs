//! What holds of cache reads.
use vstd::prelude::*;

use crate::cache::{LoadLog, LoadReply, LoadStep, LookupLog, LookupReply, LookupStep};

verus! {

/// A coalesced lookup holds the key's lock for exactly the time of its read,
/// promotions included, and gives it back; without coalescing it never takes
/// the lock. Either way the read happens once, and its result is the
/// lookup's.
pub proof fn law_lookup_holds_the_lock_around_its_read<K, V, E>(log: LookupLog<K, V, E>)
    requires
        log.sound(),
    ensures
        match log.step() {
            LookupStep::Acquire => log.coalesced && log.replies.len() == 0,
            LookupStep::Read => log.replies == if log.coalesced {
                seq![LookupReply::<V, E>::Acquired]
            } else {
                Seq::empty()
            },
            LookupStep::Release => log.coalesced && log.replies.len() == 2 && log.replies[0]
                is Acquired && log.replies[1] is Read,
            LookupStep::Done(result) => log.replies == if log.coalesced {
                seq![
                    LookupReply::<V, E>::Acquired,
                    LookupReply::Read(result),
                    LookupReply::Released,
                ]
            } else {
                seq![LookupReply::Read(result)]
            },
        },
{
    let replies = log.replies;
    if replies.len() > 0 {
        assert(log.prefix(0).step().fits(replies[0]));
    }
    if replies.len() > 1 {
        assert(replies.take(1)[0] == replies[0]);
        assert(log.prefix(1).step().fits(replies[1]));
    }
    if replies.len() > 2 {
        assert(replies.take(2)[0] == replies[0]);
        assert(replies.take(2)[1] == replies[1]);
        assert(log.prefix(2).step().fits(replies[2]));
    }
    if replies.len() > 3 {
        assert(replies.take(3)[0] == replies[0]);
        assert(replies.take(3)[1] == replies[1]);
        assert(log.prefix(3).step().fits(replies[3]));
    }
    match log.step() {
        LookupStep::Read => {
            if log.coalesced {
                assert(replies =~= seq![LookupReply::<V, E>::Acquired]);
            } else {
                assert(replies =~= Seq::empty());
            }
        },
        LookupStep::Done(result) => {
            if log.coalesced {
                assert(replies =~= seq![
                    LookupReply::<V, E>::Acquired,
                    LookupReply::Read(result),
                    LookupReply::Released,
                ]);
            } else {
                assert(replies =~= seq![LookupReply::Read(result)]);
            }
        },
        _ => {},
    }
}

/// Whether the answers are those of a read-through with a loader: which
/// answer can follow which.
pub(crate) open spec fn shaped<K, V, E, L>(log: LoadLog<K, V, E, L>) -> bool {
    let r = log.replies;
    let n = r.len();
    let lead = if log.coalesced {
        3int
    } else {
        1
    };
    &&& n > 0 ==> r[0] is Probed
    &&& n > 0 && r[0].hit() is Some ==> n == 1
    &&& log.coalesced && n > 1 ==> r[1] is Acquired
    &&& log.coalesced && n > 2 ==> r[2] is Probed
    &&& log.coalesced && n > 2 && r[2].hit() is Some ==> n <= 4 && (n > 3 ==> r[3] is Released)
    &&& n > lead && !(log.coalesced && r[2].hit() is Some) ==> {
        &&& r[lead] is Loaded
        &&& r[lead].loaded() matches Some(Ok(_)) ==> {
            &&& n > lead + 1 ==> r[lead + 1] is Filled
            &&& log.coalesced ==> n <= 6 && (n > 5 ==> r[5] is Released)
            &&& !log.coalesced ==> n <= 3
        }
        &&& r[lead].loaded() matches Some(Err(_)) ==> {
            &&& log.coalesced ==> n <= 5 && (n > 4 ==> r[4] is Released)
            &&& !log.coalesced ==> n <= 2
        }
    }
}

proof fn lemma_prefix<K, V, E, L>(log: LoadLog<K, V, E, L>, count: int)
    requires
        log.sound(),
        0 <= count < log.replies.len(),
    ensures
        log.prefix(count).step().fits(log.replies[count]),
        log.prefix(count).replies.len() == count,
        forall|i: int|
            0 <= i < count ==> #[trigger] log.prefix(count).replies[i] == log.replies[i],
        log.coalesced && count >= 3 ==> forall|i: int|
            0 <= i < count - 3 ==> #[trigger] log.prefix(count).replies.skip(3)[i] == log.replies[i
                + 3],
        count >= 1 ==> forall|i: int|
            0 <= i < count - 1 ==> #[trigger] log.prefix(count).replies.skip(1)[i] == log.replies[i
                + 1],
{
}

pub(crate) proof fn lemma_shaped<K, V, E, L>(log: LoadLog<K, V, E, L>)
    requires
        log.sound(),
    ensures
        shaped(log),
{
    let r = log.replies;
    let n = r.len() as int;
    if n > 0 {
        lemma_prefix(log, 0);
    }
    if n > 1 {
        lemma_prefix(log, 1);
    }
    if n > 2 {
        lemma_prefix(log, 2);
    }
    if n > 3 {
        lemma_prefix(log, 3);
    }
    if n > 4 {
        lemma_prefix(log, 4);
    }
    if n > 5 {
        lemma_prefix(log, 5);
    }
    if n > 6 {
        lemma_prefix(log, 6);
    }
}

/// How many of the answers are loader results.
pub open spec fn loads<V, E, L>(replies: Seq<LoadReply<V, E, L>>) -> int
    decreases replies.len(),
{
    if replies.len() == 0 {
        0
    } else {
        loads(replies.drop_last()) + if replies.last() is Loaded {
            1int
        } else {
            0
        }
    }
}

/// Whether the lock is held after some answers.
pub open spec fn lock_held<V, E, L>(replies: Seq<LoadReply<V, E, L>>) -> bool
    decreases replies.len(),
{
    if replies.len() == 0 {
        false
    } else {
        match replies.last() {
            LoadReply::Acquired => true,
            LoadReply::Released => false,
            _ => lock_held(replies.drop_last()),
        }
    }
}

proof fn lemma_counts<K, V, E, L>(log: LoadLog<K, V, E, L>)
    requires
        shaped(log),
        log.replies.len() <= 6,
    ensures
        loads(log.replies) <= 1,
        lock_held(log.replies) <==> log.coalesced && log.replies.len() >= 2 && !(
        log.replies.last() is Released),
{
    reveal_with_fuel(loads, 7);
    reveal_with_fuel(lock_held, 7);
}

/// A read-through runs its loader at most once, and only while it holds the
/// key's lock if loads are coalesced. The lock is never held when the read
/// ends, and never taken without coalescing.
pub proof fn law_load_runs_once_under_the_lock<K, V, E, L>(log: LoadLog<K, V, E, L>)
    requires
        log.sound(),
    ensures
        loads(log.replies) <= 1,
        match log.step() {
            LoadStep::Load => loads(log.replies) == 0 && lock_held(log.replies) == log.coalesced,
            LoadStep::Fill => lock_held(log.replies) == log.coalesced,
            LoadStep::Acquire => log.coalesced && !lock_held(log.replies),
            LoadStep::Release => lock_held(log.replies),
            LoadStep::Done(_) => !lock_held(log.replies),
            LoadStep::Probe => true,
        },
{
    lemma_shaped(log);
    lemma_counts(log);
    if log.step() is Load {
        reveal_with_fuel(loads, 7);
    }
}

/// What a read-through returns: the value of the first probe that found one,
/// or else exactly what the loader returned. A value is only offered to the
/// tiers if the loader returned it, so loader errors are never cached, and a
/// failed probe counts as a miss.
pub proof fn law_load_returns_hit_or_loaded<K, V, E, L>(log: LoadLog<K, V, E, L>)
    requires
        log.sound(),
    ensures
        match log.step() {
            LoadStep::Done(result) => {
                ||| exists|i: int|
                    0 <= i < log.replies.len() && (#[trigger] log.replies[i].hit() matches Some(
                        value,
                    ) && result == Ok::<V, L>(value))
                ||| exists|i: int|
                    0 <= i < log.replies.len() && #[trigger] log.replies[i].loaded() == Some(result)
                        && forall|j: int|
                        0 <= j < log.replies.len() ==> #[trigger] log.replies[j].hit() is None
            },
            LoadStep::Fill => log.replies.last().loaded() matches Some(Ok(value)) && log.value()
                == Some(value),
            LoadStep::Load => forall|j: int|
                0 <= j < log.replies.len() ==> #[trigger] log.replies[j].hit() is None,
            _ => true,
        },
{
    lemma_shaped(log);
    let r = log.replies;
    let n = r.len() as int;
    let lead = if log.coalesced {
        3int
    } else {
        1
    };
    if log.coalesced && n >= 3 {
        assert forall|i: int| 0 <= i < n - 3 implies #[trigger] r.skip(3)[i] == r[i + 3] by {}
    }
    if n >= 1 {
        assert forall|i: int| 0 <= i < n - 1 implies #[trigger] r.skip(1)[i] == r[i + 1] by {}
    }
    match log.step() {
        LoadStep::Done(result) => {
            if let Some(value) = r[0].hit() {
                assert(r[0].hit() == Some(value));
            } else if log.coalesced && r[2].hit() is Some {
                assert(r[2].hit() is Some);
            } else {
                assert(r[lead].loaded() == Some(result));
            }
        },
        _ => {},
    }
}

} // verus!
