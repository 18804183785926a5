//! Reading many keys through the hierarchy at once.
//!
//! Each lower tier is probed only with the keys still missing, and every key
//! gets a status of its own. [`ReadManyFlow`] carries the read out one tier
//! call at a time; what it asks for next is a function of the answers it was
//! given so far, [`ReadManyLog::step`].
use vstd::prelude::*;

use crate::error;
use crate::error::{Failure, RouterError, TierFailure, Trouble};
use crate::policy::OnReadError;
use crate::report::{KeyStatus, ReadReport};
use crate::rollover;
use crate::rollover::{Reply, Rolled, Rolling, Rollover};
use crate::router;
use crate::router::{Count, Counters, Route, Router};
use crate::tier::{Displaced, Tier};

verus! {

/// What a batched read asks of the driver, as contracts speak of it.
#[verifier::ext_equal]
pub enum ReadManyMove<K, V, E> {
    /// Read the keys at positions `pending` from `tier`.
    GetMany {
        /// The tier to read.
        tier: int,
        /// Positions of the keys to read, in the order of the request.
        pending: Seq<int>,
    },
    /// Write the entries that were found for the keys at positions `hits`
    /// into `tier`.
    Promote {
        /// The tier to write.
        tier: int,
        /// Positions of the keys to write.
        hits: Seq<int>,
    },
    /// Write a displaced entry into `tier`.
    Demote {
        /// The tier to write.
        tier: int,
        /// The entry's key.
        key: K,
        /// The entry's value.
        value: V,
    },
    /// The read is over: one status per key and the tier failures.
    Done(Result<(Seq<KeyStatus<V>>, Seq<Failure<E>>), Trouble<E>>),
}

impl<K, V, E> ReadManyMove<K, V, E> {
    /// Whether `reply` can be the answer to this request: a tier that is
    /// asked for keys answers with one value per key, or fails.
    pub open spec fn fits(self, reply: Reply<K, V, E>) -> bool {
        match self {
            ReadManyMove::GetMany { pending, .. } => reply matches Reply::GotMany(result) && (
            result matches Ok(found) ==> found.len() == pending.len()),
            ReadManyMove::Promote { .. } => reply is Put,
            ReadManyMove::Demote { .. } => reply is Put,
            ReadManyMove::Done(_) => false,
        }
    }
}

/// What a batched read asks of the driver.
#[derive(Debug)]
pub enum ReadManyStep<K, V, E> {
    /// Read the keys at positions `pending` (see [`ReadManyFlow::keys_at`])
    /// from `tier` and report with [`ReadManyFlow::on_get_many`].
    GetMany {
        /// The tier to read.
        tier: usize,
        /// Positions of the keys to read, in the order of the request.
        pending: Vec<usize>,
    },
    /// Write the entries at positions `hits` (see
    /// [`ReadManyFlow::entries_at`]) into `tier` and report with
    /// [`ReadManyFlow::on_put`].
    Promote {
        /// The tier to write.
        tier: usize,
        /// Positions of the keys to write.
        hits: Vec<usize>,
    },
    /// Write this displaced entry into `tier` and report with
    /// [`ReadManyFlow::on_put`].
    Demote {
        /// The tier to write.
        tier: usize,
        /// The entry's key.
        key: K,
        /// The entry's value.
        value: V,
    },
    /// The read is over.
    Done(Result<ReadReport<V, E>, RouterError<E>>),
}

/// Positions as contracts speak of them.
pub open spec fn positions(indices: Seq<usize>) -> Seq<int> {
    indices.map_values(|index: usize| index as int)
}

impl<K, V, E> View for ReadManyStep<K, V, E> {
    type V = ReadManyMove<K, V, E>;

    open spec fn view(&self) -> ReadManyMove<K, V, E> {
        match *self {
            ReadManyStep::GetMany { tier, pending } => ReadManyMove::GetMany {
                tier: tier as int,
                pending: positions(pending@),
            },
            ReadManyStep::Promote { tier, hits } => ReadManyMove::Promote {
                tier: tier as int,
                hits: positions(hits@),
            },
            ReadManyStep::Demote { tier, key, value } => ReadManyMove::Demote {
                tier: tier as int,
                key,
                value,
            },
            ReadManyStep::Done(Ok(report)) => ReadManyMove::Done(
                Ok((report.statuses@, error::failures_of(report.failures@))),
            ),
            ReadManyStep::Done(Err(error)) => ReadManyMove::Done(Err(error@)),
        }
    }
}

/// The answer to a batched read as contracts speak of it.
pub open spec fn many_reply<K, V, E>(reply: Result<Vec<Option<V>>, E>) -> Reply<K, V, E> {
    match reply {
        Ok(found) => Reply::GotMany(Ok(found@)),
        Err(source) => Reply::GotMany(Err(source)),
    }
}

/// How many of the values were found.
pub open spec fn found_count<V>(found: Seq<Option<V>>) -> int
    decreases found.len(),
{
    if found.len() == 0 {
        0
    } else {
        found_count(found.drop_last()) + if found.last() is Some {
            1int
        } else {
            0
        }
    }
}

/// How many of the pending positions the answer `found` speaks of.
pub open spec fn paired<V>(pending: Seq<int>, found: Seq<Option<V>>) -> int {
    if pending.len() <= found.len() {
        pending.len() as int
    } else {
        found.len() as int
    }
}

/// The statuses once the first `upto` pending positions learned what `tier`
/// found for them.
pub open spec fn resolved<V>(
    statuses: Seq<KeyStatus<V>>,
    pending: Seq<int>,
    tier: int,
    found: Seq<Option<V>>,
    upto: int,
) -> Seq<KeyStatus<V>>
    decreases upto,
{
    if upto <= 0 {
        statuses
    } else {
        let before = resolved(statuses, pending, tier, found, upto - 1);
        match found[upto - 1] {
            Some(value) => before.update(
                pending[upto - 1],
                KeyStatus::Hit { tier: tier as usize, value },
            ),
            None => before,
        }
    }
}

/// The positions, among the first `upto` pending ones, that stay missing.
pub open spec fn missing<V>(pending: Seq<int>, found: Seq<Option<V>>, upto: int) -> Seq<int>
    decreases upto,
{
    if upto <= 0 {
        Seq::empty()
    } else {
        let before = missing(pending, found, upto - 1);
        match found[upto - 1] {
            Some(_) => before,
            None => before.push(pending[upto - 1]),
        }
    }
}

/// The final statuses when `pending` were left unresolved: absence is
/// confirmed unless some tier failed.
pub open spec fn settled<V, E>(
    statuses: Seq<KeyStatus<V>>,
    pending: Seq<int>,
    failures: Seq<Failure<E>>,
) -> Seq<KeyStatus<V>> {
    if failures.len() == 0 {
        statuses
    } else {
        Seq::new(
            statuses.len(),
            |i: int|
                if pending.contains(i) {
                    KeyStatus::Inconclusive
                } else {
                    statuses[i]
                },
        )
    }
}

/// The positions, among the first `upto`, that `tier` served.
pub open spec fn served<V>(statuses: Seq<KeyStatus<V>>, tier: int, upto: int) -> Seq<int>
    decreases upto,
{
    if upto <= 0 {
        Seq::empty()
    } else if statuses[upto - 1].served_by(tier) {
        served(statuses, tier, upto - 1).push(upto - 1)
    } else {
        served(statuses, tier, upto - 1)
    }
}

/// Where the probing of a batched read stands once some tier calls were
/// answered.
#[verifier::ext_equal]
pub enum Probed<K, V, E> {
    /// `tier` has to be probed next.
    Ask {
        /// The tier to probe.
        tier: int,
        /// Positions of the keys to ask for.
        pending: Seq<int>,
    },
    /// A tier failed and the policy aborts on the first failure.
    Failed(Trouble<E>),
    /// Every key has its final status.
    Resolved {
        /// One status per key.
        statuses: Seq<KeyStatus<V>>,
        /// The tiers that failed.
        failures: Seq<Failure<E>>,
        /// Answers the probing did not consume.
        rest: Seq<Reply<K, V, E>>,
    },
}

/// Probing from `tier` down for the keys at positions `pending`.
pub open spec fn probe_many<K, V, E>(
    route: Route,
    tier: int,
    statuses: Seq<KeyStatus<V>>,
    pending: Seq<int>,
    failures: Seq<Failure<E>>,
    replies: Seq<Reply<K, V, E>>,
) -> Probed<K, V, E>
    decreases route.lanes.len() - tier,
{
    if tier >= route.lanes.len() || pending.len() == 0 {
        Probed::Resolved {
            statuses: settled(statuses, pending, failures),
            failures,
            rest: replies,
        }
    } else if replies.len() == 0 {
        Probed::Ask { tier, pending }
    } else {
        match replies[0] {
            Reply::GotMany(Ok(found)) => probe_many(
                route,
                tier + 1,
                resolved(statuses, pending, tier, found, paired(pending, found)),
                missing(pending, found, paired(pending, found)),
                failures,
                replies.skip(1),
            ),
            Reply::GotMany(Err(source)) => match route.policy.read.on_error {
                OnReadError::FailFast => Probed::Failed(
                    Trouble::Tier(route.failure(tier, source)),
                ),
                OnReadError::FallThrough => probe_many(
                    route,
                    tier + 1,
                    statuses,
                    pending,
                    failures.push(route.failure(tier, source)),
                    replies.skip(1),
                ),
            },
            _ => Probed::Ask { tier, pending },
        }
    }
}

/// Batched promotion: what tier `from` served is copied into the writable
/// tiers from `target` up to the policy's reach, then the tiers below `from`
/// follow. Failed copies are skipped, and what a copy displaces sinks.
pub open spec fn promote_many<K, V, E>(
    route: Route,
    statuses: Seq<KeyStatus<V>>,
    failures: Seq<Failure<E>>,
    from: int,
    target: int,
    replies: Seq<Reply<K, V, E>>,
) -> ReadManyMove<K, V, E>
    decreases
            route.lanes.len() - from,
            route.policy.read.promote.reach(from) - target,
            0int,
{
    let hits = served(statuses, from, statuses.len() as int);
    if from >= route.lanes.len() {
        ReadManyMove::Done(Ok((statuses, failures)))
    } else if target >= route.policy.read.promote.reach(from) || hits.len() == 0 {
        promote_many(route, statuses, failures, from + 1, 0, replies)
    } else if !route.writable(target) {
        promote_many(route, statuses, failures, from, target + 1, replies)
    } else if replies.len() == 0 {
        ReadManyMove::Promote { tier: target, hits }
    } else {
        match replies[0] {
            Reply::Put(Ok(displaced)) => if route.policy.demote_displaced {
                roll_many(
                    route,
                    statuses,
                    failures,
                    from,
                    target + 1,
                    rollover::sink(route, target + 1, displaced, replies.skip(1)),
                )
            } else {
                promote_many(route, statuses, failures, from, target + 1, replies.skip(1))
            },
            Reply::Put(Err(_)) => promote_many(
                route,
                statuses,
                failures,
                from,
                target + 1,
                replies.skip(1),
            ),
            _ => ReadManyMove::Promote { tier: target, hits },
        }
    }
}

/// Batched promotion while displaced entries sink: `rolled` says where that
/// stands, and the copies into the tiers from `target` on come afterwards.
pub open spec fn roll_many<K, V, E>(
    route: Route,
    statuses: Seq<KeyStatus<V>>,
    failures: Seq<Failure<E>>,
    from: int,
    target: int,
    rolled: Rolled<K, V, E>,
) -> ReadManyMove<K, V, E>
    decreases
            route.lanes.len() - from,
            route.policy.read.promote.reach(from) - target,
            1int,
{
    match rolled {
        Rolled::Ask { tier, key, value } => ReadManyMove::Demote { tier, key, value },
        Rolled::Settled { rest, .. } => promote_many(
            route,
            statuses,
            failures,
            from,
            target,
            rest,
        ),
    }
}

/// What a batched read asks for once its probing stands at `probed`.
pub open spec fn after_probing<K, V, E>(route: Route, probed: Probed<K, V, E>) -> ReadManyMove<
    K,
    V,
    E,
> {
    match probed {
        Probed::Ask { tier, pending } => ReadManyMove::GetMany { tier, pending },
        Probed::Failed(trouble) => ReadManyMove::Done(Err(trouble)),
        Probed::Resolved { statuses, failures, rest } => promote_many(
            route,
            statuses,
            failures,
            1,
            0,
            rest,
        ),
    }
}

/// Everything a batched read has learned: the answers to its calls, in
/// order.
#[verifier::ext_equal]
pub struct ReadManyLog<K, V, E> {
    /// The hierarchy and its policy.
    pub route: Route,
    /// The requested keys.
    pub keys: Seq<K>,
    /// The answers so far.
    pub replies: Seq<Reply<K, V, E>>,
}

impl<K, V, E> ReadManyLog<K, V, E> {
    /// The log of a batched read that was only just requested.
    pub open spec fn begin(route: Route, keys: Seq<K>) -> Self {
        ReadManyLog { route, keys, replies: Seq::empty() }
    }

    /// Where the probing stands.
    pub open spec fn probed(self) -> Probed<K, V, E> {
        probe_many(
            self.route,
            0,
            Seq::new(self.keys.len(), |i: int| KeyStatus::Miss),
            Seq::new(self.keys.len(), |i: int| i),
            Seq::empty(),
            self.replies,
        )
    }

    /// The status of every key, once all are known.
    pub open spec fn statuses(self) -> Option<Seq<KeyStatus<V>>> {
        match self.probed() {
            Probed::Resolved { statuses, .. } => Some(statuses),
            _ => None,
        }
    }

    /// What the read asks for next.
    pub open spec fn step(self) -> ReadManyMove<K, V, E> {
        after_probing(self.route, self.probed())
    }

    /// The log after one more answer.
    pub open spec fn answered(self, reply: Reply<K, V, E>) -> Self {
        ReadManyLog { replies: self.replies.push(reply), ..self }
    }

    /// The log after more answers.
    pub open spec fn extended(self, replies: Seq<Reply<K, V, E>>) -> Self {
        ReadManyLog { replies: self.replies + replies, ..self }
    }

    /// The log when only the first `count` answers had come in.
    pub open spec fn prefix(self, count: int) -> Self {
        ReadManyLog { replies: self.replies.take(count), ..self }
    }

    /// What the read asked for, one request per answer.
    pub open spec fn asked(self) -> Seq<ReadManyMove<K, V, E>> {
        Seq::new(self.replies.len(), |i: int| self.prefix(i).step())
    }

    /// Whether every answer is one to what was asked for.
    pub open spec fn sound(self) -> bool {
        forall|i: int|
            0 <= i < self.replies.len() ==> (#[trigger] self.asked()[i]).fits(self.replies[i])
    }

    /// How the answer `reply` to the pending call is counted.
    pub open spec fn tally(self, counters: Seq<Counters>, reply: Reply<K, V, E>) -> Seq<Counters> {
        match (self.step(), reply) {
            (ReadManyMove::GetMany { tier, pending }, Reply::GotMany(Ok(found))) => router::tallied(
                router::tallied(counters, tier, Count::Hits, found_count(found)),
                tier,
                Count::Misses,
                pending.len() - found_count(found),
            ),
            (ReadManyMove::Promote { tier, hits }, Reply::Put(Ok(_))) => router::tallied(
                counters,
                tier,
                Count::Puts,
                hits.len() as int,
            ),
            (ReadManyMove::Demote { tier, .. }, Reply::Put(Ok(_))) => router::tallied(
                counters,
                tier,
                Count::Puts,
                1,
            ),
            (ReadManyMove::GetMany { tier, .. }, _) => router::tallied(
                counters,
                tier,
                Count::Errors,
                1,
            ),
            (ReadManyMove::Promote { tier, .. }, _) => router::tallied(
                counters,
                tier,
                Count::Errors,
                1,
            ),
            (ReadManyMove::Demote { tier, .. }, _) => router::tallied(
                counters,
                tier,
                Count::Errors,
                1,
            ),
            _ => counters,
        }
    }
}

/// What a batched read waits for.
enum ReadManyPhase<K, V, E> {
    Probing {
        tier: usize,
        statuses: Vec<KeyStatus<V>>,
        pending: Vec<usize>,
        failures: Vec<TierFailure<E>>,
    },
    Promoting {
        statuses: Vec<KeyStatus<V>>,
        failures: Vec<TierFailure<E>>,
        from: usize,
        target: usize,
        count: usize,
    },
    Rolling {
        statuses: Vec<KeyStatus<V>>,
        failures: Vec<TierFailure<E>>,
        from: usize,
        target: usize,
        rollover: Rollover<K, V>,
    },
    Finished,
}

/// Whether every position lies within `len`.
pub open spec fn within(indices: Seq<int>, len: int) -> bool {
    forall|i: int| 0 <= i < indices.len() ==> 0 <= #[trigger] indices[i] < len
}

spec fn statuses_in<K, V, E>(probed: Probed<K, V, E>) -> Option<Seq<KeyStatus<V>>> {
    match probed {
        Probed::Resolved { statuses, .. } => Some(statuses),
        _ => None,
    }
}

impl<K, V, E> ReadManyPhase<K, V, E> {
    spec fn play(self, route: Route, replies: Seq<Reply<K, V, E>>) -> ReadManyMove<K, V, E> {
        match self {
            ReadManyPhase::Probing { tier, statuses, pending, failures } => after_probing(
                route,
                probe_many(
                    route,
                    tier as int,
                    statuses@,
                    positions(pending@),
                    error::failures_of(failures@),
                    replies,
                ),
            ),
            ReadManyPhase::Promoting { statuses, failures, from, target, .. } => promote_many(
                route,
                statuses@,
                error::failures_of(failures@),
                from as int,
                target as int,
                replies,
            ),
            ReadManyPhase::Rolling { statuses, failures, from, target, rollover } => roll_many(
                route,
                statuses@,
                error::failures_of(failures@),
                from as int,
                target as int,
                rollover.continues(route, replies),
            ),
            ReadManyPhase::Finished => arbitrary(),
        }
    }

    /// The statuses that will be known once `replies` came in.
    spec fn known(self, route: Route, replies: Seq<Reply<K, V, E>>) -> Option<Seq<KeyStatus<V>>> {
        match self {
            ReadManyPhase::Probing { tier, statuses, pending, failures } => statuses_in(
                probe_many(
                    route,
                    tier as int,
                    statuses@,
                    positions(pending@),
                    error::failures_of(failures@),
                    replies,
                ),
            ),
            ReadManyPhase::Promoting { statuses, .. } => Some(statuses@),
            ReadManyPhase::Rolling { statuses, .. } => Some(statuses@),
            ReadManyPhase::Finished => arbitrary(),
        }
    }

    spec fn awaits(self, route: Route, keys: int, step: ReadManyMove<K, V, E>) -> bool {
        match self {
            ReadManyPhase::Probing { tier, statuses, pending, .. } => {
                &&& tier < route.lanes.len()
                &&& pending@.len() > 0
                &&& statuses@.len() == keys
                &&& within(positions(pending@), keys)
                &&& step == ReadManyMove::<K, V, E>::GetMany {
                    tier: tier as int,
                    pending: positions(pending@),
                }
            },
            ReadManyPhase::Promoting { statuses, from, target, count, .. } => {
                let hits = served(statuses@, from as int, statuses@.len() as int);
                &&& statuses@.len() == keys
                &&& from < route.lanes.len()
                &&& target < route.policy.read.promote.reach(from as int)
                &&& route.writable(target as int)
                &&& count == hits.len() > 0
                &&& step == ReadManyMove::<K, V, E>::Promote { tier: target as int, hits }
            },
            ReadManyPhase::Rolling { statuses, from, target, rollover, .. } => {
                &&& statuses@.len() == keys
                &&& from < route.lanes.len()
                &&& target <= route.lanes.len()
                &&& route.writable(rollover.target())
                &&& step matches ReadManyMove::Demote { tier, .. } && tier == rollover.target()
            },
            ReadManyPhase::Finished => step is Done,
        }
    }
}

/// The next step of a batched read together with what it then waits for.
struct ReadManyNext<K, V, E> {
    phase: ReadManyPhase<K, V, E>,
    step: ReadManyStep<K, V, E>,
}

/// `served` lists exactly the positions that `tier` served, ascending.
pub proof fn lemma_served<V>(statuses: Seq<KeyStatus<V>>, tier: int, upto: int)
    requires
        0 <= upto <= statuses.len(),
    ensures
        forall|k: int|
            0 <= k < served(statuses, tier, upto).len() ==> {
                &&& 0 <= #[trigger] served(statuses, tier, upto)[k] < upto
                &&& statuses[served(statuses, tier, upto)[k]].served_by(tier)
            },
        forall|i: int|
            0 <= i < upto && (#[trigger] statuses[i]).served_by(tier) ==> served(
                statuses,
                tier,
                upto,
            ).contains(i),
        forall|j: int, k: int|
            0 <= j < k < served(statuses, tier, upto).len() ==> served(statuses, tier, upto)[j]
                < served(statuses, tier, upto)[k],
    decreases upto,
{
    if upto > 0 {
        lemma_served(statuses, tier, upto - 1);
        let before = served(statuses, tier, upto - 1);
        let all = served(statuses, tier, upto);
        assert forall|i: int|
            0 <= i < upto && (#[trigger] statuses[i]).served_by(tier) implies all.contains(i) by {
            if i < upto - 1 {
                let k = choose|k: int| 0 <= k < before.len() && before[k] == i;
                assert(all[k] == i);
            } else {
                assert(all[before.len() as int] == i);
            }
        }
    }
}

/// The positions that `tier` served, in request order.
fn hits_of<V>(statuses: &Vec<KeyStatus<V>>, tier: usize) -> (hits: Vec<usize>)
    ensures
        positions(hits@) == served(statuses@, tier as int, statuses@.len() as int),
{
    let mut hits: Vec<usize> = Vec::new();
    let mut i: usize = 0;
    assert(positions(hits@) =~= Seq::<int>::empty());
    while i < statuses.len()
        invariant
            i <= statuses@.len(),
            positions(hits@) == served(statuses@, tier as int, i as int),
        decreases statuses@.len() - i,
    {
        if let KeyStatus::Hit { tier: hit, .. } = &statuses[i] {
            if *hit == tier {
                let ghost before = hits@;
                hits.push(i);
                assert(positions(hits@) =~= positions(before).push(i as int));
            }
        }
        i = i + 1;
    }
    hits
}

/// Marks the pending positions as inconclusive.
fn doubt<V>(statuses: &mut Vec<KeyStatus<V>>, pending: &Vec<usize>)
    requires
        within(positions(pending@), old(statuses)@.len() as int),
    ensures
        final(statuses)@.len() == old(statuses)@.len(),
        forall|i: int|
            0 <= i < old(statuses)@.len() ==> #[trigger] final(statuses)@[i] == if positions(
                pending@,
            ).contains(i) {
                KeyStatus::Inconclusive
            } else {
                old(statuses)@[i]
            },
{
    let ghost before = statuses@;
    let ghost indices = positions(pending@);
    let mut p: usize = 0;
    while p < pending.len()
        invariant
            p <= pending@.len() == indices.len(),
            indices == positions(pending@),
            within(indices, before.len() as int),
            statuses@.len() == before.len(),
            forall|i: int|
                0 <= i < before.len() ==> #[trigger] statuses@[i] == if indices.take(
                    p as int,
                ).contains(i) {
                    KeyStatus::Inconclusive
                } else {
                    before[i]
                },
        decreases pending@.len() - p,
    {
        let index = pending[p];
        let ghost earlier = statuses@;
        assert(indices[p as int] == index);
        statuses[index] = KeyStatus::Inconclusive;
        proof {
            let done = indices.take(p as int);
            let more = indices.take(p + 1);
            assert(more =~= done.push(index as int));
            assert forall|i: int| 0 <= i < before.len() implies #[trigger] statuses@[i]
                == if more.contains(i) {
                KeyStatus::Inconclusive
            } else {
                before[i]
            } by {
                if i == index {
                    assert(more[p as int] == i);
                } else {
                    if done.contains(i) {
                        let k = choose|k: int| 0 <= k < done.len() && done[k] == i;
                        assert(more[k] == i);
                    }
                    if more.contains(i) {
                        let k = choose|k: int| 0 <= k < more.len() && more[k] == i;
                        assert(done[k] == i);
                    }
                    assert(statuses@[i] == earlier[i]);
                }
            }
        }
        p = p + 1;
    }
    assert(indices.take(p as int) =~= indices);
}

impl<K, V, E> ReadManyNext<K, V, E> {
    spec fn play(self, route: Route, replies: Seq<Reply<K, V, E>>) -> ReadManyMove<K, V, E> {
        if replies.len() == 0 || self.phase is Finished {
            self.step@
        } else {
            self.phase.play(route, replies)
        }
    }

    spec fn inv(self, route: Route, keys: int) -> bool {
        self.phase.awaits(route, keys, self.step@)
    }

    fn done(result: Result<ReadReport<V, E>, RouterError<E>>) -> (next: Self)
        ensures
            next.phase is Finished,
            next.step == ReadManyStep::<K, V, E>::Done(result),
    {
        ReadManyNext { phase: ReadManyPhase::Finished, step: ReadManyStep::Done(result) }
    }

    /// Goes on promoting.
    fn promote<T: Tier<Key = K, Value = V, Error = E>>(
        router: &Router<T>,
        statuses: Vec<KeyStatus<V>>,
        failures: Vec<TierFailure<E>>,
        first: usize,
        start: usize,
    ) -> (next: Self)
        requires
            start <= router.route().lanes.len(),
        ensures
            next.inv(router.route(), statuses@.len() as int),
            !(next.phase is Finished) ==> forall|s: Seq<Reply<K, V, E>>| #[trigger]
                next.phase.known(router.route(), s) == Some(statuses@),
            forall|s: Seq<Reply<K, V, E>>| #[trigger]
                promote_many(
                    router.route(),
                    statuses@,
                    error::failures_of(failures@),
                    first as int,
                    start as int,
                    s,
                ) == next.play(router.route(), s),
    {
        let ghost route = router.route();
        let ghost failed = error::failures_of(failures@);
        let count = router.tier_count();
        let policy = router.policy();
        let mut from: usize = first;
        let mut target: usize = start;
        while from < count
            invariant
                count == route.lanes.len(),
                route == router.route(),
                policy == route.policy,
                failed == error::failures_of(failures@),
                target <= count,
                forall|s: Seq<Reply<K, V, E>>| #[trigger]
                    promote_many(route, statuses@, failed, first as int, start as int, s)
                        == promote_many(
                        route,
                        statuses@,
                        failed,
                        from as int,
                        target as int,
                        s,
                    ),
            decreases count - from, policy.read.promote.reach(from as int) - target,
        {
            let reach = policy.read.promote.targets(from);
            if target >= reach {
                from = from + 1;
                target = 0;
            } else {
                let hits = hits_of(&statuses, from);
                if hits.is_empty() {
                    from = from + 1;
                    target = 0;
                } else if router.is_writable(target) {
                    return ReadManyNext {
                        phase: ReadManyPhase::Promoting {
                            statuses,
                            failures,
                            from,
                            target,
                            count: hits.len(),
                        },
                        step: ReadManyStep::Promote { tier: target, hits },
                    };
                } else {
                    target = target + 1;
                }
            }
        }
        Self::done(Ok(ReadReport { statuses, failures }))
    }

    fn roll<T: Tier<Key = K, Value = V, Error = E>>(
        router: &Router<T>,
        statuses: Vec<KeyStatus<V>>,
        failures: Vec<TierFailure<E>>,
        from: usize,
        target: usize,
        rolling: Rolling<K, V>,
    ) -> (next: Self)
        requires
            from < router.route().lanes.len(),
            target <= router.route().lanes.len(),
            rolling.inv(router.route()),
        ensures
            next.inv(router.route(), statuses@.len() as int),
            !(next.phase is Finished) ==> forall|s: Seq<Reply<K, V, E>>| #[trigger]
                next.phase.known(router.route(), s) == Some(statuses@),
            forall|s: Seq<Reply<K, V, E>>|
                roll_many(
                    router.route(),
                    statuses@,
                    error::failures_of(failures@),
                    from as int,
                    target as int,
                    #[trigger] rolling.play(router.route(), s),
                ) == next.play(router.route(), s),
    {
        let ghost route = router.route();
        let ghost failed = error::failures_of(failures@);
        match rolling {
            Rolling::Ask { tier, key, value, rollover } => {
                let next = ReadManyNext {
                    phase: ReadManyPhase::Rolling { statuses, failures, from, target, rollover },
                    step: ReadManyStep::Demote { tier, key, value },
                };
                assert forall|s: Seq<Reply<K, V, E>>|
                    roll_many(
                        route,
                        statuses@,
                        failed,
                        from as int,
                        target as int,
                        #[trigger] rolling.play(route, s),
                    ) == next.play(route, s) by {}
                next
            },
            Rolling::Settled(fallen) => {
                let next = Self::promote(router, statuses, failures, from, target);
                assert forall|s: Seq<Reply<K, V, E>>|
                    roll_many(
                        route,
                        statuses@,
                        failed,
                        from as int,
                        target as int,
                        #[trigger] rolling.play(route, s),
                    ) == next.play(route, s) by {
                    assert(roll_many(
                        route,
                        statuses@,
                        failed,
                        from as int,
                        target as int,
                        rolling.play(route, s),
                    ) == promote_many(
                        route,
                        statuses@,
                        failed,
                        from as int,
                        target as int,
                        s,
                    ));
                }
                next
            },
        }
    }

    /// Goes on probing.
    fn probe<T: Tier<Key = K, Value = V, Error = E>>(
        router: &Router<T>,
        tier: usize,
        statuses: Vec<KeyStatus<V>>,
        pending: Vec<usize>,
        failures: Vec<TierFailure<E>>,
    ) -> (next: Self)
        requires
            within(positions(pending@), statuses@.len() as int),
        ensures
            next.inv(router.route(), statuses@.len() as int),
            forall|s: Seq<Reply<K, V, E>>| #![trigger next.play(router.route(), s)]
                after_probing(
                    router.route(),
                    probe_many(
                        router.route(),
                        tier as int,
                        statuses@,
                        positions(pending@),
                        error::failures_of(failures@),
                        s,
                    ),
                ) == next.play(router.route(), s),
            !(next.phase is Finished) ==> forall|s: Seq<Reply<K, V, E>>| #[trigger]
                next.phase.known(router.route(), s) == statuses_in(
                    probe_many(
                        router.route(),
                        tier as int,
                        statuses@,
                        positions(pending@),
                        error::failures_of(failures@),
                        s,
                    ),
                ),
    {
        let ghost route = router.route();
        let ghost failed = error::failures_of(failures@);
        let ghost before = statuses@;
        let ghost indices = positions(pending@);
        let mut statuses = statuses;
        if tier < router.tier_count() && !pending.is_empty() {
            let wanted = pending.clone();
            assert(wanted@ =~= pending@);
            return ReadManyNext {
                phase: ReadManyPhase::Probing { tier, statuses, pending, failures },
                step: ReadManyStep::GetMany { tier, pending: wanted },
            };
        }
        if !failures.is_empty() {
            doubt(&mut statuses, &pending);
        }
        assert(statuses@ =~= settled(before, indices, failed));
        let next = Self::promote(router, statuses, failures, 1, 0);
        assert forall|s: Seq<Reply<K, V, E>>| #![trigger next.play(route, s)]
            after_probing(route, probe_many(route, tier as int, before, indices, failed, s))
                == next.play(route, s) by {
            let probed = probe_many(route, tier as int, before, indices, failed, s);
            assert(probed == Probed::Resolved { statuses: statuses@, failures: failed, rest: s });
            assert(after_probing(route, probed) == promote_many(
                route,
                statuses@,
                failed,
                1,
                0,
                s,
            ));
        }
        next
    }
}

/// Records what `tier` found for the pending positions; returns the
/// positions that stay missing.
fn learn<V>(
    statuses: &mut Vec<KeyStatus<V>>,
    pending: &Vec<usize>,
    tier: usize,
    found: Vec<Option<V>>,
) -> (left: Vec<usize>)
    requires
        within(positions(pending@), old(statuses)@.len() as int),
    ensures
        final(statuses)@ == resolved(
            old(statuses)@,
            positions(pending@),
            tier as int,
            found@,
            paired(positions(pending@), found@),
        ),
        final(statuses)@.len() == old(statuses)@.len(),
        positions(left@) == missing(
            positions(pending@),
            found@,
            paired(positions(pending@), found@),
        ),
        within(positions(left@), old(statuses)@.len() as int),
{
    let ghost before = statuses@;
    let ghost indices = positions(pending@);
    let ghost values = found@;
    let ghost end = paired(indices, values);
    let mut left: Vec<usize> = Vec::new();
    let mut p: usize = 0;
    assert(positions(left@) =~= Seq::<int>::empty());
    for value in iter: found
        invariant
            indices == positions(pending@),
            within(indices, before.len() as int),
            iter.seq() == values,
            end == paired(indices, values),
            p == if iter.index() <= end {
                iter.index() as int
            } else {
                end
            },
            statuses@.len() == before.len(),
            statuses@ == resolved(before, indices, tier as int, values, p as int),
            positions(left@) == missing(indices, values, p as int),
            within(positions(left@), before.len() as int),
    {
        if p < pending.len() {
            let index = pending[p];
            assert(indices[p as int] == index);
            match value {
                Some(value) => {
                    statuses[index] = KeyStatus::Hit { tier, value };
                },
                None => {
                    let ghost earlier = left@;
                    left.push(index);
                    assert(positions(left@) =~= positions(earlier).push(index as int));
                },
            }
            p = p + 1;
        }
    }
    left
}

/// How many of the values were found.
fn count_found<V>(found: &Vec<Option<V>>) -> (count: usize)
    ensures
        count == found_count(found@),
        count <= found@.len(),
{
    let mut count: usize = 0;
    let mut i: usize = 0;
    assert(found@.take(0) =~= Seq::<Option<V>>::empty());
    while i < found.len()
        invariant
            i <= found@.len(),
            count <= i,
            count == found_count(found@.take(i as int)),
        decreases found@.len() - i,
    {
        assert(found@.take(i + 1).drop_last() =~= found@.take(i as int));
        if found[i].is_some() {
            count = count + 1;
        }
        i = i + 1;
    }
    assert(found@.take(i as int) =~= found@);
    count
}

/// One routed batched read, waiting for the answer to a tier call.
pub struct ReadManyFlow<'a, K, V, E> {
    keys: &'a [K],
    phase: ReadManyPhase<K, V, E>,
    route: Ghost<Route>,
    replies: Ghost<Seq<Reply<K, V, E>>>,
}

impl<'a, K, V, E> View for ReadManyFlow<'a, K, V, E> {
    type V = ReadManyLog<K, V, E>;

    closed spec fn view(&self) -> ReadManyLog<K, V, E> {
        ReadManyLog { route: self.route@, keys: self.keys@, replies: self.replies@ }
    }
}

impl<'a, K, V, E> ReadManyFlow<'a, K, V, E> {
    /// What every flow that [`Router::read_many`] or [`Router::read_one`]
    /// started satisfies.
    pub closed spec fn inv(&self) -> bool {
        &&& self.phase.awaits(self.route@, self.keys@.len() as int, self@.step())
        &&& !(self.phase is Finished) ==> {
            &&& forall|s: Seq<Reply<K, V, E>>|
                s.len() > 0 ==> #[trigger] self@.extended(s).step() == self.phase.play(
                    self.route@,
                    s,
                )
            &&& forall|s: Seq<Reply<K, V, E>>| #[trigger]
                self@.extended(s).statuses() == self.phase.known(self.route@, s)
        }
    }

    /// The requested keys.
    pub fn keys(&self) -> (keys: &'a [K])
        ensures
            keys@ == self@.keys,
    {
        self.keys
    }

    /// Copies of the keys at the given positions.
    pub fn keys_at(&self, indices: &Vec<usize>) -> (keys: Vec<K>) where K: Clone
        requires
            within(positions(indices@), self@.keys.len() as int),
        ensures
            keys@.len() == indices@.len(),
            forall|i: int|
                0 <= i < keys@.len() ==> cloned(self@.keys[indices@[i] as int], #[trigger] keys@[i]),
    {
        let mut keys: Vec<K> = Vec::new();
        let mut i: usize = 0;
        while i < indices.len()
            invariant
                i <= indices@.len(),
                keys@.len() == i,
                within(positions(indices@), self.keys@.len() as int),
                forall|j: int|
                    0 <= j < i ==> cloned(self.keys@[indices@[j] as int], #[trigger] keys@[j]),
            decreases indices@.len() - i,
        {
            assert(positions(indices@)[i as int] == indices@[i as int]);
            keys.push(self.keys[indices[i]].clone());
            i = i + 1;
        }
        keys
    }

    /// The value that was found for the key at `index`, while the read goes
    /// on to promote it.
    pub fn value_at(&self, index: usize) -> (value: Option<&V>)
        requires
            self.inv(),
            self@.step() is Promote,
            index < self@.keys.len(),
        ensures
            self@.statuses() matches Some(statuses) && {
                &&& value is Some <==> statuses[index as int].found() is Some
                &&& value matches Some(v) ==> statuses[index as int].found() == Some(*v)
            },
    {
        assert(self@.extended(Seq::empty()) =~= self@);
        match &self.phase {
            ReadManyPhase::Promoting { statuses, .. } => statuses[index].value(),
            _ => {
                assert(false);
                None
            },
        }
    }

    /// Copies of the entries that were found for the keys at the given
    /// positions; positions without a value are left out.
    pub fn entries_at(&self, indices: &Vec<usize>) -> (entries: Vec<(K, V)>) where
        K: Clone,
        V: Clone,

        requires
            self.inv(),
            self@.step() matches ReadManyMove::Promote { hits, .. } && hits == positions(indices@),
        ensures
            entries@.len() == indices@.len(),
            self@.statuses() matches Some(statuses) && forall|i: int|
                0 <= i < entries@.len() ==> {
                    &&& cloned(self@.keys[indices@[i] as int], (#[trigger] entries@[i]).0)
                    &&& statuses[indices@[i] as int].found() matches Some(value) && cloned(
                        value,
                        entries@[i].1,
                    )
                },
    {
        let ghost statuses = self@.statuses()->0;
        proof {
            assert(self@.extended(Seq::empty()) =~= self@);
            match &self.phase {
                ReadManyPhase::Promoting { statuses, from, .. } => {
                    lemma_served(statuses@, *from as int, statuses@.len() as int);
                },
                _ => {},
            }
        }
        let mut entries: Vec<(K, V)> = Vec::new();
        let mut i: usize = 0;
        while i < indices.len()
            invariant
                i <= indices@.len(),
                entries@.len() == i,
                self.inv(),
                self@.step() is Promote,
                self@.statuses() == Some(statuses),
                forall|j: int|
                    0 <= j < indices@.len() ==> {
                        &&& 0 <= #[trigger] positions(indices@)[j] < self.keys@.len()
                        &&& statuses[positions(indices@)[j]].found() is Some
                    },
                forall|j: int|
                    0 <= j < entries@.len() ==> {
                        &&& cloned(self.keys@[indices@[j] as int], (#[trigger] entries@[j]).0)
                        &&& statuses[indices@[j] as int].found() matches Some(value) && cloned(
                            value,
                            entries@[j].1,
                        )
                    },
            decreases indices@.len() - i,
        {
            let index = indices[i];
            assert(positions(indices@)[i as int] == index);
            match self.value_at(index) {
                Some(value) => {
                    entries.push((self.keys[index].clone(), value.clone()));
                },
                None => {
                    assert(false);
                },
            }
            i = i + 1;
        }
        entries
    }

    fn start<T: Tier<Key = K, Value = V, Error = E>>(router: &Router<T>, keys: &'a [K]) -> (started:
        (Self, ReadManyStep<K, V, E>))
        ensures
            started.0.inv(),
            started.0@ == ReadManyLog::<K, V, E>::begin(router.route(), keys@),
            started.1@ == started.0@.step(),
    {
        let ghost route = router.route();
        let ghost log = ReadManyLog::<K, V, E>::begin(route, keys@);
        let mut statuses: Vec<KeyStatus<V>> = Vec::new();
        let mut pending: Vec<usize> = Vec::new();
        let mut i: usize = 0;
        while i < keys.len()
            invariant
                i <= keys@.len(),
                statuses@.len() == i,
                pending@.len() == i,
                forall|j: int| 0 <= j < i ==> #[trigger] statuses@[j] == KeyStatus::<V>::Miss,
                forall|j: int| 0 <= j < i ==> #[trigger] pending@[j] == j,
            decreases keys@.len() - i,
        {
            statuses.push(KeyStatus::Miss);
            pending.push(i);
            i = i + 1;
        }
        let failures: Vec<TierFailure<E>> = Vec::new();
        assert(error::failures_of(failures@) =~= Seq::<Failure<E>>::empty());
        assert(statuses@ =~= Seq::new(keys@.len(), |i: int| KeyStatus::Miss));
        assert(positions(pending@) =~= Seq::new(keys@.len(), |i: int| i));
        let next = ReadManyNext::probe(router, 0, statuses, pending, failures);
        assert forall|s: Seq<Reply<K, V, E>>| #[trigger]
            log.extended(s).step() == next.play(route, s) by {
            assert(log.extended(s).replies =~= s);
        }
        assert forall|s: Seq<Reply<K, V, E>>|
            !(next.phase is Finished) implies #[trigger] log.extended(s).statuses()
            == next.phase.known(route, s) by {
            assert(log.extended(s).replies =~= s);
        }
        assert(log.extended(Seq::empty()) =~= log);
        (
            ReadManyFlow {
                keys,
                phase: next.phase,
                route: Ghost(route),
                replies: Ghost(Seq::empty()),
            },
            next.step,
        )
    }

    /// Installs what `reply` led to.
    fn advance(&mut self, Ghost(reply): Ghost<Reply<K, V, E>>, next: ReadManyNext<K, V, E>) -> (step:
        ReadManyStep<K, V, E>)
        requires
            next.inv(old(self)@.route, old(self)@.keys.len() as int),
            forall|s: Seq<Reply<K, V, E>>|
                s.len() > 0 && s[0] == reply ==> #[trigger] old(self)@.extended(s).step()
                    == next.play(old(self)@.route, s.skip(1)),
            !(next.phase is Finished) ==> forall|s: Seq<Reply<K, V, E>>|
                s.len() > 0 && s[0] == reply ==> #[trigger] old(self)@.extended(s).statuses()
                    == next.phase.known(old(self)@.route, s.skip(1)),
        ensures
            final(self).inv(),
            final(self)@ == old(self)@.answered(reply),
            step@ == final(self)@.step(),
    {
        let ghost before = self@;
        self.phase = next.phase;
        self.replies = Ghost(self.replies@.push(reply));
        proof {
            let route = self.route@;
            assert forall|s: Seq<Reply<K, V, E>>| #[trigger] self@.extended(s).step() == next.play(
                route,
                s,
            ) by {
                let all = seq![reply] + s;
                assert(all.skip(1) =~= s);
                assert(self@.extended(s) =~= before.extended(all));
            }
            assert forall|s: Seq<Reply<K, V, E>>|
                !(next.phase is Finished) implies #[trigger] self@.extended(s).statuses()
                == next.phase.known(route, s) by {
                let all = seq![reply] + s;
                assert(all.skip(1) =~= s);
                assert(self@.extended(s) =~= before.extended(all));
            }
            assert(self@.extended(Seq::empty()) =~= self@);
        }
        next.step
    }

    /// Reports how the probed tier answered; returns what to do next. A tier
    /// finds at most as many values as it was asked for.
    pub fn on_get_many<T: Tier<Key = K, Value = V, Error = E>>(
        &mut self,
        router: &mut Router<T>,
        reply: Result<Vec<Option<V>>, E>,
    ) -> (step: ReadManyStep<K, V, E>)
        requires
            old(self).inv(),
            old(self)@.route == old(router).route(),
            old(self)@.step() is GetMany,
            (old(self)@.step(), reply) matches (
                ReadManyMove::GetMany { pending, .. },
                Ok(found),
            ) ==> found_count(found@) <= pending.len(),
        ensures
            final(self).inv(),
            final(self)@ == old(self)@.answered(many_reply(reply)),
            step@ == final(self)@.step(),
            final(router).route() == old(router).route(),
            final(router).tiers() == old(router).tiers(),
            final(router).counters() == old(self)@.tally(
                old(router).counters(),
                many_reply(reply),
            ),
    {
        let ghost route = router.route();
        let ghost log = self@;
        let ghost answer = many_reply::<K, V, E>(reply);
        let mut phase = ReadManyPhase::Finished;
        core::mem::swap(&mut self.phase, &mut phase);
        let ghost waiting = phase;
        let total = router.tier_count();
        let next = match phase {
            ReadManyPhase::Probing { tier, statuses, pending, failures } => {
                let mut statuses = statuses;
                let mut failures = failures;
                let ghost before = statuses@;
                let ghost indices = positions(pending@);
                let ghost failed = error::failures_of(failures@);
                match reply {
                    Ok(found) => {
                        let ghost values = found@;
                        let count = count_found(&found);
                        router.record(tier, Count::Hits, count as u64);
                        router.record(tier, Count::Misses, (pending.len() - count) as u64);
                        let left = learn(&mut statuses, &pending, tier, found);
                        let next = ReadManyNext::probe(router, tier + 1, statuses, left, failures);
                        assert forall|s: Seq<Reply<K, V, E>>|
                            s.len() > 0 && s[0] == answer implies #[trigger] probe_many(
                            route,
                            tier as int,
                            before,
                            indices,
                            failed,
                            s,
                        ) == probe_many(
                            route,
                            tier + 1,
                            statuses@,
                            positions(left@),
                            failed,
                            s.skip(1),
                        ) by {}
                        assert forall|s: Seq<Reply<K, V, E>>|
                            s.len() > 0 && s[0] == answer implies #[trigger] waiting.play(route, s)
                            == next.play(route, s.skip(1)) by {}
                        assert forall|s: Seq<Reply<K, V, E>>|
                            s.len() > 0 && s[0] == answer && !(
                            next.phase is Finished) implies #[trigger] waiting.known(route, s)
                            == next.phase.known(route, s.skip(1)) by {}
                        next
                    },
                    Err(source) => {
                        router.record(tier, Count::Errors, 1);
                        let failure = router.failure(tier, source);
                        match router.policy().read.on_error {
                            OnReadError::FailFast => ReadManyNext::done(
                                Err(RouterError::Tier(failure)),
                            ),
                            OnReadError::FallThrough => {
                                proof {
                                    error::lemma_failures_push(failures@, failure);
                                }
                                failures.push(failure);
                                let next = ReadManyNext::probe(
                                    router,
                                    tier + 1,
                                    statuses,
                                    pending,
                                    failures,
                                );
                                assert forall|s: Seq<Reply<K, V, E>>|
                                    s.len() > 0 && s[0] == answer implies #[trigger] probe_many(
                                    route,
                                    tier as int,
                                    before,
                                    indices,
                                    failed,
                                    s,
                                ) == probe_many(
                                    route,
                                    tier + 1,
                                    before,
                                    indices,
                                    error::failures_of(failures@),
                                    s.skip(1),
                                ) by {}
                                assert forall|s: Seq<Reply<K, V, E>>|
                                    s.len() > 0 && s[0] == answer implies #[trigger] waiting.play(
                                    route,
                                    s,
                                ) == next.play(route, s.skip(1)) by {}
                                assert forall|s: Seq<Reply<K, V, E>>|
                                    s.len() > 0 && s[0] == answer && !(
                                    next.phase is Finished) implies #[trigger] waiting.known(
                                    route,
                                    s,
                                ) == next.phase.known(route, s.skip(1)) by {}
                                next
                            },
                        }
                    },
                }
            },
            _ => {
                assert(false);
                ReadManyNext::done(Err(RouterError::ReadOnly))
            },
        };
        assert forall|s: Seq<Reply<K, V, E>>|
            s.len() > 0 && s[0] == answer implies #[trigger] log.extended(s).step() == next.play(
            route,
            s.skip(1),
        ) by {
            assert(log.extended(s).step() == waiting.play(route, s));
        }
        assert forall|s: Seq<Reply<K, V, E>>|
            s.len() > 0 && s[0] == answer && !(next.phase is Finished) implies #[trigger] log.extended(
            s,
        ).statuses() == next.phase.known(route, s.skip(1)) by {
            assert(log.extended(s).statuses() == waiting.known(route, s));
        }
        self.advance(Ghost(answer), next)
    }

    /// Reports how the tier answered the pending write (a promotion or a
    /// demotion); returns what to do next. The read does not depend on
    /// whether the write succeeded.
    pub fn on_put<T: Tier<Key = K, Value = V, Error = E>>(
        &mut self,
        router: &mut Router<T>,
        reply: Result<Displaced<K, V>, E>,
    ) -> (step: ReadManyStep<K, V, E>)
        requires
            old(self).inv(),
            old(self)@.route == old(router).route(),
            old(self)@.step() is Promote || old(self)@.step() is Demote,
        ensures
            final(self).inv(),
            final(self)@ == old(self)@.answered(rollover::put_reply(reply)),
            step@ == final(self)@.step(),
            final(router).route() == old(router).route(),
            final(router).tiers() == old(router).tiers(),
            final(router).counters() == old(self)@.tally(
                old(router).counters(),
                rollover::put_reply(reply),
            ),
    {
        let ghost route = router.route();
        let ghost log = self@;
        let ghost answer = rollover::put_reply(reply);
        let mut phase = ReadManyPhase::Finished;
        core::mem::swap(&mut self.phase, &mut phase);
        let ghost waiting = phase;
        let total = router.tier_count();
        let next = match phase {
            ReadManyPhase::Promoting { statuses, failures, from, target, count } => {
                let ghost failed = error::failures_of(failures@);
                assert(target < total);
                match reply {
                    Ok(displaced) => {
                        router.record(target, Count::Puts, count as u64);
                        let ghost more = displaced@;
                        if router.policy().demote_displaced {
                            let rolling = Rollover::sink(router, target + 1, displaced);
                            let next = ReadManyNext::roll(
                                router,
                                statuses,
                                failures,
                                from,
                                target + 1,
                                rolling,
                            );
                            assert forall|s: Seq<Reply<K, V, E>>|
                                s.len() > 0 && s[0] == answer implies #[trigger] waiting.play(
                                route,
                                s,
                            ) == next.play(route, s.skip(1)) by {
                                let rolled = rollover::sink(route, target + 1, more, s.skip(1));
                                assert(rolled == rolling.play(route, s.skip(1)));
                                assert(waiting.play(route, s) == roll_many(
                                    route,
                                    statuses@,
                                    failed,
                                    from as int,
                                    target + 1,
                                    rolled,
                                ));
                            }
                            next
                        } else {
                            let next = ReadManyNext::promote(
                                router,
                                statuses,
                                failures,
                                from,
                                target + 1,
                            );
                            assert forall|s: Seq<Reply<K, V, E>>|
                                s.len() > 0 && s[0] == answer implies #[trigger] waiting.play(
                                route,
                                s,
                            ) == next.play(route, s.skip(1)) by {
                                assert(waiting.play(route, s) == promote_many(
                                    route,
                                    statuses@,
                                    failed,
                                    from as int,
                                    target + 1,
                                    s.skip(1),
                                ));
                            }
                            next
                        }
                    },
                    Err(_) => {
                        router.record(target, Count::Errors, 1);
                        let next = ReadManyNext::promote(
                            router,
                            statuses,
                            failures,
                            from,
                            target + 1,
                        );
                        assert forall|s: Seq<Reply<K, V, E>>|
                            s.len() > 0 && s[0] == answer implies #[trigger] waiting.play(route, s)
                            == next.play(route, s.skip(1)) by {
                            assert(waiting.play(route, s) == promote_many(
                                route,
                                statuses@,
                                failed,
                                from as int,
                                target + 1,
                                s.skip(1),
                            ));
                        }
                        next
                    },
                }
            },
            ReadManyPhase::Rolling { statuses, failures, from, target, rollover } => {
                let tier = rollover.tier();
                let displaced = match reply {
                    Ok(displaced) => {
                        router.record(tier, Count::Puts, 1);
                        displaced
                    },
                    Err(_) => {
                        router.record(tier, Count::Errors, 1);
                        Vec::new()
                    },
                };
                assert(answer.displaced() == displaced@);
                let rolling = rollover.resume(router, displaced);
                let next = ReadManyNext::roll(router, statuses, failures, from, target, rolling);
                assert forall|s: Seq<Reply<K, V, E>>|
                    s.len() > 0 && s[0] == answer implies #[trigger] waiting.play(route, s)
                    == next.play(route, s.skip(1)) by {
                    assert(rollover.continues(route, s) == rolling.play(route, s.skip(1)));
                }
                next
            },
            _ => {
                assert(false);
                ReadManyNext::done(Err(RouterError::ReadOnly))
            },
        };
        assert forall|s: Seq<Reply<K, V, E>>|
            s.len() > 0 && s[0] == answer implies #[trigger] log.extended(s).step() == next.play(
            route,
            s.skip(1),
        ) by {
            assert(log.extended(s).step() == waiting.play(route, s));
        }
        assert forall|s: Seq<Reply<K, V, E>>|
            s.len() > 0 && s[0] == answer && !(next.phase is Finished) implies #[trigger] log.extended(
            s,
        ).statuses() == next.phase.known(route, s.skip(1)) by {
            assert(log.extended(s).statuses() == waiting.known(route, s));
        }
        self.advance(Ghost(answer), next)
    }
}

/// `core::slice::from_ref`: the slice that holds exactly the referenced value.
pub assume_specification<T>[ core::slice::from_ref::<T> ](item: &T) -> (slice: &[T])
    ensures
        slice@ == seq![*item],
;

impl<T: Tier> Router<T> {
    /// Starts a batched read with per-key outcomes: each lower tier is probed
    /// only with the keys still missing, hits record which tier served them,
    /// and keys left unresolved past a failing tier come back as
    /// [`KeyStatus::Inconclusive`].
    pub fn read_many<'a>(&self, keys: &'a [T::Key]) -> (started: (
        ReadManyFlow<'a, T::Key, T::Value, T::Error>,
        ReadManyStep<T::Key, T::Value, T::Error>,
    ))
        ensures
            started.0.inv(),
            started.0@ == ReadManyLog::<T::Key, T::Value, T::Error>::begin(self.route(), keys@),
            started.1@ == started.0@.step(),
    {
        ReadManyFlow::start(self, keys)
    }

    /// Starts a single-key read with tier provenance: [`Router::read_many`]
    /// for one key, to be unpacked with [`ReadReport::into_one`].
    pub fn read_one<'a>(&self, key: &'a T::Key) -> (started: (
        ReadManyFlow<'a, T::Key, T::Value, T::Error>,
        ReadManyStep<T::Key, T::Value, T::Error>,
    ))
        ensures
            started.0.inv(),
            started.0@ == ReadManyLog::<T::Key, T::Value, T::Error>::begin(
                self.route(),
                seq![*key],
            ),
            started.1@ == started.0@.step(),
    {
        self.read_many(core::slice::from_ref(key))
    }
}

} // verus!
