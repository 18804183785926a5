//! What holds of tiers that the router only reads.
use vstd::prelude::*;

use crate::batch::{ReadManyLog, ReadManyMove};
use crate::delete::{DeleteLog, DeleteMove, RemoveLog, RemoveMove};
use crate::error::{Failure, Trouble};
use crate::fetch::{ExistsLog, ExistsMove, GetLog, GetMove};
use crate::laws::delete;
use crate::laws::delete::{DeleteRun, RemoveRun};
use crate::laws::read;
use crate::laws::readback;
use crate::policy::OnReadError;
use crate::rollover::Reply;
use crate::router::Route;
use crate::write::{WriteLog, WriteMove};

verus! {

/// What a request is to the tier it goes to.
pub enum Request {
    /// The tier is read.
    Read {
        /// The tier.
        tier: int,
    },
    /// The tier is asked to change: to write or to delete something.
    Write {
        /// The tier.
        tier: int,
    },
    /// No tier is asked for anything.
    Nothing,
}

/// Any routed operation.
pub enum Operation<K, V, E> {
    /// A read of one key.
    Get(GetLog<K, V, E>),
    /// An existence check.
    Contains(ExistsLog<K, E>),
    /// A batched read.
    ReadMany(ReadManyLog<K, V, E>),
    /// A write, single or batched.
    Write(WriteLog<K, V, E>),
    /// A delete.
    Delete(DeleteLog<K, E>),
    /// A batched delete.
    Remove(RemoveLog<K, E>),
}

/// What a read asks of a tier.
pub open spec fn get_request<K, V, E>(step: GetMove<K, V, E>) -> Request {
    match step {
        GetMove::Get { tier } => Request::Read { tier },
        GetMove::Promote { tier } => Request::Write { tier },
        GetMove::Demote { tier, .. } => Request::Write { tier },
        GetMove::Done(_) => Request::Nothing,
    }
}

/// What an existence check asks of a tier.
pub open spec fn exists_request<E>(step: ExistsMove<E>) -> Request {
    match step {
        ExistsMove::Exists { tier } => Request::Read { tier },
        ExistsMove::Done(_) => Request::Nothing,
    }
}

/// What a batched read asks of a tier.
pub open spec fn read_request<K, V, E>(step: ReadManyMove<K, V, E>) -> Request {
    match step {
        ReadManyMove::GetMany { tier, .. } => Request::Read { tier },
        ReadManyMove::Promote { tier, .. } => Request::Write { tier },
        ReadManyMove::Demote { tier, .. } => Request::Write { tier },
        ReadManyMove::Done(_) => Request::Nothing,
    }
}

/// What a write asks of a tier.
pub open spec fn write_request<K, V, E>(step: WriteMove<K, V, E>) -> Request {
    match step {
        WriteMove::Put { tier } => Request::Write { tier },
        WriteMove::Demote { tier, .. } => Request::Write { tier },
        WriteMove::Delete { tier } => Request::Write { tier },
        WriteMove::Done(_) => Request::Nothing,
    }
}

/// What a delete asks of a tier.
pub open spec fn delete_request<E>(step: DeleteMove<E>) -> Request {
    match step {
        DeleteMove::Delete { tier } => Request::Write { tier },
        DeleteMove::Done(_) => Request::Nothing,
    }
}

/// What a batched delete asks of a tier.
pub open spec fn remove_request<E>(step: RemoveMove<E>) -> Request {
    match step {
        RemoveMove::DeleteMany { tier } => Request::Write { tier },
        RemoveMove::Done { .. } => Request::Nothing,
    }
}

impl<K, V, E> Operation<K, V, E> {
    /// The hierarchy the operation runs over.
    pub open spec fn route(self) -> Route {
        match self {
            Operation::Get(log) => log.route,
            Operation::Contains(log) => log.route,
            Operation::ReadMany(log) => log.route,
            Operation::Write(log) => log.route,
            Operation::Delete(log) => log.route,
            Operation::Remove(log) => log.route,
        }
    }

    /// What the operation asked of tiers, one request per answer.
    pub open spec fn requests(self) -> Seq<Request> {
        match self {
            Operation::Get(log) => Seq::new(
                log.replies.len(),
                |i: int| get_request(log.prefix(i).step()),
            ),
            Operation::Contains(log) => Seq::new(
                log.replies.len(),
                |i: int| exists_request(log.prefix(i).step()),
            ),
            Operation::ReadMany(log) => Seq::new(
                log.replies.len(),
                |i: int| read_request(log.prefix(i).step()),
            ),
            Operation::Write(log) => Seq::new(
                log.replies.len(),
                |i: int| write_request(log.prefix(i).step()),
            ),
            Operation::Delete(log) => Seq::new(
                log.replies.len(),
                |i: int| delete_request(log.prefix(i).step()),
            ),
            Operation::Remove(log) => Seq::new(
                log.replies.len(),
                |i: int| remove_request(log.prefix(i).step()),
            ),
        }
    }
}

/// What the operations, one after the other, asked of tiers.
pub open spec fn requests_of<K, V, E>(operations: Seq<Operation<K, V, E>>) -> Seq<Request>
    decreases operations.len(),
{
    if operations.len() == 0 {
        Seq::empty()
    } else {
        requests_of(operations.drop_last()) + operations.last().requests()
    }
}

proof fn lemma_one_operation<K, V, E>(operation: Operation<K, V, E>, i: int)
    requires
        0 <= i < operation.requests().len(),
    ensures
        operation.requests()[i] matches Request::Write { tier } ==> operation.route().writable(
            tier,
        ),
{
    match operation {
        Operation::Get(log) => {
            read::law_reads_only_promote(log.prefix(i));
        },
        Operation::Contains(_) => {},
        Operation::ReadMany(log) => {
            read::law_batched_reads_only_promote(log.prefix(i));
        },
        Operation::Write(log) => {
            crate::laws::write::law_writes_spare_read_only_tiers(log.prefix(i));
        },
        Operation::Delete(log) => {
            let tiers = log.route.writables(log.route.lanes.len() as int);
            log.route.lemma_writables(log.route.lanes.len() as int);
            if i < tiers.len() {
                assert(log.route.writable(tiers[i]));
            }
        },
        Operation::Remove(log) => {
            let tiers = log.route.writables(log.route.lanes.len() as int);
            log.route.lemma_writables(log.route.lanes.len() as int);
            if i < tiers.len() {
                assert(log.route.writable(tiers[i]));
            }
        },
    }
}

/// A tier that was added as read-only is only ever read: over any sequence of
/// operations, and under any policy, no request to change something goes to
/// it, neither with written entries nor with promoted or displaced ones, nor
/// with a delete.
pub proof fn law_read_only_tiers_are_only_read<K, V, E>(
    route: Route,
    operations: Seq<Operation<K, V, E>>,
)
    requires
        forall|i: int| 0 <= i < operations.len() ==> (#[trigger] operations[i]).route() == route,
    ensures
        forall|i: int|
            0 <= i < requests_of(operations).len() ==> (#[trigger] requests_of(
                operations,
            )[i] matches Request::Write { tier } ==> route.writable(tier)),
    decreases operations.len(),
{
    if operations.len() > 0 {
        let earlier = operations.drop_last();
        let last = operations.last();
        assert forall|i: int| 0 <= i < earlier.len() implies (#[trigger] earlier[i]).route()
            == route by {
            assert(operations[i].route() == route);
        }
        assert(operations[operations.len() - 1].route() == route);
        law_read_only_tiers_are_only_read(route, earlier);
        let all = requests_of(operations);
        let before = requests_of(earlier);
        assert forall|i: int| 0 <= i < all.len() implies (
        #[trigger] all[i] matches Request::Write { tier } ==> route.writable(tier)) by {
            if i < before.len() {
                assert(all[i] == before[i]);
            } else {
                assert(all[i] == last.requests()[i - before.len()]);
                lemma_one_operation(last, i - before.len());
            }
        }
    }
}

/// Whether the tiers change only where they are asked to: `worlds` are the
/// contents of all tiers before every request and at the end.
pub open spec fn changes_as_asked<K, V>(
    requests: Seq<Request>,
    worlds: Seq<Seq<Map<K, V>>>,
) -> bool {
    &&& worlds.len() == requests.len() + 1
    &&& forall|i: int, t: int|
        0 <= i < requests.len() && requests[i] != (Request::Write { tier: t })
            ==> #[trigger] worlds[i + 1][t] == worlds[i][t]
}

/// What a read-only tier holds never changes, over any sequence of
/// operations.
pub proof fn law_read_only_tiers_never_change<K, V, E>(
    route: Route,
    operations: Seq<Operation<K, V, E>>,
    worlds: Seq<Seq<Map<K, V>>>,
    origin: int,
    at: int,
)
    requires
        forall|i: int| 0 <= i < operations.len() ==> (#[trigger] operations[i]).route() == route,
        changes_as_asked(requests_of(operations), worlds),
        !route.writable(origin),
        0 <= at < worlds.len(),
    ensures
        worlds[at][origin] == worlds[0][origin],
    decreases at,
{
    if at > 0 {
        law_read_only_tiers_never_change(route, operations, worlds, origin, at - 1);
        law_read_only_tiers_are_only_read(route, operations);
        let request = requests_of(operations)[at - 1];
        assert(request != (Request::Write { tier: origin }));
        assert(worlds[at - 1 + 1][origin] == worlds[at - 1][origin]);
    }
}

/// Whether `origin` is read-only, holds `key` and is the topmost read-only
/// tier that does.
pub open spec fn owns<K, V>(
    route: Route,
    contents: Seq<Map<K, V>>,
    origin: int,
    key: K,
) -> bool {
    &&& 0 <= origin < route.lanes.len()
    &&& !route.writable(origin)
    &&& contents[origin].contains_key(key)
    &&& forall|t: int|
        0 <= t < origin && !route.writable(t) ==> !(#[trigger] contents[t]).contains_key(key)
}

/// A read after which no writable tier holds the key is served by its origin.
proof fn lemma_origin_serves<K, V, E>(
    log: GetLog<K, V, E>,
    contents: Seq<Map<K, V>>,
    origin: int,
)
    requires
        log.sound(),
        contents.len() == log.route.lanes.len(),
        owns(log.route, contents, origin, log.key),
        forall|t: int| log.route.writable(t) ==> !(#[trigger] contents[t]).contains_key(log.key),
        forall|i: int|
            0 <= i < log.replies.len() ==> ((#[trigger] log.asked()[i], log.replies[i]) matches (
                GetMove::Get { tier },
                Reply::Got(reply),
            ) ==> read::tells(Some(contents[tier]), log.key, reply)),
    ensures
        log.step() matches GetMove::Done(result) ==> result == Ok::<
            Option<V>,
            Trouble<E>,
        >(Some(contents[origin][log.key])),
{
    let snapshot = readback::snapshot(contents);
    let on_error: OnReadError = log.route.policy.read.on_error;
    assert forall|i: int| 0 <= i < log.replies.len() implies ((
    #[trigger] log.asked()[i], log.replies[i]) matches (
        GetMove::Get { tier },
        Reply::Got(reply),
    ) ==> read::tells(snapshot[tier], log.key, reply)) by {
        if let GetMove::Get { tier } = log.asked()[i] {
            lemma_probes_in_range(log, i);
            assert(snapshot[tier] == Some(contents[tier]));
        }
    }
    read::law_read_returns_what_tiers_hold(log, snapshot);
    readback::lemma_find_holder(on_error, contents, log.key, 0);
    assert(contents[origin].contains_key(log.key));
}

/// Probes go to tiers of the hierarchy.
proof fn lemma_probes_in_range<K, V, E>(log: GetLog<K, V, E>, i: int)
    requires
        0 <= i < log.replies.len(),
    ensures
        log.asked()[i] matches GetMove::Get { tier } ==> 0 <= tier < log.route.lanes.len(),
{
    let none = Seq::<Failure<E>>::empty();
    lemma_probe_in_range(log.route, 0, none, log.prefix(i).replies);
}

proof fn lemma_probe_in_range<K, V, E>(
    route: Route,
    tier: int,
    failures: Seq<Failure<E>>,
    replies: Seq<Reply<K, V, E>>,
)
    requires
        0 <= tier,
    ensures
        crate::fetch::probe(route, tier, failures, replies) matches GetMove::Get { tier: t }
            ==> tier <= t < route.lanes.len(),
    decreases route.lanes.len() - tier,
{
    if tier < route.lanes.len() && replies.len() > 0 {
        let rest = replies.skip(1);
        match replies[0] {
            Reply::Got(Ok(Some(value))) => {
                read::lemma_promote_result(
                    route,
                    route.policy.read.promote.reach(tier),
                    0,
                    value,
                    rest,
                );
            },
            Reply::Got(Ok(None)) => {
                lemma_probe_in_range(route, tier + 1, failures, rest);
            },
            Reply::Got(Err(source)) => {
                if route.policy.read.on_error == OnReadError::FallThrough {
                    lemma_probe_in_range(
                        route,
                        tier + 1,
                        failures.push(route.failure(tier, source)),
                        rest,
                    );
                }
            },
            _ => {},
        }
    }
}

/// A key that a read-only tier holds is served again after a delete: once the
/// delete is over, the next read that every tier answers returns the value
/// that the read-only tier had all along.
pub proof fn law_origin_serves_a_deleted_key_again<K, V, E>(
    run: DeleteRun<K, V, E>,
    next: GetLog<K, V, E>,
    origin: int,
)
    requires
        run.honest(),
        run.log.step() is Done,
        owns(run.log.route, run.worlds[0], origin, run.log.key),
        next.sound(),
        next.route == run.log.route,
        next.key == run.log.key,
        forall|i: int|
            0 <= i < next.replies.len() ==> ((#[trigger] next.asked()[i], next.replies[i]) matches (
                GetMove::Get { tier },
                Reply::Got(reply),
            ) ==> read::tells(Some(run.worlds.last()[tier]), next.key, reply)),
    ensures
        next.step() matches GetMove::Done(result) ==> result == Ok::<
            Option<V>,
            Trouble<E>,
        >(Some(run.worlds[0][origin][next.key])),
{
    let before = run.worlds[0];
    let after = run.worlds.last();
    delete::law_deleted_key_is_gone(run, OnReadError::FallThrough);
    assert(after[origin] == before[origin]);
    assert forall|t: int| 0 <= t < origin && !next.route.writable(t) implies !(
    #[trigger] after[t]).contains_key(next.key) by {
        assert(after[t] == before[t]);
    }
    assert forall|t: int| next.route.writable(t) implies !(#[trigger] after[t]).contains_key(
        next.key,
    ) by {
        assert(after[t] == before[t].remove(next.key));
    }
    lemma_origin_serves(next, after, origin);
}

/// The same after a batched delete.
pub proof fn law_origin_serves_keys_deleted_in_a_batch_again<K, V, E>(
    run: RemoveRun<K, V, E>,
    next: GetLog<K, V, E>,
    origin: int,
)
    requires
        run.honest(),
        run.log.step() is Done,
        run.log.keys.contains(next.key),
        owns(run.log.route, run.worlds[0], origin, next.key),
        next.sound(),
        next.route == run.log.route,
        forall|i: int|
            0 <= i < next.replies.len() ==> ((#[trigger] next.asked()[i], next.replies[i]) matches (
                GetMove::Get { tier },
                Reply::Got(reply),
            ) ==> read::tells(Some(run.worlds.last()[tier]), next.key, reply)),
    ensures
        next.step() matches GetMove::Done(result) ==> result == Ok::<
            Option<V>,
            Trouble<E>,
        >(Some(run.worlds[0][origin][next.key])),
{
    let before = run.worlds[0];
    let after = run.worlds.last();
    let keys = run.log.keys.to_set();
    delete::law_keys_deleted_in_a_batch_are_gone(run);
    assert(after[origin] == before[origin]);
    assert forall|t: int| 0 <= t < origin && !next.route.writable(t) implies !(
    #[trigger] after[t]).contains_key(next.key) by {
        assert(after[t] == before[t]);
    }
    assert forall|t: int| next.route.writable(t) implies !(#[trigger] after[t]).contains_key(
        next.key,
    ) by {
        assert(after[t] == before[t].remove_keys(keys));
        assert(keys.contains(next.key));
    }
    lemma_origin_serves(next, after, origin);
}

} // verus!
