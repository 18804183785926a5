//! What holds of deletes.
use vstd::prelude::*;

use crate::delete;
use crate::delete::{DeleteLog, DeleteMove, RemoveLog, RemoveMove};
use crate::error::Trouble;
use crate::laws::read;
use crate::laws::read::Finding;
use crate::laws::readback;
use crate::laws::world;
use crate::policy::OnReadError;
use crate::router::Route;

verus! {

/// There are failures among the answers exactly if some answer is one, and
/// each names its tier.
proof fn lemma_failures_at<A, E>(route: Route, replies: Seq<Result<A, E>>)
    ensures
        delete::failures_at(route, replies).len() == 0 <==> forall|i: int|
            0 <= i < replies.len() ==> (#[trigger] replies[i]) is Ok,
        delete::failures_at(route, replies).len() <= replies.len(),
        forall|k: int|
            0 <= k < delete::failures_at(route, replies).len() ==> exists|i: int|
                0 <= i < replies.len() && (#[trigger] replies[i] matches Err(source)
                    && #[trigger] delete::failures_at(route, replies)[k] == route.failure(
                    route.writables(route.lanes.len() as int)[i],
                    source,
                )),
    decreases replies.len(),
{
    if replies.len() > 0 {
        let rest = replies.drop_last();
        let last = replies.len() - 1;
        lemma_failures_at(route, rest);
        let all = delete::failures_at(route, replies);
        let before = delete::failures_at(route, rest);
        if before.len() == 0 {
            assert forall|i: int| 0 <= i < last implies (#[trigger] replies[i]) is Ok by {
                assert(rest[i] is Ok);
            }
        }
        if forall|i: int| 0 <= i < replies.len() ==> (#[trigger] replies[i]) is Ok {
            assert forall|i: int| 0 <= i < rest.len() implies (#[trigger] rest[i]) is Ok by {
                assert(replies[i] is Ok);
            }
            assert(replies[last] is Ok);
        }
        assert forall|k: int| 0 <= k < all.len() implies exists|i: int|
            0 <= i < replies.len() && (#[trigger] replies[i] matches Err(source)
                && #[trigger] all[k] == route.failure(
                route.writables(route.lanes.len() as int)[i],
                source,
            )) by {
            if k < before.len() {
                assert(all[k] == before[k]);
                let i = choose|i: int|
                    0 <= i < rest.len() && (#[trigger] rest[i] matches Err(source) && before[k]
                        == route.failure(
                        route.writables(route.lanes.len() as int)[i],
                        source,
                    ));
                assert(replies[i] == rest[i]);
            } else {
                assert(replies[last] is Err);
            }
        }
    }
}

/// A delete attempts every writable tier, and no other, whether or not some
/// fail. It succeeds exactly if every tier did; otherwise it is partial, and
/// each failure it reports is that of a tier that failed.
pub proof fn law_delete_attempts_every_writable_tier<K, E>(log: DeleteLog<K, E>)
    requires
        log.sound(),
    ensures
        match log.step() {
            DeleteMove::Delete { tier } => log.route.writable(tier) && log.replies.len()
                < log.route.writables(log.route.lanes.len() as int).len(),
            DeleteMove::Done(result) => {
                &&& log.replies.len() == log.route.writables(log.route.lanes.len() as int).len()
                &&& result is Ok <==> forall|i: int|
                    0 <= i < log.replies.len() ==> (#[trigger] log.replies[i]) is Ok
                &&& result matches Ok(existed) ==> existed == exists|i: int|
                    0 <= i < log.replies.len() && #[trigger] log.replies[i] == Ok::<bool, E>(true)
                &&& result matches Err(trouble) ==> (trouble matches Trouble::Partial(failures)
                    && failures.len() > 0 && forall|k: int|
                    0 <= k < failures.len() ==> exists|i: int|
                        0 <= i < log.replies.len() && (#[trigger] log.replies[i] matches Err(source)
                            && #[trigger] failures[k] == log.route.failure(
                            log.route.writables(log.route.lanes.len() as int)[i],
                            source,
                        )))
            },
        },
{
    let n = log.route.lanes.len() as int;
    let tiers = log.route.writables(n);
    log.route.lemma_writables(n);
    lemma_failures_at(log.route, log.replies);
    if log.replies.len() > 0 {
        assert(log.prefix(log.replies.len() - 1).step() is Delete);
    }
    if log.replies.len() < tiers.len() {
        assert(log.route.writable(tiers[log.replies.len() as int]));
    }
}

/// A batched delete attempts every writable tier, and no other, whether or
/// not some fail, and its report is complete exactly if every tier answered.
pub proof fn law_batched_delete_attempts_every_writable_tier<K, E>(log: RemoveLog<K, E>)
    requires
        log.sound(),
    ensures
        match log.step() {
            RemoveMove::DeleteMany { tier } => log.route.writable(tier) && log.replies.len()
                < log.route.writables(log.route.lanes.len() as int).len(),
            RemoveMove::Done { removed, failures } => {
                &&& log.replies.len() == log.route.writables(log.route.lanes.len() as int).len()
                &&& removed.len() == log.keys.len()
                &&& failures.len() == 0 <==> forall|i: int|
                    0 <= i < log.replies.len() ==> (#[trigger] log.replies[i]) is Ok
            },
        },
{
    let n = log.route.lanes.len() as int;
    let tiers = log.route.writables(n);
    log.route.lemma_writables(n);
    lemma_failures_at(log.route, log.replies);
    if log.replies.len() > 0 {
        assert(log.prefix(log.replies.len() - 1).step() is DeleteMany);
    }
    if log.replies.len() < tiers.len() {
        assert(log.route.writable(tiers[log.replies.len() as int]));
    }
}

/// A delete over honest tiers, with the world before every request and at
/// the end.
#[verifier::reject_recursive_types(K)]
pub struct DeleteRun<K, V, E> {
    /// What was asked and answered.
    pub log: DeleteLog<K, E>,
    /// The worlds.
    pub worlds: Seq<Seq<Map<K, V>>>,
}

impl<K, V, E> DeleteRun<K, V, E> {
    /// Whether every tier is honest and carries out its delete.
    pub open spec fn honest(self) -> bool {
        let tiers = self.log.route.writables(self.log.route.lanes.len() as int);
        &&& self.log.sound()
        &&& self.worlds.len() == self.log.replies.len() + 1
        &&& self.worlds[0].len() == self.log.route.lanes.len()
        &&& forall|i: int|
            0 <= i < self.log.replies.len() ==> {
                &&& #[trigger] self.log.replies[i] == Ok::<bool, E>(
                    self.worlds[i][tiers[i]].contains_key(self.log.key),
                )
                &&& world::deletes(
                    self.worlds[i],
                    tiers[i],
                    self.log.key,
                    self.worlds[i + 1],
                )
            }
    }
}

/// After some deletes, the tiers they went to have lost the key, and the
/// others are as they were.
proof fn lemma_deleted<K, V, E>(run: DeleteRun<K, V, E>, count: int)
    requires
        run.honest(),
        0 <= count <= run.log.replies.len(),
        run.log.replies.len() <= run.log.route.writables(run.log.route.lanes.len() as int).len(),
    ensures
        ({
            let tiers = run.log.route.writables(run.log.route.lanes.len() as int);
            let key = run.log.key;
            &&& run.worlds[count].len() == run.log.route.lanes.len()
            &&& forall|i: int|
                0 <= i < count ==> run.worlds[count][#[trigger] tiers[i]]
                    == run.worlds[0][tiers[i]].remove(key)
            &&& forall|t: int|
                0 <= t < run.log.route.lanes.len() && !tiers.take(count).contains(t)
                    ==> #[trigger] run.worlds[count][t] == run.worlds[0][t]
        }),
    decreases count,
{
    let n = run.log.route.lanes.len() as int;
    let tiers = run.log.route.writables(n);
    let key = run.log.key;
    run.log.route.lemma_writables(n);
    if count > 0 {
        let last = count - 1;
        lemma_deleted(run, last);
        assert(run.log.replies[last] is Ok);
        let before = run.worlds[last];
        let after = run.worlds[count];
        let tier = tiers[last];
        assert(run.log.route.writable(tier));
        assert(after == before.update(tier, before[tier].remove(key)));
        assert(!tiers.take(last).contains(tier)) by {
            if tiers.take(last).contains(tier) {
                let i = choose|i: int| 0 <= i < last && tiers.take(last)[i] == tier;
                assert(tiers[i] < tiers[last]);
            }
        }
        assert forall|i: int| 0 <= i < count implies after[#[trigger] tiers[i]]
            == run.worlds[0][tiers[i]].remove(key) by {
            assert(run.log.route.writable(tiers[i]));
            if i < last {
                assert(tiers[i] < tiers[last]);
            }
        }
        assert forall|t: int|
            0 <= t < n && !tiers.take(count).contains(t) implies #[trigger] after[t]
            == run.worlds[0][t] by {
            assert(tiers.take(count)[last] == tier);
            if tiers.take(last).contains(t) {
                let i = choose|i: int| 0 <= i < last && tiers.take(last)[i] == t;
                assert(tiers.take(count)[i] == t);
            }
        }
    }
}

/// A deleted key is gone. Over honest tiers a delete ends well, reports
/// whether some writable tier held the key, and leaves it in none of them;
/// nothing else changes. A read then finds the key only where the router
/// never writes.
pub proof fn law_deleted_key_is_gone<K, V, E>(run: DeleteRun<K, V, E>, on_error: OnReadError)
    requires
        run.honest(),
        run.log.step() is Done,
    ensures
        ({
            let key = run.log.key;
            let before = run.worlds[0];
            let after = run.worlds.last();
            let route = run.log.route;
            &&& after.len() == route.lanes.len()
            &&& run.log.step() == DeleteMove::<E>::Done(
                Ok(
                    exists|t: int|
                        route.writable(t) && (#[trigger] before[t]).contains_key(key),
                ),
            )
            &&& forall|t: int|
                0 <= t < route.lanes.len() ==> #[trigger] after[t] == if route.writable(t) {
                    before[t].remove(key)
                } else {
                    before[t]
                }
            &&& match read::find(on_error, readback::snapshot(after), key, 0, false) {
                Finding::Hit { tier, .. } => !route.writable(tier),
                Finding::Miss => true,
                _ => false,
            }
        }),
{
    let route = run.log.route;
    let n = route.lanes.len() as int;
    let tiers = route.writables(n);
    let key = run.log.key;
    let count = run.log.replies.len() as int;
    let before = run.worlds[0];
    let after = run.worlds.last();
    law_delete_attempts_every_writable_tier(run.log);
    route.lemma_writables(n);
    lemma_deleted(run, count);
    assert(tiers.take(count) =~= tiers);
    assert forall|t: int| 0 <= t < n implies #[trigger] after[t] == if route.writable(t) {
        before[t].remove(key)
    } else {
        before[t]
    } by {
        if route.writable(t) {
            assert(tiers.contains(t));
            let i = choose|i: int| 0 <= i < tiers.len() && tiers[i] == t;
            assert(after[tiers[i]] == before[tiers[i]].remove(key));
        } else if tiers.contains(t) {
            let i = choose|i: int| 0 <= i < tiers.len() && tiers[i] == t;
            assert(route.writable(tiers[i]));
        }
    }
    assert forall|i: int| 0 <= i < count implies #[trigger] run.log.replies[i] == Ok::<bool, E>(
        before[tiers[i]].contains_key(key),
    ) by {
        lemma_deleted(run, i);
        assert(route.writable(tiers[i]));
        assert(!tiers.take(i).contains(tiers[i])) by {
            if tiers.take(i).contains(tiers[i]) {
                let j = choose|j: int| 0 <= j < i && tiers.take(i)[j] == tiers[i];
                assert(tiers[j] < tiers[i]);
            }
        }
    }
    assert(run.log.existed() <==> exists|t: int|
        route.writable(t) && (#[trigger] before[t]).contains_key(key)) by {
        if run.log.existed() {
            let i = choose|i: int|
                0 <= i < count && #[trigger] run.log.replies[i] == Ok::<bool, E>(true);
            assert(route.writable(tiers[i]) && before[tiers[i]].contains_key(key));
        }
        if exists|t: int| route.writable(t) && (#[trigger] before[t]).contains_key(key) {
            let t = choose|t: int| route.writable(t) && (#[trigger] before[t]).contains_key(key);
            assert(tiers.contains(t));
            let i = choose|i: int| 0 <= i < tiers.len() && tiers[i] == t;
            assert(run.log.replies[i] == Ok::<bool, E>(true));
        }
    }
    assert(forall|i: int| 0 <= i < count ==> (#[trigger] run.log.replies[i]) is Ok);
    lemma_failures_at(route, run.log.replies);
    readback::lemma_find_holder(on_error, after, key, 0);
}

/// A batched delete over honest tiers, with the world before every request
/// and at the end.
#[verifier::reject_recursive_types(K)]
pub struct RemoveRun<K, V, E> {
    /// What was asked and answered.
    pub log: RemoveLog<K, E>,
    /// The worlds.
    pub worlds: Seq<Seq<Map<K, V>>>,
}

impl<K, V, E> RemoveRun<K, V, E> {
    /// Whether every tier is honest and carries out its deletes: it flags a
    /// key if it held it and the batch did not name it before.
    pub open spec fn honest(self) -> bool {
        let tiers = self.log.route.writables(self.log.route.lanes.len() as int);
        let keys = self.log.keys;
        &&& self.log.sound()
        &&& self.worlds.len() == self.log.replies.len() + 1
        &&& self.worlds[0].len() == self.log.route.lanes.len()
        &&& forall|i: int|
            0 <= i < self.log.replies.len() ==> {
                &&& #[trigger] self.log.replies[i] == Ok::<Seq<bool>, E>(
                    Seq::new(
                        keys.len(),
                        |j: int|
                            self.worlds[i][tiers[i]].contains_key(keys[j]) && !keys.take(
                                j,
                            ).contains(keys[j]),
                    ),
                )
                &&& self.worlds[i + 1] == self.worlds[i].update(
                    tiers[i],
                    self.worlds[i][tiers[i]].remove_keys(keys.to_set()),
                )
            }
    }
}

proof fn lemma_removed<K, V, E>(run: RemoveRun<K, V, E>, count: int)
    requires
        run.honest(),
        0 <= count <= run.log.replies.len(),
        run.log.replies.len() <= run.log.route.writables(run.log.route.lanes.len() as int).len(),
    ensures
        ({
            let tiers = run.log.route.writables(run.log.route.lanes.len() as int);
            let keys = run.log.keys.to_set();
            &&& run.worlds[count].len() == run.log.route.lanes.len()
            &&& forall|i: int|
                0 <= i < count ==> run.worlds[count][#[trigger] tiers[i]]
                    == run.worlds[0][tiers[i]].remove_keys(keys)
            &&& forall|t: int|
                0 <= t < run.log.route.lanes.len() && !tiers.take(count).contains(t)
                    ==> #[trigger] run.worlds[count][t] == run.worlds[0][t]
        }),
    decreases count,
{
    let n = run.log.route.lanes.len() as int;
    let tiers = run.log.route.writables(n);
    let keys = run.log.keys.to_set();
    run.log.route.lemma_writables(n);
    if count > 0 {
        let last = count - 1;
        lemma_removed(run, last);
        assert(run.log.replies[last] is Ok);
        let before = run.worlds[last];
        let after = run.worlds[count];
        let tier = tiers[last];
        assert(run.log.route.writable(tier));
        assert(after == before.update(tier, before[tier].remove_keys(keys)));
        assert(!tiers.take(last).contains(tier)) by {
            if tiers.take(last).contains(tier) {
                let i = choose|i: int| 0 <= i < last && tiers.take(last)[i] == tier;
                assert(tiers[i] < tiers[last]);
            }
        }
        assert forall|i: int| 0 <= i < count implies after[#[trigger] tiers[i]]
            == run.worlds[0][tiers[i]].remove_keys(keys) by {
            assert(run.log.route.writable(tiers[i]));
            if i < last {
                assert(tiers[i] < tiers[last]);
            }
        }
        assert forall|t: int|
            0 <= t < n && !tiers.take(count).contains(t) implies #[trigger] after[t]
            == run.worlds[0][t] by {
            assert(tiers.take(count)[last] == tier);
            if tiers.take(last).contains(t) {
                let i = choose|i: int| 0 <= i < last && tiers.take(last)[i] == t;
                assert(tiers.take(count)[i] == t);
            }
        }
    }
}

/// Keys deleted in a batch are gone. Over honest tiers the report is
/// complete, flags each key (the first time the batch names it) exactly if
/// some writable tier held it, and no writable tier holds any of them
/// afterwards; nothing else changes.
pub proof fn law_keys_deleted_in_a_batch_are_gone<K, V, E>(run: RemoveRun<K, V, E>)
    requires
        run.honest(),
        run.log.step() is Done,
    ensures
        run.log.step() matches RemoveMove::Done { removed, failures } && {
            let keys = run.log.keys;
            let before = run.worlds[0];
            let after = run.worlds.last();
            let route = run.log.route;
            &&& failures.len() == 0
            &&& removed.len() == keys.len()
            &&& forall|j: int|
                0 <= j < keys.len() ==> #[trigger] removed[j] == (!keys.take(j).contains(keys[j])
                    && exists|t: int|
                    route.writable(t) && (#[trigger] before[t]).contains_key(keys[j]))
            &&& after.len() == route.lanes.len()
            &&& forall|t: int|
                0 <= t < route.lanes.len() ==> #[trigger] after[t] == if route.writable(t) {
                    before[t].remove_keys(keys.to_set())
                } else {
                    before[t]
                }
        },
{
    let route = run.log.route;
    let n = route.lanes.len() as int;
    let tiers = route.writables(n);
    let keys = run.log.keys;
    let count = run.log.replies.len() as int;
    let before = run.worlds[0];
    let after = run.worlds.last();
    law_batched_delete_attempts_every_writable_tier(run.log);
    route.lemma_writables(n);
    lemma_removed(run, count);
    assert(tiers.take(count) =~= tiers);
    assert forall|t: int| 0 <= t < n implies #[trigger] after[t] == if route.writable(t) {
        before[t].remove_keys(keys.to_set())
    } else {
        before[t]
    } by {
        if route.writable(t) {
            assert(tiers.contains(t));
            let i = choose|i: int| 0 <= i < tiers.len() && tiers[i] == t;
            assert(after[tiers[i]] == before[tiers[i]].remove_keys(keys.to_set()));
        } else if tiers.contains(t) {
            let i = choose|i: int| 0 <= i < tiers.len() && tiers[i] == t;
            assert(route.writable(tiers[i]));
        }
    }
    assert forall|i: int, j: int|
        0 <= i < count && 0 <= j < keys.len() implies #[trigger] delete::flagged(
        run.log.replies[i],
        j,
    ) == (before[tiers[i]].contains_key(keys[j]) && !keys.take(j).contains(keys[j])) by {
        lemma_removed(run, i);
        assert(run.log.replies[i] is Ok);
        assert(route.writable(tiers[i]));
        assert(!tiers.take(i).contains(tiers[i])) by {
            if tiers.take(i).contains(tiers[i]) {
                let k = choose|k: int| 0 <= k < i && tiers.take(i)[k] == tiers[i];
                assert(tiers[k] < tiers[i]);
            }
        }
        assert(run.worlds[i][tiers[i]] == before[tiers[i]]);
    }
    assert(forall|i: int| 0 <= i < count ==> (#[trigger] run.log.replies[i]) is Ok);
    let removed = run.log.removed();
    assert forall|j: int| 0 <= j < keys.len() implies #[trigger] removed[j] == (!keys.take(
        j,
    ).contains(keys[j]) && exists|t: int|
        route.writable(t) && (#[trigger] before[t]).contains_key(keys[j])) by {
        if removed[j] {
            let i = choose|i: int| 0 <= i < count && #[trigger] delete::flagged(
                run.log.replies[i],
                j,
            );
            assert(route.writable(tiers[i]) && before[tiers[i]].contains_key(keys[j]));
        }
        if !keys.take(j).contains(keys[j]) && exists|t: int|
            route.writable(t) && (#[trigger] before[t]).contains_key(keys[j]) {
            let t = choose|t: int|
                route.writable(t) && (#[trigger] before[t]).contains_key(keys[j]);
            assert(tiers.contains(t));
            let i = choose|i: int| 0 <= i < tiers.len() && tiers[i] == t;
            assert(delete::flagged(run.log.replies[i], j));
        }
    }
}

} // verus!
