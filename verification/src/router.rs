//! The router: which tiers there are, in which order, under which policy.
//!
//! A [`Router`] holds its tiers, the policy that governs them, and one set
//! of operation counters per tier. It performs no I/O. Each operation is a
//! *flow*: a state machine that names one tier call at a time and is told
//! how the tier answered. The flows live in [`crate::fetch`],
//! [`crate::batch`], [`crate::write`] and [`crate::delete`].
use vstd::prelude::*;
use vstd::string::*;

use crate::error::{Failure, RouterError, TierFailure};
use crate::policy::Policy;
use crate::tier;
use crate::tier::Tier;

verus! {

/// The kinds of event the router counts per tier.
#[derive(Debug, Clone, Copy, PartialEq, Eq, Structural)]
pub enum Count {
    /// A read probe found the key.
    Hits,
    /// A read probe confirmed absence.
    Misses,
    /// A call failed.
    Errors,
    /// An entry was written.
    Puts,
    /// A key was deleted.
    Deletes,
}

/// Operation counters of one tier. They wrap around at the end of `u64`.
#[derive(Debug, Clone, Copy, PartialEq, Eq, Structural)]
pub struct Counters {
    /// Successful read probes that found the key.
    pub hits: u64,
    /// Successful read probes that confirmed absence.
    pub misses: u64,
    /// Failed operations of any kind.
    pub errors: u64,
    /// Entries successfully written.
    pub puts: u64,
    /// Keys successfully deleted.
    pub deletes: u64,
}

impl Counters {
    /// Counters before any event.
    pub open spec fn zero() -> Counters {
        Counters { hits: 0, misses: 0, errors: 0, puts: 0, deletes: 0 }
    }

    /// The counters after `amount` more events of kind `count`.
    pub open spec fn bumped(self, count: Count, amount: int) -> Counters {
        let amount = amount as u64;
        match count {
            Count::Hits => Counters { hits: self.hits.wrapping_add(amount), ..self },
            Count::Misses => Counters { misses: self.misses.wrapping_add(amount), ..self },
            Count::Errors => Counters { errors: self.errors.wrapping_add(amount), ..self },
            Count::Puts => Counters { puts: self.puts.wrapping_add(amount), ..self },
            Count::Deletes => Counters { deletes: self.deletes.wrapping_add(amount), ..self },
        }
    }

    /// Adds `amount` to one counter.
    pub fn bump(counter: &mut u64, amount: u64)
        ensures
            *final(counter) == old(counter).wrapping_add(amount),
    {
        *counter = counter.wrapping_add(amount);
    }

    fn record(&mut self, count: Count, amount: u64)
        ensures
            *final(self) == old(self).bumped(count, amount as int),
    {
        match count {
            Count::Hits => Counters::bump(&mut self.hits, amount),
            Count::Misses => Counters::bump(&mut self.misses, amount),
            Count::Errors => Counters::bump(&mut self.errors, amount),
            Count::Puts => Counters::bump(&mut self.puts, amount),
            Count::Deletes => Counters::bump(&mut self.deletes, amount),
        }
    }
}

impl Default for Counters {
    fn default() -> (r: Self)
        ensures
            r == Counters::zero(),
    {
        Counters { hits: 0, misses: 0, errors: 0, puts: 0, deletes: 0 }
    }
}

/// One tier as routing decisions see it.
#[verifier::ext_equal]
pub struct Lane {
    /// Diagnostic name.
    pub name: Seq<char>,
    /// Whether the router may write the tier.
    pub writable: bool,
}

/// Everything routing decisions depend on: the policy and the lanes,
/// topmost first.
#[verifier::ext_equal]
pub struct Route {
    /// The policy in force.
    pub policy: Policy,
    /// The tiers, topmost first.
    pub lanes: Seq<Lane>,
}

impl Route {
    /// Whether `tier` exists and accepts writes.
    pub open spec fn writable(self, tier: int) -> bool {
        0 <= tier < self.lanes.len() && self.lanes[tier].writable
    }

    /// The writable tiers among the topmost `limit`, in ascending order.
    pub open spec fn writables(self, limit: int) -> Seq<int>
        decreases limit,
    {
        if limit <= 0 {
            Seq::empty()
        } else if self.writable(limit - 1) {
            self.writables(limit - 1).push(limit - 1)
        } else {
            self.writables(limit - 1)
        }
    }

    /// The failure of `tier` with `source`.
    pub open spec fn failure<E>(self, tier: int, source: E) -> Failure<E> {
        Failure { tier, name: self.lanes[tier].name, source }
    }
}

impl Route {
    /// `writables(limit)` lists exactly the writable tiers below `limit`,
    /// ascending.
    pub proof fn lemma_writables(self, limit: int)
        ensures
            forall|i: int|
                0 <= i < self.writables(limit).len() ==> {
                    &&& self.writable(#[trigger] self.writables(limit)[i])
                    &&& self.writables(limit)[i] < limit
                },
            forall|i: int, j: int|
                0 <= i < j < self.writables(limit).len() ==> self.writables(limit)[i]
                    < self.writables(limit)[j],
            forall|t: int| self.writable(t) && t < limit ==> self.writables(limit).contains(t),
        decreases limit,
    {
        if limit > 0 {
            self.lemma_writables(limit - 1);
            let above = self.writables(limit - 1);
            assert forall|t: int| self.writable(t) && t < limit implies self.writables(
                limit,
            ).contains(t) by {
                if t < limit - 1 {
                    let i = choose|i: int| 0 <= i < above.len() && above[i] == t;
                    assert(self.writables(limit)[i] == t);
                } else {
                    assert(self.writables(limit)[above.len() as int] == t);
                }
            }
        }
    }

    /// The writable tiers of a shorter stack start the list of a longer one.
    pub proof fn lemma_writables_prefix(self, short: int, long: int)
        requires
            short <= long,
        ensures
            self.writables(short).len() <= self.writables(long).len(),
            forall|i: int|
                0 <= i < self.writables(short).len() ==> self.writables(long)[i]
                    == #[trigger] self.writables(short)[i],
        decreases long - short,
    {
        if short < long {
            self.lemma_writables_prefix(short, long - 1);
        }
    }

    /// The bottommost writable tier is the last that `writables` lists.
    pub proof fn lemma_bottom(self, bottom: int)
        requires
            self.writable(bottom),
            forall|i: int| bottom < i ==> !self.writable(i),
        ensures
            self.writables(self.lanes.len() as int).len() > 0,
            self.writables(self.lanes.len() as int).last() == bottom,
    {
        let listed = self.writables(self.lanes.len() as int);
        self.lemma_writables(self.lanes.len() as int);
        assert(listed.contains(bottom));
        let i = choose|i: int| 0 <= i < listed.len() && listed[i] == bottom;
        assert(self.writable(listed.last()));
    }

    /// Without a writable tier `writables` lists nothing.
    pub proof fn lemma_none_writable(self)
        requires
            forall|i: int| !self.writable(i),
        ensures
            self.writables(self.lanes.len() as int).len() == 0,
    {
        self.lemma_writables(self.lanes.len() as int);
        let listed = self.writables(self.lanes.len() as int);
        if listed.len() > 0 {
            assert(self.writable(listed[0]));
        }
    }
}

/// Whether `after` is `before` with a lane for `tier` at the bottom. The lane
/// is called what the tier gives as its name.
pub open spec fn adds_lane<T: Tier>(before: Route, tier: T, writable: bool, after: Route) -> bool {
    &&& after.policy == before.policy
    &&& after.lanes.len() == before.lanes.len() + 1
    &&& after.lanes.drop_last() == before.lanes
    &&& after.lanes.last().writable == writable
    &&& tier::named(tier, after.lanes.last().name)
}

/// Counters of all tiers after `amount` more events of kind `count` at `tier`.
pub open spec fn tallied(counters: Seq<Counters>, tier: int, count: Count, amount: int) -> Seq<
    Counters,
> {
    counters.update(tier, counters[tier].bumped(count, amount))
}

/// Point-in-time operation counters of one tier, from [`Router::stats`].
///
/// `hits` and `misses` count successful read probes (including existence
/// checks), `puts` and `deletes` count successful write calls (batches count
/// per entry or key), and `errors` counts failed calls of any kind (a failed
/// batch counts once).
#[derive(Debug, Clone, PartialEq, Eq)]
pub struct TierStats {
    /// Diagnostic tier name.
    pub name: String,
    /// Whether the tier was added via `read_only_tier`.
    pub read_only: bool,
    /// Successful read probes that found the key.
    pub hits: u64,
    /// Successful read probes that confirmed absence.
    pub misses: u64,
    /// Failed operations of any kind.
    pub errors: u64,
    /// Entries successfully written (puts, promotions, demotions).
    pub puts: u64,
    /// Keys successfully deleted (including write-around invalidation).
    pub deletes: u64,
}

impl TierStats {
    /// Whether these are the statistics of `lane` with `counters`.
    pub open spec fn describes(self, lane: Lane, counters: Counters) -> bool {
        &&& self.name@ == lane.name
        &&& self.read_only == !lane.writable
        &&& self.hits == counters.hits
        &&& self.misses == counters.misses
        &&& self.errors == counters.errors
        &&& self.puts == counters.puts
        &&& self.deletes == counters.deletes
    }
}

/// One routed tier plus its name, write capability and counters.
struct TierSlot<T> {
    tier: T,
    name: String,
    writable: bool,
    counters: Counters,
}

spec fn lanes_of<T>(slots: Seq<TierSlot<T>>) -> Seq<Lane> {
    slots.map_values(|slot: TierSlot<T>| Lane { name: slot.name@, writable: slot.writable })
}

spec fn counters_of<T>(slots: Seq<TierSlot<T>>) -> Seq<Counters> {
    slots.map_values(|slot: TierSlot<T>| slot.counters)
}

spec fn tiers_of<T>(slots: Seq<TierSlot<T>>) -> Seq<T> {
    slots.map_values(|slot: TierSlot<T>| slot.tier)
}

/// How a lane is shown: its name, marked when the router never writes it.
pub open spec fn lane_label(lane: Lane) -> Seq<char> {
    if lane.writable {
        lane.name
    } else {
        lane.name + " (read-only)"@
    }
}

fn slot_names<T>(slots: &Vec<TierSlot<T>>) -> (names: Vec<String>)
    ensures
        names@.len() == slots@.len(),
        forall|i: int|
            0 <= i < names@.len() ==> (#[trigger] names@[i])@ == lane_label(lanes_of(slots@)[i]),
{
    let mut names: Vec<String> = Vec::new();
    let mut i: usize = 0;
    while i < slots.len()
        invariant
            i <= slots@.len(),
            names@.len() == i,
            forall|j: int|
                0 <= j < i ==> (#[trigger] names@[j])@ == lane_label(lanes_of(slots@)[j]),
        decreases slots@.len() - i,
    {
        let slot = &slots[i];
        let name = slot.name.clone();
        names.push(
            if slot.writable {
                name
            } else {
                name.concat(" (read-only)")
            },
        );
        i = i + 1;
    }
    names
}

/// Routes reads and writes across an ordered stack of tiers.
///
/// Tier `0` is the topmost (fastest); reads probe downward. Behaviour is
/// governed entirely by [`Policy`]. Construct with [`Router::builder`].
pub struct Router<T> {
    tiers: Vec<TierSlot<T>>,
    policy: Policy,
}

/// Builder for [`Router`]; add tiers top-down.
pub struct RouterBuilder<T> {
    tiers: Vec<TierSlot<T>>,
    policy: Policy,
}

impl<T: Tier> Router<T> {
    /// What routing decisions depend on.
    pub closed spec fn route(&self) -> Route {
        Route { policy: self.policy, lanes: lanes_of(self.tiers@) }
    }

    /// The per-tier counters, topmost first.
    pub closed spec fn counters(&self) -> Seq<Counters> {
        counters_of(self.tiers@)
    }

    /// The tiers, topmost first.
    pub closed spec fn tiers(&self) -> Seq<T> {
        tiers_of(self.tiers@)
    }

    /// Every lane has one tier and one set of counters.
    pub proof fn lemma_shape(&self)
        ensures
            self.counters().len() == self.route().lanes.len(),
            self.tiers().len() == self.route().lanes.len(),
    {
    }

    /// Starts building a router with the default [`Policy`].
    #[must_use]
    pub fn builder() -> (builder: RouterBuilder<T>)
        ensures
            builder.route() == (Route { policy: Policy::neutral(), lanes: Seq::empty() }),
            builder.tiers() == Seq::<T>::empty(),
    {
        let builder = RouterBuilder { tiers: Vec::new(), policy: Policy::default() };
        assert(lanes_of(builder.tiers@) =~= Seq::<Lane>::empty());
        assert(tiers_of(builder.tiers@) =~= Seq::<T>::empty());
        builder
    }

    /// The router's routing policy.
    #[must_use]
    pub fn policy(&self) -> (policy: Policy)
        ensures
            policy == self.route().policy,
    {
        self.policy
    }

    /// Number of tiers in the stack.
    #[must_use]
    pub fn tier_count(&self) -> (count: usize)
        ensures
            count == self.route().lanes.len(),
    {
        self.tiers.len()
    }

    /// The tier at `index` (0 is topmost).
    #[must_use]
    pub fn tier(&self, index: usize) -> (tier: &T)
        requires
            index < self.route().lanes.len(),
        ensures
            *tier == self.tiers()[index as int],
    {
        &self.tiers[index].tier
    }

    /// Whether the router may write the tier at `index`.
    pub(crate) fn is_writable(&self, index: usize) -> (writable: bool)
        requires
            index < self.route().lanes.len(),
        ensures
            writable == self.route().writable(index as int),
    {
        self.tiers[index].writable
    }

    /// Whether some tier accepts writes; the bottommost of them.
    pub(crate) fn bottom_writable(&self) -> (bottom: Option<usize>)
        ensures
            bottom matches Some(b) ==> {
                &&& self.route().writable(b as int)
                &&& forall|i: int| b < i ==> !self.route().writable(i)
            },
            bottom is None ==> forall|i: int| !self.route().writable(i),
    {
        let mut left: usize = self.tiers.len();
        while left > 0
            invariant
                left <= self.tiers@.len(),
                self.route().lanes.len() == self.tiers@.len(),
                forall|i: int| left <= i ==> !self.route().writable(i),
            decreases left,
        {
            if self.is_writable(left - 1) {
                return Some(left - 1);
            }
            left = left - 1;
        }
        None
    }

    /// The topmost tier from `from` down that accepts writes.
    pub(crate) fn next_writable(&self, from: usize) -> (next: Option<usize>)
        requires
            from <= self.route().lanes.len(),
        ensures
            next matches Some(tier) ==> {
                &&& from <= tier
                &&& self.route().writable(tier as int)
                &&& self.route().writables(tier as int) == self.route().writables(from as int)
            },
            next is None ==> self.route().writables(self.route().lanes.len() as int)
                == self.route().writables(from as int),
    {
        let mut tier: usize = from;
        while tier < self.tiers.len()
            invariant
                from <= tier <= self.tiers@.len(),
                self.route().lanes.len() == self.tiers@.len(),
                self.route().writables(tier as int) == self.route().writables(from as int),
            decreases self.tiers@.len() - tier,
        {
            if self.is_writable(tier) {
                return Some(tier);
            }
            tier = tier + 1;
        }
        None
    }

    /// Diagnostic names of the tiers, topmost first; tiers the router never
    /// writes are marked.
    #[must_use]
    pub fn tier_names(&self) -> (names: Vec<String>)
        ensures
            names@.len() == self.route().lanes.len(),
            forall|i: int|
                0 <= i < names@.len() ==> (#[trigger] names@[i])@ == lane_label(
                    self.route().lanes[i],
                ),
    {
        slot_names(&self.tiers)
    }

    /// Point-in-time snapshot of per-tier operation counters, in tier order
    /// (0 is topmost). See [`TierStats`] for the counting semantics.
    #[must_use]
    pub fn stats(&self) -> (stats: Vec<TierStats>)
        ensures
            stats@.len() == self.route().lanes.len(),
            forall|i: int|
                0 <= i < stats@.len() ==> (#[trigger] stats@[i]).describes(
                    self.route().lanes[i],
                    self.counters()[i],
                ),
    {
        let mut stats: Vec<TierStats> = Vec::new();
        let mut i: usize = 0;
        while i < self.tiers.len()
            invariant
                i <= self.tiers@.len(),
                stats@.len() == i,
                forall|j: int|
                    0 <= j < i ==> (#[trigger] stats@[j]).describes(
                        self.route().lanes[j],
                        self.counters()[j],
                    ),
            decreases self.tiers@.len() - i,
        {
            let slot = &self.tiers[i];
            stats.push(
                TierStats {
                    name: slot.name.clone(),
                    read_only: !slot.writable,
                    hits: slot.counters.hits,
                    misses: slot.counters.misses,
                    errors: slot.counters.errors,
                    puts: slot.counters.puts,
                    deletes: slot.counters.deletes,
                },
            );
            i = i + 1;
        }
        stats
    }

    /// Records the failure of tier number `tier`.
    pub fn failure<E>(&self, tier: usize, source: E) -> (failure: TierFailure<E>)
        requires
            tier < self.route().lanes.len(),
        ensures
            failure@ == self.route().failure(tier as int, source),
    {
        TierFailure::new(tier, self.tiers[tier].name.as_str(), source)
    }

    /// Counts `amount` events of kind `count` at `tier`.
    pub fn record(&mut self, tier: usize, count: Count, amount: u64)
        requires
            tier < old(self).route().lanes.len(),
        ensures
            final(self).route() == old(self).route(),
            final(self).tiers() == old(self).tiers(),
            final(self).counters() == tallied(
                old(self).counters(),
                tier as int,
                count,
                amount as int,
            ),
    {
        self.tiers[tier].counters.record(count, amount);
        proof {
            assert(lanes_of(self.tiers@) =~= lanes_of(old(self).tiers@));
            assert(tiers_of(self.tiers@) =~= tiers_of(old(self).tiers@));
            assert(counters_of(self.tiers@) =~= tallied(
                counters_of(old(self).tiers@),
                tier as int,
                count,
                amount as int,
            ));
        }
    }
}

impl<T: Tier> Tier for Router<T> {
    type Key = T::Key;

    type Value = T::Value;

    type Error = RouterError<T::Error>;

    fn name(&self) -> (name: &str)
        ensures
            name@ == "router"@,
    {
        "router"
    }
}

impl<T> RouterBuilder<T> {
    #[verifier::type_invariant]
    spec fn fresh(self) -> bool {
        forall|i: int|
            0 <= i < self.tiers@.len() ==> (#[trigger] self.tiers@[i]).counters == Counters::zero()
    }
}

impl<T: Tier> RouterBuilder<T> {
    /// What the built router's decisions will depend on.
    pub closed spec fn route(&self) -> Route {
        Route { policy: self.policy, lanes: lanes_of(self.tiers@) }
    }

    /// The tiers added so far, topmost first.
    pub closed spec fn tiers(&self) -> Seq<T> {
        tiers_of(self.tiers@)
    }

    fn with(self, tier: T, writable: bool) -> (builder: Self)
        ensures
            builder.tiers() == self.tiers().push(tier),
            adds_lane(self.route(), tier, writable, builder.route()),
    {
        proof {
            use_type_invariant(&self);
        }
        let policy = self.policy;
        let mut tiers = self.tiers;
        let given = tier.name();
        assert(tier::named(tier, given@));
        let name = given.to_owned();
        let ghost lane = Lane { name: name@, writable };
        tiers.push(TierSlot { tier, name, writable, counters: Counters::default() });
        assert(lanes_of(tiers@) =~= lanes_of(self.tiers@).push(lane));
        assert(lanes_of(tiers@).drop_last() =~= lanes_of(self.tiers@));
        assert(tiers_of(tiers@) =~= tiers_of(self.tiers@).push(tier));
        RouterBuilder { tiers, policy }
    }

    /// Appends `tier` below all previously added tiers (first added is the
    /// topmost/fastest).
    #[must_use]
    pub fn tier(self, tier: T) -> (builder: Self)
        ensures
            builder.tiers() == self.tiers().push(tier),
            adds_lane(self.route(), tier, true, builder.route()),
    {
        self.with(tier, true)
    }

    /// Appends a tier the router reads from but never writes to: writes,
    /// demotions, promotions, and deletes all skip it.
    ///
    /// A key present in a read-only tier will be served again once local
    /// copies are gone.
    #[must_use]
    pub fn read_only_tier(self, tier: T) -> (builder: Self)
        ensures
            builder.tiers() == self.tiers().push(tier),
            adds_lane(self.route(), tier, false, builder.route()),
    {
        self.with(tier, false)
    }

    /// Replaces the routing policy (defaults to the neutral fallback chain).
    #[must_use]
    pub fn policy(self, policy: Policy) -> (builder: Self)
        ensures
            builder.tiers() == self.tiers(),
            builder.route() == (Route { policy, ..self.route() }),
    {
        proof {
            use_type_invariant(&self);
        }
        RouterBuilder { tiers: self.tiers, policy }
    }

    /// Diagnostic names of the tiers added so far, topmost first.
    #[must_use]
    pub fn tier_names(&self) -> (names: Vec<String>)
        ensures
            names@.len() == self.route().lanes.len(),
            forall|i: int|
                0 <= i < names@.len() ==> (#[trigger] names@[i])@ == lane_label(
                    self.route().lanes[i],
                ),
    {
        slot_names(&self.tiers)
    }

    /// Finishes the router. A router over zero tiers is a configuration bug,
    /// not a runtime condition: at least one tier must have been added.
    #[must_use]
    pub fn build(self) -> (router: Router<T>)
        requires
            self.route().lanes.len() > 0,
        ensures
            router.route() == self.route(),
            router.tiers() == self.tiers(),
            router.counters() == Seq::new(self.route().lanes.len(), |i: int| Counters::zero()),
    {
        proof {
            use_type_invariant(&self);
        }
        let router = Router { tiers: self.tiers, policy: self.policy };
        assert(router.counters() =~= Seq::new(self.route().lanes.len(), |i: int| Counters::zero()));
        router
    }
}

} // verus!
