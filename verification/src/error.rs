//! How routed operations fail.
use vstd::prelude::*;

verus! {

/// A tier failure as contracts speak of it.
#[verifier::ext_equal]
pub struct Failure<E> {
    /// Index of the failing tier (0 is topmost).
    pub tier: int,
    /// Diagnostic name of the failing tier.
    pub name: Seq<char>,
    /// What the tier reported.
    pub source: E,
}

/// One tier's failure, with the tier it came from.
#[derive(Debug)]
pub struct TierFailure<E> {
    tier: usize,
    tier_name: String,
    source: E,
}

impl<E> View for TierFailure<E> {
    type V = Failure<E>;

    closed spec fn view(&self) -> Failure<E> {
        Failure { tier: self.tier as int, name: self.tier_name@, source: self.source }
    }
}

impl<E> TierFailure<E> {
    /// Records that tier number `tier`, named `tier_name`, failed with `source`.
    pub fn new(tier: usize, tier_name: &str, source: E) -> (failure: Self)
        ensures
            failure@ == (Failure { tier: tier as int, name: tier_name@, source }),
    {
        TierFailure { tier, tier_name: tier_name.to_owned(), source }
    }

    /// Index of the failing tier (0 is topmost).
    pub fn tier(&self) -> (tier: usize)
        ensures
            tier == self@.tier,
    {
        self.tier
    }

    /// Diagnostic name of the failing tier.
    pub fn tier_name(&self) -> (name: &str)
        ensures
            name@ == self@.name,
    {
        self.tier_name.as_str()
    }

    /// What the tier reported.
    pub fn source(&self) -> (source: &E)
        ensures
            *source == self@.source,
    {
        &self.source
    }
}

/// The failures as contracts speak of them.
pub open spec fn failures_of<E>(failures: Seq<TierFailure<E>>) -> Seq<Failure<E>> {
    failures.map_values(|failure: TierFailure<E>| failure@)
}

/// A router error as contracts speak of it.
#[verifier::ext_equal]
pub enum Trouble<E> {
    /// One tier failed and the operation stopped there.
    Tier(Failure<E>),
    /// No tier held the key, but these failed.
    Inconclusive(Seq<Failure<E>>),
    /// These tiers did not carry out the operation.
    Partial(Seq<Failure<E>>),
    /// No tier can be written.
    ReadOnly,
}

/// Why a routed operation did not succeed.
#[derive(Debug)]
pub enum RouterError<E> {
    /// One tier failed and the policy aborts on the first failure.
    Tier(TierFailure<E>),
    /// There was no hit and at least one tier failed: absence is unconfirmed.
    Inconclusive(Vec<TierFailure<E>>),
    /// Some tiers failed to carry out an operation that every tier had to.
    Partial(Vec<TierFailure<E>>),
    /// A write found no tier that accepts writes.
    ReadOnly,
}

impl<E> View for RouterError<E> {
    type V = Trouble<E>;

    open spec fn view(&self) -> Trouble<E> {
        match self {
            RouterError::Tier(failure) => Trouble::Tier(failure@),
            RouterError::Inconclusive(failures) => Trouble::Inconclusive(failures_of(failures@)),
            RouterError::Partial(failures) => Trouble::Partial(failures_of(failures@)),
            RouterError::ReadOnly => Trouble::ReadOnly,
        }
    }
}

/// `failures_of` of one more failure.
pub proof fn lemma_failures_push<E>(failures: Seq<TierFailure<E>>, failure: TierFailure<E>)
    ensures
        failures_of(failures.push(failure)) == failures_of(failures).push(failure@),
{
    assert(failures_of(failures.push(failure)) =~= failures_of(failures).push(failure@));
}

} // verus!
