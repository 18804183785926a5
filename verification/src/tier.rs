//! What a tier is to the rest of the library.
use vstd::prelude::*;

verus! {

/// Entries a write pushed out of a tier, in the order they left it.
pub type Displaced<K, V> = Vec<(K, V)>;

/// One page of a key listing.
#[derive(Debug)]
pub struct Page<K, C> {
    /// The keys of this page, in listing order.
    pub keys: Vec<K>,
    /// Where the next page starts, or `None` after the last page.
    pub next: Option<C>,
}

/// A storage medium that answers for keys.
pub trait Tier {
    /// Keys the tier is asked for.
    type Key;

    /// Values the tier holds.
    type Value;

    /// How the tier fails.
    type Error;

    /// The tier's diagnostic name.
    fn name(&self) -> (name: &str);
}

/// Whether `tier` gives `name` as its name.
pub open spec fn named<T: Tier>(tier: T, name: Seq<char>) -> bool {
    exists|given: &str| #[trigger] call_ensures(T::name, (&tier,), given) && given@ == name
}

} // verus!
