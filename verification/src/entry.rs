//! The entries of a map.

use std::borrow::Borrow;
use std::cmp::Ordering;
use vstd::prelude::*;
use vstd::std_specs::cmp::PartialEqSpec;
use vstd::std_specs::cmp::PartialEqSpecImpl;
use vstd::std_specs::cmp::PartialOrdSpec;
use vstd::std_specs::cmp::PartialOrdSpecImpl;

verus! {

/// A key with the value stored under it. Entries are compared by key alone.
pub struct Entry<K, V> {
    pub key: K,
    pub value: V,
}

impl<K, V> View for Entry<K, V> {
    type V = (K, V);

    open spec fn view(&self) -> (K, V) {
        (self.key, self.value)
    }
}

impl<K: PartialEq, V> PartialEq for Entry<K, V> {
    /// Whether the keys are equal.
    fn eq(&self, other: &Self) -> (r: bool) {
        self.key.eq(&other.key)
    }
}

impl<K: PartialEq, V> PartialEqSpecImpl for Entry<K, V> {
    open spec fn obeys_eq_spec() -> bool {
        K::obeys_eq_spec()
    }

    open spec fn eq_spec(&self, other: &Self) -> bool {
        self.key.eq_spec(&other.key)
    }
}

impl<K: Eq, V> Eq for Entry<K, V> {

}

impl<K: PartialOrd, V> PartialOrd for Entry<K, V> {
    /// How the keys compare.
    fn partial_cmp(&self, other: &Self) -> (r: Option<Ordering>) {
        self.key.partial_cmp(&other.key)
    }
}

impl<K: PartialOrd, V> PartialOrdSpecImpl for Entry<K, V> {
    open spec fn obeys_partial_cmp_spec() -> bool {
        K::obeys_partial_cmp_spec()
    }

    open spec fn partial_cmp_spec(&self, other: &Self) -> Option<Ordering> {
        self.key.partial_cmp_spec(&other.key)
    }
}

impl<K, V> Borrow<K> for Entry<K, V> {
    /// The key of the entry.
    fn borrow(&self) -> &K
        returns
            &self.key,
    {
        &self.key
    }
}

} // verus!
