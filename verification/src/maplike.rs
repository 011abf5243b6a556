use vstd::prelude::*;
use std::collections::HashMap;

verus! {

broadcast use vstd::std_specs::hash::group_hash_axioms;

/// Read access to a table keyed by 128-bit identifiers. The base tables of
/// the graph and the staged views of open transactions both offer it, so
/// code that only reads (node evaluation, subscription refresh) can run
/// against either.
pub trait MapLike<V> {
    spec fn contents(&self) -> Map<u128, V>;

    /// What the lookup needs of its own representation.
    spec fn inv(&self) -> bool;

    fn get(&self, key: u128) -> (r: Option<&V>)
        requires
            self.inv(),
        ensures
            match r {
                Some(v) => self.contents().contains_key(key) && *v == self.contents()[key],
                None => !self.contents().contains_key(key),
            },
    ;

    fn contains(&self, key: u128) -> (r: bool)
        requires
            self.inv(),
        ensures
            r == self.contents().contains_key(key),
    ;
}

impl<V> MapLike<V> for HashMap<u128, V> {
    open spec fn contents(&self) -> Map<u128, V> {
        self@
    }

    open spec fn inv(&self) -> bool {
        true
    }

    fn get(&self, key: u128) -> (r: Option<&V>) {
        HashMap::get(self, &key)
    }

    fn contains(&self, key: u128) -> (r: bool) {
        HashMap::contains_key(self, &key)
    }
}

} // verus!
