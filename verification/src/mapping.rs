//! The mapping from outward names to values that travels between device
//! and cloud.

use vstd::hash_map::StringHashMap;
use vstd::prelude::*;

verus! {

/// A mapping from names to values of the generic value type `V`. A name
/// occurs at most once; inserting under a name that is there replaces the
/// value.
#[verifier::reject_recursive_types(V)]
pub struct Mapping<V> {
    entries: StringHashMap<V>,
}

impl<V> View for Mapping<V> {
    type V = Map<Seq<char>, V>;

    closed spec fn view(&self) -> Map<Seq<char>, V> {
        self.entries@
    }
}

impl<V> Mapping<V> {
    /// A mapping without entries.
    pub fn new() -> (res: Self)
        ensures
            res@ == Map::<Seq<char>, V>::empty(),
    {
        Mapping { entries: StringHashMap::new() }
    }

    /// Sets the value under `name`.
    pub fn insert(&mut self, name: String, value: V)
        ensures
            final(self)@ == old(self)@.insert(name@, value),
    {
        self.entries.insert(name, value);
    }

    /// The value under `name`, if there is one.
    pub fn get(&self, name: &str) -> (res: Option<&V>)
        ensures
            match res {
                Some(value) => self@.contains_key(name@) && *value == self@[name@],
                None => !self@.contains_key(name@),
            },
    {
        self.entries.get(name)
    }

    /// Whether there is a value under `name`.
    pub fn contains_key(&self, name: &str) -> (res: bool)
        ensures
            res == self@.contains_key(name@),
    {
        self.entries.contains_key(name)
    }

    /// The number of entries.
    pub fn len(&self) -> (res: usize)
        ensures
            res == self@.len(),
    {
        self.entries.len()
    }

    /// Whether the mapping has no entry.
    pub fn is_empty(&self) -> (res: bool)
        ensures
            res == self@.is_empty(),
    {
        self.entries.is_empty()
    }
}

} // verus!
