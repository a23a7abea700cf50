//! Maps from integer keys to values.
use vstd::prelude::*;
use std::collections::BTreeMap;

verus! {

/// A map from integer keys.
#[derive(Clone, Debug)]
pub struct KeyMap<V> {
    entries: BTreeMap<u64, V>,
}

impl<V> View for KeyMap<V> {
    type V = Map<u64, V>;

    closed spec fn view(&self) -> Map<u64, V> {
        self.entries@
    }
}

impl<V> KeyMap<V> {
    /// A map without keys.
    pub fn new() -> (r: Self)
        ensures
            r@ == Map::<u64, V>::empty(),
    {
        KeyMap { entries: BTreeMap::new() }
    }

    /// Maps a key to a value, in place of what it was mapped to.
    pub fn insert(&mut self, key: u64, value: V)
        ensures
            final(self)@ == old(self)@.insert(key, value),
    {
        let _ = self.entries.insert(key, value);
    }

    /// The value of a key.
    pub fn get(&self, key: u64) -> (r: Option<&V>)
        ensures
            match r {
                Some(value) => self@.contains_key(key) && *value == self@[key],
                None => !self@.contains_key(key),
            },
    {
        self.entries.get(&key)
    }

    /// How many keys are mapped.
    pub fn len(&self) -> (r: usize)
        ensures
            r == self@.dom().len(),
    {
        self.entries.len()
    }
}

} // verus!
