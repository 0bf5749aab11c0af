//! Maps from locals to locals, held in a `hashbrown` table.

use hashbrown::HashMap;
use vstd::prelude::*;

verus! {

/// A table that sends some locals to other locals.
///
/// The table itself is a `hashbrown::HashMap`, which the verifier does not look into; its type has
/// an allocator for a parameter, which keeps it from being declared by itself. What the table
/// holds is named by [`map_entries`], and each operation below is a call of the `hashbrown`
/// method of the same name whose effect on the entries is believed as stated.
#[verifier::external_body]
pub struct LocalMap {
    table: HashMap<u32, u32>,
}

/// The entries that a table holds: the keys with the value stored under each.
pub uninterp spec fn map_entries(map: LocalMap) -> Map<u32, u32>;

impl View for LocalMap {
    type V = Map<u32, u32>;

    open spec fn view(&self) -> Map<u32, u32> {
        map_entries(*self)
    }
}

impl Default for LocalMap {
    fn default() -> (map: LocalMap)
        ensures
            map@ == (Map::<u32, u32>::empty()),
    {
        LocalMap::new()
    }
}

impl LocalMap {
    /// `hashbrown::HashMap::new`: a table without entries.
    #[verifier::external_body]
    pub(crate) fn new() -> (map: LocalMap)
        ensures
            map_entries(map) == (Map::<u32, u32>::empty()),
    {
        LocalMap { table: HashMap::new() }
    }

    /// `hashbrown::HashMap::get`, with the value copied out: the value stored under `key`, or
    /// `None` where there is no such entry.
    #[verifier::external_body]
    pub(crate) fn get(&self, key: u32) -> (found: Option<u32>)
        ensures
            found == map_entries(*self).get(key),
    {
        self.table.get(&key).copied()
    }

    /// `hashbrown::HashMap::insert`: stores `value` under `key`, replacing what was stored there,
    /// and hands back the value that was replaced.
    #[verifier::external_body]
    pub(crate) fn insert(&mut self, key: u32, value: u32) -> (previous: Option<u32>)
        ensures
            map_entries(*final(self)) == map_entries(*old(self)).insert(key, value),
            previous == map_entries(*old(self)).get(key),
    {
        self.table.insert(key, value)
    }

    /// `hashbrown::HashMap::remove`: drops the entry of `key`, if there is one, and hands back the
    /// value that it held.
    #[verifier::external_body]
    pub(crate) fn remove(&mut self, key: u32) -> (removed: Option<u32>)
        ensures
            map_entries(*final(self)) == map_entries(*old(self)).remove(key),
            removed == map_entries(*old(self)).get(key),
    {
        self.table.remove(&key)
    }

    /// `hashbrown::HashMap::clear`: drops every entry.
    #[verifier::external_body]
    pub(crate) fn clear(&mut self)
        ensures
            map_entries(*final(self)) == (Map::<u32, u32>::empty()),
    {
        self.table.clear();
    }

    /// `hashbrown::HashMap::is_empty`: whether there is no entry.
    #[verifier::external_body]
    pub(crate) fn is_empty(&self) -> (empty: bool)
        ensures
            empty == (map_entries(*self) == Map::<u32, u32>::empty()),
    {
        self.table.is_empty()
    }

    /// `hashbrown::HashMap::keys`, copied into a vector: every key once. The order is that of the
    /// table, of which nothing is said.
    #[verifier::external_body]
    pub(crate) fn keys(&self) -> (keys: Vec<u32>)
        ensures
            keys@.no_duplicates(),
            forall|key: u32|
                #[trigger] keys@.contains(key) <==> map_entries(*self).dom().contains(key),
    {
        self.table.keys().copied().collect()
    }
}

} // verus!
