use vstd::prelude::*;

use crate::stats::StatAccumulator;

verus! {

/// What a `StatTable` holds: the statistics stored under each key.
pub uninterp spec fn table_contents(t: StatTable) -> Map<Seq<u8>, StatAccumulator>;

/// A hash table from keys to statistics, kept in a `hashbrown::HashMap`.
///
/// hashbrown's map carries an allocator parameter whose trait bound is not
/// exported, so the map is held in this opaque struct and reached only
/// through the methods below.
#[verifier::external_body]
pub struct StatTable {
    inner: hashbrown::HashMap<Vec<u8>, StatAccumulator>,
}

impl View for StatTable {
    type V = Map<Seq<u8>, StatAccumulator>;

    open spec fn view(&self) -> Map<Seq<u8>, StatAccumulator> {
        table_contents(*self)
    }
}

impl StatTable {
    /// Relies on hashbrown::HashMap::new: a new map holds no entry.
    #[verifier::external_body]
    pub fn new() -> (r: StatTable)
        ensures
            table_contents(r).dom() == Set::<Seq<u8>>::empty(),
    {
        StatTable { inner: hashbrown::HashMap::new() }
    }

    /// Relies on hashbrown::HashMap::get: the value stored under the key, if any.
    #[verifier::external_body]
    pub fn get(&self, key: &[u8]) -> (r: Option<StatAccumulator>)
        ensures
            r == (if table_contents(*self).contains_key(key@) {
                Some(table_contents(*self)[key@])
            } else {
                None::<StatAccumulator>
            }),
    {
        self.inner.get(key).copied()
    }

    /// Relies on hashbrown::EntryRef::insert: stores the value under the key,
    /// replacing the one stored there before, if any.
    #[verifier::external_body]
    pub fn set(&mut self, key: &[u8], value: StatAccumulator)
        ensures
            table_contents(*final(self)) == table_contents(*old(self)).insert(key@, value),
    {
        self.inner.entry_ref(key).insert(value);
    }

    /// Relies on hashbrown::HashMap::keys: every key, each once, in no
    /// particular order.
    #[verifier::external_body]
    pub fn keys(&self) -> (r: Vec<Vec<u8>>)
        ensures
            forall|i: int| 0 <= i < r@.len() ==> #[trigger] table_contents(*self).contains_key(r@[i]@),
            forall|k: Seq<u8>|
                #[trigger] table_contents(*self).contains_key(k) ==> exists|i: int|
                    0 <= i < r@.len() && r@[i]@ == k,
            forall|i: int, j: int| 0 <= i < j < r@.len() ==> r@[i]@ != r@[j]@,
    {
        self.inner.keys().cloned().collect()
    }

    /// Relies on hashbrown::HashMap::into_iter: every entry, each once, in no
    /// particular order.
    #[verifier::external_body]
    pub fn into_entries(self) -> (r: Vec<(Vec<u8>, StatAccumulator)>)
        ensures
            forall|i: int|
                0 <= i < r@.len() ==> #[trigger] table_contents(self).contains_key(r@[i].0@) && table_contents(self)[r@[i].0@]
                    == r@[i].1,
            forall|k: Seq<u8>|
                #[trigger] table_contents(self).contains_key(k) ==> exists|i: int|
                    0 <= i < r@.len() && r@[i].0@ == k,
            forall|i: int, j: int| 0 <= i < j < r@.len() ==> r@[i].0@ != r@[j].0@,
    {
        self.inner.into_iter().collect()
    }
}

} // verus!
