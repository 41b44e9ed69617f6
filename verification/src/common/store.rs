//! The table that holds the cached entries: the concurrent hash map of the
//! `cht` crate, with what it holds as its view.

use std::hash::BuildHasher;
use std::hash::Hash;
use std::sync::Arc;
use vstd::prelude::*;
use vstd::std_specs::hash::{builds_valid_hashers, obeys_key_model};

verus! {

/// The segmented hash map of the `cht` crate.
#[verifier::external_type_specification]
#[verifier::external_body]
#[verifier::reject_recursive_types(K)]
#[verifier::reject_recursive_types(V)]
#[verifier::reject_recursive_types(S)]
pub struct ExSegmentedHashMap<K, V, S>(cht::SegmentedHashMap<K, V, S>);

/// A map from keys to entries. Nobody else holds the table, so it changes only
/// through the `&mut self` methods here.
#[verifier::reject_recursive_types(K)]
#[verifier::reject_recursive_types(T)]
#[verifier::reject_recursive_types(S)]
pub struct Store<K, T, S> {
    table: cht::SegmentedHashMap<Arc<K>, Arc<T>, S>,
    contents: Ghost<Map<K, T>>,
}

impl<K, T, S> View for Store<K, T, S> {
    type V = Map<K, T>;

    /// What the table holds.
    closed spec fn view(&self) -> Map<K, T> {
        self.contents@
    }
}

impl<K: Hash + Eq, T, S: BuildHasher> Store<K, T, S> {
    /// `cht::SegmentedHashMap::with_num_segments_capacity_and_hasher`: the new
    /// table is empty. The outside function panics where there is no segment,
    /// and where the buckets that it makes room for, twice the capacity rounded
    /// up to a power of two, cannot be addressed.
    #[verifier::external_body]
    pub(crate) fn with_num_segments_capacity_and_hasher(
        num_segments: usize,
        capacity: usize,
        build_hasher: S,
    ) -> (store: Self)
        requires
            0 < num_segments <= 64,
            capacity <= usize::MAX / 64,
        ensures
            store@ == (Map::<K, T>::empty()),
    {
        Store {
            table: cht::SegmentedHashMap::with_num_segments_capacity_and_hasher(
                num_segments,
                capacity,
                build_hasher,
            ),
            contents: Ghost(Map::empty()),
        }
    }

    /// `cht::SegmentedHashMap::get`: the entry of `key`, if there is one.
    #[verifier::external_body]
    pub(crate) fn get(&self, key: &K) -> (entry: Option<Arc<T>>)
        requires
            obeys_key_model::<K>(),
            builds_valid_hashers::<S>(),
        ensures
            match entry {
                Some(e) => self@.contains_key(*key) && *e == self@[*key],
                None => !self@.contains_key(*key),
            },
    {
        self.table.get(key)
    }

    /// `cht::SegmentedHashMap::insert_with_or_modify`: under a key that the
    /// table does not hold, puts what `on_insert` returns and returns `None`;
    /// under one that it holds, puts what `on_modify` makes of the entry there
    /// and returns that earlier entry.
    #[verifier::external_body]
    pub(crate) fn insert_with_or_modify<
        F: FnOnce() -> Arc<T>,
        G: Fn(&Arc<K>, &Arc<T>) -> Arc<T>,
    >(&mut self, key: Arc<K>, on_insert: F, on_modify: G) -> (previous: Option<Arc<T>>)
        requires
            obeys_key_model::<K>(),
            builds_valid_hashers::<S>(),
            on_insert.requires(()),
            forall|k: &Arc<K>, e: &Arc<T>|
                old(self)@.contains_key(*key) && **e == old(self)@[*key] && **k == *key
                    ==> #[trigger] on_modify.requires((k, e)),
        ensures
            match previous {
                None => !old(self)@.contains_key(*key) && (exists|e: Arc<T>|
                    #[trigger] on_insert.ensures((), e) && final(self)@ == old(self)@.insert(
                        *key,
                        *e,
                    )),
                Some(o) => old(self)@.contains_key(*key) && *o == old(self)@[*key] && (exists|
                    k: &Arc<K>,
                    e: Arc<T>,
                |
                    **k == *key && #[trigger] on_modify.ensures((k, &o), e) && final(self)@
                        == old(self)@.insert(*key, *e)),
            },
    {
        self.table.insert_with_or_modify(key, on_insert, on_modify)
    }

    /// `cht::SegmentedHashMap::remove`: takes the entry of `key` out and
    /// returns it, if there is one.
    #[verifier::external_body]
    pub(crate) fn remove(&mut self, key: &K) -> (entry: Option<Arc<T>>)
        requires
            obeys_key_model::<K>(),
            builds_valid_hashers::<S>(),
        ensures
            final(self)@ == old(self)@.remove(*key),
            match entry {
                Some(e) => old(self)@.contains_key(*key) && *e == old(self)@[*key],
                None => !old(self)@.contains_key(*key),
            },
    {
        self.table.remove(key)
    }

    /// `cht::SegmentedHashMap::len`: how many keys the table holds.
    #[verifier::external_body]
    pub(crate) fn len(&self) -> (n: usize)
        ensures
            n == self@.dom().len(),
    {
        self.table.len()
    }
}

} // verus!
