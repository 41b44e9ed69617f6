//! The hashes by which keys are counted.

use std::collections::hash_map::RandomState;
use std::hash::BuildHasher;
use std::hash::Hash;
use std::hash::Hasher;
use vstd::prelude::*;
use vstd::std_specs::hash::{builds_valid_hashers, obeys_key_model};

verus! {

/// A hash builder, together with the hash that a fresh hasher of its gives of the keys
/// that it is fed with.
#[verifier::reject_recursive_types(K)]
#[verifier::reject_recursive_types(S)]
pub struct KeyHasher<K, S> {
    build_hasher: S,
    hashes: Ghost<spec_fn(Seq<K>) -> u64>,
}

/// A hasher, together with the keys that it was fed with, and the hash that it gives of
/// any keys.
#[verifier::reject_recursive_types(K)]
#[verifier::reject_recursive_types(H)]
pub struct FedHasher<K, H> {
    hasher: H,
    fed: Ghost<Seq<K>>,
    hashes: Ghost<spec_fn(Seq<K>) -> u64>,
}

impl<K: Hash, S: BuildHasher> KeyHasher<K, S> {
    /// The hash that a fresh hasher gives of the keys that it is fed with.
    pub closed spec fn hash_of_fed(&self) -> spec_fn(Seq<K>) -> u64 {
        self.hashes@
    }

    /// The hash of each key: what a fresh hasher gives that is fed with it.
    pub open spec fn hashes(&self) -> spec_fn(K) -> u64 {
        |key: K| (self.hash_of_fed())(seq![key])
    }

    /// `Clone::clone` of the hash builder. Nothing is said of the hashes that it
    /// gives: they are its own.
    #[verifier::external_body]
    pub(crate) fn with_clone_of(build_hasher: &S) -> (hasher: Self) where S: Clone {
        KeyHasher { build_hasher: build_hasher.clone(), hashes: Ghost(arbitrary()) }
    }

    /// `std::hash::BuildHasher::build_hasher`: a fresh hasher, fed with nothing yet. All
    /// hashers that one hash builder builds give the same hash of the same keys.
    #[verifier::external_body]
    fn build_hasher(&self) -> (hasher: FedHasher<K, S::Hasher>)
        requires
            obeys_key_model::<K>(),
            builds_valid_hashers::<S>(),
        ensures
            hasher.fed() == Seq::<K>::empty(),
            hasher.hash_of_fed() == self.hash_of_fed(),
    {
        FedHasher {
            hasher: self.build_hasher.build_hasher(),
            fed: Ghost(Seq::empty()),
            hashes: Ghost(arbitrary()),
        }
    }

    /// The hash of `key`: what a fresh hasher gives that is fed with it.
    pub fn hash(&self, key: &K) -> (hash: u64)
        requires
            obeys_key_model::<K>(),
            builds_valid_hashers::<S>(),
        ensures
            hash == (self.hashes())(*key),
    {
        let mut hasher = self.build_hasher();
        hasher.feed(key);
        assert(hasher.fed() =~= seq![*key]);
        hasher.finish()
    }
}

impl<K: Hash, H: Hasher> FedHasher<K, H> {
    /// The keys that the hasher was fed with.
    pub closed spec fn fed(&self) -> Seq<K> {
        self.fed@
    }

    /// The hash that the hasher gives of the keys that it is fed with.
    pub closed spec fn hash_of_fed(&self) -> spec_fn(Seq<K>) -> u64 {
        self.hashes@
    }

    /// `std::hash::Hash::hash`: feeds the hasher with `key`.
    #[verifier::external_body]
    fn feed(&mut self, key: &K)
        requires
            obeys_key_model::<K>(),
        ensures
            final(self).fed() == old(self).fed().push(*key),
            final(self).hash_of_fed() == old(self).hash_of_fed(),
    {
        key.hash(&mut self.hasher)
    }

    /// `std::hash::Hasher::finish`: the hash of what the hasher was fed with.
    #[verifier::external_body]
    fn finish(&self) -> (hash: u64)
        ensures
            hash == (self.hash_of_fed())(self.fed()),
    {
        self.hasher.finish()
    }
}

/// `RandomState::default`: a hash builder with keys of its own. Nothing is said of
/// them: they are random.
#[verifier::external_body]
pub(crate) fn random_state() -> (state: RandomState) {
    RandomState::default()
}

} // verus!
