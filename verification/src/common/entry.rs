//! What the cache holds for a key, and the operations that wait to be applied.

use std::sync::Arc;
use vstd::prelude::*;

verus! {

/// What the store holds for a key: the value, and the slot of the record of the key's
/// stay in the cache.
pub struct ValueEntry<V> {
    pub value: Arc<V>,
    pub slot: usize,
}

/// What is known of an entry, from the insertion of the key until its removal,
/// whatever values come to be under the key meanwhile. Its places in the queues go
/// by its slot.
pub struct Record<K> {
    pub key: Arc<K>,
    pub hash: u64,
    /// When the entry was last read or written. Kept where the cache has a time to
    /// idle.
    pub last_accessed: Option<u64>,
    /// When the entry was last written. Kept where the cache has a time to live.
    pub last_modified: Option<u64>,
}

/// A read that waits to be applied.
#[derive(Clone, Copy, PartialEq, Eq, Structural)]
pub enum ReadOp {
    /// The hash of the key, and the slot of the entry that was read.
    Hit(u64, usize),
    /// The hash of the key.
    Miss(u64),
}

/// A write that waits to be applied, with the slot of the entry.
#[derive(Clone, Copy, PartialEq, Eq, Structural)]
pub enum WriteOp {
    Insert(usize),
    Update(usize),
    Remove(usize),
}

impl<K> Record<K> {
    /// The record after an access at `now`.
    pub open spec fn accessed(self, now: u64) -> Self {
        Record {
            last_accessed: if self.last_accessed is Some {
                Some(now)
            } else {
                None
            },
            ..self
        }
    }

    /// The record after a write at `now`, which is an access too.
    pub open spec fn written(self, now: u64) -> Self {
        Record {
            last_modified: if self.last_modified is Some {
                Some(now)
            } else {
                None
            },
            ..self.accessed(now)
        }
    }

    /// An access is noted where the record keeps the time of the last use, and changes
    /// nothing else; a write is noted there too, and where the record keeps the time of the
    /// last write.
    pub proof fn law_use_is_noted(self, now: u64)
        ensures
            self.accessed(now).key == self.key,
            self.accessed(now).hash == self.hash,
            self.accessed(now).last_modified == self.last_modified,
            self.last_accessed is Some ==> self.accessed(now).last_accessed == Some(now),
            self.last_accessed is None ==> self.accessed(now).last_accessed is None,
            self.written(now).key == self.key,
            self.written(now).hash == self.hash,
            self.last_accessed is Some ==> self.written(now).last_accessed == Some(now),
            self.last_accessed is None ==> self.written(now).last_accessed is None,
            self.last_modified is Some ==> self.written(now).last_modified == Some(now),
            self.last_modified is None ==> self.written(now).last_modified is None,
    {
    }

    /// Notes an access at `now`.
    pub fn set_last_accessed(&mut self, now: u64)
        ensures
            *final(self) == old(self).accessed(now),
    {
        if self.last_accessed.is_some() {
            self.last_accessed = Some(now);
        }
    }

    /// Notes a write at `now`.
    pub fn set_last_modified(&mut self, now: u64)
        ensures
            *final(self) == old(self).written(now),
    {
        self.set_last_accessed(now);
        if self.last_modified.is_some() {
            self.last_modified = Some(now);
        }
    }
}

impl WriteOp {
    /// The slot of the entry that the operation speaks of.
    pub open spec fn slot(self) -> usize {
        match self {
            WriteOp::Insert(slot) => slot,
            WriteOp::Update(slot) => slot,
            WriteOp::Remove(slot) => slot,
        }
    }

    /// A write speaks of the slot that it was made with.
    pub proof fn law_slot(slot: usize)
        ensures
            WriteOp::Insert(slot).slot() == slot,
            WriteOp::Update(slot).slot() == slot,
            WriteOp::Remove(slot).slot() == slot,
    {
    }
}

} // verus!
