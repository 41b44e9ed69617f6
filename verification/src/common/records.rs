//! The records of the entries, each under a slot number. A slot is used again
//! after its record was released.

use crate::common::entry::Record;
use vstd::prelude::*;

verus! {

/// A table of records with a list of its empty slots.
#[verifier::reject_recursive_types(K)]
pub struct Records<K> {
    cells: Vec<Option<Record<K>>>,
    free: Vec<usize>,
}

impl<K> View for Records<K> {
    type V = Map<usize, Record<K>>;

    /// The records by slot.
    closed spec fn view(&self) -> Map<usize, Record<K>> {
        Map::new(
            |slot: usize| slot < self.cells@.len() && self.cells@[slot as int] is Some,
            |slot: usize| self.cells@[slot as int]->Some_0,
        )
    }
}

impl<K> Records<K> {
    /// Whether the free list names empty slots, none of them twice.
    pub closed spec fn wf(&self) -> bool {
        &&& self.free@.no_duplicates()
        &&& forall|i: int|
            0 <= i < self.free@.len() ==> (#[trigger] self.free@[i]) < self.cells@.len()
                && self.cells@[self.free@[i] as int] is None
    }

    /// The slot that the next record gets.
    pub closed spec fn vacant_slot(&self) -> usize {
        if self.free@.len() > 0 {
            self.free@.last()
        } else {
            self.cells@.len() as usize
        }
    }

    /// Every slot has a successor.
    pub proof fn lemma_slots(&self)
        ensures
            forall|slot: usize| #[trigger] self@.contains_key(slot) ==> slot < usize::MAX,
    {
        assert(self.cells@.len() == self.cells.len());
    }

    /// An empty table.
    pub fn new() -> (records: Self)
        ensures
            records.wf(),
            records@ == (Map::<usize, Record<K>>::empty()),
    {
        let records = Records { cells: Vec::new(), free: Vec::new() };
        assert(records@ =~= Map::<usize, Record<K>>::empty());
        records
    }

    /// The slot that the next record will get.
    pub fn vacant(&self) -> (slot: usize)
        requires
            self.wf(),
        ensures
            slot == self.vacant_slot(),
            !self@.contains_key(slot),
    {
        let n: usize = self.free.len();
        if n > 0 {
            self.free[n - 1]
        } else {
            self.cells.len()
        }
    }

    /// Puts `record` into the vacant slot.
    pub fn allocate(&mut self, record: Record<K>)
        requires
            old(self).wf(),
        ensures
            final(self).wf(),
            final(self)@ == old(self)@.insert(old(self).vacant_slot(), record),
    {
        let ghost slot = self.vacant_slot();
        assert(self.cells@.len() == self.cells.len());
        match self.free.pop() {
            Some(slot) => {
                self.cells.set(slot, Some(record));
            },
            None => {
                self.cells.push(Some(record));
            },
        }
        assert(self@ =~= old(self)@.insert(slot, record));
    }

    /// The record at `slot`.
    pub fn get(&self, slot: usize) -> (record: Option<&Record<K>>)
        ensures
            match record {
                Some(r) => self@.contains_key(slot) && *r == self@[slot],
                None => !self@.contains_key(slot),
            },
    {
        if slot < self.cells.len() {
            self.cells[slot].as_ref()
        } else {
            None
        }
    }

    /// Notes an access of the record at `slot`.
    pub fn set_last_accessed(&mut self, slot: usize, now: u64)
        requires
            old(self).wf(),
            old(self)@.contains_key(slot),
        ensures
            final(self).wf(),
            final(self)@ == old(self)@.insert(slot, old(self)@[slot].accessed(now)),
    {
        if let Some(record) = &mut self.cells[slot] {
            record.set_last_accessed(now);
        }
        assert(self@ =~= old(self)@.insert(slot, old(self)@[slot].accessed(now)));
    }

    /// Notes a write of the entry of the record at `slot`.
    pub fn set_last_modified(&mut self, slot: usize, now: u64)
        requires
            old(self).wf(),
            old(self)@.contains_key(slot),
        ensures
            final(self).wf(),
            final(self)@ == old(self)@.insert(slot, old(self)@[slot].written(now)),
    {
        if let Some(record) = &mut self.cells[slot] {
            record.set_last_modified(now);
        }
        assert(self@ =~= old(self)@.insert(slot, old(self)@[slot].written(now)));
    }

    /// Drops the record at `slot`, if there is one.
    pub fn release(&mut self, slot: usize)
        requires
            old(self).wf(),
        ensures
            final(self).wf(),
            final(self)@ == old(self)@.remove(slot),
    {
        if slot < self.cells.len() && self.cells[slot].is_some() {
            self.cells.set(slot, None);
            self.free.push(slot);
        }
        assert(self@ =~= old(self)@.remove(slot));
    }
}

} // verus!
