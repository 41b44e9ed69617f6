//! The queues that say which entries go first: three regions in the order of
//! access, and one queue in the order of writing.

use crate::common::deque::{
    lemma_moved_to_back, lemma_pop_is_without, lemma_without, moved_to_back, without, Deque,
};
use vstd::prelude::*;

verus! {

/// The regions of the access order.
#[derive(Clone, Copy, PartialEq, Eq, Structural)]
pub enum CacheRegion {
    Window,
    MainProbation,
    MainProtected,
}

/// What the queues hold, each front to back.
#[verifier::ext_equal]
pub struct DequesState {
    pub window: Seq<usize>,
    pub probation: Seq<usize>,
    pub protected: Seq<usize>,
    pub write_order: Seq<usize>,
}

impl DequesState {
    /// Four empty queues.
    pub open spec fn empty() -> Self {
        DequesState {
            window: Seq::empty(),
            probation: Seq::empty(),
            protected: Seq::empty(),
            write_order: Seq::empty(),
        }
    }

    /// Whether no queue holds a slot twice.
    pub open spec fn distinct(self) -> bool {
        &&& self.window.no_duplicates()
        &&& self.probation.no_duplicates()
        &&& self.protected.no_duplicates()
        &&& self.write_order.no_duplicates()
    }

    /// Whether a queue of the access order holds `slot`.
    pub open spec fn contains_ao(self, slot: usize) -> bool {
        self.window.contains(slot) || self.probation.contains(slot) || self.protected.contains(slot)
    }

    /// Whether some queue holds `slot`.
    pub open spec fn contains(self, slot: usize) -> bool {
        self.contains_ao(slot) || self.write_order.contains(slot)
    }

    /// The queue of a region.
    pub open spec fn region(self, region: CacheRegion) -> Seq<usize> {
        match region {
            CacheRegion::Window => self.window,
            CacheRegion::MainProbation => self.probation,
            CacheRegion::MainProtected => self.protected,
        }
    }

    /// The queues after `slot` came to the back of the probation region.
    pub open spec fn pushed_ao(self, slot: usize) -> Self {
        DequesState { probation: self.probation.push(slot), ..self }
    }

    /// The queues after `slot` came to the back of the write order.
    pub open spec fn pushed_wo(self, slot: usize) -> Self {
        DequesState { write_order: self.write_order.push(slot), ..self }
    }

    /// The queues after `slot` moved to the back of its region.
    pub open spec fn moved_ao(self, slot: usize) -> Self {
        DequesState {
            window: moved_to_back(self.window, slot),
            probation: moved_to_back(self.probation, slot),
            protected: moved_to_back(self.protected, slot),
            ..self
        }
    }

    /// The queues after `slot` moved to the back of the write order.
    pub open spec fn moved_wo(self, slot: usize) -> Self {
        DequesState { write_order: moved_to_back(self.write_order, slot), ..self }
    }

    /// The queues after `slot` left its region.
    pub open spec fn without_ao(self, slot: usize) -> Self {
        DequesState {
            window: without(self.window, slot),
            probation: without(self.probation, slot),
            protected: without(self.protected, slot),
            ..self
        }
    }

    /// The queues after `slot` left the write order.
    pub open spec fn without_wo(self, slot: usize) -> Self {
        DequesState { write_order: without(self.write_order, slot), ..self }
    }

    /// The queues after `slot` left them all.
    pub open spec fn unlinked(self, slot: usize) -> Self {
        self.without_ao(slot).without_wo(slot)
    }

    /// The queues after the front of a region left it.
    pub open spec fn popped_ao(self, region: CacheRegion) -> Self {
        match region {
            CacheRegion::Window => DequesState { window: self.window.drop_first(), ..self },
            CacheRegion::MainProbation => DequesState {
                probation: self.probation.drop_first(),
                ..self
            },
            CacheRegion::MainProtected => DequesState {
                protected: self.protected.drop_first(),
                ..self
            },
        }
    }

    /// The queues after the front of the write order left it.
    pub open spec fn popped_wo(self) -> Self {
        DequesState { write_order: self.write_order.drop_first(), ..self }
    }

    /// Whether each slot in these queues is in the same queues of `other`.
    pub open spec fn within(self, other: Self) -> bool {
        &&& forall|x: usize| #[trigger] self.window.contains(x) ==> other.window.contains(x)
        &&& forall|x: usize| #[trigger] self.probation.contains(x) ==> other.probation.contains(x)
        &&& forall|x: usize| #[trigger] self.protected.contains(x) ==> other.protected.contains(x)
        &&& forall|x: usize|
            #[trigger] self.write_order.contains(x) ==> other.write_order.contains(x)
    }

    /// What comes to a queue comes to its back; what leaves from the front leaves the rest;
    /// and no other queue changes.
    pub proof fn law_back_and_front(self, slot: usize)
        ensures
            self.pushed_ao(slot) == (DequesState {
                probation: self.probation + seq![slot],
                ..self
            }),
            self.pushed_wo(slot) == (DequesState {
                write_order: self.write_order + seq![slot],
                ..self
            }),
            self.popped_ao(CacheRegion::Window) == (DequesState {
                window: self.window.skip(1),
                ..self
            }) || self.window.len() == 0,
            self.popped_ao(CacheRegion::MainProbation) == (DequesState {
                probation: self.probation.skip(1),
                ..self
            }) || self.probation.len() == 0,
            self.popped_ao(CacheRegion::MainProtected) == (DequesState {
                protected: self.protected.skip(1),
                ..self
            }) || self.protected.len() == 0,
            self.popped_wo() == (DequesState { write_order: self.write_order.skip(1), ..self })
                || self.write_order.len() == 0,
            self.region(CacheRegion::Window) == self.window,
            self.region(CacheRegion::MainProbation) == self.probation,
            self.region(CacheRegion::MainProtected) == self.protected,
    {
        assert(self.probation.push(slot) =~= self.probation + seq![slot]);
        assert(self.write_order.push(slot) =~= self.write_order + seq![slot]);
        assert(self.window.len() > 0 ==> self.window.drop_first() =~= self.window.skip(1));
        assert(self.probation.len() > 0 ==> self.probation.drop_first() =~= self.probation.skip(1));
        assert(self.protected.len() > 0 ==> self.protected.drop_first() =~= self.protected.skip(1));
        assert(self.write_order.len() > 0 ==> self.write_order.drop_first()
            =~= self.write_order.skip(1));
    }

    /// A slot that moves in its region, or leaves it, stays where it is in the write order,
    /// and the other way round; and where it is no member, nothing changes.
    pub proof fn law_orders_are_apart(self, slot: usize)
        ensures
            self.moved_ao(slot).write_order == self.write_order,
            self.without_ao(slot).write_order == self.write_order,
            self.moved_wo(slot) == (DequesState {
                write_order: self.moved_wo(slot).write_order,
                ..self
            }),
            self.without_wo(slot) == (DequesState {
                write_order: self.without_wo(slot).write_order,
                ..self
            }),
            !self.contains_ao(slot) ==> self.moved_ao(slot) == self,
            !self.contains_ao(slot) ==> self.without_ao(slot) == self,
            !self.write_order.contains(slot) ==> self.moved_wo(slot) == self,
            !self.write_order.contains(slot) ==> self.without_wo(slot) == self,
            self.contains(slot) <==> {
                ||| self.window.contains(slot)
                ||| self.probation.contains(slot)
                ||| self.protected.contains(slot)
                ||| self.write_order.contains(slot)
            },
            self.probation.contains(slot) ==> self.moved_ao(slot).probation
                == self.probation.remove(self.probation.index_of(slot)).push(slot)
                && self.without_ao(slot).probation == self.probation.remove(
                self.probation.index_of(slot),
            ),
            self.write_order.contains(slot) ==> self.moved_wo(slot).write_order
                == self.write_order.remove(self.write_order.index_of(slot)).push(slot)
                && self.without_wo(slot).write_order == self.write_order.remove(
                self.write_order.index_of(slot),
            ),
    {
    }

    /// Moving a slot changes the order only.
    pub proof fn lemma_moved(self, slot: usize)
        requires
            self.distinct(),
        ensures
            self.moved_ao(slot).distinct(),
            self.moved_ao(slot).within(self),
            self.within(self.moved_ao(slot)),
            self.moved_wo(slot).distinct(),
            self.moved_wo(slot).within(self),
            self.within(self.moved_wo(slot)),
    {
        lemma_moved_to_back(self.window, slot);
        lemma_moved_to_back(self.probation, slot);
        lemma_moved_to_back(self.protected, slot);
        lemma_moved_to_back(self.write_order, slot);
    }

    /// Taking a slot out of the queues leaves the others where they were.
    pub proof fn lemma_unlinked(self, slot: usize)
        requires
            self.distinct(),
        ensures
            self.without_ao(slot).distinct(),
            self.without_ao(slot).within(self),
            !self.without_ao(slot).contains_ao(slot),
            self.unlinked(slot).distinct(),
            self.unlinked(slot).within(self),
            !self.unlinked(slot).contains(slot),
            forall|x: usize|
                x != slot ==> (#[trigger] self.without_ao(slot).contains(x) <==> self.contains(x)),
            forall|x: usize|
                x != slot ==> (#[trigger] self.unlinked(slot).contains(x) <==> self.contains(x)),
    {
        lemma_without(self.window, slot);
        lemma_without(self.probation, slot);
        lemma_without(self.protected, slot);
        lemma_without(self.write_order, slot);
    }

    /// Taking the front of a queue out leaves the others where they were.
    pub proof fn lemma_popped(self, region: CacheRegion)
        requires
            self.distinct(),
        ensures
            self.region(region).len() > 0 ==> {
                &&& self.popped_ao(region).distinct()
                &&& self.popped_ao(region).within(self)
                &&& forall|x: usize|
                    x != self.region(region)[0] ==> (#[trigger] self.popped_ao(region).contains(x)
                        <==> self.contains(x))
            },
            self.write_order.len() > 0 ==> {
                &&& self.popped_wo().distinct()
                &&& self.popped_wo().within(self)
                &&& forall|x: usize|
                    x != self.write_order[0] ==> (#[trigger] self.popped_wo().contains(x)
                        <==> self.contains(x))
            },
    {
        let s = self.region(region);
        if s.len() > 0 {
            lemma_pop_is_without(s);
            lemma_without(s, s[0]);
        }
        if self.write_order.len() > 0 {
            lemma_pop_is_without(self.write_order);
            lemma_without(self.write_order, self.write_order[0]);
        }
    }

    /// Pushing a slot adds it and nothing else.
    pub proof fn lemma_pushed(self, slot: usize)
        requires
            self.distinct(),
        ensures
            !self.probation.contains(slot) ==> self.pushed_ao(slot).distinct(),
            !self.write_order.contains(slot) ==> self.pushed_wo(slot).distinct(),
            self.pushed_ao(slot).contains(slot),
            self.pushed_wo(slot).contains(slot),
            self.within(self.pushed_ao(slot)),
            self.within(self.pushed_wo(slot)),
            forall|x: usize|
                x != slot ==> (#[trigger] self.pushed_ao(slot).contains(x) <==> self.contains(x)),
            forall|x: usize|
                x != slot ==> (#[trigger] self.pushed_wo(slot).contains(x) <==> self.contains(x)),
    {
        lemma_push(self.probation, slot);
        lemma_push(self.write_order, slot);
    }
}

/// A pushed sequence holds what it held, and the new last member.
proof fn lemma_push(s: Seq<usize>, slot: usize)
    requires
        s.no_duplicates(),
    ensures
        !s.contains(slot) ==> s.push(slot).no_duplicates(),
        s.push(slot).contains(slot),
        forall|x: usize| #[trigger] s.contains(x) ==> s.push(slot).contains(x),
        forall|x: usize| x != slot ==> (#[trigger] s.push(slot).contains(x) <==> s.contains(x)),
{
    let t = s.push(slot);
    assert(t[s.len() as int] == slot);
    assert forall|x: usize| #[trigger] s.contains(x) implies t.contains(x) by {
        assert(t[s.index_of(x)] == x);
    }
    assert forall|x: usize| x != slot implies (#[trigger] t.contains(x) <==> s.contains(x)) by {
        if s.contains(x) {
            assert(t[s.index_of(x)] == x);
        }
        if t.contains(x) {
            assert(s[t.index_of(x)] == x);
        }
    }
}

/// The queues.
pub struct Deques {
    window: Deque,
    probation: Deque,
    protected: Deque,
    write_order: Deque,
}

impl View for Deques {
    type V = DequesState;

    closed spec fn view(&self) -> DequesState {
        DequesState {
            window: self.window@,
            probation: self.probation@,
            protected: self.protected@,
            write_order: self.write_order@,
        }
    }
}

impl Deques {
    /// Whether each queue is well formed.
    pub closed spec fn wf(&self) -> bool {
        &&& self.window.wf()
        &&& self.probation.wf()
        &&& self.protected.wf()
        &&& self.write_order.wf()
    }

    /// Four empty queues.
    pub fn new() -> (deques: Self)
        ensures
            deques.wf(),
            deques@ == DequesState::empty(),
    {
        Deques {
            window: Deque::new(),
            probation: Deque::new(),
            protected: Deque::new(),
            write_order: Deque::new(),
        }
    }

    /// Whether some queue holds `slot`.
    pub fn contains(&self, slot: usize) -> (member: bool)
        requires
            self.wf(),
        ensures
            member == self@.contains(slot),
    {
        self.window.contains(slot) || self.probation.contains(slot) || self.protected.contains(slot)
            || self.write_order.contains(slot)
    }

    /// The front of a region.
    pub fn peek_front_ao(&self, region: CacheRegion) -> (front: Option<usize>)
        requires
            self.wf(),
        ensures
            front == (if self@.region(region).len() == 0 {
                None
            } else {
                Some(self@.region(region)[0])
            }),
    {
        match region {
            CacheRegion::Window => self.window.peek_front(),
            CacheRegion::MainProbation => self.probation.peek_front(),
            CacheRegion::MainProtected => self.protected.peek_front(),
        }
    }

    /// The front of the write order.
    pub fn peek_front_wo(&self) -> (front: Option<usize>)
        requires
            self.wf(),
        ensures
            front == (if self@.write_order.len() == 0 {
                None
            } else {
                Some(self@.write_order[0])
            }),
    {
        self.write_order.peek_front()
    }

    /// Puts `slot` at the back of the probation region.
    pub fn push_back_ao(&mut self, slot: usize)
        requires
            old(self).wf(),
            !old(self)@.probation.contains(slot),
            slot < usize::MAX,
        ensures
            final(self).wf(),
            final(self)@ == old(self)@.pushed_ao(slot),
    {
        self.probation.push_back(slot);
    }

    /// Puts `slot` at the back of the write order.
    pub fn push_back_wo(&mut self, slot: usize)
        requires
            old(self).wf(),
            !old(self)@.write_order.contains(slot),
            slot < usize::MAX,
        ensures
            final(self).wf(),
            final(self)@ == old(self)@.pushed_wo(slot),
    {
        self.write_order.push_back(slot);
    }

    /// Moves `slot` to the back of its region.
    pub fn move_to_back_ao(&mut self, slot: usize)
        requires
            old(self).wf(),
        ensures
            final(self).wf(),
            final(self)@ == old(self)@.moved_ao(slot),
    {
        self.window.move_to_back(slot);
        self.probation.move_to_back(slot);
        self.protected.move_to_back(slot);
    }

    /// Moves `slot` to the back of the write order.
    pub fn move_to_back_wo(&mut self, slot: usize)
        requires
            old(self).wf(),
        ensures
            final(self).wf(),
            final(self)@ == old(self)@.moved_wo(slot),
    {
        self.write_order.move_to_back(slot);
    }

    /// Takes `slot` out of its region.
    pub fn unlink_ao(&mut self, slot: usize)
        requires
            old(self).wf(),
        ensures
            final(self).wf(),
            final(self)@ == old(self)@.without_ao(slot),
    {
        self.window.unlink(slot);
        self.probation.unlink(slot);
        self.protected.unlink(slot);
    }

    /// Takes `slot` out of the write order.
    pub fn unlink_wo(&mut self, slot: usize)
        requires
            old(self).wf(),
        ensures
            final(self).wf(),
            final(self)@ == old(self)@.without_wo(slot),
    {
        self.write_order.unlink(slot);
    }

    /// Takes the front of a region out of it.
    pub fn pop_front_ao(&mut self, region: CacheRegion)
        requires
            old(self).wf(),
            old(self)@.region(region).len() > 0,
        ensures
            final(self).wf(),
            final(self)@ == old(self)@.popped_ao(region),
    {
        match region {
            CacheRegion::Window => self.window.pop_front(),
            CacheRegion::MainProbation => self.probation.pop_front(),
            CacheRegion::MainProtected => self.protected.pop_front(),
        }
    }

    /// Takes the front of the write order out of it.
    pub fn pop_front_wo(&mut self)
        requires
            old(self).wf(),
            old(self)@.write_order.len() > 0,
        ensures
            final(self).wf(),
            final(self)@ == old(self)@.popped_wo(),
    {
        self.write_order.pop_front();
    }
}

} // verus!
