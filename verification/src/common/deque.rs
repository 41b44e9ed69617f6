//! A queue of slot numbers that any of its members can leave in constant time.

use vstd::prelude::*;

verus! {

/// `s` without `slot`; `s` itself where `slot` is no member.
pub open spec fn without(s: Seq<usize>, slot: usize) -> Seq<usize> {
    if s.contains(slot) {
        s.remove(s.index_of(slot))
    } else {
        s
    }
}

/// `s` with `slot` taken out of its place and put at the back; `s` itself
/// where `slot` is no member.
pub open spec fn moved_to_back(s: Seq<usize>, slot: usize) -> Seq<usize> {
    if s.contains(slot) {
        without(s, slot).push(slot)
    } else {
        s
    }
}

/// In a sequence without duplicates, `without` takes out exactly the one
/// occurrence of `slot`, and leaves the others in their order.
pub proof fn lemma_without(s: Seq<usize>, slot: usize)
    requires
        s.no_duplicates(),
    ensures
        without(s, slot).no_duplicates(),
        !without(s, slot).contains(slot),
        forall|x: usize| x != slot ==> (#[trigger] without(s, slot).contains(x) <==> s.contains(x)),
        s.contains(slot) ==> without(s, slot).len() == s.len() - 1,
{
    if s.contains(slot) {
        let k = s.index_of(slot);
        let t = s.remove(k);
        assert(forall|i: int| 0 <= i < k ==> t[i] == s[i]);
        assert(forall|i: int| k <= i < t.len() ==> t[i] == s[i + 1]);
        assert forall|x: usize| x != slot implies (#[trigger] t.contains(x) <==> s.contains(x)) by {
            if s.contains(x) {
                let i = s.index_of(x);
                if i < k {
                    assert(t[i] == x);
                } else {
                    assert(t[i - 1] == x);
                }
            }
        }
    }
}

/// Moving a member to the back changes the order only.
pub proof fn lemma_moved_to_back(s: Seq<usize>, slot: usize)
    requires
        s.no_duplicates(),
    ensures
        moved_to_back(s, slot).no_duplicates(),
        moved_to_back(s, slot).len() == s.len(),
        forall|x: usize| #[trigger] moved_to_back(s, slot).contains(x) <==> s.contains(x),
        s.contains(slot) ==> moved_to_back(s, slot).last() == slot,
{
    lemma_without(s, slot);
    if s.contains(slot) {
        let t = without(s, slot);
        let u = t.push(slot);
        assert forall|x: usize| #[trigger] u.contains(x) <==> s.contains(x) by {
            if s.contains(x) {
                if x == slot {
                    assert(u[u.len() - 1] == x);
                } else {
                    assert(t.contains(x));
                    assert(u[t.index_of(x)] == x);
                }
            }
            if u.contains(x) {
                let i = u.index_of(x);
                if i < t.len() {
                    assert(t[i] == x);
                    assert(t.contains(x));
                }
            }
        }
    }
}

/// Without its front, a sequence is without its first member.
pub proof fn lemma_pop_is_without(s: Seq<usize>)
    requires
        s.no_duplicates(),
        s.len() > 0,
    ensures
        s.drop_first() == without(s, s[0]),
{
    assert(s.contains(s[0]));
    assert(s.index_of(s[0]) == 0);
    assert(s.remove(0) =~= s.drop_first());
}

/// Where the member at `i` stood before one member left, if one did.
pub open spec fn index_before(before: Seq<usize>, after: Seq<usize>, i: int) -> int {
    if after == before {
        i
    } else {
        let slot = choose|slot: usize| after == #[trigger] without(before, slot);
        if i < before.index_of(slot) {
            i
        } else {
            i + 1
        }
    }
}

/// When a member leaves, the others stay in their order.
pub proof fn lemma_index_before(before: Seq<usize>, after: Seq<usize>, i: int)
    requires
        before.no_duplicates(),
        0 <= i < after.len(),
        after == before || exists|slot: usize| after == #[trigger] without(before, slot),
    ensures
        0 <= index_before(before, after, i) < before.len(),
        before[index_before(before, after, i)] == after[i],
        forall|j: int|
            i < j < after.len() ==> index_before(before, after, i) < #[trigger] index_before(
                before,
                after,
                j,
            ),
        before.contains(after[i]),
{
}

/// A slot's neighbours in a queue.
#[derive(Clone, Copy)]
struct Link {
    prev: Option<usize>,
    next: Option<usize>,
    member: bool,
}

/// A queue of distinct slot numbers: a doubly linked list whose links are kept
/// in a table indexed by slot number.
pub struct Deque {
    links: Vec<Link>,
    head: Option<usize>,
    tail: Option<usize>,
    order: Ghost<Seq<usize>>,
}

impl View for Deque {
    type V = Seq<usize>;

    /// The members, front to back.
    closed spec fn view(&self) -> Seq<usize> {
        self.order@
    }
}

impl Deque {
    /// Whether the links spell out the order.
    pub closed spec fn wf(&self) -> bool {
        let s = self.order@;
        &&& s.no_duplicates()
        &&& forall|i: int| 0 <= i < s.len() ==> #[trigger] self.linked_at(i)
        &&& forall|x: usize|
            x < self.links@.len() && #[trigger] self.links@[x as int].member ==> s.contains(x)
        &&& self.head == (if s.len() == 0 { None } else { Some(s[0]) })
        &&& self.tail == (if s.len() == 0 { None } else { Some(s.last()) })
    }

    spec fn linked_at(&self, i: int) -> bool {
        let s = self.order@;
        &&& s[i] < self.links@.len()
        &&& self.links@[s[i] as int].member
        &&& self.links@[s[i] as int].prev == (if i == 0 { None } else { Some(s[i - 1]) })
        &&& self.links@[s[i] as int].next == (if i == s.len() - 1 { None } else { Some(s[i + 1]) })
    }

    /// An empty queue.
    pub fn new() -> (deque: Self)
        ensures
            deque.wf(),
            deque@ == Seq::<usize>::empty(),
    {
        Deque { links: Vec::new(), head: None, tail: None, order: Ghost(Seq::empty()) }
    }

    /// Whether `slot` is in the queue.
    pub fn contains(&self, slot: usize) -> (member: bool)
        requires
            self.wf(),
        ensures
            member == self@.contains(slot),
    {
        proof {
            if self.order@.contains(slot) {
                assert(self.linked_at(self.order@.index_of(slot)));
            }
        }
        slot < self.links.len() && self.links[slot].member
    }

    /// The slot at the front.
    pub fn peek_front(&self) -> (front: Option<usize>)
        requires
            self.wf(),
        ensures
            front == (if self@.len() == 0 { None } else { Some(self@[0]) }),
    {
        self.head
    }

    /// Puts `slot` at the back.
    pub fn push_back(&mut self, slot: usize)
        requires
            old(self).wf(),
            !old(self)@.contains(slot),
            slot < usize::MAX,
        ensures
            final(self).wf(),
            final(self)@ == old(self)@.push(slot),
    {
        let ghost s = self.order@;
        while self.links.len() <= slot
            invariant
                self.order@ == s,
                s == old(self).order@,
                slot < usize::MAX,
                self.wf(),
            decreases slot + 1 - self.links.len(),
        {
            let ghost before = *self;
            self.links.push(Link { prev: None, next: None, member: false });
            proof {
                assert forall|i: int| 0 <= i < s.len() implies #[trigger] self.linked_at(i) by {
                    assert(before.linked_at(i));
                }
            }
        }
        proof {
            assert(forall|i: int| 0 <= i < s.len() ==> #[trigger] self.linked_at(i) && s[i] != slot);
        }
        let ghost before = *self;
        let tail = self.tail;
        self.links.set(slot, Link { prev: tail, next: None, member: true });
        match tail {
            None => {
                self.head = Some(slot);
            },
            Some(last) => {
                proof {
                    assert(before.linked_at(s.len() - 1));
                }
                let link = self.links[last];
                self.links.set(last, Link { prev: link.prev, next: Some(slot), member: true });
            },
        }
        self.tail = Some(slot);
        proof {
            self.order@ = s.push(slot);
            let t = self.order@;
            assert(t.no_duplicates());
            assert forall|i: int| 0 <= i < t.len() implies #[trigger] self.linked_at(i) by {
                if i < s.len() {
                    assert(before.linked_at(i));
                    assert(before.linked_at(s.len() - 1));
                }
            }
            assert forall|x: usize|
                x < self.links@.len() && #[trigger] self.links@[x as int].member implies t.contains(x) by {
                if x == slot {
                    assert(t[s.len() as int] == slot);
                } else {
                    if !before.links@[x as int].member {
                        assert(s.len() > 0 && x == s.last());
                    }
                    assert(s.contains(x));
                    assert(t[s.index_of(x)] == x);
                }
            }
        }
    }

    /// Takes `slot` out of the queue, if it is in it.
    pub fn unlink(&mut self, slot: usize)
        requires
            old(self).wf(),
        ensures
            final(self).wf(),
            final(self)@ == without(old(self)@, slot),
    {
        if !self.contains(slot) {
            return;
        }
        let ghost before = *self;
        let ghost s = self.order@;
        let ghost k = s.index_of(slot);
        proof {
            assert(self.linked_at(k));
        }
        let link = self.links[slot];
        self.links.set(slot, Link { prev: None, next: None, member: false });
        match link.prev {
            None => {
                self.head = link.next;
            },
            Some(p) => {
                proof {
                    assert(before.linked_at(k - 1));
                }
                let l = self.links[p];
                self.links.set(p, Link { prev: l.prev, next: link.next, member: true });
            },
        }
        match link.next {
            None => {
                self.tail = link.prev;
            },
            Some(n) => {
                proof {
                    assert(before.linked_at(k + 1));
                }
                let l = self.links[n];
                self.links.set(n, Link { prev: link.prev, next: l.next, member: true });
            },
        }
        proof {
            self.order@ = s.remove(k);
            let t = self.order@;
            lemma_without(s, slot);
            assert(forall|i: int| 0 <= i < k ==> t[i] == s[i]);
            assert(forall|i: int| k <= i < t.len() ==> t[i] == s[i + 1]);
            assert forall|i: int| 0 <= i < t.len() implies #[trigger] self.linked_at(i) by {
                let j = if i < k { i } else { i + 1 };
                assert(before.linked_at(j));
                if i < k {
                    assert(before.linked_at(k));
                }
            }
            assert forall|x: usize|
                x < self.links@.len() && #[trigger] self.links@[x as int].member implies t.contains(x) by {
                assert(x != slot);
                if !before.links@[x as int].member {
                    assert(false);
                }
                assert(s.contains(x));
            }
        }
    }

    /// Moves `slot` to the back, if it is in the queue.
    pub fn move_to_back(&mut self, slot: usize)
        requires
            old(self).wf(),
        ensures
            final(self).wf(),
            final(self)@ == moved_to_back(old(self)@, slot),
    {
        if self.contains(slot) {
            proof {
                lemma_without(self.order@, slot);
                assert(self.linked_at(self.order@.index_of(slot)));
                assert(slot < self.links.len());
            }
            self.unlink(slot);
            self.push_back(slot);
        }
    }

    /// Takes the front slot out of the queue.
    pub fn pop_front(&mut self)
        requires
            old(self).wf(),
        ensures
            final(self).wf(),
            final(self)@ == (if old(self)@.len() == 0 { old(self)@ } else { old(self)@.drop_first() }),
    {
        if let Some(front) = self.head {
            proof {
                let s = self.order@;
                assert(s[0] == front);
                assert(s.index_of(front) == 0);
                assert(s.remove(0) =~= s.drop_first());
            }
            self.unlink(front);
        }
    }
}

} // verus!
