//! The queues are in the order of time.

use crate::common::deque::{
    index_before, lemma_index_before, lemma_pop_is_without, lemma_without, without,
};
use crate::common::deques::CacheRegion;
use crate::common::entry::{ReadOp, Record, WriteOp};
use crate::sync::expiry::{law_eviction_removes_expired_ao, law_eviction_removes_expired_wo};
use crate::sync::state::{CacheState, EVICTION_BATCH_SIZE, READ_LOG_SIZE, WRITE_LOG_SIZE};
use vstd::prelude::*;
use vstd::set_lib::lemma_len_subset;

verus! {

/// The two orders that entries are kept in.
#[derive(Clone, Copy, PartialEq, Eq, Structural)]
pub enum Order {
    /// The order of use, which the time to idle goes by.
    Use,
    /// The order of writing, which the time to live goes by.
    Write,
}

/// The time that the record at `slot` has in an order.
pub open spec fn time_at<K>(records: Map<usize, Record<K>>, slot: usize, order: Order) -> u64 {
    match order {
        Order::Use => records[slot].last_accessed->Some_0,
        Order::Write => records[slot].last_modified->Some_0,
    }
}

/// Whether the entry that is to move at `i` is not to move again.
pub open spec fn last_move(moves: Seq<Option<usize>>, i: int) -> bool {
    forall|j: int| i < j < moves.len() ==> #[trigger] moves[j] != moves[i]
}

/// Whether a queue will be in the order of time, given the entries that are yet to move
/// to its back, one after the other: those that are not to move are in the order of their
/// times and before those that are; and those are in the order of their times when each
/// moves for the last time. No time is later than `latest`.
pub open spec fn in_time<K>(
    queue: Seq<usize>,
    moves: Seq<Option<usize>>,
    records: Map<usize, Record<K>>,
    order: Order,
    latest: u64,
) -> bool {
    &&& forall|i: int, j: int|
        0 <= i < j < queue.len() && !moves.contains(Some(#[trigger] queue[i])) && !moves.contains(
            Some(#[trigger] queue[j]),
        ) ==> time_at(records, queue[i], order) <= time_at(records, queue[j], order)
    &&& forall|i: int, k: int|
        0 <= i < queue.len() && 0 <= k < moves.len() && !moves.contains(Some(#[trigger] queue[i]))
            && (#[trigger] moves[k]) is Some ==> time_at(records, queue[i], order) <= time_at(
            records,
            moves[k]->Some_0,
            order,
        )
    &&& forall|i: int, j: int|
        0 <= i < j < moves.len() && (#[trigger] moves[i]) is Some && (#[trigger] moves[j]) is Some
            && last_move(moves, i) && last_move(moves, j) ==> time_at(
            records,
            moves[i]->Some_0,
            order,
        ) <= time_at(records, moves[j]->Some_0, order)
    &&& forall|i: int|
        0 <= i < queue.len() ==> time_at(records, #[trigger] queue[i], order) <= latest
    &&& forall|k: int|
        0 <= k < moves.len() && (#[trigger] moves[k]) is Some ==> time_at(
            records,
            moves[k]->Some_0,
            order,
        ) <= latest
}

/// A queue that a member leaves stays in time.
proof fn lemma_left_in_time<K>(
    queue: Seq<usize>,
    slot: usize,
    moves: Seq<Option<usize>>,
    records: Map<usize, Record<K>>,
    order: Order,
    latest: u64,
)
    requires
        queue.no_duplicates(),
        in_time(queue, moves, records, order, latest),
    ensures
        in_time(without(queue, slot), moves, records, order, latest),
{
    let after = without(queue, slot);
    assert forall|i: int| 0 <= i < after.len() implies {
        let a = index_before(queue, after, i);
        &&& 0 <= a < queue.len()
        &&& queue[a] == #[trigger] after[i]
    } by {
        lemma_index_before(queue, after, i);
    }
    assert forall|i: int, j: int|
        0 <= i < j < after.len() && !moves.contains(Some(#[trigger] after[i])) && !moves.contains(
            Some(#[trigger] after[j]),
        ) implies time_at(records, after[i], order) <= time_at(records, after[j], order) by {
        lemma_index_before(queue, after, i);
        lemma_index_before(queue, after, j);
        let a = index_before(queue, after, i);
        let b = index_before(queue, after, j);
        assert(queue[a] == after[i] && queue[b] == after[j]);
    }
    assert forall|i: int, k: int|
        0 <= i < after.len() && 0 <= k < moves.len() && !moves.contains(Some(#[trigger] after[i]))
            && (#[trigger] moves[k]) is Some implies time_at(records, after[i], order) <= time_at(
        records,
        moves[k]->Some_0,
        order,
    ) by {
        assert(queue[index_before(queue, after, i)] == after[i]);
    }
    assert forall|i: int| 0 <= i < after.len() implies time_at(
        records,
        #[trigger] after[i],
        order,
    ) <= latest by {
        assert(queue[index_before(queue, after, i)] == after[i]);
    }
}

/// Each entry that is to move has a last move.
proof fn lemma_last_move(moves: Seq<Option<usize>>, k: int) -> (j: int)
    requires
        0 <= k < moves.len(),
    ensures
        k <= j < moves.len(),
        moves[j] == moves[k],
        last_move(moves, j),
    decreases moves.len() - k,
{
    if last_move(moves, k) {
        k
    } else {
        let next = choose|j: int| k < j < moves.len() && #[trigger] moves[j] == moves[k];
        lemma_last_move(moves, next)
    }
}

/// What is to move after the first move.
proof fn lemma_behind_first(moves: Seq<Option<usize>>)
    requires
        moves.len() > 0,
    ensures
        forall|m: Option<usize>|
            #![trigger moves.contains(m)]
            #![trigger moves.drop_first().contains(m)]
            moves.contains(m) <==> m == moves[0] || moves.drop_first().contains(m),
        forall|i: int|
            #![trigger last_move(moves.drop_first(), i)]
            0 <= i < moves.len() - 1 ==> last_move(moves.drop_first(), i) == last_move(moves, i + 1),
        last_move(moves, 0) <==> !moves.drop_first().contains(moves[0]),
{
    let rest = moves.drop_first();
    assert(moves.contains(moves[0]));
    assert forall|m: Option<usize>|
        #![trigger moves.contains(m)]
        #![trigger rest.contains(m)]
        moves.contains(m) <==> m == moves[0] || rest.contains(m) by {
        if moves.contains(m) && m != moves[0] {
            assert(rest[moves.index_of(m) - 1] == m);
        }
        if rest.contains(m) {
            assert(moves[rest.index_of(m) + 1] == m);
        }
    }
    assert forall|i: int|
        #![trigger last_move(rest, i)]
        0 <= i < moves.len() - 1 implies last_move(rest, i) == last_move(moves, i + 1) by {
        if last_move(rest, i) {
            assert forall|j: int| i + 1 < j < moves.len() implies #[trigger] moves[j] != moves[i
                + 1] by {
                assert(rest[j - 1] == moves[j]);
            }
        }
        if last_move(moves, i + 1) {
            assert forall|j: int| i < j < rest.len() implies #[trigger] rest[j] != rest[i] by {
                assert(rest[j] == moves[j + 1]);
            }
        }
    }
    if rest.contains(moves[0]) {
        assert(moves[rest.index_of(moves[0]) + 1] == moves[0]);
    } else {
        assert forall|j: int| 0 < j < moves.len() implies #[trigger] moves[j] != moves[0] by {
            assert(rest[j - 1] == moves[j]);
            assert(rest.contains(rest[j - 1]));
        }
    }
}

/// A queue stays in time when the first move is made by an entry that has no place in it,
/// or by none.
proof fn lemma_passed_in_time<K>(
    queue: Seq<usize>,
    moves: Seq<Option<usize>>,
    records: Map<usize, Record<K>>,
    order: Order,
    latest: u64,
)
    requires
        in_time(queue, moves, records, order, latest),
        moves.len() > 0,
        moves[0] is Some ==> !queue.contains(moves[0]->Some_0),
    ensures
        in_time(queue, moves.drop_first(), records, order, latest),
{
    let rest = moves.drop_first();
    lemma_behind_first(moves);
    assert forall|i: int| 0 <= i < queue.len() implies moves.contains(Some(#[trigger] queue[i]))
        == rest.contains(Some(queue[i])) by {
        assert(queue.contains(queue[i]));
    }
    assert forall|i: int, k: int|
        0 <= i < queue.len() && 0 <= k < rest.len() && !rest.contains(Some(#[trigger] queue[i])) && (
        #[trigger] rest[k]) is Some implies time_at(records, queue[i], order) <= time_at(
        records,
        rest[k]->Some_0,
        order,
    ) by {
        assert(moves[k + 1] == rest[k]);
        assert(!moves.contains(Some(queue[i])));
    }
    assert forall|i: int, j: int|
        0 <= i < j < rest.len() && (#[trigger] rest[i]) is Some && (#[trigger] rest[j]) is Some
            && last_move(rest, i) && last_move(rest, j) implies time_at(
        records,
        rest[i]->Some_0,
        order,
    ) <= time_at(records, rest[j]->Some_0, order) by {
        assert(moves[i + 1] == rest[i] && moves[j + 1] == rest[j]);
        assert(last_move(moves, i + 1) && last_move(moves, j + 1));
    }
    assert forall|k: int| 0 <= k < rest.len() && (#[trigger] rest[k]) is Some implies time_at(
        records,
        rest[k]->Some_0,
        order,
    ) <= latest by {
        assert(moves[k + 1] == rest[k]);
    }
}

/// A queue stays in time when the first move brings an entry to its back.
proof fn lemma_arrived_in_time<K>(
    queue: Seq<usize>,
    moves: Seq<Option<usize>>,
    records: Map<usize, Record<K>>,
    order: Order,
    latest: u64,
)
    requires
        in_time(queue, moves, records, order, latest),
        moves.len() > 0,
        moves[0] is Some,
        !queue.contains(moves[0]->Some_0),
    ensures
        in_time(queue.push(moves[0]->Some_0), moves.drop_first(), records, order, latest),
{
    let slot = moves[0]->Some_0;
    let after = queue.push(slot);
    let rest = moves.drop_first();
    lemma_behind_first(moves);
    lemma_passed_in_time(queue, moves, records, order, latest);
    assert forall|i: int| 0 <= i < queue.len() implies after[i] == #[trigger] queue[i] && queue[i]
        != slot by {
        assert(queue.contains(queue[i]));
    }
    assert forall|i: int, j: int|
        0 <= i < j < after.len() && !rest.contains(Some(#[trigger] after[i])) && !rest.contains(
            Some(#[trigger] after[j]),
        ) implies time_at(records, after[i], order) <= time_at(records, after[j], order) by {
        assert(after[i] == queue[i]);
        if j < queue.len() {
            assert(after[j] == queue[j]);
        } else {
            assert(!moves.contains(Some(queue[i])));
        }
    }
    assert forall|i: int, k: int|
        0 <= i < after.len() && 0 <= k < rest.len() && !rest.contains(Some(#[trigger] after[i])) && (
        #[trigger] rest[k]) is Some implies time_at(records, after[i], order) <= time_at(
        records,
        rest[k]->Some_0,
        order,
    ) by {
        if i < queue.len() {
            assert(after[i] == queue[i]);
        } else {
            let j = lemma_last_move(rest, k);
            assert(last_move(moves, 0));
            assert(last_move(rest, j));
            assert(moves[j + 1] == rest[j]);
        }
    }
    assert forall|i: int| 0 <= i < after.len() implies time_at(
        records,
        #[trigger] after[i],
        order,
    ) <= latest by {
        if i < queue.len() {
            assert(after[i] == queue[i]);
        }
    }
}

/// A queue stays in time when another move is announced, by an entry whose time is the
/// latest then, or by none.
proof fn lemma_announced_in_time<K>(
    queue: Seq<usize>,
    moves: Seq<Option<usize>>,
    records: Map<usize, Record<K>>,
    order: Order,
    latest: u64,
    mover: Option<usize>,
    after: Map<usize, Record<K>>,
    now: u64,
)
    requires
        in_time(queue, moves, records, order, latest),
        latest <= now,
        mover is Some ==> time_at(after, mover->Some_0, order) == now,
        forall|x: usize|
            #![trigger after[x]]
            mover != Some(x) && (queue.contains(x) || moves.contains(Some(x))) ==> time_at(
                after,
                x,
                order,
            ) == time_at(records, x, order),
    ensures
        in_time(queue, moves.push(mover), after, order, now),
{
    let more = moves.push(mover);
    assert(more[moves.len() as int] == mover);
    assert forall|m: Option<usize>|
        #![trigger moves.contains(m)]
        #![trigger more.contains(m)]
        more.contains(m) <==> m == mover || moves.contains(m) by {
        if moves.contains(m) {
            assert(more[moves.index_of(m)] == m);
        }
        if more.contains(m) && m != mover {
            assert(moves[more.index_of(m)] == m);
        }
    }
    assert forall|i: int| 0 <= i < queue.len() && mover != Some(#[trigger] queue[i]) implies time_at(
        after,
        queue[i],
        order,
    ) == time_at(records, queue[i], order) by {
        assert(queue.contains(queue[i]));
        assert(after[queue[i]] == after[queue[i]]);
    }
    assert forall|k: int|
        0 <= k < moves.len() && (#[trigger] moves[k]) is Some && mover != moves[k] implies time_at(
        after,
        moves[k]->Some_0,
        order,
    ) == time_at(records, moves[k]->Some_0, order) by {
        assert(moves.contains(moves[k]));
        assert(moves[k] == Some(moves[k]->Some_0));
        assert(after[moves[k]->Some_0] == after[moves[k]->Some_0]);
    }
    assert forall|i: int, k: int|
        0 <= i < queue.len() && 0 <= k < more.len() && !more.contains(Some(#[trigger] queue[i])) && (
        #[trigger] more[k]) is Some implies time_at(after, queue[i], order) <= time_at(
        after,
        more[k]->Some_0,
        order,
    ) by {
        assert(!moves.contains(Some(queue[i])) && mover != Some(queue[i]));
        if k < moves.len() {
            assert(more[k] == moves[k]);
        }
    }
    assert forall|i: int, j: int|
        0 <= i < j < more.len() && (#[trigger] more[i]) is Some && (#[trigger] more[j]) is Some
            && last_move(more, i) && last_move(more, j) implies time_at(
        after,
        more[i]->Some_0,
        order,
    ) <= time_at(after, more[j]->Some_0, order) by {
        assert(more[i] == moves[i]);
        assert(more[moves.len() as int] != more[i]);
        if j < moves.len() {
            assert(more[j] == moves[j]);
            assert(more[moves.len() as int] != more[j]);
            assert(last_move(moves, i)) by {
                assert forall|x: int| i < x < moves.len() implies #[trigger] moves[x] != moves[i] by {
                    assert(more[x] == moves[x]);
                }
            }
            assert(last_move(moves, j)) by {
                assert forall|x: int| j < x < moves.len() implies #[trigger] moves[x] != moves[j] by {
                    assert(more[x] == moves[x]);
                }
            }
        }
    }
    assert forall|k: int| 0 <= k < more.len() && (#[trigger] more[k]) is Some implies time_at(
        after,
        more[k]->Some_0,
        order,
    ) <= now by {
        if k < moves.len() {
            assert(more[k] == moves[k]);
        }
    }
    assert forall|i: int| 0 <= i < queue.len() implies time_at(
        after,
        #[trigger] queue[i],
        order,
    ) <= now by {
        if mover != Some(queue[i]) {
            assert(time_at(records, queue[i], order) <= latest);
        }
    }
}

/// A queue stays in time where the times of its members and of those that are to move
/// stay.
proof fn lemma_same_times_in_time<K>(
    queue: Seq<usize>,
    moves: Seq<Option<usize>>,
    records: Map<usize, Record<K>>,
    order: Order,
    latest: u64,
    after: Map<usize, Record<K>>,
    now: u64,
)
    requires
        in_time(queue, moves, records, order, latest),
        latest <= now,
        forall|x: usize|
            #![trigger after[x]]
            queue.contains(x) || moves.contains(Some(x)) ==> time_at(after, x, order) == time_at(
                records,
                x,
                order,
            ),
    ensures
        in_time(queue, moves, after, order, now),
{
    assert forall|i: int| 0 <= i < queue.len() implies time_at(after, #[trigger] queue[i], order)
        == time_at(records, queue[i], order) by {
        assert(queue.contains(queue[i]));
        assert(after[queue[i]] == after[queue[i]]);
    }
    assert forall|k: int| 0 <= k < moves.len() && (#[trigger] moves[k]) is Some implies time_at(
        after,
        moves[k]->Some_0,
        order,
    ) == time_at(records, moves[k]->Some_0, order) by {
        assert(moves.contains(moves[k]));
        assert(moves[k] == Some(moves[k]->Some_0));
        assert(after[moves[k]->Some_0] == after[moves[k]->Some_0]);
    }
}

impl WriteOp {
    /// The entry that moves to the back when the write is applied.
    pub open spec fn mover(self) -> Option<usize> {
        match self {
            WriteOp::Insert(slot) => Some(slot),
            WriteOp::Update(slot) => Some(slot),
            WriteOp::Remove(_) => None,
        }
    }
}

impl ReadOp {
    /// The entry that moves to the back when the read is applied.
    pub open spec fn mover(self) -> Option<usize> {
        match self {
            ReadOp::Hit(_, slot) => Some(slot),
            ReadOp::Miss(_) => None,
        }
    }
}

impl<K, V> CacheState<K, V> {
    /// The queue that keeps an order.
    pub open spec fn queue(self, order: Order) -> Seq<usize> {
        match order {
            Order::Use => self.deques.probation,
            Order::Write => self.deques.write_order,
        }
    }

    /// The duration that goes by an order.
    pub open spec fn duration(self, order: Order) -> Option<nat> {
        match order {
            Order::Use => self.time_to_idle,
            Order::Write => self.time_to_live,
        }
    }

    /// The moves that the waiting writes announce.
    pub open spec fn write_moves(self) -> Seq<Option<usize>> {
        Seq::new(self.writes.len(), |i: int| self.writes[i].mover())
    }

    /// The moves that the waiting reads announce.
    pub open spec fn read_moves(self) -> Seq<Option<usize>> {
        Seq::new(self.reads.len(), |i: int| self.reads[i].mover())
    }

    /// The moves to the back of a queue that wait, in the order in which they will be
    /// made.
    pub open spec fn moves(self, order: Order) -> Seq<Option<usize>> {
        match order {
            Order::Use => self.read_moves() + self.write_moves(),
            Order::Write => self.write_moves(),
        }
    }

    /// Whether a queue will be in the order of time when what waits has been applied, with
    /// no time later than `latest`.
    #[verifier::opaque]
    pub open spec fn ordered(self, order: Order, latest: u64) -> bool {
        in_time(self.queue(order), self.moves(order), self.records, order, latest)
    }

    /// A queue keeps its order where the queue, the moves and the records stay.
    proof fn lemma_same_ordered(self, before: Self, order: Order, latest: u64)
        requires
            before.ordered(order, latest),
            self.queue(order) == before.queue(order),
            self.records == before.records,
            self.reads == before.reads,
            self.writes == before.writes,
        ensures
            self.ordered(order, latest),
    {
        reveal(CacheState::ordered);
        assert(self.moves(order) =~= before.moves(order));
    }

    /// A queue keeps its order where a member leaves it.
    proof fn lemma_left_ordered(self, before: Self, order: Order, latest: u64, slot: usize)
        requires
            before.valid(),
            before.ordered(order, latest),
            self.queue(order) == without(before.queue(order), slot),
            self.records == before.records,
            self.reads == before.reads,
            self.writes == before.writes,
        ensures
            self.ordered(order, latest),
    {
        reveal(CacheState::ordered);
        reveal(CacheState::valid);
        assert(self.moves(order) =~= before.moves(order));
        lemma_left_in_time(
            before.queue(order),
            slot,
            before.moves(order),
            before.records,
            order,
            latest,
        );
    }

    /// The first move is made: the queue keeps its order where the mover comes to the
    /// back, or has no place.
    proof fn lemma_moved_ordered(self, before: Self, order: Order, latest: u64)
        requires
            before.valid(),
            before.ordered(order, latest),
            before.moves(order).len() > 0,
            self.records == before.records,
            self.moves(order) == before.moves(order).drop_first(),
            match before.moves(order)[0] {
                Some(slot) => {
                    let rest = without(before.queue(order), slot);
                    ||| self.queue(order) == rest.push(slot)
                    ||| self.queue(order) == before.queue(order) && !before.queue(order).contains(
                        slot,
                    )
                },
                None => self.queue(order) == before.queue(order),
            },
        ensures
            self.ordered(order, latest),
    {
        reveal(CacheState::ordered);
        reveal(CacheState::valid);
        let queue = before.queue(order);
        let moves = before.moves(order);
        match moves[0] {
            Some(slot) => {
                lemma_without(queue, slot);
                lemma_left_in_time(queue, slot, moves, before.records, order, latest);
                if self.queue(order) == without(queue, slot).push(slot) {
                    lemma_arrived_in_time(
                        without(queue, slot),
                        moves,
                        before.records,
                        order,
                        latest,
                    );
                } else {
                    lemma_passed_in_time(queue, moves, before.records, order, latest);
                }
            },
            None => {
                lemma_passed_in_time(queue, moves, before.records, order, latest);
            },
        }
    }

    /// Applying reads keeps a queue in order.
    proof fn lemma_reads_applied_ordered(self, count: nat, order: Order, latest: u64)
        requires
            self.valid(),
            self.ordered(order, latest),
        ensures
            self.reads_applied(count).ordered(order, latest),
        decreases count,
    {
        if count > 0 && self.reads.len() > 0 {
            let op = self.reads[0];
            let after = self.read_taken().read_applied(op);
            self.lemma_read_taken();
            self.read_taken().lemma_read_applied(op);
            match order {
                Order::Write => {
                    reveal(CacheState::ordered);
                    assert(after.moves(order) =~= self.moves(order));
                },
                Order::Use => {
                    assert(after.moves(order) =~= self.moves(order).drop_first());
                    assert(self.moves(order)[0] == op.mover());
                    after.lemma_moved_ordered(self, order, latest);
                },
            }
            after.lemma_reads_applied_ordered((count - 1) as nat, order, latest);
        }
    }

    /// Applying a write keeps a queue in order.
    proof fn lemma_write_done_ordered(self, order: Order, latest: u64)
        requires
            self.valid(),
            self.reads.len() == 0,
            self.writes.len() > 0,
            self.duration(order) is Some,
            self.ordered(order, latest),
        ensures
            self.write_done().ordered(order, latest),
    {
        let op = self.writes[0];
        let slot = op.slot();
        let after = self.write_done();
        let queue = self.queue(order);
        self.lemma_write_taken();
        assert(after.moves(order) =~= self.moves(order).drop_first());
        assert(self.moves(order)[0] == op.mover());
        match op {
            WriteOp::Insert(_) => {
                let victim = self.victim();
                assert(!queue.contains(slot));
                if self.store.dom().len() > self.max_capacity && self.deques.probation.len() > 0
                    && self.admits(slot, victim) {
                    let mid = CacheState { writes: self.writes, ..self.victim_evicted(victim) };
                    assert(mid.valid()) by {
                        self.lemma_victim_evicted(victim);
                    }
                    if mid.queue(order) == queue {
                        mid.lemma_same_ordered(self, order, latest);
                    } else {
                        mid.lemma_left_ordered(self, order, latest, victim);
                    }
                    assert(!mid.deques.contains(slot)) by {
                        self.lemma_victim_evicted(victim);
                    }
                    assert(mid.moves(order) =~= self.moves(order));
                    assert(after.queue(order) == mid.queue(order).push(slot));
                    after.lemma_moved_ordered(mid, order, latest);
                } else {
                    after.lemma_moved_ordered(self, order, latest);
                }
            },
            WriteOp::Update(_) => {
                after.lemma_moved_ordered(self, order, latest);
            },
            WriteOp::Remove(_) => {
                let taken = self.write_taken();
                taken.lemma_moved_ordered(self, order, latest);
                after.lemma_left_ordered(taken, order, latest, slot);
            },
        }
    }

    /// Applying writes keeps a queue in order.
    proof fn lemma_writes_applied_ordered(self, count: nat, order: Order, latest: u64)
        requires
            self.valid(),
            self.reads.len() == 0,
            self.duration(order) is Some,
            self.ordered(order, latest),
        ensures
            self.writes_applied(count).ordered(order, latest),
        decreases count,
    {
        if count > 0 && self.writes.len() > 0 {
            self.lemma_write_done();
            self.lemma_write_done_ordered(order, latest);
            self.write_done().lemma_writes_applied_ordered((count - 1) as nat, order, latest);
        }
    }

    /// Removing expired entries keeps a queue in order.
    proof fn lemma_expired_removed_wo_ordered(
        self,
        batch_size: nat,
        now: u64,
        order: Order,
        latest: u64,
    )
        requires
            self.valid(),
            self.ordered(order, latest),
        ensures
            self.expired_removed_wo(batch_size, now).ordered(order, latest),
        decreases batch_size,
    {
        if batch_size > 0 && self.front_expired_wo(now) {
            let after = self.front_discarded_wo();
            let front = self.deques.write_order[0];
            self.lemma_front_discarded_wo();
            assert(self.deques.distinct()) by {
                reveal(CacheState::valid);
            }
            lemma_pop_is_without(self.deques.write_order);
            if after.queue(order) == self.queue(order) {
                after.lemma_same_ordered(self, order, latest);
            } else {
                after.lemma_left_ordered(self, order, latest, front);
            }
            after.lemma_expired_removed_wo_ordered((batch_size - 1) as nat, now, order, latest);
        }
    }

    /// Removing expired entries keeps a queue in order.
    proof fn lemma_expired_removed_ao_ordered(
        self,
        region: CacheRegion,
        batch_size: nat,
        now: u64,
        order: Order,
        latest: u64,
    )
        requires
            self.valid(),
            self.ordered(order, latest),
        ensures
            self.expired_removed_ao(region, batch_size, now).ordered(order, latest),
            forall|slot: usize| #[trigger]
                self.expired_removed_ao(region, batch_size, now).queue(order).contains(slot)
                    ==> self.queue(order).contains(slot),
        decreases batch_size,
    {
        if batch_size > 0 && self.front_expired_ao(region, now) {
            let after = self.front_discarded_ao(region);
            let front = self.deques.region(region)[0];
            self.lemma_front_discarded_ao(region);
            assert(self.deques.distinct()) by {
                reveal(CacheState::valid);
            }
            lemma_pop_is_without(self.deques.region(region));
            lemma_without(self.queue(order), front);
            if after.queue(order) == self.queue(order) {
                after.lemma_same_ordered(self, order, latest);
            } else {
                after.lemma_left_ordered(self, order, latest, front);
            }
            after.lemma_expired_removed_ao_ordered(
                region,
                (batch_size - 1) as nat,
                now,
                order,
                latest,
            );
        }
    }

    /// In a queue in order, when nothing waits, what has expired comes first.
    proof fn lemma_expired_first(self, order: Order, latest: u64, now: u64)
        requires
            self.valid(),
            self.reads.len() == 0,
            self.writes.len() == 0,
            self.duration(order) is Some,
            self.ordered(order, latest),
        ensures
            order is Write ==> self.expired_first_wo(now),
            order is Use ==> self.expired_first_ao(CacheRegion::MainProbation, now),
    {
        reveal(CacheState::valid);
        reveal(CacheState::ordered);
        let queue = self.queue(order);
        assert(self.moves(order).len() == 0);
        assert forall|i: int, j: int| 0 <= i < j < queue.len() implies time_at(
            self.records,
            #[trigger] queue[i],
            order,
        ) <= time_at(self.records, #[trigger] queue[j], order) by {
            assert(!self.moves(order).contains(Some(queue[i])));
            assert(!self.moves(order).contains(Some(queue[j])));
        }
        assert forall|i: int| 0 <= i < queue.len() implies self.record_stamped(
            #[trigger] queue[i],
        ) by {
            assert(queue.contains(queue[i]));
            assert(self.deques.contains(queue[i]));
        }
        match order {
            Order::Write => {
                assert forall|i: int, j: int|
                    0 <= i < j < queue.len() && #[trigger] self.expired_wo(
                        queue[j],
                        now,
                    ) implies #[trigger] self.expired_wo(queue[i], now) by {
                    assert(self.record_stamped(queue[i]) && self.record_stamped(queue[j]));
                }
            },
            Order::Use => {
                assert forall|i: int, j: int|
                    0 <= i < j < queue.len() && #[trigger] self.expired_ao(
                        queue[j],
                        now,
                    ) implies #[trigger] self.expired_ao(queue[i], now) by {
                    assert(self.record_stamped(queue[i]) && self.record_stamped(queue[j]));
                }
            },
        }
    }

    /// Whether the entry at `slot` has outlived the duration that goes by an order.
    pub open spec fn outlived(self, slot: usize, order: Order, now: u64) -> bool {
        match order {
            Order::Use => self.expired_ao(slot, now),
            Order::Write => self.expired_wo(slot, now),
        }
    }

    /// The places in a queue that have outlived the duration that goes by its order.
    pub open spec fn outlived_places(self, order: Order, now: u64) -> Set<usize> {
        match order {
            Order::Use => self.expired_places_ao(CacheRegion::MainProbation, now),
            Order::Write => self.expired_places_wo(now),
        }
    }

    /// Evicting from a queue in order leaves nothing in it that has expired, where that is
    /// no more than a batch.
    proof fn lemma_evicted_ordered(self, batch_size: nat, now: u64, order: Order, latest: u64)
        requires
            self.valid(),
            self.reads.len() == 0,
            self.writes.len() == 0,
            self.duration(order) is Some,
            self.ordered(order, latest),
            self.outlived_places(order, now).len() <= batch_size,
        ensures
            self.evicted(batch_size, now).ordered(order, latest),
            forall|slot: usize| #[trigger]
                self.evicted(batch_size, now).queue(order).contains(slot) ==> !self.outlived(
                    slot,
                    order,
                    now,
                ),
    {
        self.lemma_evicted(batch_size, now);
        self.lemma_expired_removed_wo_ordered(batch_size, now, order, latest);
        self.lemma_expired_first(order, latest, now);
        if order is Write {
            law_eviction_removes_expired_wo(self, batch_size, now);
        }
        let a = self.evicted_wo(batch_size, now);
        a.lemma_expired_removed_ao(CacheRegion::Window, batch_size, now);
        a.lemma_expired_removed_ao_ordered(CacheRegion::Window, batch_size, now, order, latest);
        let b = a.expired_removed_ao(CacheRegion::Window, batch_size, now);
        b.lemma_expired_removed_ao(CacheRegion::MainProbation, batch_size, now);
        b.lemma_expired_removed_ao_ordered(
            CacheRegion::MainProbation,
            batch_size,
            now,
            order,
            latest,
        );
        b.lemma_expired_first(order, latest, now);
        if order is Use {
            let places = self.expired_places_ao(CacheRegion::MainProbation, now);
            assert(b.expired_places_ao(CacheRegion::MainProbation, now).subset_of(places)) by {
                self.lemma_probation_shrinks_wo(batch_size, now);
                assert forall|slot: usize| #[trigger]
                    b.expired_places_ao(CacheRegion::MainProbation, now).contains(
                        slot,
                    ) implies places.contains(slot) by {
                    assert(b.queue(order).contains(slot));
                    assert(a.queue(order).contains(slot));
                    assert(self.deques.probation.contains(slot));
                    assert(self.expired_ao(slot, now) == b.expired_ao(slot, now));
                }
            }
            lemma_len_subset(
                b.expired_places_ao(CacheRegion::MainProbation, now),
                places,
            );
            law_eviction_removes_expired_ao(b, CacheRegion::MainProbation, batch_size, now);
        }
        let c = b.expired_removed_ao(CacheRegion::MainProbation, batch_size, now);
        c.lemma_expired_removed_ao_ordered(
            CacheRegion::MainProtected,
            batch_size,
            now,
            order,
            latest,
        );
        let after = self.evicted(batch_size, now);
        assert forall|slot: usize| #[trigger]
            after.queue(order).contains(slot) implies !self.outlived(slot, order, now) by {
            if self.time_to_idle is Some {
                assert(c.queue(order).contains(slot));
                assert(b.queue(order).contains(slot));
            }
            assert(a.queue(order).contains(slot));
            match order {
                Order::Write => {
                    assert(!self.expired_wo(slot, now));
                },
                Order::Use => {
                    assert(c.deques.region(CacheRegion::MainProbation).contains(slot));
                    assert(!b.expired_ao(slot, now));
                },
            }
        }
    }

    /// Removing what has outlived the time to live adds nothing to the order of use.
    proof fn lemma_probation_shrinks_wo(self, batch_size: nat, now: u64)
        requires
            self.valid(),
        ensures
            forall|slot: usize| #[trigger]
                self.expired_removed_wo(batch_size, now).deques.probation.contains(slot)
                    ==> self.deques.probation.contains(slot),
        decreases batch_size,
    {
        if batch_size > 0 && self.front_expired_wo(now) {
            self.lemma_front_discarded_wo();
            assert(self.deques.distinct()) by {
                reveal(CacheState::valid);
            }
            lemma_without(self.deques.probation, self.deques.write_order[0]);
            self.front_discarded_wo().lemma_probation_shrinks_wo((batch_size - 1) as nat, now);
        }
    }
}

/// The queues of a new cache are in order: they are empty.
pub proof fn law_fresh_is_ordered<K, V>(
    max_capacity: nat,
    time_to_live: Option<nat>,
    time_to_idle: Option<nat>,
    order: Order,
    now: u64,
)
    ensures
        CacheState::<K, V>::fresh(max_capacity, time_to_live, time_to_idle).ordered(order, now),
{
    reveal(CacheState::ordered);
}

/// A queue keeps its order when a value is put under a key, if time does not go back.
pub proof fn law_insert_keeps_ordered<K, V>(
    s: CacheState<K, V>,
    key: K,
    value: V,
    hash: u64,
    slot: usize,
    now: u64,
    order: Order,
    latest: u64,
)
    requires
        s.valid(),
        s.duration(order) is Some,
        s.ordered(order, latest),
        !s.records.contains_key(slot),
        latest <= now,
    ensures
        s.inserted(key, value, hash, slot, now).ordered(order, now),
{
    reveal(CacheState::valid);
    reveal(CacheState::ordered);
    let after = s.inserted(key, value, hash, slot, now);
    let at = after.writes.last().slot();
    if s.store.contains_key(key) {
        assert(s.entry_recorded(key));
        assert(s.record_stamped(at));
    }
    assert(after.moves(order) =~= s.moves(order).push(Some(at)));
    lemma_announced_in_time(
        s.queue(order),
        s.moves(order),
        s.records,
        order,
        latest,
        Some(at),
        after.records,
        now,
    );
}

/// A queue keeps its order when a key is invalidated.
pub proof fn law_invalidate_keeps_ordered<K, V>(
    s: CacheState<K, V>,
    key: K,
    order: Order,
    latest: u64,
)
    requires
        s.ordered(order, latest),
    ensures
        s.invalidated(key).ordered(order, latest),
{
    if s.store.contains_key(key) {
        reveal(CacheState::ordered);
        let after = s.invalidated(key);
        assert(after.moves(order) =~= s.moves(order).push(None));
        lemma_announced_in_time(
            s.queue(order),
            s.moves(order),
            s.records,
            order,
            latest,
            None,
            after.records,
            latest,
        );
    }
}

/// A queue keeps its order when a key is looked up, if time does not go back: the write
/// order always, and the order of use where no write waits, which would be applied after
/// the read though it was made before it, and the read is noted.
pub proof fn law_get_keeps_ordered<K, V>(
    s: CacheState<K, V>,
    key: K,
    hash: u64,
    now: u64,
    order: Order,
    latest: u64,
)
    requires
        s.valid(),
        s.duration(order) is Some,
        s.ordered(order, latest),
        latest <= now,
        order is Use ==> s.writes.len() == 0 && s.reads.len() < READ_LOG_SIZE,
    ensures
        s.looked_up(key, hash, now).ordered(order, now),
{
    reveal(CacheState::ordered);
    let after = s.looked_up(key, hash, now);
    let slot = s.store[key].slot;
    match order {
        Order::Write => {
            assert(after.moves(order) =~= s.moves(order));
            lemma_same_times_in_time(
                s.queue(order),
                s.moves(order),
                s.records,
                order,
                latest,
                after.records,
                now,
            );
        },
        Order::Use => {
            let mover = after.reads.last().mover();
            assert(after.moves(order) =~= s.moves(order).push(mover));
            if mover is Some {
                reveal(CacheState::valid);
                assert(s.entry_recorded(key));
                assert(s.record_stamped(slot));
            }
            lemma_announced_in_time(
                s.queue(order),
                s.moves(order),
                s.records,
                order,
                latest,
                mover,
                after.records,
                now,
            );
        },
    }
}

impl<K, V> CacheState<K, V> {
    /// Dropping records that are not in use keeps a queue in order, if no operation waits
    /// but for the entry whose record is spared.
    proof fn lemma_collected_ordered(self, spared: Option<usize>, order: Order, latest: u64)
        requires
            self.valid(),
            self.reads.len() == 0,
            forall|i: int|
                0 <= i < self.writes.len() ==> spared == Some((#[trigger] self.writes[i]).slot()),
            self.ordered(order, latest),
        ensures
            self.collected_sparing(spared).ordered(order, latest),
    {
        reveal(CacheState::ordered);
        let after = self.collected_sparing(spared);
        self.lemma_collected(spared);
        assert(after.moves(order) =~= self.moves(order));
        assert forall|x: usize|
            #![trigger after.records[x]]
            self.queue(order).contains(x) || self.moves(order).contains(Some(x)) implies time_at(
            after.records,
            x,
            order,
        ) == time_at(self.records, x, order) by {
            reveal(CacheState::valid);
            if self.queue(order).contains(x) {
                assert(self.deques.contains(x));
                assert(self.in_use(x));
                assert(self.records.contains_key(x));
            } else {
                let i = self.moves(order).index_of(Some(x));
                assert(self.writes[i].mover() == Some(x));
                assert(self.records.contains_key(self.writes[i].slot()));
            }
            assert(after.records.contains_key(x));
        }
        lemma_same_times_in_time(
            self.queue(order),
            self.moves(order),
            self.records,
            order,
            latest,
            after.records,
            latest,
        );
    }
}

/// Relief keeps a queue in order.
pub proof fn law_relief_keeps_ordered<K, V>(
    s: CacheState<K, V>,
    now: u64,
    order: Order,
    latest: u64,
)
    requires
        s.valid(),
        s.duration(order) is Some,
        s.ordered(order, latest),
    ensures
        s.relieved(now).ordered(order, latest),
{
    if s.writes.len() > WRITE_LOG_SIZE {
        let batch_size = EVICTION_BATCH_SIZE as nat;
        let n = (s.writes.len() - 1) as nat;
        let read = s.reads_applied(s.reads.len());
        s.lemma_reads_applied(s.reads.len());
        s.lemma_reads_applied_ordered(s.reads.len(), order, latest);
        read.lemma_writes_applied(n);
        read.lemma_writes_applied_ordered(n, order, latest);
        let applied = read.writes_applied(n);
        applied.lemma_evicted(batch_size, now);
        applied.lemma_expired_removed_wo_ordered(batch_size, now, order, latest);
        let a = applied.evicted_wo(batch_size, now);
        a.lemma_expired_removed_ao(CacheRegion::Window, batch_size, now);
        a.lemma_expired_removed_ao_ordered(CacheRegion::Window, batch_size, now, order, latest);
        let b = a.expired_removed_ao(CacheRegion::Window, batch_size, now);
        b.lemma_expired_removed_ao(CacheRegion::MainProbation, batch_size, now);
        b.lemma_expired_removed_ao_ordered(
            CacheRegion::MainProbation,
            batch_size,
            now,
            order,
            latest,
        );
        let c = b.expired_removed_ao(CacheRegion::MainProbation, batch_size, now);
        c.lemma_expired_removed_ao_ordered(
            CacheRegion::MainProtected,
            batch_size,
            now,
            order,
            latest,
        );
        s.lemma_but_last_applied(now);
        s.but_last_applied(now).lemma_collected_ordered(
            Some(s.writes.last().slot()),
            order,
            latest,
        );
    }
}

/// Maintenance of a queue in order leaves no entry in the store that has outlived its
/// time at `now`, where that is no more than a batch. The queue keeps its order.
pub proof fn law_sync_removes_what_has_expired<K, V>(
    s: CacheState<K, V>,
    now: u64,
    order: Order,
    latest: u64,
)
    requires
        s.valid(),
        s.complete(),
        s.bounded(),
        s.duration(order) is Some,
        s.ordered(order, latest),
        s.pending_applied().outlived_places(order, now).len() <= EVICTION_BATCH_SIZE,
    ensures
        s.synced(now).ordered(order, latest),
        forall|key: K| #[trigger]
            s.synced(now).store.contains_key(key) ==> !s.synced(now).outlived(
                s.synced(now).store[key].slot,
                order,
                now,
            ),
{
    let batch_size = EVICTION_BATCH_SIZE as nat;
    let read = s.reads_applied(s.reads.len());
    s.lemma_reads_applied(s.reads.len());
    s.lemma_reads_applied_ordered(s.reads.len(), order, latest);
    read.lemma_writes_applied_ordered(s.writes.len(), order, latest);
    s.lemma_pending_applied();
    s.lemma_pending_applied_count();
    let applied = s.pending_applied();
    applied.lemma_evicted(batch_size, now);
    applied.lemma_evicted_complete(batch_size, now);
    applied.lemma_evicted_ordered(batch_size, now, order, latest);
    let done = applied.evicted(batch_size, now);
    let after = s.synced(now);
    assert(after == done.collected_sparing(None));
    s.lemma_synced(now);
    done.lemma_settled();
    done.lemma_collected(None);
    done.lemma_collected_ordered(None, order, latest);
    assert forall|slot: usize| #[trigger] done.deques.contains(slot) implies after.records[slot]
        == done.records[slot] by {
        assert(done.in_use(slot));
        assert(done.records.contains_key(slot)) by {
            reveal(CacheState::valid);
        }
        assert(after.records.contains_key(slot));
    }
    assert forall|key: K| #[trigger] after.store.contains_key(key) implies !after.outlived(
        after.store[key].slot,
        order,
        now,
    ) by {
        let slot = after.store[key].slot;
        assert(done.store.contains_key(key));
        assert(done.placed(slot));
        assert(done.queue(order).contains(slot));
        assert(done.deques.contains(slot));
    }
}

} // verus!
