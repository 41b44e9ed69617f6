//! An estimate of how often each key has been asked for: a count-min sketch of
//! four-bit counters, halved now and then so that old popularity wears off.

use vstd::prelude::*;

verus! {

/// The most table words a sketch has.
pub const MAX_TABLE_WORDS: usize = 0x3FFF_FFFF;

/// The most additions between two halvings.
pub const MAX_SAMPLE_SIZE: usize = 0x7FFF_FFFF;

/// Keeps the lower three bits of each counter of a word.
pub const RESET_MASK: u64 = 0x7777_7777_7777_7777;

/// The multiplier of each of the four hash functions.
pub open spec fn seed(depth: int) -> u64 {
    if depth == 0 {
        0xc3a5_c85c_97cb_3127
    } else if depth == 1 {
        0xb492_b66f_be98_f273
    } else if depth == 2 {
        0x9ae1_6a3b_2f90_404f
    } else {
        0xcbf2_9ce4_8422_2325
    }
}

/// Counter `c` of `word`, which holds sixteen.
pub open spec fn counter(word: u64, c: u64) -> u64 {
    (word >> (c << 2)) & 0xF
}

/// The word of the table that the hash function `depth` picks for `hash`.
pub open spec fn word_index(table: Seq<u64>, hash: u64, depth: int) -> int {
    let h = hash.wrapping_add(seed(depth)).wrapping_mul(seed(depth));
    (h.wrapping_add(h >> 32) & (table.len() - 1) as u64) as int
}

/// The counter within that word.
pub open spec fn counter_index(hash: u64, depth: int) -> u64 {
    (((hash & 3) << 2) + depth) as u64
}

/// What the hash function `depth` has counted for `hash`.
pub open spec fn count_at(table: Seq<u64>, hash: u64, depth: int) -> u64 {
    counter(table[word_index(table, hash, depth)], counter_index(hash, depth))
}

/// The smaller of two counts.
pub open spec fn min_count(a: u64, b: u64) -> u64 {
    if a <= b {
        a
    } else {
        b
    }
}

/// `word` with counter `c` one higher, unless it is at its limit.
pub open spec fn bumped_word(word: u64, c: u64) -> u64 {
    if counter(word, c) == 15 {
        word
    } else {
        (word + (1u64 << (c << 2))) as u64
    }
}

/// `table` with the counter that `depth` picks for `hash` one higher, unless it
/// is at its limit.
pub open spec fn bumped(table: Seq<u64>, hash: u64, depth: int) -> Seq<u64> {
    let i = word_index(table, hash, depth);
    table.update(i, bumped_word(table[i], counter_index(hash, depth)))
}

/// `table` with the first `n` of the four counters of `hash` bumped.
pub open spec fn bumped_up_to(table: Seq<u64>, hash: u64, n: int) -> Seq<u64>
    decreases n,
{
    if n <= 0 {
        table
    } else {
        bumped(bumped_up_to(table, hash, n - 1), hash, n - 1)
    }
}

/// `word` with each of its counters halved.
pub open spec fn halved(word: u64) -> u64 {
    (word >> 1) & RESET_MASK
}

/// The least power of two that is at least `n` and at least `from`, itself a
/// power of two.
pub open spec fn power_of_two_from(n: nat, from: nat) -> nat
    decreases if from < n { n - from } else { 0 },
{
    if from >= n || from == 0 {
        from
    } else {
        power_of_two_from(n, 2 * from)
    }
}

/// How many words a sketch for `cap` keys has.
pub open spec fn table_words(cap: nat) -> nat {
    power_of_two_from(if cap <= MAX_TABLE_WORDS { cap } else { MAX_TABLE_WORDS as nat }, 1)
}

/// How many additions a sketch for `cap` keys takes between two halvings.
pub open spec fn sample_limit(cap: nat) -> nat {
    if cap == 0 {
        10
    } else if 10 * cap <= MAX_SAMPLE_SIZE {
        10 * cap
    } else {
        MAX_SAMPLE_SIZE as nat
    }
}

/// What a sketch holds.
#[verifier::ext_equal]
pub struct SketchState {
    pub table: Seq<u64>,
    /// Additions since the last halving, counting half of those before it.
    pub size: nat,
    pub sample_size: nat,
}

impl SketchState {
    /// Whether the table can be indexed and a halving is not overdue.
    pub open spec fn wf(self) -> bool {
        &&& 0 < self.table.len() <= 2 * MAX_TABLE_WORDS
        &&& self.size < self.sample_size
        &&& 1 < self.sample_size
    }

    /// A sketch for `cap` keys, with nothing counted.
    pub open spec fn fresh(cap: nat) -> Self {
        SketchState {
            table: Seq::new(table_words(cap), |i: int| 0u64),
            size: 0,
            sample_size: sample_limit(cap),
        }
    }

    /// The estimate for `hash`: the least of its four counters.
    #[verifier::opaque]
    pub open spec fn frequency(self, hash: u64) -> u64 {
        min_count(
            min_count(count_at(self.table, hash, 0), count_at(self.table, hash, 1)),
            min_count(count_at(self.table, hash, 2), count_at(self.table, hash, 3)),
        )
    }

    /// The four counters of `hash` bumped.
    pub open spec fn added(self, hash: u64) -> Seq<u64> {
        bumped_up_to(self.table, hash, 4)
    }

    /// The sketch after one more `hash`.
    #[verifier::opaque]
    pub open spec fn incremented(self, hash: u64) -> SketchState {
        if !self.some_below_limit(hash) {
            self
        } else if self.size + 1 >= self.sample_size {
            SketchState {
                table: self.added(hash).map_values(|word: u64| halved(word)),
                size: (self.size + 1) / 2,
                sample_size: self.sample_size,
            }
        } else {
            SketchState {
                table: self.added(hash),
                size: self.size + 1,
                sample_size: self.sample_size,
            }
        }
    }

    /// Whether any of the four counters of `hash` can still go up.
    pub open spec fn some_below_limit(self, hash: u64) -> bool {
        ||| count_at(self.table, hash, 0) < 15
        ||| count_at(self.table, hash, 1) < 15
        ||| count_at(self.table, hash, 2) < 15
        ||| count_at(self.table, hash, 3) < 15
    }
}

/// Bumping a counter that is not at its limit adds one to it, and changes no
/// other counter of the word.
proof fn lemma_bumped_word(word: u64, c: u64, d: u64)
    requires
        c < 16,
        d < 16,
    ensures
        counter(word, c) <= 15,
        counter(word, c) < 15 ==> word + (1u64 << (c << 2)) <= u64::MAX,
        counter(word, c) < 15 && c == d ==> counter(bumped_word(word, c), d) == counter(word, c) + 1,
        c != d ==> counter(bumped_word(word, c), d) == counter(word, d),
{
    assert((word >> (c << 2)) & 0xF <= 15) by (bit_vector);
    if counter(word, c) < 15 {
        assert(word + (1u64 << (c << 2)) <= 0xFFFF_FFFF_FFFF_FFFFu64) by (bit_vector)
            requires
                c < 16,
                (word >> (c << 2)) & 0xF < 15,
        ;
        let w = (word + (1u64 << (c << 2))) as u64;
        if c == d {
            assert((w >> (c << 2)) & 0xF == ((word >> (c << 2)) & 0xF) + 1) by (bit_vector)
                requires
                    c < 16,
                    (word >> (c << 2)) & 0xF < 15,
                    w == word + (1u64 << (c << 2)),
            ;
        } else {
            assert((w >> (d << 2)) & 0xF == (word >> (d << 2)) & 0xF) by (bit_vector)
                requires
                    c < 16,
                    d < 16,
                    c != d,
                    (word >> (c << 2)) & 0xF < 15,
                    w == word + (1u64 << (c << 2)),
            ;
        }
    }
}

/// Every hash function picks a word of the table.
proof fn lemma_word_index(table: Seq<u64>, hash: u64, depth: int)
    requires
        0 < table.len() <= 2 * MAX_TABLE_WORDS,
    ensures
        0 <= word_index(table, hash, depth) < table.len(),
{
    let h = hash.wrapping_add(seed(depth)).wrapping_mul(seed(depth));
    let x = h.wrapping_add(h >> 32);
    let mask = (table.len() - 1) as u64;
    assert(x & mask <= mask) by (bit_vector);
}

/// The counter indices of a hash are within a word, and differ from each other.
proof fn lemma_counter_index(hash: u64, depth: int)
    requires
        0 <= depth < 4,
    ensures
        counter_index(hash, depth) == ((hash & 3) << 2) + depth,
        counter_index(hash, depth) < 16,
        counter_index(hash, depth) << 2 < 64,
{
    assert((hash & 3) << 2 <= 12) by (bit_vector);
    let c = counter_index(hash, depth);
    assert(c << 2 < 64) by (bit_vector)
        requires
            c < 16,
    ;
}

/// Bumping the counter that one hash function picks for a hash adds one to its
/// count, if it is below the limit, and leaves the counts of the others.
proof fn lemma_bumped(table: Seq<u64>, hash: u64, depth: int, other: int)
    requires
        0 < table.len() <= 2 * MAX_TABLE_WORDS,
        0 <= depth < 4,
        0 <= other < 4,
    ensures
        bumped(table, hash, depth).len() == table.len(),
        count_at(table, hash, depth) <= 15,
        count_at(bumped(table, hash, depth), hash, other) == (if other == depth && count_at(
            table,
            hash,
            depth,
        ) < 15 {
            (count_at(table, hash, other) + 1) as u64
        } else {
            count_at(table, hash, other)
        }),
{
    lemma_word_index(table, hash, depth);
    lemma_word_index(table, hash, other);
    lemma_counter_index(hash, depth);
    lemma_counter_index(hash, other);
    lemma_bumped_word(
        table[word_index(table, hash, depth)],
        counter_index(hash, depth),
        counter_index(hash, other),
    );
}

/// Bumping the first `n` counters of a hash bumps those and no other.
proof fn lemma_bumped_up_to(table: Seq<u64>, hash: u64, n: int, depth: int)
    requires
        0 < table.len() <= 2 * MAX_TABLE_WORDS,
        0 <= n <= 4,
        0 <= depth < 4,
    ensures
        bumped_up_to(table, hash, n).len() == table.len(),
        count_at(table, hash, depth) <= 15,
        count_at(bumped_up_to(table, hash, n), hash, depth) == (if depth < n && count_at(
            table,
            hash,
            depth,
        ) < 15 {
            (count_at(table, hash, depth) + 1) as u64
        } else {
            count_at(table, hash, depth)
        }),
    decreases n,
{
    if n > 0 {
        lemma_bumped_up_to(table, hash, n - 1, depth);
        lemma_bumped_up_to(table, hash, n - 1, n - 1);
        lemma_bumped(bumped_up_to(table, hash, n - 1), hash, n - 1, depth);
    } else {
        lemma_bumped(table, hash, depth, depth);
    }
}

/// Bumping a counter lowers no counter of the table.
proof fn lemma_bumped_monotone(table: Seq<u64>, hash: u64, depth: int, i: int, d: u64)
    requires
        0 < table.len() <= 2 * MAX_TABLE_WORDS,
        0 <= depth < 4,
        0 <= i < table.len(),
        d < 16,
    ensures
        bumped(table, hash, depth).len() == table.len(),
        counter(bumped(table, hash, depth)[i], d) >= counter(table[i], d),
{
    lemma_word_index(table, hash, depth);
    lemma_counter_index(hash, depth);
    lemma_bumped_word(table[word_index(table, hash, depth)], counter_index(hash, depth), d);
}

/// Counting one hash lowers what the table has counted for no other.
proof fn lemma_bumped_up_to_monotone(table: Seq<u64>, hash: u64, n: int, other: u64, depth: int)
    requires
        0 < table.len() <= 2 * MAX_TABLE_WORDS,
        0 <= n <= 4,
        0 <= depth < 4,
    ensures
        bumped_up_to(table, hash, n).len() == table.len(),
        count_at(bumped_up_to(table, hash, n), other, depth) >= count_at(table, other, depth),
    decreases n,
{
    if n > 0 {
        lemma_bumped_up_to_monotone(table, hash, n - 1, other, depth);
        let t = bumped_up_to(table, hash, n - 1);
        lemma_word_index(t, other, depth);
        lemma_counter_index(other, depth);
        lemma_bumped_monotone(
            t,
            hash,
            n - 1,
            word_index(t, other, depth),
            counter_index(other, depth),
        );
    }
}

/// A halved word has each counter halved.
proof fn lemma_halved(word: u64, c: u64)
    requires
        c < 16,
    ensures
        counter(halved(word), c) == counter(word, c) / 2,
{
    assert((((word >> 1) & 0x7777_7777_7777_7777) >> (c << 2)) & 0xF == ((word >> (c << 2)) & 0xF) / 2)
        by (bit_vector)
        requires
            c < 16,
    ;
}

/// No estimate exceeds fifteen.
pub proof fn law_frequency_is_bounded(sketch: SketchState, hash: u64)
    requires
        sketch.wf(),
    ensures
        sketch.frequency(hash) <= 15,
{
    reveal(SketchState::frequency);
    lemma_bumped(sketch.table, hash, 0, 0);
}

/// The table of a new sketch can be indexed.
proof fn lemma_power_of_two_from(n: nat, from: nat)
    requires
        from > 0,
    ensures
        from <= power_of_two_from(n, from),
        power_of_two_from(n, from) == from || power_of_two_from(n, from) < 2 * n,
    decreases if from < n { n - from } else { 0 },
{
    if from < n {
        lemma_power_of_two_from(n, 2 * from);
    }
}

/// A new sketch has counted nothing.
pub proof fn law_fresh_counts_nothing(cap: nat, hash: u64)
    ensures
        SketchState::fresh(cap).frequency(hash) == 0,
{
    reveal(SketchState::frequency);
    let table = SketchState::fresh(cap).table;
    lemma_power_of_two_from(if cap <= MAX_TABLE_WORDS { cap } else { MAX_TABLE_WORDS as nat }, 1);
    assert forall|depth: int| 0 <= depth < 4 implies #[trigger] count_at(table, hash, depth) == 0 by {
        lemma_word_index(table, hash, depth);
        lemma_counter_index(hash, depth);
        let c = counter_index(hash, depth);
        assert((0u64 >> (c << 2)) & 0xF == 0) by (bit_vector)
            requires
                c < 16,
        ;
    }
    assert(count_at(table, hash, 0) == 0);
    assert(count_at(table, hash, 1) == 0);
    assert(count_at(table, hash, 2) == 0);
    assert(count_at(table, hash, 3) == 0);
}

/// Between two halvings, counting a hash raises its estimate by one, up to
/// fifteen.
pub proof fn law_increment_raises_frequency(sketch: SketchState, hash: u64)
    requires
        sketch.wf(),
        sketch.size + 1 < sketch.sample_size,
    ensures
        sketch.incremented(hash).frequency(hash) == min_count(
            (sketch.frequency(hash) + 1) as u64,
            15,
        ),
{
    reveal(SketchState::frequency);
    reveal(SketchState::incremented);
    lemma_bumped_up_to(sketch.table, hash, 4, 0);
    lemma_bumped_up_to(sketch.table, hash, 4, 1);
    lemma_bumped_up_to(sketch.table, hash, 4, 2);
    lemma_bumped_up_to(sketch.table, hash, 4, 3);
}

/// Between two halvings, counting a hash lowers no estimate: a sketch never
/// underestimates.
pub proof fn law_increment_lowers_no_frequency(sketch: SketchState, hash: u64, other: u64)
    requires
        sketch.wf(),
        sketch.size + 1 < sketch.sample_size,
    ensures
        sketch.incremented(hash).frequency(other) >= sketch.frequency(other),
{
    reveal(SketchState::frequency);
    reveal(SketchState::incremented);
    lemma_bumped_up_to_monotone(sketch.table, hash, 4, other, 0);
    lemma_bumped_up_to_monotone(sketch.table, hash, 4, other, 1);
    lemma_bumped_up_to_monotone(sketch.table, hash, 4, other, 2);
    lemma_bumped_up_to_monotone(sketch.table, hash, 4, other, 3);
}

/// A halving halves every estimate.
pub proof fn law_halving_halves_frequencies(sketch: SketchState, hash: u64, other: u64)
    requires
        sketch.wf(),
        sketch.some_below_limit(hash),
        sketch.size + 1 >= sketch.sample_size,
    ensures
        sketch.incremented(hash).frequency(other) == (SketchState {
            table: sketch.added(hash),
            ..sketch
        }).frequency(other) / 2,
{
    reveal(SketchState::frequency);
    reveal(SketchState::incremented);
    let table = sketch.added(hash);
    lemma_bumped_up_to(sketch.table, hash, 4, 0);
    assert forall|depth: int| 0 <= depth < 4 implies #[trigger] count_at(
        sketch.incremented(hash).table,
        other,
        depth,
    ) == count_at(table, other, depth) / 2 by {
        lemma_word_index(table, other, depth);
        lemma_counter_index(other, depth);
        lemma_halved(table[word_index(table, other, depth)], counter_index(other, depth));
    }
    assert(count_at(sketch.incremented(hash).table, other, 0) == count_at(table, other, 0) / 2);
    assert(count_at(sketch.incremented(hash).table, other, 1) == count_at(table, other, 1) / 2);
    assert(count_at(sketch.incremented(hash).table, other, 2) == count_at(table, other, 2) / 2);
    assert(count_at(sketch.incremented(hash).table, other, 3) == count_at(table, other, 3) / 2);
}

/// An estimate is the least of what the four hash functions have counted.
pub proof fn law_frequency_is_least_count(sketch: SketchState, hash: u64)
    ensures
        forall|depth: int|
            0 <= depth < 4 ==> sketch.frequency(hash) <= #[trigger] count_at(
                sketch.table,
                hash,
                depth,
            ),
        exists|depth: int|
            0 <= depth < 4 && sketch.frequency(hash) == #[trigger] count_at(
                sketch.table,
                hash,
                depth,
            ),
{
    reveal(SketchState::frequency);
    let t = sketch.table;
    let a = count_at(t, hash, 0);
    let b = count_at(t, hash, 1);
    let c = count_at(t, hash, 2);
    let d = count_at(t, hash, 3);
    let f = sketch.frequency(hash);
    assert(f == a || f == b || f == c || f == d);
    assert forall|depth: int| 0 <= depth < 4 implies f <= #[trigger] count_at(t, hash, depth) by {
        assert(depth == 0 || depth == 1 || depth == 2 || depth == 3);
    }
}

/// Between two halvings, counting a hash raises each of its four counters by one, up to
/// fifteen, and changes no other counter.
pub proof fn law_increment_bumps_its_counters(sketch: SketchState, hash: u64)
    requires
        sketch.wf(),
        sketch.size + 1 < sketch.sample_size,
    ensures
        sketch.incremented(hash).table.len() == sketch.table.len(),
        forall|depth: int|
            0 <= depth < 4 ==> #[trigger] count_at(sketch.incremented(hash).table, hash, depth) == (
            if count_at(sketch.table, hash, depth) < 15 {
                (count_at(sketch.table, hash, depth) + 1) as u64
            } else {
                15
            }),
        forall|i: int, c: u64|
            0 <= i < sketch.table.len() && c < 16 && (forall|depth: int|
                0 <= depth < 4 ==> i != #[trigger] word_index(sketch.table, hash, depth) || c
                    != counter_index(hash, depth)) ==> #[trigger] counter(
                sketch.incremented(hash).table[i],
                c,
            ) == counter(sketch.table[i], c),
{
    reveal(SketchState::incremented);
    assert forall|depth: int| 0 <= depth < 4 implies #[trigger] count_at(
        sketch.incremented(hash).table,
        hash,
        depth,
    ) == (if count_at(sketch.table, hash, depth) < 15 {
        (count_at(sketch.table, hash, depth) + 1) as u64
    } else {
        15
    }) by {
        lemma_bumped_up_to(sketch.table, hash, 4, depth);
        lemma_bumped_up_to(sketch.table, hash, 4, 0);
        lemma_bumped_up_to(sketch.table, hash, 4, 1);
        lemma_bumped_up_to(sketch.table, hash, 4, 2);
        lemma_bumped_up_to(sketch.table, hash, 4, 3);
    }
    lemma_bumped_up_to(sketch.table, hash, 4, 0);
    assert forall|i: int, c: u64|
        0 <= i < sketch.table.len() && c < 16 && (forall|depth: int|
            0 <= depth < 4 ==> i != #[trigger] word_index(sketch.table, hash, depth) || c
                != counter_index(hash, depth)) implies #[trigger] counter(
        sketch.incremented(hash).table[i],
        c,
    ) == counter(sketch.table[i], c) by {
        lemma_unpicked_untouched(sketch.table, hash, 4, i, c);
    }
}

/// When the number of additions reaches its limit, a hash is counted as ever, and then every
/// counter is halved.
pub proof fn law_halving_halves_counters(sketch: SketchState, hash: u64)
    requires
        sketch.wf(),
        sketch.size + 1 >= sketch.sample_size,
        exists|depth: int| 0 <= depth < 4 && #[trigger] count_at(sketch.table, hash, depth) < 15,
    ensures
        sketch.incremented(hash).table.len() == sketch.table.len(),
        forall|depth: int|
            0 <= depth < 4 ==> #[trigger] count_at(sketch.incremented(hash).table, hash, depth) == (
            if count_at(sketch.table, hash, depth) < 15 {
                (count_at(sketch.table, hash, depth) + 1) / 2
            } else {
                7
            }),
        forall|i: int, c: u64|
            0 <= i < sketch.table.len() && c < 16 && (forall|depth: int|
                0 <= depth < 4 ==> i != #[trigger] word_index(sketch.table, hash, depth) || c
                    != counter_index(hash, depth)) ==> #[trigger] counter(
                sketch.incremented(hash).table[i],
                c,
            ) == counter(sketch.table[i], c) / 2,
{
    reveal(SketchState::incremented);
    let table = sketch.added(hash);
    let after = sketch.incremented(hash).table;
    lemma_bumped_up_to(sketch.table, hash, 4, 0);
    assert(sketch.some_below_limit(hash)) by {
        let depth = choose|depth: int|
            0 <= depth < 4 && #[trigger] count_at(sketch.table, hash, depth) < 15;
        assert(depth == 0 || depth == 1 || depth == 2 || depth == 3);
    }
    assert forall|depth: int| 0 <= depth < 4 implies #[trigger] count_at(after, hash, depth) == (
    if count_at(sketch.table, hash, depth) < 15 {
        (count_at(sketch.table, hash, depth) + 1) / 2
    } else {
        7
    }) by {
        lemma_bumped_up_to(sketch.table, hash, 4, depth);
        lemma_word_index(table, hash, depth);
        lemma_counter_index(hash, depth);
        lemma_halved(table[word_index(table, hash, depth)], counter_index(hash, depth));
    }
    assert forall|i: int, c: u64|
        0 <= i < sketch.table.len() && c < 16 && (forall|depth: int|
            0 <= depth < 4 ==> i != #[trigger] word_index(sketch.table, hash, depth) || c
                != counter_index(hash, depth)) implies #[trigger] counter(after[i], c) == counter(
        sketch.table[i],
        c,
    ) / 2 by {
        lemma_unpicked_untouched(sketch.table, hash, 4, i, c);
        lemma_halved(table[i], c);
    }
}

/// The four hash functions never pick the same counter for a hash.
pub proof fn law_counters_of_a_hash_differ(hash: u64, depth: int, other: int)
    requires
        0 <= depth < 4,
        0 <= other < 4,
        depth != other,
    ensures
        counter_index(hash, depth) < 16,
        counter_index(hash, depth) != counter_index(hash, other),
{
    lemma_counter_index(hash, depth);
    lemma_counter_index(hash, other);
}

/// The number of words of a new sketch is a power of two.
pub proof fn law_fresh_table_is_power_of_two(cap: nat)
    ensures
        ({
            let len = SketchState::fresh(cap).table.len() as u64;
            &&& len == SketchState::fresh(cap).table.len()
            &&& len & (len - 1) as u64 == 0
        }),
{
    let n = if cap <= MAX_TABLE_WORDS {
        cap
    } else {
        MAX_TABLE_WORDS as nat
    };
    assert(1u64 & 0u64 == 0) by (bit_vector);
    lemma_power_of_two(n, 1);
}

proof fn lemma_power_of_two(n: nat, from: u64)
    requires
        n <= MAX_TABLE_WORDS,
        0 < from <= 2 * MAX_TABLE_WORDS,
        from & (from - 1) as u64 == 0,
    ensures
        power_of_two_from(n, from as nat) <= u64::MAX,
        ({
            let len = power_of_two_from(n, from as nat) as u64;
            len & (len - 1) as u64 == 0
        }),
    decreases if from < n { n - from } else { 0 },
{
    if from < n {
        let double = (2 * from) as u64;
        let less = (from - 1) as u64;
        let double_less = (double - 1) as u64;
        assert(double & double_less == 0) by (bit_vector)
            requires
                0 < from <= 0x7FFF_FFFF,
                from & less == 0,
                less == from - 1,
                double == 2 * from,
                double_less == double - 1,
        ;
        lemma_power_of_two(n, double);
    }
}

/// Each hash function can pick any word of a table: none is left out.
pub proof fn law_every_word_is_picked(table: Seq<u64>, depth: int, i: int) -> (hash: u64)
    requires
        0 < table.len() <= 2 * MAX_TABLE_WORDS,
        table.len() as u64 & (table.len() - 1) as u64 == 0,
        0 <= depth < 4,
        0 <= i < table.len(),
    ensures
        word_index(table, hash, depth) == i,
{
    let range: int = 0x1_0000_0000_0000_0000;
    let s: u64 = seed(depth);
    let (inverse, k): (int, int) = if depth == 0 {
        (0x81bc_9c5a_a9c7_2e97, 7144590497223173321)
    } else if depth == 1 {
        (0x1ec3_fe17_2796_02bb, 1563717035891984319)
    } else if depth == 2 {
        (0xb5a3_60ae_14be_d6af, 7918515756355665373)
    } else {
        (0xd94e_158e_1501_40ad, 12474650003195747873)
    };
    assert(inverse * s == range * k + 1);
    let sum: u64 = ((i * inverse) % range) as u64;
    assert((sum * s) % range == i) by {
        vstd::arithmetic::div_mod::lemma_mul_mod_noop_left(i * inverse, s as int, range);
        assert((i * inverse) * s == range * (i * k) + i) by (nonlinear_arith)
            requires
                inverse * s == range * k + 1,
        ;
        vstd::arithmetic::div_mod::lemma_mod_multiples_vanish(i * k, i, range);
        vstd::arithmetic::div_mod::lemma_small_mod(i as nat, range as nat);
    }
    let hash: u64 = if sum >= s {
        (sum - s) as u64
    } else {
        (sum + range - s) as u64
    };
    assert(hash.wrapping_add(s) == sum);
    let h: u64 = sum.wrapping_mul(s);
    assert(h == i);
    assert(h >> 32 == 0) by (bit_vector)
        requires
            h < 0x8000_0000,
    ;
    let len = table.len() as u64;
    let mask = (len - 1) as u64;
    assert(h & mask == h) by (bit_vector)
        requires
            len & mask == 0,
            mask == len - 1,
            h < len,
    ;
    hash
}

/// Counting a hash leaves alone the counters that it does not pick.
proof fn lemma_unpicked_untouched(table: Seq<u64>, hash: u64, n: int, i: int, c: u64)
    requires
        0 < table.len() <= 2 * MAX_TABLE_WORDS,
        0 <= n <= 4,
        0 <= i < table.len(),
        c < 16,
        forall|depth: int|
            0 <= depth < 4 ==> i != #[trigger] word_index(table, hash, depth) || c
                != counter_index(hash, depth),
    ensures
        bumped_up_to(table, hash, n).len() == table.len(),
        counter(bumped_up_to(table, hash, n)[i], c) == counter(table[i], c),
    decreases n,
{
    if n > 0 {
        let t = bumped_up_to(table, hash, n - 1);
        lemma_unpicked_untouched(table, hash, n - 1, i, c);
        lemma_word_index(t, hash, n - 1);
        lemma_counter_index(hash, n - 1);
        assert(word_index(t, hash, n - 1) == word_index(table, hash, n - 1));
        lemma_bumped_word(t[word_index(t, hash, n - 1)], counter_index(hash, n - 1), c);
    }
}

/// What counting does to the number of additions: it is one more, or half of that when
/// the counters are halved; where all four counters of the hash are at fifteen, nothing
/// changes. How many additions lead to a halving never changes.
pub proof fn law_increment_counts_additions(sketch: SketchState, hash: u64)
    requires
        sketch.wf(),
    ensures
        sketch.incremented(hash).wf(),
        sketch.incremented(hash).sample_size == sketch.sample_size,
        (forall|depth: int| 0 <= depth < 4 ==> #[trigger] count_at(sketch.table, hash, depth) >= 15)
            ==> sketch.incremented(hash) == sketch,
        (exists|depth: int| 0 <= depth < 4 && #[trigger] count_at(sketch.table, hash, depth) < 15)
            ==> sketch.incremented(hash).size == (if sketch.size + 1 < sketch.sample_size {
            sketch.size + 1
        } else {
            (sketch.size + 1) / 2
        }),
{
    reveal(SketchState::incremented);
    lemma_bumped_up_to(sketch.table, hash, 4, 0);
    if sketch.some_below_limit(hash) {
    } else {
        assert forall|depth: int| 0 <= depth < 4 implies #[trigger] count_at(
            sketch.table,
            hash,
            depth,
        ) >= 15 by {
            assert(depth == 0 || depth == 1 || depth == 2 || depth == 3);
        }
    }
}

/// A new sketch for `cap` keys has at least one table word, less than two, for each of
/// them, and takes ten additions for each of them before it is halved, within its limits.
pub proof fn law_fresh_dimensions(cap: nat)
    ensures
        SketchState::fresh(cap).wf(),
        SketchState::fresh(cap).size == 0,
        1 <= cap <= 0x3FFF_FFFF ==> cap <= SketchState::fresh(cap).table.len() < 2 * cap + 1,
        1 <= cap && 10 * cap <= 0x7FFF_FFFF ==> SketchState::fresh(cap).sample_size == 10 * cap,
        10 * cap > 0x7FFF_FFFF ==> SketchState::fresh(cap).sample_size == 0x7FFF_FFFF,
{
    let n = if cap <= MAX_TABLE_WORDS {
        cap
    } else {
        MAX_TABLE_WORDS as nat
    };
    lemma_power_of_two_from(n, 1);
    lemma_power_of_two_reaches(n, 1);
}

/// The table of a new sketch for more keys than the table has words at most is as large
/// as a table gets.
pub proof fn law_fresh_table_is_large(cap: nat)
    requires
        cap >= 0x3FFF_FFFF,
    ensures
        SketchState::fresh(cap).table.len() >= 0x3FFF_FFFF,
{
    lemma_power_of_two_reaches(MAX_TABLE_WORDS as nat, 1);
}

/// A power of two that is at least a number is at least that number.
proof fn lemma_power_of_two_reaches(n: nat, from: nat)
    requires
        from > 0,
    ensures
        power_of_two_from(n, from) >= n,
    decreases if from < n { n - from } else { 0 },
{
    if from < n {
        lemma_power_of_two_reaches(n, 2 * from);
    }
}

/// The sketch after `hash` was counted `n` times.
pub open spec fn counted_times(sketch: SketchState, hash: u64, n: nat) -> SketchState
    decreases n,
{
    if n == 0 {
        sketch
    } else {
        counted_times(sketch, hash, (n - 1) as nat).incremented(hash)
    }
}

/// Between two halvings, counting a hash `n` times raises its estimate by `n`, up to
/// fifteen.
pub proof fn law_counting_adds_up(sketch: SketchState, hash: u64, n: nat)
    requires
        sketch.wf(),
        sketch.size + n < sketch.sample_size,
    ensures
        counted_times(sketch, hash, n).wf(),
        counted_times(sketch, hash, n).sample_size == sketch.sample_size,
        counted_times(sketch, hash, n).size <= sketch.size + n,
        counted_times(sketch, hash, n).frequency(hash) == (if sketch.frequency(hash) + n <= 15 {
            sketch.frequency(hash) + n
        } else {
            15
        }),
    decreases n,
{
    law_frequency_is_bounded(sketch, hash);
    if n > 0 {
        let before = counted_times(sketch, hash, (n - 1) as nat);
        law_counting_adds_up(sketch, hash, (n - 1) as nat);
        law_increment_raises_frequency(before, hash);
        law_increment_counts_additions(before, hash);
    }
}

/// The sketch.
pub struct FrequencySketch {
    table: Vec<u64>,
    size: usize,
    sample_size: usize,
}

impl View for FrequencySketch {
    type V = SketchState;

    closed spec fn view(&self) -> SketchState {
        SketchState {
            table: self.table@,
            size: self.size as nat,
            sample_size: self.sample_size as nat,
        }
    }
}

impl FrequencySketch {
    /// Whether the table can be indexed and the sizes are in range.
    pub closed spec fn wf(&self) -> bool {
        &&& self@.wf()
        &&& self.sample_size <= MAX_SAMPLE_SIZE
    }

    /// A sketch for `cap` keys, with nothing counted.
    pub fn with_capacity(cap: usize) -> (sketch: Self)
        ensures
            sketch.wf(),
            sketch@ == SketchState::fresh(cap as nat),
    {
        let maximum: usize = if cap <= MAX_TABLE_WORDS { cap } else { MAX_TABLE_WORDS };
        let mut words: usize = 1;
        while words < maximum
            invariant
                0 < words <= 2 * MAX_TABLE_WORDS,
                maximum <= MAX_TABLE_WORDS,
                power_of_two_from(maximum as nat, words as nat) == power_of_two_from(maximum as nat, 1),
            decreases if words < maximum { maximum - words } else { 0 },
        {
            words = 2 * words;
        }
        let table: Vec<u64> = vec![0; words];
        let sample_size: usize = if cap == 0 {
            10
        } else if cap <= MAX_SAMPLE_SIZE / 10 {
            10 * cap
        } else {
            MAX_SAMPLE_SIZE
        };
        let sketch = FrequencySketch { table, size: 0, sample_size };
        proof {
            assert(sketch@.table =~= Seq::new(table_words(cap as nat), |i: int| 0u64));
        }
        sketch
    }

    /// The estimate of how often `hash` has been counted.
    pub fn frequency(&self, hash: u64) -> (frequency: u8)
        requires
            self.wf(),
        ensures
            frequency == self@.frequency(hash),
            frequency <= 15,
    {
        proof {
            reveal(SketchState::frequency);
        }
        let mut frequency: u64 = self.count(hash, 0);
        let mut depth: usize = 1;
        let ghost table = self.table@;
        while depth < 4
            invariant
                self.wf(),
                table == self.table@,
                1 <= depth <= 4,
                frequency <= 15,
                depth == 1 ==> frequency == count_at(table, hash, 0),
                depth == 2 ==> frequency == min_count(
                    count_at(table, hash, 0),
                    count_at(table, hash, 1),
                ),
                depth == 3 ==> frequency == min_count(
                    min_count(count_at(table, hash, 0), count_at(table, hash, 1)),
                    count_at(table, hash, 2),
                ),
                depth == 4 ==> frequency == self@.frequency(hash),
            decreases 4 - depth,
        {
            proof {
                reveal(SketchState::frequency);
            }
            let count: u64 = self.count(hash, depth);
            if count < frequency {
                frequency = count;
            }
            depth = depth + 1;
        }
        frequency as u8
    }

    /// Counts `hash` once more. Where that makes enough additions, halves all
    /// counters.
    pub fn increment(&mut self, hash: u64)
        requires
            old(self).wf(),
        ensures
            final(self).wf(),
            final(self)@ == old(self)@.incremented(hash),
    {
        proof {
            reveal(SketchState::incremented);
        }
        let ghost table = self.table@;
        let mut added: bool = false;
        let mut depth: usize = 0;
        proof {
            lemma_bumped_up_to(table, hash, 0, 0);
        }
        while depth < 4
            invariant
                self.wf(),
                self.size == old(self).size,
                self.sample_size == old(self).sample_size,
                table == old(self).table@,
                0 < table.len() <= 2 * MAX_TABLE_WORDS,
                depth <= 4,
                self.table@ == bumped_up_to(table, hash, depth as int),
                added == (exists|d: int| 0 <= d < depth && #[trigger] count_at(table, hash, d) < 15),
                !added ==> self.table@ == table,
            decreases 4 - depth,
        {
            proof {
                lemma_bumped_up_to(table, hash, depth as int, depth as int);
            }
            if self.increment_at(hash, depth) {
                added = true;
                assert(count_at(table, hash, depth as int) < 15);
            }
            assert(self.table@ == bumped_up_to(table, hash, depth + 1));
            depth = depth + 1;
        }
        proof {
            lemma_bumped_up_to(table, hash, 4, 0);
            lemma_bumped_up_to(table, hash, 4, 1);
            lemma_bumped_up_to(table, hash, 4, 2);
            lemma_bumped_up_to(table, hash, 4, 3);
        }
        if added {
            self.size = self.size + 1;
            if self.size >= self.sample_size {
                self.reset();
            }
        } else {
            proof {
                assert(!old(self)@.some_below_limit(hash));
            }
        }
    }

    /// Bumps the counter that the hash function `depth` picks, and says whether
    /// it was below its limit.
    fn increment_at(&mut self, hash: u64, depth: usize) -> (added: bool)
        requires
            old(self).wf(),
            depth < 4,
        ensures
            final(self).wf(),
            final(self).table@ == bumped(old(self).table@, hash, depth as int),
            final(self).size == old(self).size,
            final(self).sample_size == old(self).sample_size,
            added == (count_at(old(self).table@, hash, depth as int) < 15),
            !added ==> final(self).table@ == old(self).table@,
    {
        let index: usize = self.index_of(hash, depth);
        proof {
            lemma_counter_index(hash, depth as int);
            lemma_bumped_word(self.table@[index as int], counter_index(hash, depth as int), 0);
        }
        let offset: u64 = (((hash & 3) << 2) + depth as u64) << 2;
        let word: u64 = self.table[index];
        if (word >> offset) & 0xF != 15 {
            self.table.set(index, word + (1u64 << offset));
            true
        } else {
            assert(self.table@ =~= bumped(self.table@, hash, depth as int));
            false
        }
    }

    /// Halves all counters.
    fn reset(&mut self)
        requires
            0 < old(self).table@.len() <= 2 * MAX_TABLE_WORDS,
            0 < old(self).size <= old(self).sample_size <= MAX_SAMPLE_SIZE,
            old(self).sample_size > 1,
        ensures
            final(self).wf(),
            final(self).table@ == old(self).table@.map_values(|word: u64| halved(word)),
            final(self).size == old(self).size / 2,
            final(self).sample_size == old(self).sample_size,
    {
        let mut i: usize = 0;
        let n: usize = self.table.len();
        while i < n
            invariant
                n == self.table@.len(),
                n == old(self).table@.len(),
                i <= n,
                self.size == old(self).size,
                self.sample_size == old(self).sample_size,
                forall|j: int| 0 <= j < i ==> #[trigger] self.table@[j] == halved(old(self).table@[j]),
                forall|j: int| i <= j < n ==> #[trigger] self.table@[j] == old(self).table@[j],
            decreases n - i,
        {
            let word: u64 = self.table[i];
            self.table.set(i, (word >> 1) & RESET_MASK);
            i = i + 1;
        }
        self.size = self.size / 2;
        assert(self.table@ =~= old(self).table@.map_values(|word: u64| halved(word)));
    }

    /// The word that the hash function `depth` picks.
    fn index_of(&self, hash: u64, depth: usize) -> (index: usize)
        requires
            self.wf(),
            depth < 4,
        ensures
            index == word_index(self.table@, hash, depth as int),
            index < self.table@.len(),
    {
        proof {
            lemma_word_index(self.table@, hash, depth as int);
        }
        let seed: u64 = if depth == 0 {
            0xc3a5_c85c_97cb_3127
        } else if depth == 1 {
            0xb492_b66f_be98_f273
        } else if depth == 2 {
            0x9ae1_6a3b_2f90_404f
        } else {
            0xcbf2_9ce4_8422_2325
        };
        let h: u64 = hash.wrapping_add(seed).wrapping_mul(seed);
        (h.wrapping_add(h >> 32) & (self.table.len() - 1) as u64) as usize
    }

    /// What the hash function `depth` has counted.
    fn count(&self, hash: u64, depth: usize) -> (count: u64)
        requires
            self.wf(),
            depth < 4,
        ensures
            count == count_at(self.table@, hash, depth as int),
            count <= 15,
    {
        proof {
            lemma_counter_index(hash, depth as int);
            lemma_bumped(self.table@, hash, depth as int, depth as int);
        }
        let offset: u64 = (((hash & 3) << 2) + depth as u64) << 2;
        (self.table[self.index_of(hash, depth)] >> offset) & 0xF
    }
}

} // verus!
