//! The set of nodes that one graph search has met.

use vstd::prelude::*;

verus! {

/// Number of nodes that one word of the bit vector stands for.
pub const WORD_BITS: usize = 64;

/// A set of node numbers as a bit vector.
///
/// Emptying the set touches no word: it starts a new generation, and a word counts only if it
/// was written in the current one.
pub struct VisitedSet {
    bits: Vec<u64>,
    generation: u64,
    generations: Vec<u64>,
}

/// Whether bit `b` of `word` is set.
pub open spec fn bit(word: u64, b: usize) -> bool {
    (word & (1u64 << (b as u64))) != 0
}

proof fn lemma_set_bit(word: u64, b: usize)
    requires
        b < WORD_BITS,
    ensures
        forall|c: usize| c < WORD_BITS ==> #[trigger] bit(word | (1u64 << (b as u64)), c) == (c == b || bit(word, c)),
{
    assert forall|c: usize| c < WORD_BITS implies #[trigger] bit(word | (1u64 << (b as u64)), c) == (c == b || bit(
        word,
        c,
    )) by {
        let x = b as u64;
        let y = c as u64;
        assert((word | (1u64 << x)) & (1u64 << y) != 0 <==> (y == x || word & (1u64 << y) != 0)) by (bit_vector)
            requires
                x < 64,
                y < 64,
        ;
    }
}

proof fn lemma_zero_word(b: usize)
    requires
        b < WORD_BITS,
    ensures
        !bit(0, b),
{
    let x = b as u64;
    assert(0u64 & (1u64 << x) == 0) by (bit_vector);
}

/// How many words hold `capacity` bits.
pub open spec fn words_for(capacity: int) -> int {
    (capacity + WORD_BITS - 1) / (WORD_BITS as int)
}

fn word_count(capacity: usize) -> (r: usize)
    ensures
        r == words_for(capacity as int),
        r * WORD_BITS >= capacity,
{
    let full: usize = capacity / WORD_BITS;
    if capacity % WORD_BITS == 0 {
        full
    } else {
        full + 1
    }
}

fn zeros(count: usize) -> (r: Vec<u64>)
    ensures
        r@ == Seq::new(count as nat, |i: int| 0u64),
{
    let r: Vec<u64> = vec![0u64; count];
    assert(r@ =~= Seq::new(count as nat, |i: int| 0u64));
    r
}

impl VisitedSet {
    /// One generation stamp per word, and no word stamped with a generation still to come.
    pub closed spec fn wf(&self) -> bool {
        &&& self.bits@.len() == self.generations@.len()
        &&& self.generation >= 1
        &&& forall|i: int| 0 <= i < self.generations@.len() ==> #[trigger] self.generations@[i] <= self.generation
    }

    spec fn has(&self, idx: usize) -> bool {
        let word = (idx / WORD_BITS) as int;
        &&& word < self.bits@.len()
        &&& self.generations@[word] == self.generation
        &&& bit(self.bits@[word], (idx % WORD_BITS) as usize)
    }

    /// The node numbers in the set.
    pub closed spec fn view(&self) -> Set<usize> {
        Set::new(|idx: usize| self.has(idx))
    }

    /// How many node numbers the allocated words can hold.
    pub closed spec fn capacity(&self) -> nat {
        self.bits@.len() * WORD_BITS as nat
    }

    /// An empty set with room for the nodes below `capacity`.
    pub fn new(capacity: usize) -> (r: VisitedSet)
        ensures
            r.wf(),
            r@ == Set::<usize>::empty(),
            r.capacity() == words_for(capacity as int) * WORD_BITS,
            r.capacity() >= capacity,
    {
        let num_words: usize = word_count(capacity);
        let r = VisitedSet { bits: zeros(num_words), generation: 1, generations: zeros(num_words) };
        assert(r@ =~= Set::<usize>::empty());
        r
    }

    /// Empties the set and keeps its room.
    pub fn clear(&mut self)
        requires
            old(self).wf(),
        ensures
            final(self).wf(),
            final(self)@ == Set::<usize>::empty(),
            final(self).capacity() == old(self).capacity(),
    {
        self.generation = self.generation.wrapping_add(1);
        if self.generation == 0 {
            self.generation = 1;
            let num_words: usize = self.bits.len();
            self.bits = zeros(num_words);
            self.generations = zeros(num_words);
        }
        assert(self@ =~= Set::<usize>::empty());
    }

    /// Makes room for the nodes below `capacity`; the set stays as it is.
    pub fn ensure_capacity(&mut self, capacity: usize)
        requires
            old(self).wf(),
        ensures
            final(self).wf(),
            final(self)@ == old(self)@,
            final(self).capacity() == if words_for(capacity as int) * WORD_BITS > old(self).capacity() {
                (words_for(capacity as int) * WORD_BITS) as nat
            } else {
                old(self).capacity()
            },
            final(self).capacity() >= capacity,
    {
        let num_words: usize = word_count(capacity);
        if num_words > self.bits.len() {
            let ghost before = *self;
            self.bits.resize(num_words, 0);
            self.generations.resize(num_words, 0);
            proof {
                assert(before.bits@ == self.bits@.subrange(0, before.bits@.len() as int));
                assert(before.generations@ == self.generations@.subrange(0, before.generations@.len() as int));
                assert forall|i: int| 0 <= i < before.bits@.len() implies #[trigger] self.bits@[i] == before.bits@[i] by {
                    assert(before.bits@[i] == self.bits@.subrange(0, before.bits@.len() as int)[i]);
                }
                assert forall|i: int| 0 <= i < before.bits@.len() implies #[trigger] self.generations@[i]
                    == before.generations@[i] by {
                    assert(before.generations@[i] == self.generations@.subrange(0, before.generations@.len() as int)[i]);
                }
                assert forall|i: int| before.bits@.len() <= i < num_words implies #[trigger] self.generations@[i] == 0 by {
                    assert(cloned::<u64>(0u64, self.generations@[i]));
                }
                assert(self@ =~= before@);
            }
        }
    }

    /// Adds a node; `true` if it was not in the set before.
    pub fn insert(&mut self, idx: usize) -> (r: bool)
        requires
            old(self).wf(),
            idx < usize::MAX,
        ensures
            final(self).wf(),
            r == !old(self)@.contains(idx),
            final(self)@ == old(self)@.insert(idx),
            final(self).capacity() >= old(self).capacity(),
    {
        let word_idx: usize = idx / WORD_BITS;
        let bit_idx: usize = idx % WORD_BITS;
        let mask: u64 = 1u64 << (bit_idx as u64);
        if word_idx >= self.bits.len() {
            self.ensure_capacity(idx + 1);
        }
        let ghost before = *self;
        if self.generations[word_idx] != self.generation {
            self.bits[word_idx] = 0;
            self.generations[word_idx] = self.generation;
        }
        let word: u64 = self.bits[word_idx];
        let was_set = (word & mask) != 0;
        self.bits[word_idx] = word | mask;
        proof {
            lemma_set_bit(word, bit_idx);
            assert forall|c: usize| c < WORD_BITS implies !bit(0, c) by {
                lemma_zero_word(c);
            }
            lemma_zero_word(bit_idx);
            assert(was_set == bit(word, bit_idx));
            assert(was_set == before.has(idx));
            assert forall|j: usize| self.has(j) == (j == idx || before.has(j)) by {
                let w = (j / WORD_BITS) as int;
                let c = (j % WORD_BITS) as usize;
                if w == word_idx {
                    assert(bit(word | (1u64 << (bit_idx as u64)), c) == (c == bit_idx || bit(word, c)));
                    assert(j == w * WORD_BITS + c);
                    assert(idx == word_idx * WORD_BITS + bit_idx);
                }
            }
            assert(self@ =~= before@.insert(idx));
        }
        !was_set
    }

    /// Whether the node is in the set.
    pub fn contains(&self, idx: usize) -> (r: bool)
        requires
            self.wf(),
        ensures
            r == self@.contains(idx),
    {
        let word_idx: usize = idx / WORD_BITS;
        let bit_idx: usize = idx % WORD_BITS;
        if word_idx >= self.bits.len() {
            return false;
        }
        if self.generations[word_idx] != self.generation {
            return false;
        }
        (self.bits[word_idx] & (1u64 << (bit_idx as u64))) != 0
    }
}

} // verus!
