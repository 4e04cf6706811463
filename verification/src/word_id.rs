//! Compact identifiers for distinct query terms. The k-th distinct term of a
//! query is identified by the single bit `1 << k`; a set of contributing terms
//! is the bitwise or of their identifiers, so at most 32 distinct terms can
//! take part in one merge.

use vstd::prelude::*;

verus! {

/// Whether bit k (k < 32) is set in x.
pub open spec fn has_bit(x: u32, k: u32) -> bool {
    k < 32 && x & (1u32 << k) != 0
}

/// Number of set bits of x at positions below n.
pub open spec fn popcount_below(x: u32, n: nat) -> nat
    decreases n,
{
    if n == 0 {
        0
    } else {
        popcount_below(x, (n - 1) as nat) + (if has_bit(x, (n - 1) as u32) {
            1nat
        } else {
            0nat
        })
    }
}

/// Number of set bits of x.
pub open spec fn popcount(x: u32) -> nat {
    popcount_below(x, 32)
}

/// Identifier of one distinct query term: the single bit `1 << k` where k is
/// the term's 0-based position in the query's term list.
#[derive(Copy, Clone, Debug, PartialEq, Eq, Structural)]
pub struct WordId {
    pub bits: u32,
}

impl WordId {
    /// The identifier of the term at position n.
    pub fn from_index(n: usize) -> (r: WordId)
        requires
            n < 32,
        ensures
            r.bits == 1u32 << (n as u32),
    {
        WordId { bits: 1u32 << (n as u32) }
    }

    /// Recovers the term position from a single-bit identifier.
    pub fn to_index(&self) -> (r: usize)
        requires
            exists|k: u32| k < 32 && self.bits == 1u32 << k,
        ensures
            r < 32,
            self.bits == 1u32 << (r as u32),
    {
        let mut k: u32 = 0;
        while k < 32
            invariant
                k <= 32,
                exists|j: u32| j < 32 && self.bits == 1u32 << j,
                forall|j: u32| j < k ==> self.bits != 1u32 << j,
            decreases 32 - k,
        {
            if self.bits == 1u32 << k {
                return k as usize;
            }
            k += 1;
        }
        proof {
            assert(false);
        }
        0
    }
}

/// The set of distinct query terms contributing to a segment range: the
/// bitwise or of the contributing identifiers.
#[derive(Copy, Clone, Debug, PartialEq, Eq, Structural)]
pub struct WordIdSet {
    pub bits: u32,
}

impl WordIdSet {
    /// The singleton set of one term identifier.
    pub fn new(word_id: WordId) -> (r: WordIdSet)
        ensures
            r.bits == word_id.bits,
    {
        WordIdSet { bits: word_id.bits }
    }

    /// Adds a term identifier to the set.
    pub fn add(&mut self, word_id: WordId)
        ensures
            final(self).bits == old(self).bits | word_id.bits,
    {
        self.bits = self.bits | word_id.bits;
    }

    /// The number of distinct terms in the set.
    pub fn unique_count(&self) -> (r: usize)
        ensures
            r == popcount(self.bits),
    {
        let mut k: u32 = 0;
        let mut count: usize = 0;
        while k < 32
            invariant
                k <= 32,
                count == popcount_below(self.bits, k as nat),
                count <= k,
            decreases 32 - k,
        {
            if self.bits & (1u32 << k) != 0 {
                count += 1;
            }
            k += 1;
        }
        count
    }
}

/// A singleton identifier has exactly the bit of its term position.
pub proof fn lemma_single_bit(k: u32, j: u32)
    requires
        k < 32,
        j < 32,
    ensures
        has_bit(1u32 << k, j) <==> j == k,
{
    assert(((1u32 << k) & (1u32 << j) != 0) <==> j == k) by (bit_vector)
        requires
            k < 32 && j < 32,
    ;
}

/// Bits of a union are the bits of either side.
pub proof fn lemma_or_bits(x: u32, y: u32, j: u32)
    requires
        j < 32,
    ensures
        has_bit(x | y, j) <==> has_bit(x, j) || has_bit(y, j),
{
    assert(((x | y) & (1u32 << j) != 0) <==> (x & (1u32 << j) != 0) || (y & (1u32 << j) != 0))
        by (bit_vector);
}

proof fn lemma_popcount_below_pos(x: u32, k: u32, n: nat)
    requires
        has_bit(x, k),
        k < n <= 32,
    ensures
        popcount_below(x, n) >= 1,
    decreases n,
{
    if n - 1 > k {
        lemma_popcount_below_pos(x, k, (n - 1) as nat);
    }
}

/// A set with any bit set holds at least one term.
pub proof fn lemma_popcount_pos(x: u32, k: u32)
    requires
        has_bit(x, k),
    ensures
        popcount(x) >= 1,
{
    lemma_popcount_below_pos(x, k, 32);
}

} // verus!
