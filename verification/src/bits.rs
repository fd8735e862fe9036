//! Bit array store.
//!
//! A fixed-capacity, bit-packed boolean vector: exactly `m` single-bit
//! flags packed into 64-bit blocks, allocated once and never resized. The
//! view of a [`BitArray`] is the sequence of its `m` flags.

use vstd::prelude::*;

verus! {

/// Number of 64-bit blocks needed to hold `n` bits.
pub open spec fn spec_block_count(n: int) -> int {
    n / 64 + if n % 64 == 0 {
        0int
    } else {
        1int
    }
}

/// Whether bit `i` is set in the packed blocks.
pub open spec fn spec_bit_of(blocks: Seq<u64>, i: int) -> bool
    recommends
        0 <= i,
        i / 64 < blocks.len(),
{
    (blocks[i / 64] >> ((i % 64) as u64)) & 1 == 1
}

/// The number of `true` entries of a boolean sequence.
pub open spec fn count_true(s: Seq<bool>) -> nat
    decreases s.len(),
{
    if s.len() == 0 {
        0
    } else {
        count_true(s.drop_last()) + if s.last() {
            1nat
        } else {
            0nat
        }
    }
}

/// A sequence never holds more `true` entries than it has entries.
pub proof fn lemma_count_true_le_len(s: Seq<bool>)
    ensures
        count_true(s) <= s.len(),
    decreases s.len(),
{
    if s.len() > 0 {
        lemma_count_true_le_len(s.drop_last());
    }
}

/// A sequence without `true` entries counts zero of them.
pub proof fn lemma_count_true_all_false(s: Seq<bool>)
    requires
        forall|i: int| 0 <= i < s.len() ==> !s[i],
    ensures
        count_true(s) == 0,
    decreases s.len(),
{
    if s.len() > 0 {
        lemma_count_true_all_false(s.drop_last());
    }
}

/// In a block of zero every bit reads as zero.
proof fn lemma_bv_zero(t: u64)
    by (bit_vector)
    requires
        t < 64,
    ensures
        (0u64 >> t) & 1 == 0,
{
}

/// Setting bit `s` of a block makes bit `s` read as one.
proof fn lemma_bv_set_hit(x: u64, s: u64)
    by (bit_vector)
    requires
        s < 64,
    ensures
        ((x | (1u64 << s)) >> s) & 1 == 1,
{
}

/// Setting bit `s` of a block leaves every other bit as it was.
proof fn lemma_bv_set_miss(x: u64, s: u64, t: u64)
    by (bit_vector)
    requires
        s < 64,
        t < 64,
        s != t,
    ensures
        ((x | (1u64 << s)) >> t) & 1 == (x >> t) & 1,
{
}

/// A compact array of single-bit flags.
pub struct BitArray {
    blocks: Vec<u64>,
    nbits: usize,
}

impl View for BitArray {
    type V = Seq<bool>;

    closed spec fn view(&self) -> Seq<bool> {
        Seq::new(self.nbits as nat, |i: int| spec_bit_of(self.blocks@, i))
    }
}

impl BitArray {
    #[verifier::type_invariant]
    spec fn wf(self) -> bool {
        self.blocks@.len() == spec_block_count(self.nbits as int)
    }

    /// Allocates an array of `nbits` flags, all zero.
    pub fn new(nbits: usize) -> (r: Self)
        ensures
            r@.len() == nbits,
            forall|i: int| 0 <= i < nbits ==> !r@[i],
    {
        let nblocks = nbits / 64 + if nbits % 64 == 0 {
            0
        } else {
            1
        };
        let mut blocks: Vec<u64> = Vec::new();
        let mut j: usize = 0;
        while j < nblocks
            invariant
                j <= nblocks,
                blocks@.len() == j,
                forall|t: int| 0 <= t < j ==> blocks@[t] == 0u64,
            decreases nblocks - j,
        {
            blocks.push(0u64);
            j = j + 1;
        }
        let r = BitArray { blocks, nbits };
        proof {
            assert forall|i: int| 0 <= i < nbits implies !r@[i] by {
                lemma_bv_zero((i % 64) as u64);
            }
        }
        r
    }

    /// The number of flags held.
    pub fn len(&self) -> (r: usize)
        ensures
            r == self@.len(),
    {
        self.nbits
    }

    /// Reads flag `i`.
    pub fn test(&self, i: usize) -> (r: bool)
        requires
            i < self@.len(),
        ensures
            r == self@[i as int],
    {
        proof {
            use_type_invariant(self);
        }
        let b = i / 64;
        let off = (i % 64) as u64;
        (self.blocks[b] >> off) & 1 == 1
    }

    /// Sets flag `i` to one; the other flags keep their values.
    pub fn set(&mut self, i: usize)
        requires
            i < old(self)@.len(),
        ensures
            final(self)@ == old(self)@.update(i as int, true),
        no_unwind
    {
        proof {
            use_type_invariant(&*self);
        }
        let b = i / 64;
        let off = (i % 64) as u64;
        let cur = self.blocks[b];
        self.blocks[b] = cur | (1u64 << off);
        proof {
            assert forall|j: int| 0 <= j < self@.len() implies self@[j] == old(self)@.update(
                i as int,
                true,
            )[j] by {
                if j == i {
                    lemma_bv_set_hit(cur, off);
                } else if j / 64 == i / 64 {
                    assert(j % 64 != i % 64);
                    lemma_bv_set_miss(cur, off, (j % 64) as u64);
                } else {
                    assert(self.blocks@[j / 64] == old(self).blocks@[j / 64]);
                }
            }
            assert(self@ =~= old(self)@.update(i as int, true));
        }
    }

    /// Resets every flag to zero.
    pub fn clear_all(&mut self)
        ensures
            final(self)@.len() == old(self)@.len(),
            forall|i: int| 0 <= i < final(self)@.len() ==> !final(self)@[i],
        no_unwind
    {
        proof {
            use_type_invariant(&*self);
        }
        let n = self.blocks.len();
        let mut j: usize = 0;
        while j < n
            invariant
                j <= n,
                self.nbits == old(self).nbits,
                self.blocks@.len() == n,
                n == spec_block_count(self.nbits as int),
                forall|t: int| 0 <= t < j ==> self.blocks@[t] == 0u64,
            decreases n - j,
        {
            self.blocks[j] = 0u64;
            j = j + 1;
        }
        proof {
            assert forall|i: int| 0 <= i < self@.len() implies !self@[i] by {
                lemma_bv_zero((i % 64) as u64);
            }
        }
    }

    /// Counts the flags that are one: the population count.
    pub fn count_ones(&self) -> (r: usize)
        ensures
            r as nat == count_true(self@),
    {
        let n = self.len();
        let mut c: usize = 0;
        let mut i: usize = 0;
        while i < n
            invariant
                i <= n,
                n == self@.len(),
                c <= i,
                c as nat == count_true(self@.take(i as int)),
            decreases n - i,
        {
            let ghost prefix = self@.take(i as int);
            if self.test(i) {
                c = c + 1;
            }
            i = i + 1;
            proof {
                assert(self@.take(i as int).drop_last() =~= prefix);
                assert(self@.take(i as int).last() == self@[i - 1]);
            }
        }
        proof {
            assert(self@.take(n as int) =~= self@);
        }
        c
    }
}

} // verus!
