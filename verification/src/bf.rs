//! The Bloom filter engine and its sizing mathematics.

use hash_iter::{BuildHashIterHasher, DoubleHashBuilder, HashIterHasher};
use std::borrow::Borrow;
use std::hash::Hash;
use std::marker::PhantomData;
use vstd::arithmetic::div_mod::{
    lemma_basic_div, lemma_div_is_ordered, lemma_div_multiples_vanish_fancy,
    lemma_mod_division_less_than_divisor, lemma_multiply_divide_lt,
};
use vstd::arithmetic::mul::{
    lemma_mul_inequality, lemma_mul_is_commutative, lemma_mul_upper_bound,
};
use vstd::prelude::*;

use crate::bits::{count_true, lemma_count_true_all_false, lemma_count_true_le_len, BitArray};
use crate::error::{QueryFilterError, QueryFilterResult};
use crate::fixp::{log2_q56, spec_log2_q56, LN2_Q56, ONE_Q56};
use crate::{ClearableQueryFilter, InsertableQueryFilter, QueryFilter};

verus! {

/// A false-positive probability, held exactly as the ratio `num / den`.
///
/// A rate is *valid* when it lies in the open interval `(0, 1)`, that is
/// when `0 < num < den`; the constructors of [`crate::BloomFilter`] reject
/// any other value.
#[derive(Debug, Clone, Copy, PartialEq, Eq, Structural)]
pub struct FpRate {
    /// Numerator of the probability.
    pub num: u64,
    /// Denominator of the probability.
    pub den: u64,
}

impl FpRate {
    /// True when the ratio lies in the open interval `(0, 1)`.
    pub open spec fn valid(self) -> bool {
        0 < self.num < self.den
    }

    /// Builds the rate `num / den`.
    pub fn new(num: u64, den: u64) -> (r: FpRate)
        ensures
            r == (FpRate { num, den }),
    {
        FpRate { num, den }
    }

    /// Returns whether the rate lies in the open interval `(0, 1)`.
    pub fn is_valid(&self) -> (r: bool)
        ensures
            r == self.valid(),
    {
        0 < self.num && self.num < self.den
    }
}

/// The bit count `m = ceil(capacity * log2(1/p) / ln 2)` — the fixed-point
/// form of `ceil(-capacity * ln p / (ln 2)^2)` — clamped into
/// `[1, usize::MAX]`.
pub open spec fn spec_optimal_bit_count(capacity: int, num: int, den: int) -> int {
    let l = spec_log2_q56(num, den);
    let raw = (capacity * l + (LN2_Q56 - 1)) / LN2_Q56 as int;
    let floored = if raw < 1 {
        1int
    } else {
        raw
    };
    if floored > usize::MAX as int {
        usize::MAX as int
    } else {
        floored
    }
}

/// The capacity `n = round(bit_count * ln 2 / log2(1/p))` — the fixed-point
/// form of `round(bit_count * (ln 2)^2 / -ln p)` — clamped to `usize::MAX`,
/// which is also the value returned when `p` is so close to one that its
/// logarithm rounds to zero.
pub open spec fn spec_optimal_capacity(bit_count: int, num: int, den: int) -> int {
    let l = spec_log2_q56(num, den);
    if l == 0 {
        usize::MAX as int
    } else {
        let raw = (2 * bit_count * LN2_Q56 + l) / (2 * l);
        if raw > usize::MAX as int {
            usize::MAX as int
        } else {
            raw
        }
    }
}

/// The hash count `k = ceil(bit_count / capacity * ln 2)`, with a floor of
/// one hash function.
pub open spec fn spec_optimal_hash_count(capacity: int, bit_count: int) -> int {
    let raw = (bit_count * LN2_Q56 + (capacity * ONE_Q56 - 1)) / (capacity * ONE_Q56);
    if raw < 1 {
        1int
    } else {
        raw
    }
}

/// Given a capacity and a desired false positive rate, returns the optimal
/// number of bits to use (size of the filter, `m`).
pub fn optimal_bit_count(capacity: usize, fp_rate: FpRate) -> (m: usize)
    requires
        capacity >= 1,
        fp_rate.valid(),
    ensures
        m == spec_optimal_bit_count(capacity as int, fp_rate.num as int, fp_rate.den as int),
        m >= 1,
{
    let l = log2_q56(fp_rate.num, fp_rate.den);
    proof {
        lemma_mul_upper_bound(
            capacity as int,
            0xFFFFFFFFFFFFFFFFint,
            l as int,
            0x3FFFFFFFFFFFFFFFint,
        );
    }
    let a: u128 = (capacity as u128) * (l as u128);
    let c: u128 = (a + (LN2_Q56 as u128 - 1)) / (LN2_Q56 as u128);
    let c = if c < 1 {
        1
    } else {
        c
    };
    if c > usize::MAX as u128 {
        usize::MAX
    } else {
        c as usize
    }
}

/// Given a desired false positive rate and the number of bits, returns the
/// optimal capacity (number of items hashed into filter, `n`).
pub fn optimal_capacity(bit_count: usize, fp_rate: FpRate) -> (n: usize)
    requires
        fp_rate.valid(),
    ensures
        n == spec_optimal_capacity(bit_count as int, fp_rate.num as int, fp_rate.den as int),
{
    let l = log2_q56(fp_rate.num, fp_rate.den);
    if l == 0 {
        return usize::MAX;
    }
    proof {
        lemma_mul_upper_bound(
            2 * bit_count as int,
            0x1FFFFFFFFFFFFFFFEint,
            LN2_Q56 as int,
            LN2_Q56 as int,
        );
    }
    let a: u128 = (2 * bit_count as u128) * (LN2_Q56 as u128);
    let r: u128 = (a + l as u128) / (2 * l as u128);
    if r > usize::MAX as u128 {
        usize::MAX
    } else {
        r as usize
    }
}

/// Returns the optimal number of hash functions to use (`k`).
///
/// Current implementation relies on double hashing, so for a given key, it
/// creates this many hash values (while internally using up to two
/// different hash functions -- mostly one).
pub fn optimal_hash_count(capacity: usize, bit_count: usize) -> (k: usize)
    requires
        capacity >= 1,
    ensures
        k == spec_optimal_hash_count(capacity as int, bit_count as int),
        1 <= k,
        bit_count >= 1 ==> k <= bit_count,
{
    proof {
        lemma_mul_upper_bound(
            bit_count as int,
            0xFFFFFFFFFFFFFFFFint,
            LN2_Q56 as int,
            LN2_Q56 as int,
        );
        lemma_mul_upper_bound(
            capacity as int,
            0xFFFFFFFFFFFFFFFFint,
            ONE_Q56 as int,
            ONE_Q56 as int,
        );
    }
    let a: u128 = (bit_count as u128) * (LN2_Q56 as u128);
    let b: u128 = (capacity as u128) * (ONE_Q56 as u128);
    proof {
        assert(ONE_Q56 as int <= capacity as int * ONE_Q56) by {
            lemma_mul_inequality(1, capacity as int, ONE_Q56 as int);
        }
    }
    let raw: u128 = (a + (b - 1)) / b;
    proof {
        if bit_count >= 1 {
            assert(LN2_Q56 as int <= b as int) by {
                lemma_mul_inequality(1, capacity as int, ONE_Q56 as int);
            }
            assert(a as int <= b as int * bit_count as int) by {
                lemma_mul_inequality(LN2_Q56 as int, b as int, bit_count as int);
                lemma_mul_is_commutative(bit_count as int, LN2_Q56 as int);
            }
            lemma_div_is_ordered(
                (a + (b - 1)) as int,
                b as int * bit_count as int + (b - 1),
                b as int,
            );
            lemma_div_multiples_vanish_fancy(bit_count as int, b as int - 1, b as int);
            assert(raw <= bit_count);
        } else {
            lemma_basic_div(b as int - 1, b as int);
        }
    }
    let k128: u128 = if raw < 1 {
        1
    } else {
        raw
    };
    k128 as usize
}

/// The bit position a single hash value selects in an array of `m` bits.
pub open spec fn spec_index_of(h: u64, m: int) -> int
    recommends
        m >= 1,
{
    (h as int) % m
}

/// Whether every bit position selected by the hash values is set.
pub open spec fn spec_contains_hashes(bits: Seq<bool>, hs: Seq<u64>) -> bool {
    forall|i: int| 0 <= i < hs.len() ==> bits[spec_index_of(hs[i], bits.len() as int)]
}

/// The bit array after setting the bit selected by each hash value.
pub open spec fn spec_set_hashes(bits: Seq<bool>, hs: Seq<u64>) -> Seq<bool>
    decreases hs.len(),
{
    if hs.len() == 0 {
        bits
    } else {
        spec_set_hashes(bits, hs.drop_last()).update(
            spec_index_of(hs.last(), bits.len() as int),
            true,
        )
    }
}

/// Setting bits never changes how many bits the array holds.
pub proof fn lemma_set_hashes_len(bits: Seq<bool>, hs: Seq<u64>)
    requires
        bits.len() >= 1,
    ensures
        spec_set_hashes(bits, hs).len() == bits.len(),
    decreases hs.len(),
{
    if hs.len() > 0 {
        lemma_set_hashes_len(bits, hs.drop_last());
        lemma_mod_division_less_than_divisor(hs.last() as int, bits.len() as int);
    }
}

/// Setting bits only ever turns bits on: a bit that was set stays set.
pub proof fn lemma_set_hashes_monotone(bits: Seq<bool>, hs: Seq<u64>, j: int)
    requires
        0 <= j < bits.len(),
        bits[j],
    ensures
        spec_set_hashes(bits, hs)[j],
    decreases hs.len(),
{
    if hs.len() > 0 {
        lemma_set_hashes_monotone(bits, hs.drop_last(), j);
        lemma_set_hashes_len(bits, hs.drop_last());
    }
}

/// Every bit position selected by one of the hash values is set afterwards.
pub proof fn lemma_set_hashes_targets(bits: Seq<bool>, hs: Seq<u64>, i: int)
    requires
        bits.len() >= 1,
        0 <= i < hs.len(),
    ensures
        spec_set_hashes(bits, hs)[spec_index_of(hs[i], bits.len() as int)],
    decreases hs.len(),
{
    let m = bits.len() as int;
    lemma_set_hashes_len(bits, hs.drop_last());
    lemma_mod_division_less_than_divisor(hs[i] as int, m);
    if i == hs.len() - 1 {
    } else {
        lemma_set_hashes_targets(bits, hs.drop_last(), i);
        lemma_mod_division_less_than_divisor(hs.last() as int, m);
    }
}

/// Setting bits that are all already set leaves the array unchanged.
pub proof fn lemma_set_hashes_noop(bits: Seq<bool>, hs: Seq<u64>)
    requires
        bits.len() >= 1,
        spec_contains_hashes(bits, hs),
    ensures
        spec_set_hashes(bits, hs) == bits,
    decreases hs.len(),
{
    let m = bits.len() as int;
    if hs.len() > 0 {
        assert(spec_contains_hashes(bits, hs.drop_last()));
        lemma_set_hashes_noop(bits, hs.drop_last());
        lemma_mod_division_less_than_divisor(hs.last() as int, m);
        assert(bits[spec_index_of(hs[hs.len() - 1], m)]);
        assert(spec_set_hashes(bits, hs) =~= bits);
    }
}

/// **No false negatives.** Once the bit positions of a key's hash values
/// have been set, a query for those same hash values answers `true`, no
/// matter which other hash values are set afterwards — only a full clear
/// can reset a bit.
pub proof fn lemma_no_false_negatives(bits: Seq<bool>, hs: Seq<u64>, later: Seq<u64>)
    requires
        bits.len() >= 1,
    ensures
        spec_contains_hashes(spec_set_hashes(spec_set_hashes(bits, hs), later), hs),
{
    let m = bits.len() as int;
    let inserted = spec_set_hashes(bits, hs);
    let after = spec_set_hashes(inserted, later);
    lemma_set_hashes_len(bits, hs);
    lemma_set_hashes_len(inserted, later);
    assert forall|i: int| 0 <= i < hs.len() implies after[spec_index_of(hs[i], m)] by {
        lemma_set_hashes_targets(bits, hs, i);
        lemma_mod_division_less_than_divisor(hs[i] as int, m);
        lemma_set_hashes_monotone(inserted, later, spec_index_of(hs[i], m));
    }
}

/// **Idempotent insert.** Setting the bit positions of the same hash
/// values twice produces exactly the bit array of a single insertion, so
/// every later query and the cardinality estimate are unchanged.
pub proof fn lemma_insert_idempotent(bits: Seq<bool>, hs: Seq<u64>)
    requires
        bits.len() >= 1,
    ensures
        spec_set_hashes(spec_set_hashes(bits, hs), hs) == spec_set_hashes(bits, hs),
{
    let m = bits.len() as int;
    let once = spec_set_hashes(bits, hs);
    lemma_set_hashes_len(bits, hs);
    assert forall|i: int| 0 <= i < hs.len() implies once[spec_index_of(hs[i], m)] by {
        lemma_set_hashes_targets(bits, hs, i);
    }
    lemma_set_hashes_noop(once, hs);
}

/// **Clear resets fully.** In an all-zero bit array no key is contained:
/// a query with at least one hash value answers `false`.
pub proof fn lemma_cleared_contains_nothing(bits: Seq<bool>, hs: Seq<u64>)
    requires
        bits.len() >= 1,
        hs.len() >= 1,
        forall|i: int| 0 <= i < bits.len() ==> !bits[i],
    ensures
        !spec_contains_hashes(bits, hs),
{
    let m = bits.len() as int;
    lemma_mod_division_less_than_divisor(hs[0] as int, m);
    assert(!bits[spec_index_of(hs[0], m)]);
}

/// **Clear resets the estimate.** An all-zero bit array estimates a
/// cardinality of exactly zero.
pub proof fn lemma_cleared_estimates_zero(bits: Seq<bool>, k: nat)
    requires
        bits.len() >= 1,
        k >= 1,
        forall|i: int| 0 <= i < bits.len() ==> !bits[i],
    ensures
        spec_approx_capacity(count_true(bits), bits.len(), k) == 0,
{
    let m = bits.len();
    lemma_count_true_all_false(bits);
    crate::fixp::lemma_log2_q56_of_one(m as int);
    lemma_basic_div(0, ONE_Q56 as int);
    let b = k as int * ONE_Q56;
    assert(ONE_Q56 as int <= b) by {
        lemma_mul_inequality(1, k as int, ONE_Q56 as int);
    }
    assert(2 * m as int * 0 == 0) by (nonlinear_arith);
    lemma_basic_div(b, 2 * b);
}

/// Default first seed of the double-hashing seed pair.
pub const DEFAULT_SEED_1: u64 = 12345;

/// Default second seed of the double-hashing seed pair.
pub const DEFAULT_SEED_2: u64 = 67890;

/// Relies on `hash_iter`: a `DoubleHashHasher` built over xxh3 with the
/// given seed pair (and the builder's default modulus, `usize::MAX`, which
/// is never zero), whose `hash_iter` yields, by enhanced double hashing
/// from two base hash evaluations of the key, exactly `count` hash values.
#[verifier::external_body]
fn hash_values<Q: Hash + ?Sized>(seeds: (u64, u64), key: &Q, count: usize) -> (r: Vec<u64>)
    ensures
        r@.len() == count,
{
    let hasher = DoubleHashBuilder::<u64>::new()
        .with_seed1(seeds.0)
        .with_seed2(seeds.1)
        .build_hash_iter_hasher();
    hasher.hash_iter(key, count).collect()
}

/// The mathematical content of a Bloom filter: its bit array, its hash
/// count and its seed pair.
pub ghost struct FilterView {
    /// The `m` bits of the store.
    pub bits: Seq<bool>,
    /// How many bit positions each key selects.
    pub k: nat,
    /// The seed pair all hashing is derived from.
    pub seeds: (u64, u64),
}

/// A Bloom filter: a probabilistic set-membership filter over keys of
/// type `K` with zero false negatives and a tunable false-positive rate.
///
/// Keys are never stored; each key only sets `k` bit positions derived
/// from a fixed seed pair, so membership answers may err towards `true`
/// but never towards `false`.
pub struct BloomFilter<K> where K: Eq + Hash {
    bits: BitArray,
    seeds: (u64, u64),
    k: usize,
    phantom: PhantomData<K>,
}

impl<K: Eq + Hash> View for BloomFilter<K> {
    type V = FilterView;

    closed spec fn view(&self) -> FilterView {
        FilterView { bits: self.bits@, k: self.k as nat, seeds: self.seeds }
    }
}

impl<K: Eq + Hash> BloomFilter<K> {
    #[verifier::type_invariant]
    spec fn wf(self) -> bool {
        self.bits@.len() >= 1 && self.k >= 1
    }

    /// Creates a new Bloom filter with a desired capacity and false
    /// positive rate, or an error when the configuration is invalid.
    pub fn new(capacity: usize, fp_rate: FpRate) -> (r: QueryFilterResult<Self>)
        ensures
            r.is_ok() <==> capacity >= 1 && fp_rate.valid(),
            r matches Ok(f) ==> {
                &&& f@.bits.len() == spec_optimal_bit_count(
                    capacity as int,
                    fp_rate.num as int,
                    fp_rate.den as int,
                )
                &&& f@.k == spec_optimal_hash_count(capacity as int, f@.bits.len() as int)
                &&& f@.seeds == (DEFAULT_SEED_1, DEFAULT_SEED_2)
                &&& forall|i: int| 0 <= i < f@.bits.len() ==> !f@.bits[i]
            },
    {
        Self::with_capacity(capacity, fp_rate)
    }

    /// Creates a new Bloom filter with a desired size (in bytes) and false
    /// positive rate, or an error when the configuration is invalid.
    pub fn with_size(size: usize, fp_rate: FpRate) -> (r: QueryFilterResult<Self>)
        ensures
            r.is_ok() <==> fp_rate.valid() && 1 <= size && size <= usize::MAX as int / 8
                && spec_optimal_capacity(
                8 * size as int,
                fp_rate.num as int,
                fp_rate.den as int,
            ) >= 1,
            r matches Ok(f) ==> {
                let capacity = spec_optimal_capacity(
                    8 * size as int,
                    fp_rate.num as int,
                    fp_rate.den as int,
                );
                &&& f@.bits.len() == spec_optimal_bit_count(
                    capacity,
                    fp_rate.num as int,
                    fp_rate.den as int,
                )
                &&& f@.k == spec_optimal_hash_count(capacity, f@.bits.len() as int)
                &&& f@.seeds == (DEFAULT_SEED_1, DEFAULT_SEED_2)
                &&& forall|i: int| 0 <= i < f@.bits.len() ==> !f@.bits[i]
            },
    {
        Self::with_size_and_hasher(size, fp_rate, (DEFAULT_SEED_1, DEFAULT_SEED_2))
    }

    /// Creates a new Bloom filter with a desired capacity and false
    /// positive rate, or an error when the configuration is invalid.
    pub fn with_capacity(capacity: usize, fp_rate: FpRate) -> (r: QueryFilterResult<Self>)
        ensures
            r.is_ok() <==> capacity >= 1 && fp_rate.valid(),
            r matches Ok(f) ==> {
                &&& f@.bits.len() == spec_optimal_bit_count(
                    capacity as int,
                    fp_rate.num as int,
                    fp_rate.den as int,
                )
                &&& f@.k == spec_optimal_hash_count(capacity as int, f@.bits.len() as int)
                &&& f@.seeds == (DEFAULT_SEED_1, DEFAULT_SEED_2)
                &&& forall|i: int| 0 <= i < f@.bits.len() ==> !f@.bits[i]
            },
    {
        Self::with_capacity_and_hasher(capacity, fp_rate, (DEFAULT_SEED_1, DEFAULT_SEED_2))
    }

    /// Creates a new Bloom filter with a desired size (in bytes), false
    /// positive rate, and seed pair for the double hasher, or an error
    /// when the configuration is invalid.
    pub fn with_size_and_hasher(size: usize, fp_rate: FpRate, seeds: (u64, u64)) -> (r:
        QueryFilterResult<Self>)
        ensures
            r.is_ok() <==> fp_rate.valid() && 1 <= size && size <= usize::MAX as int / 8
                && spec_optimal_capacity(
                8 * size as int,
                fp_rate.num as int,
                fp_rate.den as int,
            ) >= 1,
            r matches Ok(f) ==> {
                let capacity = spec_optimal_capacity(
                    8 * size as int,
                    fp_rate.num as int,
                    fp_rate.den as int,
                );
                &&& f@.bits.len() == spec_optimal_bit_count(
                    capacity,
                    fp_rate.num as int,
                    fp_rate.den as int,
                )
                &&& f@.k == spec_optimal_hash_count(capacity, f@.bits.len() as int)
                &&& f@.seeds == seeds
                &&& forall|i: int| 0 <= i < f@.bits.len() ==> !f@.bits[i]
            },
    {
        if !fp_rate.is_valid() || size < 1 || size > usize::MAX / 8 {
            return Err(
                QueryFilterError::Other(
                    "invalid filter configuration: the size must be positive and fit in the address space, and the false-positive rate must lie in (0, 1)".to_string(),
                ),
            );
        }
        proof {
            vstd::arithmetic::div_mod::lemma_fundamental_div_mod(usize::MAX as int, 8);
            lemma_mod_division_less_than_divisor(usize::MAX as int, 8);
        }
        let capacity = optimal_capacity(size * 8, fp_rate);
        if capacity < 1 {
            return Err(
                QueryFilterError::Other(
                    "invalid filter configuration: the size is too small for the false-positive rate".to_string(),
                ),
            );
        }
        Self::with_capacity_and_hasher(capacity, fp_rate, seeds)
    }

    /// Creates a new Bloom filter with a desired capacity, false positive
    /// rate, and seed pair for the double hasher, or an error when the
    /// configuration is invalid.
    pub fn with_capacity_and_hasher(capacity: usize, fp_rate: FpRate, seeds: (u64, u64)) -> (r:
        QueryFilterResult<Self>)
        ensures
            r.is_ok() <==> capacity >= 1 && fp_rate.valid(),
            r matches Ok(f) ==> {
                &&& f@.bits.len() == spec_optimal_bit_count(
                    capacity as int,
                    fp_rate.num as int,
                    fp_rate.den as int,
                )
                &&& f@.k == spec_optimal_hash_count(capacity as int, f@.bits.len() as int)
                &&& f@.seeds == seeds
                &&& forall|i: int| 0 <= i < f@.bits.len() ==> !f@.bits[i]
            },
    {
        if capacity < 1 || !fp_rate.is_valid() {
            return Err(
                QueryFilterError::Other(
                    "invalid filter configuration: the capacity must be positive and the false-positive rate must lie in (0, 1)".to_string(),
                ),
            );
        }
        let bit_count = optimal_bit_count(capacity, fp_rate);
        let k = optimal_hash_count(capacity, bit_count);
        Ok(BloomFilter { bits: BitArray::new(bit_count), seeds, k, phantom: PhantomData })
    }

    /// Queries the bit positions selected by already-computed hash values:
    /// `true` exactly when every one of them is set.
    pub fn contains_hashes(&self, hs: &Vec<u64>) -> (r: bool)
        ensures
            r == spec_contains_hashes(self@.bits, hs@),
    {
        proof {
            use_type_invariant(self);
        }
        let m = self.bits.len();
        let n = hs.len();
        let mut i: usize = 0;
        while i < n
            invariant
                m == self@.bits.len(),
                m >= 1,
                n == hs@.len(),
                i <= n,
                forall|j: int| 0 <= j < i ==> self@.bits[spec_index_of(hs@[j], m as int)],
            decreases n - i,
        {
            let h = hs[i];
            let idx = (h % (m as u64)) as usize;
            if !self.bits.test(idx) {
                return false;
            }
            i = i + 1;
        }
        true
    }

    /// Sets the bit positions selected by already-computed hash values.
    pub fn insert_hashes(&mut self, hs: &Vec<u64>)
        ensures
            final(self)@.bits == spec_set_hashes(old(self)@.bits, hs@),
            final(self)@.k == old(self)@.k,
            final(self)@.seeds == old(self)@.seeds,
    {
        proof {
            use_type_invariant(&*self);
        }
        let m = self.bits.len();
        let n = hs.len();
        let mut i: usize = 0;
        proof {
            assert(hs@.take(0) =~= Seq::<u64>::empty());
        }
        while i < n
            invariant
                m == old(self)@.bits.len(),
                m >= 1,
                self.k == old(self).k,
                self.k >= 1,
                self.seeds == old(self).seeds,
                n == hs@.len(),
                i <= n,
                self.bits@ == spec_set_hashes(old(self)@.bits, hs@.take(i as int)),
            decreases n - i,
        {
            proof {
                lemma_set_hashes_len(old(self)@.bits, hs@.take(i as int));
            }
            let h = hs[i];
            let idx = (h % (m as u64)) as usize;
            self.bits.set(idx);
            i = i + 1;
            proof {
                assert(hs@.take(i as int).drop_last() =~= hs@.take(i - 1));
                assert(hs@.take(i as int).last() == hs@[i - 1]);
            }
        }
        proof {
            assert(hs@.take(n as int) =~= hs@);
        }
    }

    /// Generates the key's hash values and inserts it: every bit the key
    /// selects is set, no set bit is ever reset, and the array size, hash
    /// count and seeds stay as they were.
    pub fn insert_key(&mut self, key: &K)
        ensures
            final(self)@.k == old(self)@.k,
            final(self)@.seeds == old(self)@.seeds,
            final(self)@.bits.len() == old(self)@.bits.len(),
            exists|hs: Seq<u64>|
                hs.len() == old(self)@.k && final(self)@.bits == spec_set_hashes(
                    old(self)@.bits,
                    hs,
                ),
            forall|j: int|
                0 <= j < old(self)@.bits.len() && old(self)@.bits[j] ==> final(self)@.bits[j],
    {
        proof {
            use_type_invariant(&*self);
        }
        let hs = hash_values(self.seeds, key, self.k);
        self.insert_hashes(&hs);
        proof {
            lemma_set_hashes_len(old(self)@.bits, hs@);
            assert forall|j: int|
                0 <= j < old(self)@.bits.len() && old(self)@.bits[j] implies self@.bits[j] by {
                lemma_set_hashes_monotone(old(self)@.bits, hs@, j);
            }
        }
    }

    /// Generates the key's hash values and queries them: `true` exactly
    /// when every selected bit is set. On an all-zero array the answer is
    /// always `false`; on an all-one array it is always `true`.
    pub fn contains_key<Q>(&self, key: &Q) -> (r: bool) where K: Borrow<Q>, Q: Eq + Hash + ?Sized
        ensures
            exists|hs: Seq<u64>|
                hs.len() == self@.k && r == spec_contains_hashes(self@.bits, hs),
            (forall|i: int| 0 <= i < self@.bits.len() ==> !self@.bits[i]) ==> !r,
            (forall|i: int| 0 <= i < self@.bits.len() ==> self@.bits[i]) ==> r,
    {
        proof {
            use_type_invariant(self);
        }
        let hs = hash_values(self.seeds, key, self.k);
        let r = self.contains_hashes(&hs);
        proof {
            if forall|i: int| 0 <= i < self@.bits.len() ==> !self@.bits[i] {
                lemma_cleared_contains_nothing(self@.bits, hs@);
            }
            if forall|i: int| 0 <= i < self@.bits.len() ==> self@.bits[i] {
                assert forall|i: int| 0 <= i < hs@.len() implies self@.bits[spec_index_of(
                    hs@[i],
                    self@.bits.len() as int,
                )] by {
                    lemma_mod_division_less_than_divisor(
                        hs@[i] as int,
                        self@.bits.len() as int,
                    );
                }
            }
        }
        r
    }

    /// Resets every bit: the filter forgets all prior insertions, while
    /// the array size, hash count and seeds stay as they were.
    pub fn clear_filter(&mut self)
        ensures
            final(self)@.bits.len() == old(self)@.bits.len(),
            final(self)@.k == old(self)@.k,
            final(self)@.seeds == old(self)@.seeds,
            forall|i: int| 0 <= i < final(self)@.bits.len() ==> !final(self)@.bits[i],
    {
        proof {
            use_type_invariant(&*self);
        }
        self.bits.clear_all();
    }

    /// Returns the approximate number of elements currently in the filter.
    ///
    /// The estimate is `round((m / k) * ln(m / (m - ones)))` for `ones`
    /// set bits out of `m`, computed in `Q56` fixed point; an empty array
    /// estimates zero, and a saturated array is clamped to `usize::MAX`.
    pub fn approx_current_capacity(&self) -> (r: usize)
        ensures
            r == spec_approx_capacity(count_true(self@.bits), self@.bits.len(), self@.k),
            count_true(self@.bits) == 0 ==> r == 0,
    {
        proof {
            use_type_invariant(self);
            lemma_count_true_le_len(self@.bits);
        }
        let ones = self.bits.count_ones();
        let m = self.bits.len();
        if ones >= m {
            return usize::MAX;
        }
        let l = log2_q56((m - ones) as u64, m as u64);
        proof {
            lemma_mul_upper_bound(
                l as int,
                0x3FFFFFFFFFFFFFFFint,
                LN2_Q56 as int,
                LN2_Q56 as int,
            );
        }
        let lnq: u128 = ((l as u128) * (LN2_Q56 as u128)) / (ONE_Q56 as u128);
        proof {
            lemma_multiply_divide_lt(
                l as int * LN2_Q56,
                ONE_Q56 as int,
                0x4000000000000000int,
            );
            lemma_mul_upper_bound(
                2 * m as int,
                0x1FFFFFFFFFFFFFFFEint,
                lnq as int,
                0x3FFFFFFFFFFFFFFFint,
            );
            lemma_mul_upper_bound(
                self.k as int,
                0xFFFFFFFFFFFFFFFFint,
                ONE_Q56 as int,
                ONE_Q56 as int,
            );
            assert(ONE_Q56 as int <= self.k as int * ONE_Q56) by {
                lemma_mul_inequality(1, self.k as int, ONE_Q56 as int);
            }
        }
        let a: u128 = (2 * m as u128) * lnq;
        let b: u128 = (self.k as u128) * (ONE_Q56 as u128);
        let v: u128 = (a + b) / (2 * b);
        proof {
            if count_true(self@.bits) == 0 {
                assert(l == 0);
                lemma_basic_div(0, ONE_Q56 as int);
                assert(lnq == 0);
                assert(a == 0) by (nonlinear_arith)
                    requires
                        a == (2 * m as u128) * lnq,
                        lnq == 0,
                ;
                lemma_basic_div(b as int, 2 * b as int);
                assert(v == 0);
            }
        }
        if v > usize::MAX as u128 {
            usize::MAX
        } else {
            v as usize
        }
    }
}

/// The cardinality estimate, in `Q56` fixed point: for `ones` set bits of
/// `m` it is `round((m / k) * ln(m / (m - ones)))`, clamped to
/// `usize::MAX`, which is also the sentinel for a saturated array.
pub open spec fn spec_approx_capacity(ones: nat, m: nat, k: nat) -> int
    recommends
        m >= 1,
        k >= 1,
        ones <= m,
{
    if ones >= m {
        usize::MAX as int
    } else {
        let l = spec_log2_q56((m - ones) as int, m as int);
        let lnq = (l * LN2_Q56) / ONE_Q56 as int;
        let v = (2 * m * lnq + k * ONE_Q56) / (2 * (k * ONE_Q56));
        if v > usize::MAX as int {
            usize::MAX as int
        } else {
            v
        }
    }
}

impl<K: Eq + Hash> QueryFilter<K> for BloomFilter<K> {
    fn contains<Q>(&self, key: &Q) -> bool where K: Borrow<Q>, Q: Eq + Hash + ?Sized {
        self.contains_key(key)
    }
}

impl<K: Eq + Hash> InsertableQueryFilter<K> for BloomFilter<K> {
    fn insert(&mut self, key: K) where K: Eq + Hash {
        self.insert_key(&key)
    }
}

impl<K: Eq + Hash> ClearableQueryFilter<K> for BloomFilter<K> {
    fn clear(&mut self) {
        self.clear_filter()
    }
}

} // verus!
