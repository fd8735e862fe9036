//! Fixed-point base-two logarithm.
//!
//! The sizing mathematics of the Bloom filter need natural logarithms of
//! rational numbers. All of it is carried out in unsigned fixed-point
//! arithmetic with 56 fractional bits (`Q56`): a value `v` stands for the
//! real number `v / 2^56`. The core routine, [`log2_q56`], computes the
//! base-two logarithm of a ratio `den / num >= 1` by normalising the ratio
//! into `[1, 2)` and then extracting one fraction bit per squaring step;
//! natural logarithms are recovered by multiplying with [`LN2_Q56`].

use vstd::arithmetic::div_mod::{
    lemma_div_is_ordered, lemma_div_multiples_vanish, lemma_multiply_divide_lt,
};
use vstd::arithmetic::power2::{
    lemma2_to64, lemma2_to64_rest, lemma_pow2_strictly_increases, lemma_pow2_unfold, pow2,
};
use vstd::prelude::*;

verus! {

/// `ln 2` rounded to the nearest multiple of `2^-56`, held in `Q56`.
pub const LN2_Q56: u64 = 49946518145322874;

/// One, held in `Q56`: the scale factor of the fixed-point representation.
pub const ONE_Q56: u64 = 0x100000000000000;

/// The exponent reached while doubling `num` until it exceeds `den / 2`:
/// the integer part of `log2(den / num)`, accumulated in `e`.
pub open spec fn spec_norm_exp(num: int, den: int, e: int) -> int
    decreases den - num when 1 <= num <= den
{
    if 2 * num <= den {
        spec_norm_exp(2 * num, den, e + 1)
    } else {
        e
    }
}

/// The value `num` reaches while being doubled until it exceeds `den / 2`,
/// that is `num * 2^e` for the exponent of [`spec_norm_exp`].
pub open spec fn spec_norm_num(num: int, den: int) -> int
    decreases den - num when 1 <= num <= den
{
    if 2 * num <= den {
        spec_norm_num(2 * num, den)
    } else {
        num
    }
}

/// One squaring step per round: the mantissa `f`, held in `Q62` within
/// `[1, 2)`, is squared; when the square reaches `2` it is halved and the
/// round contributes a one bit to `acc`, else a zero bit.
pub open spec fn spec_frac_steps(f: int, acc: int, rounds: nat) -> int
    decreases rounds
{
    if rounds == 0 {
        acc
    } else {
        let f2 = (f * f) / 0x4000000000000000;
        if f2 >= 0x8000000000000000 {
            spec_frac_steps(f2 / 2, 2 * acc + 1, (rounds - 1) as nat)
        } else {
            spec_frac_steps(f2, 2 * acc, (rounds - 1) as nat)
        }
    }
}

/// `log2(den / num)` in `Q56`: the integer part found by normalisation,
/// followed by 56 fraction bits found by repeated squaring.
pub open spec fn spec_log2_q56(num: int, den: int) -> int {
    let e = spec_norm_exp(num, den, 0);
    let f0 = (den * 0x4000000000000000) / spec_norm_num(num, den);
    e * ONE_Q56 + spec_frac_steps(f0, 0, 56)
}

/// A mantissa of exactly one stays one through every squaring step, so all
/// its fraction bits are zero.
proof fn lemma_frac_steps_of_one(rounds: nat)
    ensures
        spec_frac_steps(0x4000000000000000, 0, rounds) == 0,
    decreases rounds,
{
    if rounds > 0 {
        assert((0x4000000000000000int * 0x4000000000000000) / 0x4000000000000000
            == 0x4000000000000000) by {
            lemma_div_multiples_vanish(0x4000000000000000, 0x4000000000000000);
        }
        lemma_frac_steps_of_one((rounds - 1) as nat);
    }
}

/// The logarithm of one is zero: `log2(x / x) == 0`.
pub proof fn lemma_log2_q56_of_one(x: int)
    requires
        1 <= x,
    ensures
        spec_log2_q56(x, x) == 0,
{
    assert(spec_norm_exp(x, x, 0) == 0);
    assert(spec_norm_num(x, x) == x);
    assert((x * 0x4000000000000000) / x == 0x4000000000000000) by {
        lemma_div_multiples_vanish(0x4000000000000000, x);
    }
    lemma_frac_steps_of_one(56);
}

/// Computes `log2(den / num)` in `Q56` fixed point.
///
/// The result equals [`spec_log2_q56`] exactly; it is below `2^62`, and it
/// is zero when the ratio is one.
pub fn log2_q56(num: u64, den: u64) -> (r: u64)
    requires
        1 <= num <= den,
    ensures
        r == spec_log2_q56(num as int, den as int),
        r < 0x4000000000000000,
        num == den ==> r == 0,
{
    let ghost num0 = num as int;
    let ghost den0 = den as int;
    let den128 = den as u128;
    let mut nm: u128 = num as u128;
    let mut e: u64 = 0;
    proof {
        lemma2_to64();
    }
    while 2 * nm <= den128
        invariant
            den128 == den0,
            1 <= num0 <= den0,
            1 <= nm <= den128,
            den0 < 0x10000000000000000,
            pow2(e as nat) <= nm,
            e <= 63,
            spec_norm_exp(num0, den0, 0) == spec_norm_exp(nm as int, den0, e as int),
            spec_norm_num(num0, den0) == spec_norm_num(nm as int, den0),
        decreases den128 - nm,
    {
        proof {
            lemma_pow2_unfold((e + 1) as nat);
            if e == 63 {
                lemma2_to64();
                assert(pow2(64) == 2 * pow2(63));
                assert(false);
            }
        }
        nm = 2 * nm;
        e = e + 1;
    }
    assert(spec_norm_exp(num0, den0, 0) == e as int);
    assert(spec_norm_num(num0, den0) == nm as int);

    let f0: u128 = (den128 * 0x4000000000000000) / nm;
    proof {
        assert(nm * 0x4000000000000000 <= den128 * 0x4000000000000000);
        lemma_div_is_ordered(
            nm as int * 0x4000000000000000,
            den128 as int * 0x4000000000000000,
            nm as int,
        );
        lemma_div_multiples_vanish(0x4000000000000000, nm as int);
        assert(f0 >= 0x4000000000000000);
        assert(den128 as int * 0x4000000000000000 < nm as int * 0x8000000000000000);
        lemma_multiply_divide_lt(
            den128 as int * 0x4000000000000000,
            nm as int,
            0x8000000000000000,
        );
        assert(f0 < 0x8000000000000000);
    }

    let ghost start = f0 as int;
    let mut f: u128 = f0;
    let mut acc: u64 = 0;
    let mut i: u64 = 0;
    proof {
        lemma2_to64();
        lemma2_to64_rest();
    }
    while i < 56
        invariant
            i <= 56,
            0x4000000000000000 <= f < 0x8000000000000000,
            (acc as int) < pow2(i as nat),
            acc < 0x100000000000000,
            spec_frac_steps(start, 0, 56) == spec_frac_steps(f as int, acc as int, (56 - i) as nat),
        decreases 56 - i,
    {
        proof {
            lemma_pow2_unfold((i + 1) as nat);
            if i + 1 < 56 {
                lemma_pow2_strictly_increases((i + 1) as nat, 56);
            }
            lemma2_to64_rest();
            assert(f * f < 0x8000000000000000 * 0x8000000000000000) by (nonlinear_arith)
                requires
                    f < 0x8000000000000000,
            ;
            assert(f * f >= 0x4000000000000000 * 0x4000000000000000) by (nonlinear_arith)
                requires
                    f >= 0x4000000000000000,
            ;
        }
        let f2: u128 = (f * f) / 0x4000000000000000;
        proof {
            lemma_div_multiples_vanish(0x4000000000000000, 0x4000000000000000);
            lemma_div_is_ordered(
                0x4000000000000000int * 0x4000000000000000,
                f as int * f as int,
                0x4000000000000000,
            );
            assert(f2 >= 0x4000000000000000);
            lemma_multiply_divide_lt(
                f as int * f as int,
                0x4000000000000000,
                0x10000000000000000,
            );
            assert(f2 < 0x10000000000000000);
            if f2 >= 0x8000000000000000 {
                lemma_div_is_ordered(0x8000000000000000, f2 as int, 2);
            }
        }
        if f2 >= 0x8000000000000000 {
            acc = 2 * acc + 1;
            f = f2 / 2;
        } else {
            acc = 2 * acc;
            f = f2;
        }
        i = i + 1;
    }
    assert(acc == spec_frac_steps(start, 0, 56));

    let r = e * ONE_Q56 + acc;
    proof {
        if num == den {
            lemma_log2_q56_of_one(num as int);
        }
    }
    r
}

} // verus!
