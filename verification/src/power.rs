//! Powers of sixteen: the number of bits below one bit of a cell, level by
//! level, and the arithmetic that splits a bit index into the path of slots
//! that leads to it.

use vstd::arithmetic::div_mod::{
    lemma_basic_div, lemma_div_denominator, lemma_fundamental_div_mod, lemma_small_div_converse,
};
use vstd::arithmetic::power2::{lemma2_to64, lemma_pow2_adds, lemma_pow2_strictly_increases, pow2};
use vstd::prelude::*;

verus! {

/// Sixteen to the power `n`.
pub open spec fn pow16(n: nat) -> nat
    decreases n,
{
    if n == 0 {
        1
    } else {
        16 * pow16((n - 1) as nat)
    }
}

/// Every power of sixteen is positive.
pub proof fn lemma_pow16_positive(n: nat)
    ensures
        pow16(n) > 0,
    decreases n,
{
    if n > 0 {
        lemma_pow16_positive((n - 1) as nat);
    }
}

/// A larger exponent gives a power at least as large.
pub proof fn lemma_pow16_increases(a: nat, b: nat)
    requires
        a <= b,
    ensures
        pow16(a) <= pow16(b),
    decreases b,
{
    if a < b {
        lemma_pow16_increases(a, (b - 1) as nat);
    }
}

/// Sixteen to the `n` is two to the `4 * n`.
pub proof fn lemma_pow16_is_pow2(n: nat)
    ensures
        pow16(n) == pow2(4 * n),
    decreases n,
{
    lemma2_to64();
    if n > 0 {
        lemma_pow16_is_pow2((n - 1) as nat);
        lemma_pow2_adds(4, (4 * (n - 1)) as nat);
    }
}

/// A power of sixteen that fits in a `usize` has fewer than
/// `usize::BITS / 4` as its exponent.
pub proof fn lemma_pow16_fits(n: nat)
    requires
        pow16(n) <= usize::MAX,
    ensures
        4 * n < usize::BITS,
{
    lemma_pow16_is_pow2(n);
    lemma2_to64();
    if 4 * n >= usize::BITS {
        if 4 * n > usize::BITS {
            lemma_pow2_strictly_increases(usize::BITS as nat, 4 * n);
        }
    }
}

/// No `usize` reaches sixteen to the power `usize::BITS / 4` or beyond.
pub proof fn lemma_pow16_exceeds(n: nat, x: usize)
    requires
        4 * n >= usize::BITS,
    ensures
        x < pow16(n),
        x as nat / pow16(n) == 0,
{
    lemma_pow16_is_pow2(n);
    lemma2_to64();
    if 4 * n > usize::BITS {
        lemma_pow2_strictly_increases(usize::BITS as nat, 4 * n);
    }
    lemma_basic_div(x as int, pow16(n) as int);
}

/// Dividing by one more power of sixteen is dividing the quotient by 16.
pub proof fn lemma_pow16_div_step(x: nat, n: nat)
    ensures
        x / pow16(n + 1) == (x / pow16(n)) / 16,
        x / pow16(n) == 16 * (x / pow16(n + 1)) + (x / pow16(n)) % 16,
{
    lemma_pow16_positive(n);
    lemma_div_denominator(x as int, pow16(n) as int, 16);
    assert(pow16(n + 1) == pow16(n) * 16);
    lemma_fundamental_div_mod((x / pow16(n)) as int, 16);
}

/// An index below sixteen to the `n` has quotient zero by it, and an index
/// with quotient zero lies below it.
pub proof fn lemma_pow16_div_zero(x: nat, n: nat)
    ensures
        x < pow16(n) <==> x / pow16(n) == 0,
{
    lemma_pow16_positive(n);
    if x < pow16(n) {
        lemma_basic_div(x as int, pow16(n) as int);
    } else {
        lemma_small_div_converse(x as int, pow16(n) as int);
    }
}

/// The power of a sum is the product of the powers.
pub proof fn lemma_pow16_adds(a: nat, b: nat)
    ensures
        pow16(a + b) == pow16(a) * pow16(b),
    decreases a,
{
    if a == 0 {
        assert(pow16(0) == 1);
        assert(1 * pow16(b) == pow16(b));
    } else {
        let low = pow16((a - 1) as nat);
        let other = pow16(b);
        lemma_pow16_adds((a - 1) as nat, b);
        assert(pow16(a + b) == 16 * pow16((a - 1 + b) as nat));
        assert(pow16(a) == 16 * low);
        assert(16 * (low * other) == (16 * low) * other) by (nonlinear_arith);
    }
}

/// A multiple of a power of sixteen, moved on by less than sixteen times
/// the next lower power: what the sum is a multiple of, and by which factor.
pub proof fn lemma_pow16_child(start: nat, n: nat, idx: nat)
    requires
        start % pow16(n + 1) == 0,
        idx < 16,
    ensures
        (start + idx * pow16(n)) % pow16(n) == 0,
        (start + idx * pow16(n)) / pow16(n) == 16 * (start / pow16(n + 1)) + idx,
{
    let sub = pow16(n) as int;
    let span = pow16(n + 1) as int;
    let node = start as int / span;
    lemma_pow16_positive(n);
    lemma_pow16_positive(n + 1);
    lemma_fundamental_div_mod(start as int, span);
    assert(span == 16 * sub);
    let child = 16 * node + idx;
    assert(start + idx * sub == child * sub) by (nonlinear_arith)
        requires
            start == span * node,
            span == 16 * sub,
            child == 16 * node + idx,
    ;
    vstd::arithmetic::div_mod::lemma_div_multiples_vanish(child, sub);
    vstd::arithmetic::div_mod::lemma_mod_multiples_basic(child, sub);
}

} // verus!
