//! Small division facts shared by the scaling and calendar math.

use vstd::prelude::*;
use vstd::arithmetic::div_mod::lemma_fundamental_div_mod;

verus! {

/// A quotient is at most `t` when the dividend is below `den * (t + 1)`.
pub proof fn lemma_div_le(num: int, den: int, t: int)
    requires
        den >= 1,
        0 <= num,
        0 <= t,
        num <= den * t + (den - 1),
    ensures
        num / den <= t,
{
    lemma_fundamental_div_mod(num, den);
    let q = num / den;
    let r = num % den;
    if q > t {
        assert(den * q >= den * (t + 1)) by (nonlinear_arith)
            requires
                den >= 1,
                q >= t + 1,
        ;
        assert(num >= den * (t + 1) + r);
        assert(den * (t + 1) == den * t + den) by (nonlinear_arith);
        assert(false);
    }
}

/// A quotient is at least one when the dividend reaches the divisor.
pub proof fn lemma_div_pos(num: int, den: int)
    requires
        den >= 1,
        num >= den,
    ensures
        num / den >= 1,
{
    lemma_fundamental_div_mod(num, den);
    let q = num / den;
    if q < 1 {
        assert(den * q <= 0) by (nonlinear_arith)
            requires
                den >= 1,
                q <= 0,
        ;
        assert(num < den);
        assert(false);
    }
}

/// Characters with the same code point are the same character.
pub proof fn lemma_char_injective(c: char, d: char)
    requires
        (c as u32) == (d as u32),
    ensures
        c == d,
{
}

} // verus!
