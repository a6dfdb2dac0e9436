//! Exact per-channel linear blending, with rounding and 8-bit saturation.
use vstd::prelude::*;
use vstd::arithmetic::div_mod::{
    lemma_div_is_ordered,
    lemma_div_pos_is_pos,
    lemma_fundamental_div_mod_converse_div,
};

verus! {

/// `num / den` rounded to the nearest integer, halves away from zero
/// (`den > 0`).
pub open spec fn round_half_away(num: int, den: int) -> int {
    if num >= 0 {
        (2 * num + den) / (2 * den)
    } else {
        -((-2 * num + den) / (2 * den))
    }
}

/// `x` brought into the range of an 8-bit channel.
pub open spec fn saturate_u8(x: int) -> u8 {
    if x < 0 {
        0
    } else if x > 255 {
        255
    } else {
        x as u8
    }
}

/// The channel value `start + (finish - start) * t` for `t = num / den`,
/// rounded half away from zero and saturated to `0..=255`.
pub open spec fn blend(start: u8, finish: u8, num: int, den: int) -> u8 {
    saturate_u8(round_half_away((finish - start) * num + start * den, den))
}

/// A negative value never rounds to a positive integer.
pub proof fn lemma_round_negative(t: int, den: int)
    requires
        t < 0,
        den > 0,
    ensures
        round_half_away(t, den) <= 0,
{
    lemma_div_pos_is_pos(-2 * t + den, 2 * den);
}

/// A value of at least 256 rounds to at least 256.
pub proof fn lemma_round_large(t: int, den: int)
    requires
        t >= 256 * den,
        den > 0,
    ensures
        round_half_away(t, den) >= 256,
{
    lemma_div_is_ordered(512 * den, 2 * t + den, 2 * den);
    lemma_fundamental_div_mod_converse_div(512 * den, 2 * den, 256, 0);
}

/// Rounding keeps the order of values over one denominator.
pub proof fn lemma_round_monotone(t1: int, t2: int, den: int)
    requires
        t1 <= t2,
        den > 0,
    ensures
        round_half_away(t1, den) <= round_half_away(t2, den),
{
    if t1 >= 0 {
        lemma_div_is_ordered(2 * t1 + den, 2 * t2 + den, 2 * den);
    } else if t2 >= 0 {
        lemma_round_negative(t1, den);
        lemma_div_pos_is_pos(2 * t2 + den, 2 * den);
    } else {
        lemma_div_is_ordered(-2 * t2 + den, -2 * t1 + den, 2 * den);
    }
}

/// An integer multiple of the denominator rounds to itself.
pub proof fn lemma_round_exact(x: int, den: int)
    requires
        x >= 0,
        den > 0,
    ensures
        round_half_away(x * den, den) == x,
{
    assert(2 * (x * den) + den == x * (2 * den) + den) by (nonlinear_arith);
    assert(x * den >= 0) by (nonlinear_arith)
        requires
            x >= 0,
            den > 0,
    ;
    lemma_fundamental_div_mod_converse_div(2 * (x * den) + den, 2 * den, x, den);
}

/// `t = 0` gives the start channel and `t = 1` the finish channel.
pub proof fn lemma_blend_ends(start: u8, finish: u8, den: int)
    requires
        den > 0,
    ensures
        blend(start, finish, 0, den) == start,
        blend(start, finish, den, den) == finish,
{
    assert((finish - start) * 0 + start * den == start * den) by (nonlinear_arith);
    assert((finish - start) * den + start * den == finish * den) by (nonlinear_arith);
    assert(start * den == (start as int) * den);
    lemma_round_exact(start as int, den);
    lemma_round_exact(finish as int, den);
}

/// With `start <= finish`, the blend does not decrease as `t` grows.
pub proof fn lemma_blend_monotone(start: u8, finish: u8, num1: int, num2: int, den: int)
    requires
        start <= finish,
        num1 <= num2,
        den > 0,
    ensures
        blend(start, finish, num1, den) <= blend(start, finish, num2, den),
{
    let d = finish - start;
    assert(d * num1 <= d * num2) by (nonlinear_arith)
        requires
            d >= 0,
            num1 <= num2,
    ;
    lemma_round_monotone(d * num1 + start * den, d * num2 + start * den, den);
}

/// Moving `t` beyond `[-256, 256]` does not change the blend: the result is
/// already saturated there.
pub proof fn lemma_blend_clamp(start: u8, finish: u8, num: int, den: int)
    requires
        den > 0,
    ensures
        num > 256 * den ==> blend(start, finish, num, den) == blend(start, finish, 256 * den, den),
        num < -256 * den ==> blend(start, finish, num, den) == blend(start, finish, -256 * den, den),
{
    let d = finish - start;
    let s = start as int;
    assert(0 <= s * den <= 255 * den) by (nonlinear_arith)
        requires
            0 <= s <= 255,
            den > 0,
    ;
    if num > 256 * den {
        let lim = 256 * den;
        if d > 0 {
            assert(d * num >= num && d * lim >= lim) by (nonlinear_arith)
                requires
                    d >= 1,
                    num > 0,
                    lim > 0,
            ;
            lemma_round_large(d * num + s * den, den);
            lemma_round_large(d * lim + s * den, den);
        } else if d < 0 {
            assert(d * num <= -num && d * lim <= -lim) by (nonlinear_arith)
                requires
                    d <= -1,
                    num > 0,
                    lim > 0,
            ;
            lemma_round_negative(d * num + s * den, den);
            lemma_round_negative(d * lim + s * den, den);
        } else {
            assert(d * num == 0 && d * lim == 0) by (nonlinear_arith)
                requires
                    d == 0,
            ;
        }
    }
    if num < -256 * den {
        let lim = -256 * den;
        if d > 0 {
            assert(d * num <= num && d * lim <= lim) by (nonlinear_arith)
                requires
                    d >= 1,
                    num < 0,
                    lim < 0,
            ;
            lemma_round_negative(d * num + s * den, den);
            lemma_round_negative(d * lim + s * den, den);
        } else if d < 0 {
            assert(d * num >= -num && d * lim >= -lim) by (nonlinear_arith)
                requires
                    d <= -1,
                    num < 0,
                    lim < 0,
            ;
            lemma_round_large(d * num + s * den, den);
            lemma_round_large(d * lim + s * den, den);
        } else {
            assert(d * num == 0 && d * lim == 0) by (nonlinear_arith)
                requires
                    d == 0,
            ;
        }
    }
}

} // verus!
