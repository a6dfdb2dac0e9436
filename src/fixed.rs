//! Signed fixed-point scalars with 32 fractional bits.
use vstd::prelude::*;

verus! {

/// The raw value that stands for 1.0.
pub const ONE_RAW: i64 = 4294967296;

/// A signed fixed-point number: `raw / 2^32`.
///
/// Every value of this type is an exact rational number, so all the
/// arithmetic done on it by the gradient lookup is exact.
#[derive(Clone, Copy, PartialEq, Eq, Debug, Structural)]
pub struct Fixed {
    raw: i64,
}

impl View for Fixed {
    type V = int;

    /// The raw integer, in units of `2^-32`.
    closed spec fn view(&self) -> int {
        self.raw as int
    }
}

impl Fixed {
    /// The number `raw / 2^32`.
    pub fn from_raw(raw: i64) -> (r: Fixed)
        ensures
            r@ == raw,
    {
        Fixed { raw }
    }

    /// The raw integer, in units of `2^-32`.
    pub fn raw(&self) -> (r: i64)
        ensures
            r == self@,
    {
        self.raw
    }

    /// The largest fixed-point number not above `num / den`.
    ///
    /// Exact whenever `den` divides `num * 2^32`, e.g. for every power of two
    /// up to `2^32`.
    pub fn from_ratio(num: i32, den: u32) -> (r: Fixed)
        requires
            den > 0,
        ensures
            r@ == (num * ONE_RAW) / (den as int),
    {
        let scaled: i128 = num as i128 * ONE_RAW as i128;
        let d: i128 = den as i128;
        assert(-0x8000_0000_0000_0000int <= scaled < 0x8000_0000_0000_0000int) by (nonlinear_arith)
            requires
                scaled == num as int * 4294967296,
                -0x8000_0000int <= num < 0x8000_0000int,
        ;
        if scaled >= 0 {
            let q: u128 = (scaled as u128) / (d as u128);
            proof {
                vstd::arithmetic::div_mod::lemma_div_is_ordered_by_denominator(scaled as int, 1, d as int);
                assert(scaled as int / 1 == scaled as int);
            }
            Fixed { raw: q as i64 }
        } else {
            // floor(-m / d) == -ceil(m / d) == -((m + d - 1) / d)
            let m: u128 = (-scaled) as u128;
            let q: u128 = (m + (d as u128 - 1)) / (d as u128);
            proof {
                lemma_floor_of_negative(m as int, d as int);
                vstd::arithmetic::div_mod::lemma_div_is_ordered_by_denominator(m + d - 1, 1, d as int);
                assert(m >= 4294967296) by (nonlinear_arith)
                    requires
                        m == -scaled,
                        scaled == num as int * 4294967296,
                        scaled < 0,
                ;
                if d > 1 {
                    vstd::arithmetic::div_mod::lemma_div_is_ordered(m + d - 1, 2 * m, d as int);
                    vstd::arithmetic::div_mod::lemma_div_is_ordered_by_denominator(2 * m, 2, d as int);
                }
            }
            Fixed { raw: (-(q as i128)) as i64 }
        }
    }
}

/// For `m >= 0` and `d > 0`: `(-m) / d == -((m + d - 1) / d)`.
proof fn lemma_floor_of_negative(m: int, d: int)
    requires
        m >= 0,
        d > 0,
    ensures
        (-m) / d == -((m + d - 1) / d),
{
    let q = (m + d - 1) / d;
    let r = (m + d - 1) % d;
    vstd::arithmetic::div_mod::lemma_fundamental_div_mod(m + d - 1, d);
    // -m == (-q) * d + (d - 1 - r), with 0 <= d - 1 - r < d
    assert(-m == (-q) * d + (d - 1 - r)) by (nonlinear_arith)
        requires
            m + d - 1 == d * q + r,
    ;
    vstd::arithmetic::div_mod::lemma_fundamental_div_mod_converse_div(-m, d, -q, d - 1 - r);
}

} // verus!
