//! Colour stops, the gradient that holds them, and the lookup of a colour
//! for a scalar value.
use vstd::prelude::*;
use vstd::arithmetic::div_mod::{lemma_fundamental_div_mod, lemma_div_is_ordered};
use crate::blend::{blend, lemma_blend_clamp, lemma_round_negative};
use crate::fixed::{Fixed, ONE_RAW};

verus! {

/// The four channels of a colour: red, green, blue, alpha.
pub type Channels = (u8, u8, u8, u8);

/// An RGBA colour with 8 bits per channel.
#[derive(Clone, Copy, PartialEq, Eq, Debug, Structural)]
pub struct RGBAColour {
    r: u8,
    g: u8,
    b: u8,
    a: u8,
}

impl View for RGBAColour {
    type V = Channels;

    closed spec fn view(&self) -> Channels {
        (self.r, self.g, self.b, self.a)
    }
}

impl RGBAColour {
    pub fn new(r: u8, g: u8, b: u8, a: u8) -> (c: RGBAColour)
        ensures
            c@ == (r, g, b, a),
    {
        RGBAColour { r, g, b, a }
    }

    /// The channels as bytes, in the order red, green, blue, alpha.
    pub fn to_vec(&self) -> (v: Vec<u8>)
        ensures
            v@ == seq![self@.0, self@.1, self@.2, self@.3],
    {
        vec![self.r, self.g, self.b, self.a]
    }
}

/// Each channel of `start` blended towards `finish` by `t = num / den`.
pub open spec fn blend_channels(start: Channels, finish: Channels, num: int, den: int) -> Channels {
    (
        blend(start.0, finish.0, num, den),
        blend(start.1, finish.1, num, den),
        blend(start.2, finish.2, num, den),
        blend(start.3, finish.3, num, den),
    )
}

/// The band (index of the lower stop) for `value`: `floor(value * k / (hi - lo))`
/// brought into `0..=k-1`, where `k + 1` is the number of stops.
///
/// The value itself, not its offset from `lo`, is scaled.
pub open spec fn band_of(value: int, lo: int, hi: int, k: int) -> int {
    let q = (value * k) / (hi - lo);
    if q < 0 {
        0
    } else if q > k - 1 {
        k - 1
    } else {
        q
    }
}

/// The colour for `value` over the domain `[lo, hi]` with the given stops.
///
/// At or above `hi` it is the last stop; otherwise at or below `lo` the first.
/// In between, with `k + 1` stops, `scaled = value * k / (hi - lo)` and band
/// `i = band_of(..)`, each channel is the blend of stop `i` towards stop
/// `i + 1` by `scaled - i`.
pub open spec fn colour_at(stops: Seq<Channels>, lo: int, hi: int, value: int) -> Channels {
    if value >= hi {
        stops.last()
    } else if value <= lo {
        stops[0]
    } else {
        let k = stops.len() - 1;
        let i = band_of(value, lo, hi, k);
        blend_channels(stops[i], stops[i + 1], value * k - i * (hi - lo), hi - lo)
    }
}

/// An ordered list of colour stops spread evenly over the domain `[min, max]`.
#[derive(Clone, Debug)]
pub struct ColourGradient {
    colours: Vec<RGBAColour>,
    min: Fixed,
    max: Fixed,
}

impl ColourGradient {
    /// The stops, first to last.
    pub closed spec fn stops(&self) -> Seq<Channels> {
        self.colours@.map_values(|c: RGBAColour| c@)
    }

    /// The lower bound of the domain, as a raw fixed-point value.
    pub closed spec fn domain_min(&self) -> int {
        self.min@
    }

    /// The upper bound of the domain, as a raw fixed-point value.
    pub closed spec fn domain_max(&self) -> int {
        self.max@
    }

    /// Whether a colour can be looked up: at least two stops and
    /// `min <= max`.
    pub open spec fn queryable(&self) -> bool {
        self.stops().len() >= 2 && self.domain_min() <= self.domain_max()
    }

    /// An empty gradient over the domain `[0, 1]`.
    pub fn new() -> (g: ColourGradient)
        ensures
            g.stops() == Seq::<Channels>::empty(),
            g.domain_min() == 0,
            g.domain_max() == ONE_RAW,
    {
        let g = ColourGradient {
            colours: Vec::new(),
            min: Fixed::from_raw(0),
            max: Fixed::from_raw(ONE_RAW),
        };
        assert(g.stops() =~= Seq::<Channels>::empty());
        g
    }

    /// Appends a stop after the existing ones.
    pub fn add_colour(&mut self, colour: RGBAColour)
        ensures
            final(self).stops() == old(self).stops().push(colour@),
            final(self).domain_min() == old(self).domain_min(),
            final(self).domain_max() == old(self).domain_max(),
    {
        self.colours.push(colour);
        assert(self.stops() =~= old(self).stops().push(colour@));
    }

    /// Sets the upper bound of the domain.
    pub fn set_max(&mut self, max: Fixed)
        ensures
            final(self).stops() == old(self).stops(),
            final(self).domain_min() == old(self).domain_min(),
            final(self).domain_max() == max@,
    {
        self.max = max;
    }

    /// Sets the lower bound of the domain.
    pub fn set_min(&mut self, min: Fixed)
        ensures
            final(self).stops() == old(self).stops(),
            final(self).domain_min() == min@,
            final(self).domain_max() == old(self).domain_max(),
    {
        self.min = min;
    }

    /// The colour for `value`: the last stop at or above `max`, the first
    /// at or below `min`, and in between the blend of the two stops of the
    /// band that `value` falls in (see `colour_at`).
    pub fn get_colour(&self, value: Fixed) -> (r: RGBAColour)
        requires
            self.queryable(),
        ensures
            r@ == colour_at(self.stops(), self.domain_min(), self.domain_max(), value@),
            value@ >= self.domain_max() ==> r@ == self.stops().last(),
            value@ <= self.domain_min() && value@ < self.domain_max() ==> r@ == self.stops()[0],
    {
        let n: usize = self.colours.len();
        let v: i64 = value.raw();
        let lo: i64 = self.min.raw();
        let hi: i64 = self.max.raw();
        if v >= hi {
            return self.colours[n - 1];
        }
        if v <= lo {
            return self.colours[0];
        }
        let den: i128 = hi as i128 - lo as i128;
        let k: i128 = (n - 1) as i128;
        assert(-0x8000_0000_0000_0000_0000_0000_0000_0000int < v * k
            < 0x8000_0000_0000_0000_0000_0000_0000_0000int) by (nonlinear_arith)
            requires
                -0x8000_0000_0000_0000int <= v < 0x8000_0000_0000_0000int,
                0 <= k < 0x1_0000_0000_0000_0000int,
        ;
        let vk: i128 = v as i128 * k;
        let ghost q: int = (v * k) / (den as int);
        proof {
            lemma_fundamental_div_mod(v * k, den as int);
        }
        let (idx, num): (usize, i128) = if vk < 0 {
            assert(q < 0) by (nonlinear_arith)
                requires
                    vk == den * q + (vk % den),
                    0 <= vk % den,
                    vk < 0,
                    den > 0,
            ;
            (0, vk)
        } else {
            let qe: u128 = (vk as u128) / (den as u128);
            if qe >= k as u128 {
                assert((k - 1) * den <= vk) by (nonlinear_arith)
                    requires
                        vk == den * qe + (vk % den),
                        0 <= vk % den,
                        qe >= k,
                        den > 0,
                ;
                (n - 2, vk - (k - 1) * den)
            } else {
                let rem: u128 = (vk as u128) % (den as u128);
                assert(rem == vk - qe * den) by (nonlinear_arith)
                    requires
                        vk == den * qe + rem,
                ;
                (qe as usize, rem as i128)
            }
        };
        assert(idx == band_of(v as int, lo as int, hi as int, k as int));
        assert(num == v * k - idx * den);
        let first: RGBAColour = self.colours[idx];
        let second: RGBAColour = self.colours[idx + 1];
        RGBAColour {
            r: Self::interpolate(first.r, second.r, num, den),
            g: Self::interpolate(first.g, second.g, num, den),
            b: Self::interpolate(first.b, second.b, num, den),
            a: Self::interpolate(first.a, second.a, num, den),
        }
    }

    /// The colour for `value`, or `None` when no colour can be looked up
    /// (fewer than two stops, or `min > max`).
    pub fn try_get_colour(&self, value: Fixed) -> (r: Option<RGBAColour>)
        ensures
            r is None <==> !self.queryable(),
            r matches Some(c) ==> c@ == colour_at(
                self.stops(),
                self.domain_min(),
                self.domain_max(),
                value@,
            ),
    {
        if self.colours.len() >= 2 && self.min.raw() <= self.max.raw() {
            Some(self.get_colour(value))
        } else {
            None
        }
    }

    /// One channel: `start + (finish - start) * num / den`, rounded half
    /// away from zero and saturated.
    fn interpolate(start: u8, finish: u8, num: i128, den: i128) -> (r: u8)
        requires
            0 < den < 0x1_0000_0000_0000_0000,
        ensures
            r == blend(start, finish, num as int, den as int),
    {
        let lim: i128 = 256 * den;
        let t: i128 = if num > lim {
            lim
        } else if num < -lim {
            -lim
        } else {
            num
        };
        proof {
            lemma_blend_clamp(start, finish, num as int, den as int);
        }
        let d: i128 = finish as i128 - start as i128;
        assert(-0x100_0000_0000_0000_0000_0000int <= d * t <= 0x100_0000_0000_0000_0000_0000int)
            by (nonlinear_arith)
            requires
                -255 <= d <= 255,
                -0x100_0000_0000_0000_0000 <= t <= 0x100_0000_0000_0000_0000,
        ;
        assert(0 <= start as int * den <= 0x100_0000_0000_0000_0000) by (nonlinear_arith)
            requires
                0 <= start <= 255,
                0 < den < 0x1_0000_0000_0000_0000,
        ;
        let total: i128 = d * t + start as i128 * den;
        if total < 0 {
            proof {
                lemma_round_negative(total as int, den as int);
            }
            0
        } else {
            let q: u128 = ((2 * total + den) as u128) / ((2 * den) as u128);
            if q > 255 {
                255
            } else {
                q as u8
            }
        }
    }
}


/// The lookup is a function of the stops, the domain and the value alone:
/// two gradients that hold the same stops over the same domain give the same
/// colour for the same value, however often they are asked.
pub proof fn lemma_lookup_deterministic(g1: &ColourGradient, g2: &ColourGradient, v1: Fixed, v2: Fixed)
    requires
        g1.stops() == g2.stops(),
        g1.domain_min() == g2.domain_min(),
        g1.domain_max() == g2.domain_max(),
        v1@ == v2@,
    ensures
        colour_at(g1.stops(), g1.domain_min(), g1.domain_max(), v1@)
            == colour_at(g2.stops(), g2.domain_min(), g2.domain_max(), v2@),
{
}

/// Between the edges of the domain the band always has a stop above it:
/// with `k + 1` stops, `0 <= band <= k - 1`, so both stops it blends exist.
pub proof fn lemma_band_within_stops(value: int, lo: int, hi: int, k: int)
    requires
        k >= 1,
        lo < value < hi,
    ensures
        0 <= band_of(value, lo, hi, k),
        band_of(value, lo, hi, k) + 1 <= k,
{
}

/// With two stops over `[0, hi]`, the colour is the blend of the two stops by
/// `t = value / hi`, with `t` held in `[0, 1]`.
proof fn lemma_two_stops_blend(stops: Seq<Channels>, hi: int, value: int)
    requires
        stops.len() == 2,
        hi > 0,
    ensures
        colour_at(stops, 0, hi, value) == blend_channels(
            stops[0],
            stops[1],
            if value < 0 { 0 } else if value > hi { hi } else { value },
            hi,
        ),
{
    let (s, f) = (stops[0], stops[1]);
    crate::blend::lemma_blend_ends(s.0, f.0, hi);
    crate::blend::lemma_blend_ends(s.1, f.1, hi);
    crate::blend::lemma_blend_ends(s.2, f.2, hi);
    crate::blend::lemma_blend_ends(s.3, f.3, hi);
    if 0 < value < hi {
        vstd::arithmetic::div_mod::lemma_fundamental_div_mod_converse_div(value, hi, 0, value);
        assert(band_of(value, 0, hi, 1) == 0);
        assert(value * 1 - 0 * (hi - 0) == value);
    }
}

/// With two stops over a domain that starts at zero, a channel whose start
/// value is at most its finish value never decreases as the value grows.
///
/// A domain that does not start at zero is left out: the value itself, not
/// its offset from the lower bound, is scaled, so there the channel can fall
/// (over `[-1, 1]`, a channel from 100 to 200 gives 100 at -1 but 75 at -0.5).
pub proof fn lemma_two_stops_monotone(stops: Seq<Channels>, hi: int, v1: int, v2: int)
    requires
        stops.len() == 2,
        hi >= 0,
        v1 <= v2,
    ensures
        stops[0].0 <= stops[1].0 ==> colour_at(stops, 0, hi, v1).0 <= colour_at(stops, 0, hi, v2).0,
        stops[0].1 <= stops[1].1 ==> colour_at(stops, 0, hi, v1).1 <= colour_at(stops, 0, hi, v2).1,
        stops[0].2 <= stops[1].2 ==> colour_at(stops, 0, hi, v1).2 <= colour_at(stops, 0, hi, v2).2,
        stops[0].3 <= stops[1].3 ==> colour_at(stops, 0, hi, v1).3 <= colour_at(stops, 0, hi, v2).3,
{
    if hi > 0 {
        lemma_two_stops_blend(stops, hi, v1);
        lemma_two_stops_blend(stops, hi, v2);
        let t1 = if v1 < 0 { 0 } else if v1 > hi { hi } else { v1 };
        let t2 = if v2 < 0 { 0 } else if v2 > hi { hi } else { v2 };
        let (s, f) = (stops[0], stops[1]);
        if s.0 <= f.0 {
            crate::blend::lemma_blend_monotone(s.0, f.0, t1, t2, hi);
        }
        if s.1 <= f.1 {
            crate::blend::lemma_blend_monotone(s.1, f.1, t1, t2, hi);
        }
        if s.2 <= f.2 {
            crate::blend::lemma_blend_monotone(s.2, f.2, t1, t2, hi);
        }
        if s.3 <= f.3 {
            crate::blend::lemma_blend_monotone(s.3, f.3, t1, t2, hi);
        }
    }
}

} // verus!
