//! Exact HSV arithmetic on 8-bit sRGB colors.
//!
//! Saturation and value are kept as exact fractions and bounds as thousandths,
//! so comparisons, clamps and the conversion back to sRGB involve no rounding
//! except the final one to the nearest 8-bit channel.
use vstd::prelude::*;
use vstd::arithmetic::div_mod::lemma_fundamental_div_mod_converse_div;
use crate::color::Color;

verus! {

/// A fraction `num / den` in [0, 1].
#[derive(Clone, Copy, Debug, PartialEq, Eq, Structural)]
pub struct Ratio {
    pub num: u32,
    pub den: u32,
}

impl Ratio {
    pub open spec fn wf(self) -> bool {
        0 < self.den <= 1000 && self.num <= self.den
    }

    /// The fraction `t / 1000`.
    pub open spec fn thousandths(t: u16) -> Ratio {
        Ratio { num: t as u32, den: 1000 }
    }

    /// `self > lo / 1000`
    pub open spec fn exceeds(self, lo: u16) -> bool {
        self.num as int * 1000 > lo as int * self.den as int
    }

    /// `self < hi / 1000`
    pub open spec fn falls_short(self, hi: u16) -> bool {
        (self.num as int) * 1000 < hi as int * self.den as int
    }

    /// The fraction clamped to `[lo / 1000, hi / 1000]`.
    pub open spec fn clamped(self, lo: u16, hi: u16) -> Ratio {
        if self.falls_short(lo) {
            Ratio::thousandths(lo)
        } else if self.exceeds(hi) {
            Ratio::thousandths(hi)
        } else {
            self
        }
    }

    /// Whether `lo / 1000 < self < hi / 1000`; both bounds excluded.
    pub fn strictly_between(&self, lo: u16, hi: u16) -> (r: bool)
        requires
            self.wf(),
            lo <= 1000,
            hi <= 1000,
        ensures
            r == (self.exceeds(lo) && self.falls_short(hi)),
    {
        let n = self.num as u64 * 1000;
        let den = self.den as u64;
        assert(lo as u64 * den <= 1000000 && hi as u64 * den <= 1000000) by (nonlinear_arith)
            requires
                lo <= 1000,
                hi <= 1000,
                den <= 1000,
        ;
        n > lo as u64 * den && n < hi as u64 * den
    }

    /// Clamps the fraction to `[lo / 1000, hi / 1000]`, bounds included: a value
    /// below `lo` becomes exactly `lo`, one above `hi` exactly `hi`, and one
    /// inside is kept as it is.
    pub fn clamp(&self, lo: u16, hi: u16) -> (r: Ratio)
        requires
            self.wf(),
            lo <= hi <= 1000,
        ensures
            r == self.clamped(lo, hi),
            r.wf(),
            self.falls_short(lo) ==> r == Ratio::thousandths(lo),
            self.exceeds(hi) ==> r == Ratio::thousandths(hi),
            !self.falls_short(lo) && !self.exceeds(hi) ==> r == *self,
    {
        let n = self.num as u64 * 1000;
        let den = self.den as u64;
        assert(lo as u64 * den <= 1000000 && hi as u64 * den <= 1000000) by (nonlinear_arith)
            requires
                lo <= 1000,
                hi <= 1000,
                den <= 1000,
        ;
        assert(lo as u64 * den <= hi as u64 * den) by (nonlinear_arith)
            requires
                lo <= hi,
        ;
        if n < lo as u64 * den {
            Ratio { num: lo as u32, den: 1000 }
        } else if n > hi as u64 * den {
            Ratio { num: hi as u32, den: 1000 }
        } else {
            *self
        }
    }
}

/// A color in hue, saturation and value form.
///
/// The hue is kept as the position of each channel between the smallest
/// channel (weight 0) and the largest (weight `spread`); a gray has hue 0,
/// which puts red on top.
#[derive(Clone, Copy, Debug, PartialEq, Eq)]
pub struct Hsv {
    pub weights: (u8, u8, u8),
    pub spread: u8,
    pub saturation: Ratio,
    pub value: Ratio,
}

pub open spec fn max3(c: Color) -> u8 {
    if c.0 >= c.1 && c.0 >= c.2 {
        c.0
    } else if c.1 >= c.2 {
        c.1
    } else {
        c.2
    }
}

pub open spec fn min3(c: Color) -> u8 {
    if c.0 <= c.1 && c.0 <= c.2 {
        c.0
    } else if c.1 <= c.2 {
        c.1
    } else {
        c.2
    }
}

/// Standard sRGB to HSV: value is max / 255, saturation (max - min) / max.
pub open spec fn hsv_of(c: Color) -> Hsv {
    let hi = max3(c);
    let lo = min3(c);
    let d = (hi - lo) as u8;
    Hsv {
        weights: if d == 0 {
            (1u8, 0u8, 0u8)
        } else {
            ((c.0 - lo) as u8, (c.1 - lo) as u8, (c.2 - lo) as u8)
        },
        spread: if d == 0 {
            1
        } else {
            d
        },
        saturation: if hi == 0 {
            Ratio { num: 0, den: 1 }
        } else {
            Ratio { num: d as u32, den: hi as u32 }
        },
        value: Ratio { num: hi as u32, den: 255 },
    }
}

/// `n / d` rounded to the nearest integer, halves up.
pub open spec fn round_div(n: int, d: int) -> int {
    (2 * n + d) / (2 * d)
}

impl Hsv {
    pub open spec fn wf(self) -> bool {
        &&& self.spread > 0
        &&& self.weights.0 <= self.spread
        &&& self.weights.1 <= self.spread
        &&& self.weights.2 <= self.spread
        &&& self.saturation.wf()
        &&& self.value.wf()
    }

    /// 8-bit channel of weight `w`: `255 * v * (1 - s * (1 - w / spread))`, rounded.
    pub open spec fn channel(self, w: u8) -> int {
        let v = self.value;
        let s = self.saturation;
        let sp = self.spread as int;
        round_div(
            255 * v.num * (s.den * sp - s.num * (sp - w)),
            v.den * s.den * sp,
        )
    }

    /// Standard HSV to sRGB, each channel rounded to the nearest 8-bit value.
    pub open spec fn rgb(self) -> Color {
        (self.channel(self.weights.0) as u8, self.channel(self.weights.1) as u8,
        self.channel(self.weights.2) as u8)
    }
}

proof fn lemma_channel_bounds(h: Hsv, w: u8)
    requires
        h.wf(),
        w <= h.spread,
    ensures
        0 <= h.channel(w) <= 255,
{
    let v = h.value;
    let s = h.saturation;
    let sp = h.spread as int;
    let a = s.den * sp - s.num * (sp - w);
    let dd = v.den * s.den * sp;
    assert(0 <= a <= s.den * sp) by (nonlinear_arith)
        requires
            s.num <= s.den,
            0 <= w <= sp,
            a == s.den * sp - s.num * (sp - w),
    ;
    assert(v.num * a <= dd) by (nonlinear_arith)
        requires
            0 <= v.num <= v.den,
            0 <= a <= s.den * sp,
            dd == v.den * s.den * sp,
            s.den > 0,
            sp > 0,
    ;
    assert(dd > 0) by (nonlinear_arith)
        requires
            dd == v.den * s.den * sp,
            v.den > 0,
            s.den > 0,
            sp > 0,
    ;
    let n = 2 * (255 * v.num * a) + dd;
    assert(0 <= n < 256 * (2 * dd)) by (nonlinear_arith)
        requires
            n == 2 * (255 * v.num * a) + dd,
            0 <= v.num * a <= dd,
            dd > 0,
    ;
    assert(0 <= n / (2 * dd) <= 255) by (nonlinear_arith)
        requires
            0 <= n < 256 * (2 * dd),
            dd > 0,
    ;
}

pub(crate) fn max_of(c: Color) -> (r: u8)
    ensures
        r == max3(c),
{
    if c.0 >= c.1 && c.0 >= c.2 {
        c.0
    } else if c.1 >= c.2 {
        c.1
    } else {
        c.2
    }
}

pub(crate) fn min_of(c: Color) -> (r: u8)
    ensures
        r == min3(c),
{
    if c.0 <= c.1 && c.0 <= c.2 {
        c.0
    } else if c.1 <= c.2 {
        c.1
    } else {
        c.2
    }
}

/// Converts an 8-bit sRGB color to HSV.
pub fn to_hsv(c: Color) -> (h: Hsv)
    ensures
        h == hsv_of(c),
        h.wf(),
{
    let hi = max_of(c);
    let lo = min_of(c);
    let d = hi - lo;
    let weights = if d == 0 {
        (1u8, 0u8, 0u8)
    } else {
        (c.0 - lo, c.1 - lo, c.2 - lo)
    };
    let spread = if d == 0 {
        1
    } else {
        d
    };
    let saturation = if hi == 0 {
        Ratio { num: 0, den: 1 }
    } else {
        Ratio { num: d as u32, den: hi as u32 }
    };
    Hsv { weights, spread, saturation, value: Ratio { num: hi as u32, den: 255 } }
}

fn channel_of(h: &Hsv, w: u8) -> (r: u8)
    requires
        h.wf(),
        w <= h.spread,
    ensures
        r as int == h.channel(w),
{
    proof {
        lemma_channel_bounds(*h, w);
    }
    let vn = h.value.num as u64;
    let vd = h.value.den as u64;
    let sn = h.saturation.num as u64;
    let sd = h.saturation.den as u64;
    let sp = h.spread as u64;
    let wq = w as u64;
    assert(sn * (sp - wq) <= sd * sp <= 255000) by (nonlinear_arith)
        requires
            sn <= sd <= 1000,
            wq <= sp <= 255,
    ;
    let a = sd * sp - sn * (sp - wq);
    assert(255 * vn * a <= 255 * 1000 * 255000) by (nonlinear_arith)
        requires
            vn <= 1000,
            a <= 255000,
    ;
    assert(0 < vd * sd <= 1000000 && 0 < vd * sd * sp <= 255000000) by (nonlinear_arith)
        requires
            0 < vd <= 1000,
            0 < sd <= 1000,
            0 < sp <= 255,
    ;
    let n = 255 * vn * a;
    let dd = vd * sd * sp;
    ((2 * n + dd) / (2 * dd)) as u8
}

/// Converts an HSV color back to 8-bit sRGB.
pub fn to_rgb(h: &Hsv) -> (c: Color)
    requires
        h.wf(),
    ensures
        c == h.rgb(),
{
    (channel_of(h, h.weights.0), channel_of(h, h.weights.1), channel_of(h, h.weights.2))
}

proof fn lemma_round_exact(x: int, k: int)
    requires
        x > 0,
        k >= 0,
    ensures
        round_div(x * k, x) == k,
{
    assert(2 * (x * k) + x == k * (2 * x) + x) by (nonlinear_arith);
    lemma_fundamental_div_mod_converse_div(2 * (x * k) + x, 2 * x, k, x);
}

proof fn lemma_channel_round_trip(c: Color, ch: u8)
    requires
        ch == c.0 || ch == c.1 || ch == c.2,
        hsv_of(c).weights.0 == (if max3(c) == min3(c) { 1 } else { c.0 - min3(c) }),
    ensures
        max3(c) == min3(c) ==> hsv_of(c).channel(1) == max3(c) && hsv_of(c).channel(0) == max3(c),
        max3(c) > min3(c) ==> hsv_of(c).channel((ch - min3(c)) as u8) == ch,
{
    let h = hsv_of(c);
    let hi = max3(c) as int;
    let lo = min3(c) as int;
    let d = hi - lo;
    if hi == 0 {
        assert(h.value.num == 0);
        assert(h.saturation.den == 1);
        assert(h.spread == 1);
        assert(255 * h.value.num * (1 * 1 - 0 * (1 - 1)) == 0);
        assert(255 * h.value.num * (1 * 1 - 0 * (1 - 0)) == 0);
        assert(h.channel(1) == round_div(0, 255int));
        assert(h.channel(0) == round_div(0, 255int));
        lemma_round_exact(255, 0);
    } else if d == 0 {
        assert(255 * hi * (hi * 1 - 0 * (1 - 1)) == (255 * hi) * hi) by (nonlinear_arith);
        assert(255 * hi * (hi * 1 - 0 * (1 - 0)) == (255 * hi) * hi) by (nonlinear_arith);
        assert(255 * hi * 1 == 255 * hi);
        lemma_round_exact(255 * hi, hi);
    } else {
        let w = ch - lo;
        assert(255 * hi * (hi * d - d * (d - w)) == (255 * hi * d) * ch) by (nonlinear_arith)
            requires
                d == hi - lo,
                w == ch - lo,
        ;
        assert(255 * hi * d > 0) by (nonlinear_arith)
            requires
                hi > 0,
                d > 0,
        ;
        lemma_round_exact(255 * hi * d, ch as int);
    }
}

/// Converting a color to HSV and back gives the same color.
pub proof fn lemma_hsv_round_trip(c: Color)
    ensures
        hsv_of(c).rgb() == c,
{
    lemma_channel_round_trip(c, c.0);
    lemma_channel_round_trip(c, c.1);
    lemma_channel_round_trip(c, c.2);
}

} // verus!
