use vstd::prelude::*;

verus! {

/// Fixed-point unit: saturation and lightness run over `0..=SCALE`,
/// hue over `0..HUE_LIMIT` in steps of `1 / SCALE` degree.
pub const SCALE: u64 = 10000;

/// Width of one 60-degree hue sector, in hue units.
pub const SECTOR: u64 = 600000;

/// 360 degrees, in hue units (exclusive upper bound of a hue).
pub const HUE_LIMIT: u64 = 3600000;

/// An 8-bit-per-channel color.
#[derive(Debug, Clone, Copy, PartialEq, Eq, Structural)]
pub struct Rgb {
    pub r: u8,
    pub g: u8,
    pub b: u8,
}

/// A color in the simplified hue / saturation / lightness model, in fixed point.
#[derive(Debug, Clone, Copy, PartialEq, Eq, Structural)]
pub struct Hsl {
    pub h: u64,
    pub s: u64,
    pub l: u64,
}

pub open spec fn max3(a: int, b: int, c: int) -> int {
    if a >= b && a >= c {
        a
    } else if b >= c {
        b
    } else {
        c
    }
}

pub open spec fn min3(a: int, b: int, c: int) -> int {
    if a <= b && a <= c {
        a
    } else if b <= c {
        b
    } else {
        c
    }
}

/// Hue by the 60-degree sector formula of the maximal channel, truncated to hue units.
pub open spec fn hue_of(r: int, g: int, b: int) -> int {
    let d = max3(r, g, b) - min3(r, g, b);
    if d == 0 {
        0
    } else if r >= g && r >= b {
        if g >= b {
            (60 * (g - b) * SCALE) / d
        } else {
            ((360 * d + 60 * (g - b)) * SCALE) / d
        }
    } else if g >= r && g >= b {
        ((120 * d + 60 * (b - r)) * SCALE) / d
    } else {
        ((240 * d + 60 * (r - g)) * SCALE) / d
    }
}

/// Saturation `(max - min) / max`, or 0 for black.
pub open spec fn saturation_of(r: int, g: int, b: int) -> int {
    let mx = max3(r, g, b);
    if mx == 0 {
        0
    } else {
        ((mx - min3(r, g, b)) * SCALE) / mx
    }
}

/// Lightness is the largest channel over 255 (not the textbook `(max + min) / 2`).
pub open spec fn lightness_of(r: int, g: int, b: int) -> int {
    (max3(r, g, b) * SCALE) / 255
}

pub open spec fn clamp_sector(x: int) -> int {
    if x < 0 {
        0
    } else if x > SECTOR {
        SECTOR as int
    } else {
        x
    }
}

/// How far below the maximum a channel sits, as a fraction of `SECTOR`
/// of the span `max - min`; 0 means the channel is at the maximum.
pub open spec fn weight_r(h: int) -> int {
    if h < 3 * SECTOR {
        clamp_sector(h - SECTOR)
    } else {
        SECTOR - clamp_sector(h - 4 * SECTOR)
    }
}

pub open spec fn weight_g(h: int) -> int {
    if h < 2 * SECTOR {
        SECTOR - clamp_sector(h)
    } else {
        clamp_sector(h - 3 * SECTOR)
    }
}

pub open spec fn weight_b(h: int) -> int {
    if h < 4 * SECTOR {
        SECTOR - clamp_sector(h - 2 * SECTOR)
    } else {
        clamp_sector(h - 5 * SECTOR)
    }
}

/// The byte of a channel: `max = l`, `min = l * (1 - s)`, the channel at
/// `max - w * (max - min)`, scaled to 255 and truncated.
pub open spec fn channel_of(w: int, s: int, l: int) -> int {
    (255 * (SECTOR * SCALE * l - w * l * s)) / (SECTOR * SCALE * SCALE)
}

impl Rgb {
    pub fn new(r: u8, g: u8, b: u8) -> (c: Self)
        ensures
            c.r == r && c.g == g && c.b == b,
    {
        Rgb { r, g, b }
    }

    /// Converts from the simplified HSL model.
    pub fn from_hsl(c: &Hsl) -> (o: Self)
        requires
            c.wf(),
        ensures
            o.r == channel_of(weight_r(c.h as int), c.s as int, c.l as int),
            o.g == channel_of(weight_g(c.h as int), c.s as int, c.l as int),
            o.b == channel_of(weight_b(c.h as int), c.s as int, c.l as int),
    {
        let wr = if c.h < 3 * SECTOR {
            clamp_sector_exec(c.h, SECTOR)
        } else {
            SECTOR - clamp_sector_exec(c.h, 4 * SECTOR)
        };
        let wg = if c.h < 2 * SECTOR {
            SECTOR - clamp_sector_exec(c.h, 0)
        } else {
            clamp_sector_exec(c.h, 3 * SECTOR)
        };
        let wb = if c.h < 4 * SECTOR {
            SECTOR - clamp_sector_exec(c.h, 2 * SECTOR)
        } else {
            clamp_sector_exec(c.h, 5 * SECTOR)
        };
        Rgb { r: channel(wr, c.s, c.l), g: channel(wg, c.s, c.l), b: channel(wb, c.s, c.l) }
    }
}

/// `clamp_sector(h - base)` for a non-negative `h`.
fn clamp_sector_exec(h: u64, base: u64) -> (r: u64)
    ensures
        r == clamp_sector(h - base),
{
    if h < base {
        0
    } else if h - base > SECTOR {
        SECTOR
    } else {
        h - base
    }
}

fn channel(w: u64, s: u64, l: u64) -> (r: u8)
    requires
        w <= SECTOR,
        s <= SCALE,
        l <= SCALE,
    ensures
        r == channel_of(w as int, s as int, l as int),
{
    let full: u64 = SECTOR * SCALE;
    assert(w * l <= SECTOR * SCALE) by (nonlinear_arith)
        requires
            w <= SECTOR,
            l <= SCALE,
    ;
    assert(w * l * s <= full * l) by (nonlinear_arith)
        requires
            w <= SECTOR,
            s <= SCALE,
            full == SECTOR * SCALE,
    ;
    assert(full * l <= full * SCALE) by (nonlinear_arith)
        requires
            l <= SCALE,
    ;
    let wl = w * l;
    let sub = wl * s;
    let top = full * l;
    let num = 255 * (top - sub);
    let v = num / (full * SCALE);
    proof {
        lemma_div_below(num as int, (full * SCALE) as int, 256);
    }
    v as u8
}

/// `n / d < k` when `n < k * d`.
proof fn lemma_div_below(n: int, d: int, k: int)
    requires
        d > 0,
        0 <= n,
        n < k * d,
    ensures
        n / d < k,
{
    assert(n / d < k) by (nonlinear_arith)
        requires
            d > 0,
            0 <= n,
            n < k * d,
    ;
}

impl Hsl {
    /// Components in range: hue below 360 degrees, saturation and lightness at most 1.
    pub open spec fn wf(&self) -> bool {
        self.h < HUE_LIMIT && self.s <= SCALE && self.l <= SCALE
    }

    /// Builds a color, clamping each component into its range.
    pub fn new(h: u64, s: u64, l: u64) -> (c: Self)
        ensures
            c.wf(),
            c.h == if h < HUE_LIMIT { h } else { (HUE_LIMIT - 1) as u64 },
            c.s == if s <= SCALE { s } else { SCALE },
            c.l == if l <= SCALE { l } else { SCALE },
    {
        let h = if h < HUE_LIMIT { h } else { HUE_LIMIT - 1 };
        let s = if s <= SCALE { s } else { SCALE };
        let l = if l <= SCALE { l } else { SCALE };
        Hsl { h, s, l }
    }

    /// Converts from RGB.
    pub fn from_rgb(c: &Rgb) -> (o: Self)
        ensures
            o.wf(),
            o.h == hue_of(c.r as int, c.g as int, c.b as int),
            o.s == saturation_of(c.r as int, c.g as int, c.b as int),
            o.l == lightness_of(c.r as int, c.g as int, c.b as int),
    {
        let (r, g, b) = (c.r as u64, c.g as u64, c.b as u64);
        let mx = if r >= g && r >= b {
            r
        } else if g >= b {
            g
        } else {
            b
        };
        let mn = if r <= g && r <= b {
            r
        } else if g <= b {
            g
        } else {
            b
        };
        let d = mx - mn;
        let h = if d == 0 {
            0
        } else if r >= g && r >= b {
            if g >= b {
                (60 * (g - b) * SCALE) / d
            } else {
                ((360 * d - 60 * (b - g)) * SCALE) / d
            }
        } else if g >= r && g >= b {
            ((120 * d + 60 * b - 60 * r) * SCALE) / d
        } else {
            ((240 * d + 60 * r - 60 * g) * SCALE) / d
        };
        let s = if mx == 0 {
            0
        } else {
            (d * SCALE) / mx
        };
        let l = (mx * SCALE) / 255;
        proof {
            lemma_components_in_range(r as int, g as int, b as int);
        }
        Hsl { h, s, l }
    }
}

/// Hue, saturation and lightness of byte channels are within their ranges.
pub proof fn lemma_components_in_range(r: int, g: int, b: int)
    requires
        0 <= r <= 255,
        0 <= g <= 255,
        0 <= b <= 255,
    ensures
        0 <= hue_of(r, g, b) < HUE_LIMIT,
        0 <= saturation_of(r, g, b) <= SCALE,
        0 <= lightness_of(r, g, b) <= SCALE,
{
    let mx = max3(r, g, b);
    let mn = min3(r, g, b);
    let d = mx - mn;
    if d != 0 {
        if r >= g && r >= b {
            if g >= b {
                assert(60 * (g - b) * SCALE < (60 * SCALE + 1) * d) by (nonlinear_arith)
                    requires
                        g - b <= d,
                        d > 0,
                ;
                lemma_div_below(60 * (g - b) * SCALE, d, 60 * SCALE as int + 1);
            } else {
                assert((360 * d + 60 * (g - b)) * SCALE < (360 * SCALE) * d) by (nonlinear_arith)
                    requires
                        b - g > 0,
                        b - g <= d,
                        d > 0,
                ;
                assert((360 * d + 60 * (g - b)) * SCALE >= 0) by (nonlinear_arith)
                    requires
                        b - g <= d,
                        d > 0,
                ;
                lemma_div_below((360 * d + 60 * (g - b)) * SCALE, d, 360 * SCALE as int);
            }
        } else if g >= r && g >= b {
            assert((120 * d + 60 * (b - r)) * SCALE < (180 * SCALE + 1) * d) by (nonlinear_arith)
                requires
                    b - r <= d,
                    d > 0,
            ;
            assert((120 * d + 60 * (b - r)) * SCALE >= 0) by (nonlinear_arith)
                requires
                    r - b <= d,
                    d > 0,
            ;
            lemma_div_below((120 * d + 60 * (b - r)) * SCALE, d, 180 * SCALE as int + 1);
        } else {
            assert((240 * d + 60 * (r - g)) * SCALE < (300 * SCALE + 1) * d) by (nonlinear_arith)
                requires
                    r - g <= d,
                    d > 0,
            ;
            assert((240 * d + 60 * (r - g)) * SCALE >= 0) by (nonlinear_arith)
                requires
                    g - r <= d,
                    d > 0,
            ;
            lemma_div_below((240 * d + 60 * (r - g)) * SCALE, d, 300 * SCALE as int + 1);
        }
    }
    if mx != 0 {
        lemma_div_below(d * SCALE, mx, SCALE as int + 1);
    }
    lemma_div_below(mx * SCALE, 255, SCALE as int + 1);
}

/// A channel at the maximum comes back through the model as `255 * l`,
/// truncated: the input byte or one less.
proof fn lemma_full_channel(m: int, s: int)
    requires
        0 <= m <= 255,
    ensures
        m - 1 <= channel_of(0, s, (m * SCALE) / 255) <= m,
{
    let l = (m * SCALE) / 255;
    vstd::arithmetic::div_mod::lemma_fundamental_div_mod(m * SCALE, 255);
    let x = 255 * (SECTOR * SCALE * l - 0 * l * s);
    assert(x == (SECTOR * SCALE) * (255 * l)) by (nonlinear_arith)
        requires
            x == 255 * (SECTOR * SCALE * l - 0 * l * s),
    ;
    let y = SECTOR * SCALE * SCALE;
    assert(y == (SECTOR * SCALE) * SCALE);
    assert(x / y == (255 * l) / (SCALE as int)) by {
        vstd::arithmetic::div_mod::lemma_div_denominator(x, (SECTOR * SCALE) as int, SCALE as int);
        vstd::arithmetic::div_mod::lemma_div_multiples_vanish(255 * l, (SECTOR * SCALE) as int);
    }
    assert(m - 1 <= (255 * l) / (SCALE as int) <= m) by (nonlinear_arith)
        requires
            255 * l <= m * SCALE,
            m * SCALE < 255 * l + 255,
            0 <= l,
    ;
}

/// Converting a color to the model and back returns its largest channel
/// unchanged or one less.
pub proof fn lemma_round_trip_largest_channel(r: u8, g: u8, b: u8)
    ensures
        ({
            let (ri, gi, bi) = (r as int, g as int, b as int);
            let (h, s, l) = (hue_of(ri, gi, bi), saturation_of(ri, gi, bi), lightness_of(ri, gi, bi));
            &&& (ri >= gi && ri >= bi) ==> ri - 1 <= channel_of(weight_r(h), s, l) <= ri
            &&& (gi > ri && gi >= bi) ==> gi - 1 <= channel_of(weight_g(h), s, l) <= gi
            &&& (bi > ri && bi > gi) ==> bi - 1 <= channel_of(weight_b(h), s, l) <= bi
        }),
{
    let (ri, gi, bi) = (r as int, g as int, b as int);
    let h = hue_of(ri, gi, bi);
    let s = saturation_of(ri, gi, bi);
    let l = lightness_of(ri, gi, bi);
    let mx = max3(ri, gi, bi);
    let d = mx - min3(ri, gi, bi);
    lemma_components_in_range(ri, gi, bi);
    lemma_full_channel(mx, s);
    if d > 0 {
        if ri >= gi && ri >= bi {
            if gi >= bi {
                vstd::arithmetic::div_mod::lemma_div_is_ordered(60 * (gi - bi) * SCALE, 60 * d * SCALE, d);
                vstd::arithmetic::div_mod::lemma_div_by_multiple(60 * SCALE as int, d);
                assert(h <= 60 * SCALE);
            } else {
                vstd::arithmetic::div_mod::lemma_div_is_ordered(300 * d * SCALE, (360 * d + 60 * (gi - bi)) * SCALE, d);
                vstd::arithmetic::div_mod::lemma_div_by_multiple(300 * SCALE as int, d);
                assert(h >= 300 * SCALE);
            }
            assert(weight_r(h) == 0);
        } else if gi >= ri && gi >= bi {
            vstd::arithmetic::div_mod::lemma_div_is_ordered(60 * d * SCALE, (120 * d + 60 * (bi - ri)) * SCALE, d);
            vstd::arithmetic::div_mod::lemma_div_by_multiple(60 * SCALE as int, d);
            vstd::arithmetic::div_mod::lemma_div_is_ordered((120 * d + 60 * (bi - ri)) * SCALE, 180 * d * SCALE, d);
            vstd::arithmetic::div_mod::lemma_div_by_multiple(180 * SCALE as int, d);
            assert(60 * SCALE <= h <= 180 * SCALE);
            assert(weight_g(h) == 0);
        } else {
            vstd::arithmetic::div_mod::lemma_div_is_ordered(180 * d * SCALE, (240 * d + 60 * (ri - gi)) * SCALE, d);
            vstd::arithmetic::div_mod::lemma_div_by_multiple(180 * SCALE as int, d);
            vstd::arithmetic::div_mod::lemma_div_is_ordered((240 * d + 60 * (ri - gi)) * SCALE, 300 * d * SCALE, d);
            vstd::arithmetic::div_mod::lemma_div_by_multiple(300 * SCALE as int, d);
            assert(180 * SCALE <= h <= 300 * SCALE);
            assert(weight_b(h) == 0);
        }
    } else {
        assert(s == 0);
        assert(channel_of(weight_r(h), s, l) == channel_of(0, s, l));
        assert(channel_of(weight_g(h), s, l) == channel_of(0, s, l));
        assert(channel_of(weight_b(h), s, l) == channel_of(0, s, l));
    }
}

} // verus!
