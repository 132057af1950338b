use vstd::prelude::*;

verus! {

/// An 8-bit RGB colour.
#[derive(Clone, Copy, Debug, PartialEq, Eq, Structural)]
pub struct Rgb {
    pub r: u8,
    pub g: u8,
    pub b: u8,
}

/// A non-negative fraction `num / den` with `den > 0`.
#[derive(Clone, Copy, Debug, PartialEq, Eq, Structural)]
pub struct Ratio {
    pub num: u32,
    pub den: u32,
}

pub open spec fn ratio(num: int, den: int) -> Ratio {
    Ratio { num: num as u32, den: den as u32 }
}

pub open spec fn black() -> Rgb {
    Rgb { r: 0, g: 0, b: 0 }
}

/// The visible band a wavelength lies in, [380, 780] nanometres.
pub open spec fn in_visible_band(w: int) -> bool {
    380 <= w <= 780
}

/// The unfaded red, green and blue levels of a wavelength, each in [0, 1].
pub open spec fn band_levels(w: int) -> (Ratio, Ratio, Ratio) {
    if 380 <= w <= 439 {
        (ratio(440 - w, 60), ratio(0, 1), ratio(1, 1))
    } else if 440 <= w <= 489 {
        (ratio(0, 1), ratio(w - 440, 50), ratio(1, 1))
    } else if 490 <= w <= 509 {
        (ratio(0, 1), ratio(1, 1), ratio(510 - w, 20))
    } else if 510 <= w <= 579 {
        (ratio(w - 510, 70), ratio(1, 1), ratio(0, 1))
    } else if 580 <= w <= 644 {
        (ratio(1, 1), ratio(645 - w, 65), ratio(0, 1))
    } else if 645 <= w <= 780 {
        (ratio(1, 1), ratio(0, 1), ratio(0, 1))
    } else {
        (ratio(0, 1), ratio(0, 1), ratio(0, 1))
    }
}

/// The fade at the violet and infrared edges: from 0.3 to 1.0 across
/// [380, 420), from 1.0 down to 0.3 across (700, 780], else 1.0.
pub open spec fn fade(w: int) -> Ratio {
    if 380 <= w <= 419 {
        ratio(120 + 7 * (w - 380), 400)
    } else if 701 <= w <= 780 {
        ratio(240 + 7 * (780 - w), 800)
    } else {
        ratio(1, 1)
    }
}

pub open spec fn pow4(x: int) -> int {
    x * x * x * x
}

pub open spec fn pow5(x: int) -> int {
    x * x * x * x * x
}

/// `k <= 255 * (p / q) ^ 0.8`, raised to the fifth power to stay in integers.
pub open spec fn byte_fits(k: int, p: int, q: int) -> bool {
    pow5(k) * pow4(q) <= pow5(255) * pow4(p)
}

/// The largest `j <= k` that fits, or 0.
pub open spec fn largest_fitting(p: int, q: int, k: nat) -> nat
    decreases k,
{
    if k == 0 || byte_fits(k as int, p, q) {
        k
    } else {
        largest_fitting(p, q, (k - 1) as nat)
    }
}

/// `floor(255 * (p / q) ^ 0.8)` for `0 <= p <= q`.
pub open spec fn scaled_root(p: int, q: int) -> nat {
    largest_fitting(p, q, 255)
}

/// The byte of a channel level faded by a factor.
pub open spec fn channel_byte(level: Ratio, factor: Ratio) -> u8 {
    scaled_root(level.num * factor.num, level.den * factor.den) as u8
}

/// The colour of a wavelength in nanometres.
pub open spec fn spectrum(w: int) -> Rgb {
    let (r, g, b) = band_levels(w);
    let f = fade(w);
    Rgb { r: channel_byte(r, f), g: channel_byte(g, f), b: channel_byte(b, f) }
}

proof fn lemma_pow5_monotonic(a: int, b: int)
    requires
        0 <= a <= b,
    ensures
        pow5(a) <= pow5(b),
{
    assert(a * a <= b * b) by (nonlinear_arith)
        requires
            0 <= a <= b,
    ;
    assert(a * a * a <= b * b * b) by (nonlinear_arith)
        requires
            0 <= a <= b,
            a * a <= b * b,
    ;
    assert(a * a * a * a <= b * b * b * b) by (nonlinear_arith)
        requires
            0 <= a <= b,
            a * a * a <= b * b * b,
    ;
    assert(a * a * a * a * a <= b * b * b * b * b) by (nonlinear_arith)
        requires
            0 <= a <= b,
            a * a * a * a <= b * b * b * b,
    ;
}

proof fn lemma_pow4_bounds(a: int, b: int)
    requires
        0 <= a <= b,
    ensures
        0 <= pow4(a) <= pow4(b),
{
    assert(0 <= a * a <= b * b) by (nonlinear_arith)
        requires
            0 <= a <= b,
    ;
    assert(0 <= a * a * a <= b * b * b) by (nonlinear_arith)
        requires
            0 <= a <= b,
            a * a <= b * b,
    ;
    assert(0 <= a * a * a * a <= b * b * b * b) by (nonlinear_arith)
        requires
            0 <= a <= b,
            a * a * a <= b * b * b,
    ;
}

proof fn lemma_fits_downward(j: int, k: int, p: int, q: int)
    requires
        0 <= j <= k,
        q >= 0,
        byte_fits(k, p, q),
    ensures
        byte_fits(j, p, q),
{
    lemma_pow5_monotonic(j, k);
    lemma_pow4_bounds(0, q);
    let (a, b, c) = (pow5(j), pow5(k), pow4(q));
    assert(a * c <= b * c) by (nonlinear_arith)
        requires
            a <= b,
            c >= 0,
    ;
}

/// A byte `r` that fits while `r + 1` does not is the one the search finds.
proof fn lemma_largest_fitting(p: int, q: int, r: nat, k: nat)
    requires
        q >= 0,
        r <= k <= 255,
        byte_fits(r as int, p, q),
        r == 255 || !byte_fits(r + 1 as int, p, q),
    ensures
        largest_fitting(p, q, k) == r,
    decreases k,
{
    if k > r {
        if byte_fits(k as int, p, q) {
            lemma_fits_downward(r + 1 as int, k as int, p, q);
        }
        lemma_largest_fitting(p, q, r, (k - 1) as nat);
    }
}

fn fifth_power(k: u128) -> (r: u128)
    requires
        k <= 255,
    ensures
        r == pow5(k as int),
        r <= pow5(255),
{
    proof {
        lemma_pow5_monotonic(k as int, 255);
        lemma_pow4_bounds(k as int, 255);
        assert(k * k <= 255 * 255) by (nonlinear_arith)
            requires
                k <= 255,
        ;
        assert(k * k * k <= 255 * 255 * 255) by (nonlinear_arith)
            requires
                k <= 255,
                k * k <= 255 * 255,
        ;
    }
    k * k * k * k * k
}

fn fourth_power(x: u128) -> (r: u128)
    requires
        x <= 65536,
    ensures
        r == pow4(x as int),
        r <= pow4(65536),
{
    proof {
        lemma_pow4_bounds(x as int, 65536);
        assert(x * x <= 65536 * 65536) by (nonlinear_arith)
            requires
                x <= 65536,
        ;
        assert(x * x * x <= 65536 * 65536 * 65536) by (nonlinear_arith)
            requires
                x <= 65536,
                x * x <= 65536 * 65536,
        ;
    }
    x * x * x * x
}

/// `floor(255 * (p / q) ^ 0.8)`, the byte of a level `p / q` in [0, 1].
pub fn scaled_byte(p: u32, q: u32) -> (r: u8)
    requires
        0 < q <= 65536,
        p <= q,
    ensures
        r as nat == scaled_root(p as int, q as int),
{
    let q4 = fourth_power(q as u128);
    let p4 = fourth_power(p as u128);
    let top = fifth_power(255);
    proof {
        lemma_pow4_bounds(p as int, q as int);
        assert(top * p4 <= pow5(255) * pow4(65536)) by (nonlinear_arith)
            requires
                top == pow5(255),
                p4 <= pow4(65536),
        ;
    }
    let bound = top * p4;
    // The answer lies in [lo, hi): lo fits, hi does not or is past 255.
    let mut lo: u128 = 0;
    let mut hi: u128 = 256;
    proof {
        assert(pow5(0) == 0);
        assert(0 * pow4(q as int) == 0);
        lemma_pow4_bounds(0, p as int);
    }
    while hi - lo > 1
        invariant
            lo < hi <= 256,
            q4 == pow4(q as int),
            q4 <= pow4(65536),
            bound == pow5(255) * pow4(p as int),
            byte_fits(lo as int, p as int, q as int),
            hi == 256 || !byte_fits(hi as int, p as int, q as int),
        decreases hi - lo,
    {
        let mid = lo + (hi - lo) / 2;
        let m5 = fifth_power(mid);
        proof {
            assert(m5 * q4 <= pow5(255) * pow4(65536)) by (nonlinear_arith)
                requires
                    m5 <= pow5(255),
                    q4 <= pow4(65536),
            ;
        }
        if m5 * q4 <= bound {
            lo = mid;
        } else {
            hi = mid;
        }
    }
    proof {
        lemma_largest_fitting(p as int, q as int, lo as nat, 255);
    }
    lo as u8
}


fn levels(wavelength: u32) -> (r: (Ratio, Ratio, Ratio))
    ensures
        r == band_levels(wavelength as int),
{
    let w = wavelength;
    let zero = Ratio { num: 0, den: 1 };
    let one = Ratio { num: 1, den: 1 };
    if 380 <= w && w <= 439 {
        (Ratio { num: 440 - w, den: 60 }, zero, one)
    } else if 440 <= w && w <= 489 {
        (zero, Ratio { num: w - 440, den: 50 }, one)
    } else if 490 <= w && w <= 509 {
        (zero, one, Ratio { num: 510 - w, den: 20 })
    } else if 510 <= w && w <= 579 {
        (Ratio { num: w - 510, den: 70 }, one, zero)
    } else if 580 <= w && w <= 644 {
        (one, Ratio { num: 645 - w, den: 65 }, zero)
    } else if 645 <= w && w <= 780 {
        (one, zero, zero)
    } else {
        (zero, zero, zero)
    }
}

fn fade_of(wavelength: u32) -> (r: Ratio)
    ensures
        r == fade(wavelength as int),
{
    let w = wavelength;
    if 380 <= w && w <= 419 {
        Ratio { num: 120 + 7 * (w - 380), den: 400 }
    } else if 701 <= w && w <= 780 {
        Ratio { num: 240 + 7 * (780 - w), den: 800 }
    } else {
        Ratio { num: 1, den: 1 }
    }
}

/// A level in [0, 1] whose denominator keeps products with a fade in range.
pub open spec fn is_level(x: Ratio) -> bool {
    0 < x.den <= 70 && x.num <= x.den
}

pub open spec fn is_fade(x: Ratio) -> bool {
    0 < x.den <= 800 && x.num <= x.den
}

fn faded_byte(level: Ratio, factor: Ratio) -> (r: u8)
    requires
        is_level(level),
        is_fade(factor),
    ensures
        r == channel_byte(level, factor),
{
    proof {
        let (a, b, c, d) = (level.num as int, level.den as int, factor.num as int, factor.den as int);
        assert(0 < b * d <= 70 * 800 && a * c <= b * d) by (nonlinear_arith)
            requires
                0 < b <= 70,
                0 < d <= 800,
                0 <= a <= b,
                0 <= c <= d,
        ;
    }
    scaled_byte(level.num * factor.num, level.den * factor.den)
}

/// The colour of a wavelength in nanometres: a piecewise spectrum over
/// [380, 780], faded at both edges, each channel `floor(255 * x ^ 0.8)`
/// of its faded level `x`; black outside the visible band.
pub fn wavelength_to_rgb(wavelength: u32) -> (r: Rgb)
    ensures
        r == spectrum(wavelength as int),
        !in_visible_band(wavelength as int) ==> r == black(),
{
    let (red, green, blue) = levels(wavelength);
    let f = fade_of(wavelength);
    let r = Rgb { r: faded_byte(red, f), g: faded_byte(green, f), b: faded_byte(blue, f) };
    proof {
        if !in_visible_band(wavelength as int) {
            lemma_dark_level(wavelength as int);
        }
    }
    r
}

proof fn lemma_dark_level(w: int)
    requires
        !in_visible_band(w),
    ensures
        spectrum(w) == black(),
{
    assert(pow4(0) == 0 && pow4(1) == 1 && pow5(0) == 0 && pow5(1) == 1);
    assert(byte_fits(0, 0, 1));
    assert(!byte_fits(1, 0, 1));
    lemma_largest_fitting(0, 1, 0, 255);
}

} // verus!
