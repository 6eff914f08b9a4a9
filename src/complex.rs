use vstd::prelude::*;
use vstd::arithmetic::div_mod::{lemma_div_is_ordered, lemma_div_multiples_vanish_fancy, lemma_fundamental_div_mod};

verus! {

/// A complex number given by its real and imaginary parts.
#[derive(Clone, Copy, Debug, PartialEq, Eq, Structural)]
pub struct ComplexDef<T> {
    /// Real portion of the complex number
    pub re: T,
    /// Imaginary portion of the complex number
    pub im: T,
}

/// The amplitude of a configuration, in fixed point: each part counts units of
/// `1 / AMPLITUDE_UNIT`, so that `AMPLITUDE_UNIT` stands for the real number 1.
/// The arithmetic below holds each part within `PART_LIMIT` in magnitude.
pub type Amplitude = ComplexDef<i64>;

/// The fixed-point value of 1 for an amplitude part (2 to the 40th).
pub const AMPLITUDE_UNIT: i64 = 1099511627776;

/// Half of `AMPLITUDE_UNIT`, added before a division to round to the nearest unit.
pub const HALF_UNIT: i128 = 549755813888;

/// The largest magnitude of an amplitude part (2 to the 47th, the real number
/// 128).
pub const PART_LIMIT: i64 = 140737488355328;

/// The fixed-point value of probability 1: the squared norm of the amplitude
/// `AMPLITUDE_UNIT + 0i`, once brought to the probability scale (2 to the 48th).
pub const PROBABILITY_UNIT: u64 = 281474976710656;

/// The ratio between the square of the amplitude scale and the probability
/// scale (2 to the 32nd).
pub const NORM_SCALE: i128 = 4294967296;

/// Half of `NORM_SCALE`.
pub const HALF_NORM_SCALE: i128 = 2147483648;

/// A part of an amplitude at or below this magnitude (0.001) counts as zero when
/// interference prunes the state.
pub const AMPLITUDE_EPSILON: i64 = 1099511627;

/// A combined-state entry at or below this probability (0.00001) is dropped.
pub const CELL_EPSILON: i128 = 2814749767;

/// The largest squared norm of an amplitude that is not significant:
/// `2 * AMPLITUDE_EPSILON²` at the probability scale (about 0.000002).
pub const NEGLIGIBLE_WEIGHT: i128 = 562949953;

/// The value within `PART_LIMIT` in magnitude closest to `v`.
pub open spec fn clamp_part(v: int) -> i64 {
    if v < -PART_LIMIT {
        (-PART_LIMIT) as i64
    } else if v > PART_LIMIT {
        PART_LIMIT
    } else {
        v as i64
    }
}

/// A product of two fixed-point parts brought back to the amplitude scale,
/// rounding to the nearest unit (halves round up).
pub open spec fn rescale(p: int) -> int {
    (p + HALF_UNIT) / (AMPLITUDE_UNIT as int)
}

/// The fixed-point product of two amplitudes, each part rounded to the nearest
/// unit. Parts are held within `PART_LIMIT`, on the way in and out.
pub open spec fn spec_amplitude_mul(a: Amplitude, b: Amplitude) -> Amplitude {
    let (ar, ai, br, bi) = (clamp_part(a.re as int), clamp_part(a.im as int), clamp_part(b.re as int), clamp_part(b.im as int));
    ComplexDef {
        re: clamp_part(rescale(ar * br - ai * bi)),
        im: clamp_part(rescale(ar * bi + ai * br)),
    }
}

/// The sum of two amplitudes, each part held within `PART_LIMIT`.
pub open spec fn spec_amplitude_add(a: Amplitude, b: Amplitude) -> Amplitude {
    ComplexDef { re: clamp_part(a.re + b.re), im: clamp_part(a.im + b.im) }
}

/// The squared magnitude `re² + im²` (parts held within `PART_LIMIT`), brought
/// to the probability scale and rounded to the nearest unit of
/// `1 / PROBABILITY_UNIT`.
pub open spec fn norm_sqr(a: Amplitude) -> int {
    let (r, i) = (clamp_part(a.re as int), clamp_part(a.im as int));
    (r * r + i * i + HALF_NORM_SCALE) / (NORM_SCALE as int)
}

/// Both parts are zero.
pub open spec fn is_zero(a: Amplitude) -> bool {
    a.re == 0 && a.im == 0
}

/// The amplitude survives pruning: one of its parts exceeds `AMPLITUDE_EPSILON`
/// in magnitude.
pub open spec fn is_significant(a: Amplitude) -> bool {
    a.re > AMPLITUDE_EPSILON || a.re < -AMPLITUDE_EPSILON || a.im > AMPLITUDE_EPSILON || a.im
        < -AMPLITUDE_EPSILON
}

/// The amplitude `1 + 0i`.
pub open spec fn spec_one() -> Amplitude {
    ComplexDef { re: AMPLITUDE_UNIT, im: 0 }
}

/// A squared norm fits in 63 bits.
pub proof fn lemma_norm_bounds(a: Amplitude)
    ensures
        0 <= norm_sqr(a) <= 0x8000_0000_0000_0000,
{
    let (r, i) = (clamp_part(a.re as int), clamp_part(a.im as int));
    let d = NORM_SCALE as int;
    assert(0 <= r * r + i * i <= 2 * 0x4000_0000_0000_0000_0000_0000) by (nonlinear_arith)
        requires
            -PART_LIMIT <= r <= PART_LIMIT,
            -PART_LIMIT <= i <= PART_LIMIT,
            PART_LIMIT == 0x8000_0000_0000,
    ;
    let top: int = d * 0x8000_0000_0000_0000 + (d - 1);
    lemma_div_is_ordered(r * r + i * i + HALF_NORM_SCALE, top, d);
    lemma_div_multiples_vanish_fancy(0x8000_0000_0000_0000, d - 1, d);
    lemma_div_is_ordered(0, r * r + i * i + HALF_NORM_SCALE, d);
    lemma_div_multiples_vanish_fancy(0, 0, d);
}

/// An amplitude that is not significant weighs at most `NEGLIGIBLE_WEIGHT`.
pub proof fn lemma_negligible_weight(a: Amplitude)
    requires
        !is_significant(a),
    ensures
        0 <= norm_sqr(a) <= NEGLIGIBLE_WEIGHT,
{
    let d = NORM_SCALE as int;
    let e = AMPLITUDE_EPSILON as int;
    lemma_norm_bounds(a);
    assert(a.re * a.re + a.im * a.im <= 2 * e * e) by (nonlinear_arith)
        requires
            -e <= a.re <= e,
            -e <= a.im <= e,
    ;
    assert(clamp_part(a.re as int) == a.re && clamp_part(a.im as int) == a.im);
    let top: int = 2 * e * e + HALF_NORM_SCALE;
    lemma_div_is_ordered(a.re * a.re + a.im * a.im + HALF_NORM_SCALE, top, d);
    assert(top == d * 562949953 + 544120818);
    lemma_div_multiples_vanish_fancy(562949953, 544120818, d);
}

/// The zero amplitude has squared norm zero.
pub proof fn lemma_norm_of_zero()
    ensures
        norm_sqr(ComplexDef { re: 0, im: 0 }) == 0,
{
    let d = NORM_SCALE as int;
    lemma_div_multiples_vanish_fancy(0, HALF_NORM_SCALE as int, d);
    assert(d * 0 + HALF_NORM_SCALE == HALF_NORM_SCALE);
    assert(clamp_part(0) == 0);
    assert(0int * 0 + 0int * 0 + HALF_NORM_SCALE == HALF_NORM_SCALE);
}

/// A part within `PART_LIMIT` has a square within 2 to the 94th.
proof fn lemma_product_bounds(x: int, y: int)
    requires
        -PART_LIMIT <= x <= PART_LIMIT,
        -PART_LIMIT <= y <= PART_LIMIT,
    ensures
        -0x4000_0000_0000_0000_0000_0000 <= x * y <= 0x4000_0000_0000_0000_0000_0000,
{
    assert(-0x4000_0000_0000_0000_0000_0000 <= x * y <= 0x4000_0000_0000_0000_0000_0000) by (nonlinear_arith)
        requires
            -0x8000_0000_0000 <= x <= 0x8000_0000_0000,
            -0x8000_0000_0000 <= y <= 0x8000_0000_0000,
    ;
}

/// The amplitude `1 + 0i`.
pub fn one() -> (r: Amplitude)
    ensures
        r == spec_one(),
{
    ComplexDef { re: AMPLITUDE_UNIT, im: 0 }
}

/// The amplitude `0 + 0i`.
pub fn zero() -> (r: Amplitude)
    ensures
        is_zero(r),
{
    ComplexDef { re: 0, im: 0 }
}

fn clamp_to_part(v: i128) -> (r: i64)
    ensures
        r == clamp_part(v as int),
{
    if v < -(PART_LIMIT as i128) {
        -PART_LIMIT
    } else if v > PART_LIMIT as i128 {
        PART_LIMIT
    } else {
        v as i64
    }
}

fn rescale_exec(p: i128) -> (r: i128)
    requires
        -0x8000_0000_0000_0000_0000_0000 <= p <= 0x8000_0000_0000_0000_0000_0000,
    ensures
        r == rescale(p as int),
{
    // Division of a negative number truncates: shift the numerator by a
    // multiple of the unit so that it is positive, and shift the quotient back.
    let shifted: u128 = (p + HALF_UNIT + 0x1_0000_0000_0000_0000_0000_0000) as u128;
    let q: u128 = shifted / (AMPLITUDE_UNIT as u128);
    proof {
        let d: int = AMPLITUDE_UNIT as int;
        let x: int = p + HALF_UNIT;
        lemma_fundamental_div_mod(x, d);
        let k: int = x / d;
        let m: int = x % d;
        assert(x + 0x1_0000_0000_0000_0000_0000_0000 == d * (k + 0x100_0000_0000_0000) + m)
            by (nonlinear_arith)
            requires
                x == d * k + m,
                d == 0x100_0000_0000,
        ;
        lemma_div_multiples_vanish_fancy(k + 0x100_0000_0000_0000, m, d);
    }
    q as i128 - 0x100_0000_0000_0000
}

/// Product of two amplitudes, rounded to the fixed-point scale and held within
/// `PART_LIMIT`.
pub fn amplitude_mul(a: Amplitude, b: Amplitude) -> (r: Amplitude)
    ensures
        r == spec_amplitude_mul(a, b),
{
    let ar: i64 = clamp_to_part(a.re as i128);
    let ai: i64 = clamp_to_part(a.im as i128);
    let br: i64 = clamp_to_part(b.re as i128);
    let bi: i64 = clamp_to_part(b.im as i128);
    proof {
        lemma_product_bounds(ar as int, br as int);
        lemma_product_bounds(ai as int, bi as int);
        lemma_product_bounds(ar as int, bi as int);
        lemma_product_bounds(ai as int, br as int);
    }
    let re_product: i128 = (ar as i128) * (br as i128) - (ai as i128) * (bi as i128);
    let im_product: i128 = (ar as i128) * (bi as i128) + (ai as i128) * (br as i128);
    ComplexDef {
        re: clamp_to_part(rescale_exec(re_product)),
        im: clamp_to_part(rescale_exec(im_product)),
    }
}

/// Sum of two amplitudes, held within `PART_LIMIT`.
pub fn amplitude_add(a: Amplitude, b: Amplitude) -> (r: Amplitude)
    ensures
        r == spec_amplitude_add(a, b),
{
    ComplexDef {
        re: clamp_to_part(a.re as i128 + b.re as i128),
        im: clamp_to_part(a.im as i128 + b.im as i128),
    }
}

/// The squared magnitude `re² + im²`, in units of `1 / PROBABILITY_UNIT`.
pub fn amplitude_norm_sqr(a: Amplitude) -> (r: u64)
    ensures
        r == norm_sqr(a),
{
    let re: i128 = clamp_to_part(a.re as i128) as i128;
    let im: i128 = clamp_to_part(a.im as i128) as i128;
    proof {
        lemma_product_bounds(re as int, re as int);
        lemma_product_bounds(im as int, im as int);
        lemma_norm_bounds(a);
    }
    ((re * re + im * im + HALF_NORM_SCALE) / NORM_SCALE) as u64
}

/// Whether a part of the amplitude exceeds `AMPLITUDE_EPSILON` in magnitude.
pub fn amplitude_is_significant(a: Amplitude) -> (r: bool)
    ensures
        r == is_significant(a),
{
    a.re > AMPLITUDE_EPSILON || a.re < -AMPLITUDE_EPSILON || a.im > AMPLITUDE_EPSILON || a.im
        < -AMPLITUDE_EPSILON
}

/// Whether both parts of the amplitude are zero.
pub fn amplitude_is_zero(a: Amplitude) -> (r: bool)
    ensures
        r == is_zero(a),
{
    a.re == 0 && a.im == 0
}

} // verus!
