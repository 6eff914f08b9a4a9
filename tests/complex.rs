use qautomata::complex::{amplitude_add, amplitude_mul, amplitude_norm_sqr, one, zero, ComplexDef};
use qautomata::complex::{amplitude_is_significant, AMPLITUDE_UNIT, PART_LIMIT, PROBABILITY_UNIT};
use qautomata::rules::{COS_PI_8, FRAC_1_SQRT_2, SIN_PI_8};

#[test]
fn product_of_two_inverse_roots_of_two_is_one_half() {
    let h = ComplexDef { re: FRAC_1_SQRT_2, im: 0 };
    assert_eq!(amplitude_mul(h, h), ComplexDef { re: AMPLITUDE_UNIT / 2, im: 0 });
    let minus_h = ComplexDef { re: -FRAC_1_SQRT_2, im: 0 };
    assert_eq!(amplitude_mul(h, minus_h), ComplexDef { re: -AMPLITUDE_UNIT / 2, im: 0 });
}

#[test]
fn product_multiplies_complex_numbers() {
    let one_plus_i = ComplexDef { re: AMPLITUDE_UNIT, im: AMPLITUDE_UNIT };
    assert_eq!(amplitude_mul(one_plus_i, one_plus_i), ComplexDef { re: 0, im: 2 * AMPLITUDE_UNIT });
    let e8 = ComplexDef { re: COS_PI_8, im: SIN_PI_8 };
    assert_eq!(amplitude_mul(e8, e8), ComplexDef { re: 777472127993, im: 777472127994 });
    assert_eq!(amplitude_mul(one(), e8), e8);
}

#[test]
fn product_and_sum_saturate_at_the_part_limit() {
    let big = ComplexDef { re: PART_LIMIT, im: 0 };
    assert_eq!(amplitude_mul(big, big), ComplexDef { re: PART_LIMIT, im: 0 });
    assert_eq!(amplitude_add(big, big), ComplexDef { re: PART_LIMIT, im: 0 });
    let small = ComplexDef { re: -PART_LIMIT, im: i64::MIN };
    assert_eq!(amplitude_add(small, small), ComplexDef { re: -PART_LIMIT, im: -PART_LIMIT });
}

#[test]
fn norm_of_one_is_the_probability_unit() {
    assert_eq!(amplitude_norm_sqr(one()), PROBABILITY_UNIT);
    assert_eq!(amplitude_norm_sqr(zero()), 0);
    assert_eq!(amplitude_norm_sqr(ComplexDef { re: 3 << 20, im: -(4 << 20) }), 25 << 8);
}

#[test]
fn significance_threshold_is_one_thousandth() {
    assert!(!amplitude_is_significant(ComplexDef { re: 1099511627, im: -1099511627 }));
    assert!(amplitude_is_significant(ComplexDef { re: 0, im: -1099511628 }));
}
