use qautomata::complex::{ComplexDef, AMPLITUDE_UNIT};
use qautomata::rules::{compute_rules, get_test_rules, FRAC_1_SQRT_2};

#[test]
fn test_compute_rule() {
    let rules = get_test_rules();
    let one = ComplexDef { re: AMPLITUDE_UNIT, im: 0 };

    struct Test {
        ss: [bool; 4],
        exp: Vec<(ComplexDef<i64>, [bool; 4])>,
    }

    let tests = [
        Test { ss: [false, true, false, false], exp: vec![(one, [false, false, false, true])] },
        Test { ss: [false, false, false, true], exp: vec![(one, [false, false, true, false])] },
    ];

    for t in tests {
        let got = compute_rules(&rules, t.ss);
        assert_eq!(got, t.exp);
    }
}

#[test]
fn compute_rules_splits_column_six_in_row_order() {
    let rules = get_test_rules();
    let got = compute_rules(&rules, [false, true, true, false]);
    assert_eq!(
        got,
        vec![
            (ComplexDef { re: FRAC_1_SQRT_2, im: 0 }, [false, true, true, false]),
            (ComplexDef { re: FRAC_1_SQRT_2, im: 0 }, [true, false, false, true]),
        ]
    );
}

#[test]
fn compute_rules_on_a_forbidden_column_is_empty() {
    let zero = ComplexDef { re: 0, im: 0 };
    let rules = [[zero; 16]; 16];
    assert!(compute_rules(&rules, [true, false, false, false]).is_empty());
}
