use qautomata::block::{block_origin_of, index_to_square_state, square_state_to_index};
use qautomata::coordinates::Coordinates;

#[test]
fn test_square_state_to_index() {
    struct Test {
        ss: [bool; 4],
        exp: i32,
    }

    let tests = [
        Test { ss: [false, false, false, false], exp: 0 },
        Test { ss: [true, false, false, true], exp: 9 },
        Test { ss: [false, true, false, false], exp: 4 },
        Test { ss: [false, true, false, true], exp: 5 },
        Test { ss: [true, true, false, true], exp: 13 },
        Test { ss: [true, true, true, false], exp: 14 },
        Test { ss: [true, true, true, true], exp: 15 },
    ];

    for t in tests {
        let got = square_state_to_index(t.ss);
        assert_eq!(got, t.exp);
    }
}

#[test]
fn test_index_square_state() {
    struct Test {
        exp: [bool; 4],
        index: i32,
    }

    let tests = [
        Test { index: 0, exp: [false, false, false, false] },
        Test { index: 9, exp: [true, false, false, true] },
        Test { index: 4, exp: [false, true, false, false] },
        Test { index: 5, exp: [false, true, false, true] },
        Test { index: 13, exp: [true, true, false, true] },
        Test { index: 14, exp: [true, true, true, false] },
        Test { index: 15, exp: [true, true, true, true] },
    ];

    for t in tests {
        let got = index_to_square_state(t.index);
        assert_eq!(got, t.exp);
    }
}

#[test]
fn encode_decode_round_trip_on_every_index() {
    for i in 0..16 {
        assert_eq!(square_state_to_index(index_to_square_state(i)), i);
    }
    for a in [false, true] {
        for b in [false, true] {
            for c in [false, true] {
                for d in [false, true] {
                    let s = [a, b, c, d];
                    assert_eq!(index_to_square_state(square_state_to_index(s)), s);
                }
            }
        }
    }
}

#[test]
fn block_origin_even_and_odd_steps() {
    let c = |x: i32, y: i32| Coordinates { x, y };
    assert_eq!(block_origin_of(c(3, 4), true), c(2, 4));
    assert_eq!(block_origin_of(c(-1, -2), true), c(-2, -2));
    assert_eq!(block_origin_of(c(3, 4), false), c(3, 3));
    assert_eq!(block_origin_of(c(0, -1), false), c(-1, -1));
    assert_eq!(block_origin_of(c(i32::MIN, 0), false), c(i32::MAX, -1));
}
