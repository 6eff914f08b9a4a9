use vstd::prelude::*;

use crate::block::{decode, encode};
use crate::block::{index_to_square_state, square_state_to_index};
use crate::complex::{is_zero, Amplitude, ComplexDef, AMPLITUDE_UNIT};
use crate::complex::{amplitude_is_zero, zero};

verus! {

/// The local rule: a 16×16 table of transition amplitudes. Column `j` is the
/// index of a block state before the step, row `i` the index of a block state
/// after it, and `rules[i][j]` the amplitude of going from `j` to `i`.
pub type Rules = [[Amplitude; 16]; 16];

/// The alternatives that rows `0..n` of column `j` offer: each row whose entry
/// is not zero, in increasing order, with its entry.
pub open spec fn alternatives_upto(rules: Rules, j: int, n: int) -> Seq<(Amplitude, int)>
    decreases n,
{
    if n <= 0 {
        seq![]
    } else {
        let prev = alternatives_upto(rules, j, n - 1);
        let a = rules@[n - 1]@[j];
        if is_zero(a) {
            prev
        } else {
            prev.push((a, n - 1))
        }
    }
}

/// What the rules make of a block in state `j`: the amplitude and the row of
/// each nonzero entry of column `j`, by increasing row. Empty for a forbidden
/// state.
pub open spec fn alternatives(rules: Rules, j: int) -> Seq<(Amplitude, int)> {
    alternatives_upto(rules, j, 16)
}

/// The outcomes of a block in state `square_state`: for each row `i` of its
/// column whose entry is not zero, in increasing order, that entry and the block
/// state `i`.
pub fn compute_rules(rules: &Rules, square_state: [bool; 4]) -> (r: Vec<(Amplitude, [bool; 4])>)
    ensures
        r@.len() == alternatives(*rules, encode(square_state@)).len(),
        forall|k: int|
            0 <= k < r@.len() ==> (#[trigger] r@[k]).0 == alternatives(
                *rules,
                encode(square_state@),
            )[k].0 && r@[k].1@ == decode(alternatives(*rules, encode(square_state@))[k].1),
{
    let index: i32 = square_state_to_index(square_state);
    let column: usize = index as usize;
    let ghost j: int = encode(square_state@);
    let mut ret: Vec<(Amplitude, [bool; 4])> = Vec::new();
    let mut row: usize = 0;
    while row < 16
        invariant
            0 <= row <= 16,
            column == j,
            0 <= j < 16,
            ret@.len() == alternatives_upto(*rules, j, row as int).len(),
            forall|k: int|
                0 <= k < ret@.len() ==> (#[trigger] ret@[k]).0 == alternatives_upto(
                    *rules,
                    j,
                    row as int,
                )[k].0 && ret@[k].1@ == decode(alternatives_upto(*rules, j, row as int)[k].1),
        decreases 16 - row,
    {
        let amplitude: Amplitude = rules[row][column];
        if !amplitude_is_zero(amplitude) {
            let state: [bool; 4] = index_to_square_state(row as i32);
            ret.push((amplitude, state));
        }
        row = row + 1;
    }
    ret
}

/// The fixed-point value of `1 / sqrt(2)`.
pub const FRAC_1_SQRT_2: i64 = 777472127994;

/// The fixed-point value of `cos(pi / 8)`.
pub const COS_PI_8: i64 = 1015816288660;

/// The fixed-point value of `sin(pi / 8)`.
pub const SIN_PI_8: i64 = 420764883643;

/// The amplitude with the given fixed-point parts.
pub open spec fn amp(re: i64, im: i64) -> Amplitude {
    ComplexDef { re, im }
}

/// The built-in rules, entry by entry: the identity on the empty block, and a
/// fixed set of transitions, two of which split a block into two outcomes.
pub open spec fn test_rule(i: int, j: int) -> Amplitude {
    let unit = amp(AMPLITUDE_UNIT, 0);
    let one_plus_i = amp(AMPLITUDE_UNIT, AMPLITUDE_UNIT);
    let phase_pi_4 = amp(FRAC_1_SQRT_2, FRAC_1_SQRT_2);
    let phase_pi_8 = amp(COS_PI_8, SIN_PI_8);
    let phase_pi_2 = amp(0, AMPLITUDE_UNIT);
    let root_half = amp(FRAC_1_SQRT_2, 0);
    let minus_root_half = amp((-FRAC_1_SQRT_2) as i64, 0);
    if i == 0 && j == 0 {
        unit
    } else if i == 1 && j == 4 {
        unit
    } else if i == 2 && j == 1 {
        unit
    } else if i == 3 && j == 11 {
        one_plus_i
    } else if i == 4 && j == 8 {
        unit
    } else if i == 5 && j == 7 {
        phase_pi_4
    } else if i == 6 && j == 6 {
        root_half
    } else if i == 6 && j == 9 {
        root_half
    } else if i == 7 && j == 5 {
        unit
    } else if i == 8 && j == 2 {
        unit
    } else if i == 9 && j == 6 {
        root_half
    } else if i == 9 && j == 9 {
        minus_root_half
    } else if i == 10 && j == 14 {
        phase_pi_8
    } else if i == 11 && j == 3 {
        unit
    } else if i == 12 && j == 13 {
        unit
    } else if i == 13 && j == 12 {
        unit
    } else if i == 14 && j == 10 {
        unit
    } else if i == 15 && j == 15 {
        phase_pi_2
    } else {
        amp(0, 0)
    }
}

/// The built-in rules (see `test_rule`).
pub fn get_test_rules() -> (r: Rules)
    ensures
        forall|i: int, j: int| 0 <= i < 16 && 0 <= j < 16 ==> (#[trigger] r@[i]@[j]) == test_rule(i, j),
{
    let z: Amplitude = zero();
    let o: Amplitude = ComplexDef { re: AMPLITUDE_UNIT, im: 0 };
    let oi: Amplitude = ComplexDef { re: AMPLITUDE_UNIT, im: AMPLITUDE_UNIT };
    let e4: Amplitude = ComplexDef { re: FRAC_1_SQRT_2, im: FRAC_1_SQRT_2 };
    let e8: Amplitude = ComplexDef { re: COS_PI_8, im: SIN_PI_8 };
    let e2: Amplitude = ComplexDef { re: 0, im: AMPLITUDE_UNIT };
    let h: Amplitude = ComplexDef { re: FRAC_1_SQRT_2, im: 0 };
    let mh: Amplitude = ComplexDef { re: -FRAC_1_SQRT_2, im: 0 };
    let r: Rules = [
        [o, z, z, z, z, z, z, z, z, z, z, z, z, z, z, z],
        [z, z, z, z, o, z, z, z, z, z, z, z, z, z, z, z],
        [z, o, z, z, z, z, z, z, z, z, z, z, z, z, z, z],
        [z, z, z, z, z, z, z, z, z, z, z, oi, z, z, z, z],
        [z, z, z, z, z, z, z, z, o, z, z, z, z, z, z, z],
        [z, z, z, z, z, z, z, e4, z, z, z, z, z, z, z, z],
        [z, z, z, z, z, z, h, z, z, h, z, z, z, z, z, z],
        [z, z, z, z, z, o, z, z, z, z, z, z, z, z, z, z],
        [z, z, o, z, z, z, z, z, z, z, z, z, z, z, z, z],
        [z, z, z, z, z, z, h, z, z, mh, z, z, z, z, z, z],
        [z, z, z, z, z, z, z, z, z, z, z, z, z, z, e8, z],
        [z, z, z, o, z, z, z, z, z, z, z, z, z, z, z, z],
        [z, z, z, z, z, z, z, z, z, z, z, z, z, o, z, z],
        [z, z, z, z, z, z, z, z, z, z, z, z, o, z, z, z],
        [z, z, z, z, z, z, z, z, z, z, o, z, z, z, z, z],
        [z, z, z, z, z, z, z, z, z, z, z, z, z, z, z, e2],
    ];
    r
}

} // verus!
