use vstd::prelude::*;

use crate::coordinates::Coordinates;

verus! {

/// 1 for an alive cell, 0 for a dead one.
pub open spec fn bit(b: bool) -> int {
    if b {
        1
    } else {
        0
    }
}

/// The index of a 2×2 block state: its four alive flags, in reading order, as
/// the bits of a 4-bit number, most significant first.
pub open spec fn encode(s: Seq<bool>) -> int {
    8 * bit(s[0]) + 4 * bit(s[1]) + 2 * bit(s[2]) + bit(s[3])
}

/// The block state whose index is `i`.
pub open spec fn decode(i: int) -> Seq<bool> {
    seq![(i / 8) % 2 == 1, (i / 4) % 2 == 1, (i / 2) % 2 == 1, i % 2 == 1]
}

/// Converts a block state, its four cells in the order top-left, top-right,
/// bottom-left, bottom-right, into its index among the 16 rows and columns of
/// the rules.
pub fn square_state_to_index(square_state: [bool; 4]) -> (r: i32)
    ensures
        r == encode(square_state@),
        0 <= r < 16,
{
    let mut index: i32 = 0;
    if square_state[0] {
        index = index + 8;
    }
    if square_state[1] {
        index = index + 4;
    }
    if square_state[2] {
        index = index + 2;
    }
    if square_state[3] {
        index = index + 1;
    }
    index
}

/// The block state whose index is `index`.
pub fn index_to_square_state(index: i32) -> (r: [bool; 4])
    requires
        0 <= index < 16,
    ensures
        r@ == decode(index as int),
{
    let r: [bool; 4] = [(index / 8) % 2 == 1, (index / 4) % 2 == 1, (index / 2) % 2 == 1, index % 2
        == 1];
    assert(r@ =~= decode(index as int));
    r
}

/// The value after `v` on the circle of `i32` values: past the largest value
/// comes the smallest, so that the lattice closes on itself at its edges.
pub open spec fn next_i32(v: i32) -> i32 {
    if v == i32::MAX {
        i32::MIN
    } else {
        (v + 1) as i32
    }
}

/// The value before `v` on the circle of `i32` values.
pub open spec fn prev_i32(v: i32) -> i32 {
    if v == i32::MIN {
        i32::MAX
    } else {
        (v - 1) as i32
    }
}

/// The first coordinate, along one axis, of the block that holds `v`: blocks
/// start on even values on even steps and on odd values on odd steps.
pub open spec fn block_start(v: i32, is_even_step: bool) -> i32 {
    if is_even_step {
        if v % 2 == 0 {
            v
        } else {
            prev_i32(v)
        }
    } else {
        if v % 2 == 0 {
            prev_i32(v)
        } else {
            v
        }
    }
}

/// The top-left cell of the block that holds `c`.
pub open spec fn block_origin(c: Coordinates, is_even_step: bool) -> Coordinates {
    Coordinates { x: block_start(c.x, is_even_step), y: block_start(c.y, is_even_step) }
}

/// Cell `k` of the block whose top-left cell is `o`, in reading order:
/// `(x, y)`, `(x, y + 1)`, `(x + 1, y)`, `(x + 1, y + 1)`.
pub open spec fn block_cell(o: Coordinates, k: int) -> Coordinates {
    if k == 0 {
        o
    } else if k == 1 {
        Coordinates { x: o.x, y: next_i32(o.y) }
    } else if k == 2 {
        Coordinates { x: next_i32(o.x), y: o.y }
    } else {
        Coordinates { x: next_i32(o.x), y: next_i32(o.y) }
    }
}

/// The four cells of the block whose top-left cell is `o`.
pub open spec fn block_cells(o: Coordinates) -> Seq<Coordinates> {
    seq![block_cell(o, 0), block_cell(o, 1), block_cell(o, 2), block_cell(o, 3)]
}

fn next_coordinate(v: i32) -> (r: i32)
    ensures
        r == next_i32(v),
{
    if v == i32::MAX {
        i32::MIN
    } else {
        v + 1
    }
}

fn prev_coordinate(v: i32) -> (r: i32)
    ensures
        r == prev_i32(v),
{
    if v == i32::MIN {
        i32::MAX
    } else {
        v - 1
    }
}

fn block_start_exec(v: i32, is_even_step: bool) -> (r: i32)
    ensures
        r == block_start(v, is_even_step),
{
    let even: bool = v % 2 == 0;
    if is_even_step == even {
        v
    } else {
        prev_coordinate(v)
    }
}

/// The top-left cell of the block that holds `c` on a step of the given parity.
pub fn block_origin_of(c: Coordinates, is_even_step: bool) -> (o: Coordinates)
    ensures
        o == block_origin(c, is_even_step),
{
    Coordinates { x: block_start_exec(c.x, is_even_step), y: block_start_exec(c.y, is_even_step) }
}

/// The four cells of the block whose top-left cell is `o`, in reading order.
pub fn block_cells_of(o: Coordinates) -> (r: [Coordinates; 4])
    ensures
        r@ == block_cells(o),
{
    let x1: i32 = next_coordinate(o.x);
    let y1: i32 = next_coordinate(o.y);
    let r: [Coordinates; 4] = [
        o,
        Coordinates { x: o.x, y: y1 },
        Coordinates { x: x1, y: o.y },
        Coordinates { x: x1, y: y1 },
    ];
    assert(r@ =~= block_cells(o));
    r
}

/// Along one axis, a block start is the start of both of its values, and every
/// value lies in the block of its own start.
pub proof fn lemma_block_start(v: i32, is_even_step: bool)
    ensures
        block_start(block_start(v, is_even_step), is_even_step) == block_start(v, is_even_step),
        block_start(next_i32(block_start(v, is_even_step)), is_even_step) == block_start(
            v,
            is_even_step,
        ),
        v == block_start(v, is_even_step) || v == next_i32(block_start(v, is_even_step)),
        next_i32(block_start(v, is_even_step)) != block_start(v, is_even_step),
{
    assert(i32::MIN % 2 == 0);
    assert(i32::MAX % 2 == 1);
}

/// The cells of a block all lie in that block, the cell that named it among
/// them, and they are four distinct cells.
pub proof fn lemma_block_partition(c: Coordinates, is_even_step: bool)
    ensures
        forall|k: int|
            0 <= k < 4 ==> block_origin(#[trigger] block_cell(block_origin(c, is_even_step), k),
                is_even_step) == block_origin(c, is_even_step),
        block_cells(block_origin(c, is_even_step)).contains(c),
        forall|k1: int, k2: int|
            0 <= k1 < 4 && 0 <= k2 < 4 && k1 != k2 ==> block_cell(
                block_origin(c, is_even_step),
                k1,
            ) != block_cell(block_origin(c, is_even_step), k2),
{
    lemma_block_start(c.x, is_even_step);
    lemma_block_start(c.y, is_even_step);
    let o = block_origin(c, is_even_step);
    let cells = block_cells(o);
    if c.x == o.x && c.y == o.y {
        assert(cells[0] == c);
    } else if c.x == o.x {
        assert(cells[1] == c);
    } else if c.y == o.y {
        assert(cells[2] == c);
    } else {
        assert(cells[3] == c);
    }
}

/// Decoding the index of a block state gives that block state back.
pub proof fn lemma_decode_encode(s: Seq<bool>)
    requires
        s.len() == 4,
    ensures
        0 <= encode(s) < 16,
        decode(encode(s)) == s,
{
    assert(decode(encode(s)) =~= s);
}

/// Encoding the block state of an index in `0..16` gives that index back.
pub proof fn lemma_encode_decode(i: int)
    requires
        0 <= i < 16,
    ensures
        encode(decode(i)) == i,
{
}

} // verus!
