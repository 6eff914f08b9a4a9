use vstd::prelude::*;

use crate::coordinates::Coordinates;

verus! {

/// `a` comes before `b` in the lexicographic order of `(x, y)`.
pub open spec fn cell_lt(a: Coordinates, b: Coordinates) -> bool {
    a.x < b.x || (a.x == b.x && a.y < b.y)
}

/// The cells are in strictly increasing order.
pub open spec fn strictly_sorted(s: Seq<Coordinates>) -> bool {
    forall|i: int, j: int| 0 <= i < j < s.len() ==> cell_lt(#[trigger] s[i], #[trigger] s[j])
}

/// The cells of `cells` in increasing order.
pub open spec fn sorted_cells(cells: Seq<Coordinates>) -> Seq<Coordinates> {
    choose|t: Seq<Coordinates>| strictly_sorted(t) && t.to_set() == cells.to_set()
}

/// The eight bytes of a cell: `x` then `y`, each as the big-endian bytes of
/// its two's-complement value.
pub open spec fn cell_bytes(c: Coordinates) -> Seq<u8> {
    let x = c.x as u32;
    let y = c.y as u32;
    seq![
        (x / 0x100_0000) as u8,
        ((x / 0x1_0000) % 0x100) as u8,
        ((x / 0x100) % 0x100) as u8,
        (x % 0x100) as u8,
        (y / 0x100_0000) as u8,
        ((y / 0x1_0000) % 0x100) as u8,
        ((y / 0x100) % 0x100) as u8,
        (y % 0x100) as u8,
    ]
}

/// The bytes of each cell of `s` in turn.
pub open spec fn cells_bytes(s: Seq<Coordinates>) -> Seq<u8>
    decreases s.len(),
{
    if s.len() == 0 {
        seq![]
    } else {
        cells_bytes(s.drop_last()) + cell_bytes(s.last())
    }
}

/// The SHA-256 digest of `data`.
pub uninterp spec fn sha256_of(data: Seq<u8>) -> Seq<u8>;

/// The fingerprint of a set of cells: the digest of the bytes of its cells in
/// increasing order. Equal sets have equal fingerprints.
pub open spec fn fingerprint_of(cells: Seq<Coordinates>) -> Seq<u8> {
    sha256_of(cells_bytes(sorted_cells(cells)))
}

/// Relies on sha2's `Sha256::digest` (through the `Digest` trait): the SHA-256
/// digest of `data`, which depends on `data` alone.
#[verifier::external_body]
fn sha256_digest(data: &Vec<u8>) -> (r: Vec<u8>)
    ensures
        r@ == sha256_of(data@),
{
    <sha2::Sha256 as sha2::Digest>::digest(data.as_slice()).to_vec()
}

/// A strictly sorted list has no repeated cell.
proof fn lemma_sorted_no_duplicates(s: Seq<Coordinates>)
    requires
        strictly_sorted(s),
    ensures
        s.no_duplicates(),
{
    assert forall|i: int, j: int| 0 <= i < s.len() && 0 <= j < s.len() && i != j implies s[i]
        != s[j] by {
        if i < j {
            assert(cell_lt(s[i], s[j]));
        } else {
            assert(cell_lt(s[j], s[i]));
        }
    }
}

/// Two strictly sorted lists of the same set of cells are equal.
pub proof fn lemma_sorted_unique(a: Seq<Coordinates>, b: Seq<Coordinates>)
    requires
        strictly_sorted(a),
        strictly_sorted(b),
        a.to_set() == b.to_set(),
    ensures
        a == b,
    decreases a.len(),
{
    if a.len() == 0 {
        if b.len() > 0 {
            assert(b.to_set().contains(b[0]));
        }
        assert(b.len() == 0);
        assert(a =~= b);
    } else {
        assert(a.to_set().contains(a[0]));
        assert(b.len() > 0) by {
            if b.len() == 0 {
                assert(b.to_set() =~= Set::<Coordinates>::empty());
            }
        }
        // a[0] and b[0] are both the least element of the set.
        assert(b.to_set().contains(a[0]));
        assert(a.to_set().contains(b[0]));
        let i = choose|i: int| 0 <= i < b.len() && b[i] == a[0];
        let k = choose|k: int| 0 <= k < a.len() && a[k] == b[0];
        if i > 0 {
            assert(cell_lt(b[0], b[i]));
            if k > 0 {
                assert(cell_lt(a[0], a[k]));
            }
            assert(false);
        }
        let a1 = a.drop_first();
        let b1 = b.drop_first();
        assert(a1.to_set() =~= b1.to_set()) by {
            assert forall|q: Coordinates| a1.to_set().contains(q) implies b1.to_set().contains(q) by {
                let m = choose|m: int| 0 <= m < a1.len() && a1[m] == q;
                assert(a[m + 1] == q);
                assert(cell_lt(a[0], a[m + 1]));
                assert(b.to_set().contains(q));
                let n = choose|n: int| 0 <= n < b.len() && b[n] == q;
                assert(n != 0);
                assert(b1[n - 1] == q);
            }
            assert forall|q: Coordinates| b1.to_set().contains(q) implies a1.to_set().contains(q) by {
                let m = choose|m: int| 0 <= m < b1.len() && b1[m] == q;
                assert(b[m + 1] == q);
                assert(cell_lt(b[0], b[m + 1]));
                assert(a.to_set().contains(q));
                let n = choose|n: int| 0 <= n < a.len() && a[n] == q;
                assert(n != 0);
                assert(a1[n - 1] == q);
            }
        }
        assert(strictly_sorted(a1)) by {
            assert forall|x: int, y: int| 0 <= x < y < a1.len() implies cell_lt(
                #[trigger] a1[x],
                #[trigger] a1[y],
            ) by {
                assert(a1[x] == a[x + 1] && a1[y] == a[y + 1]);
            }
        }
        assert(strictly_sorted(b1)) by {
            assert forall|x: int, y: int| 0 <= x < y < b1.len() implies cell_lt(
                #[trigger] b1[x],
                #[trigger] b1[y],
            ) by {
                assert(b1[x] == b[x + 1] && b1[y] == b[y + 1]);
            }
        }
        lemma_sorted_unique(a1, b1);
        assert(a =~= b) by {
            assert forall|x: int| 0 <= x < a.len() implies a[x] == b[x] by {
                if x > 0 {
                    assert(a[x] == a1[x - 1]);
                    assert(b[x] == b1[x - 1]);
                }
            }
        }
    }
}

fn cell_before(a: Coordinates, b: Coordinates) -> (r: bool)
    ensures
        r == cell_lt(a, b),
{
    a.x < b.x || (a.x == b.x && a.y < b.y)
}

/// The cells in increasing order.
fn sort_cells(cells: &Vec<Coordinates>) -> (r: Vec<Coordinates>)
    requires
        cells@.no_duplicates(),
    ensures
        r@ == sorted_cells(cells@),
{
    let mut r: Vec<Coordinates> = Vec::new();
    let mut i: usize = 0;
    while i < cells.len()
        invariant
            0 <= i <= cells@.len(),
            cells@.no_duplicates(),
            strictly_sorted(r@),
            r@.to_set() == cells@.subrange(0, i as int).to_set(),
        decreases cells@.len() - i,
    {
        let c: Coordinates = cells[i];
        let mut pos: usize = 0;
        while pos < r.len() && cell_before(r[pos], c)
            invariant
                0 <= pos <= r@.len(),
                forall|k: int| 0 <= k < pos ==> cell_lt(#[trigger] r@[k], c),
            decreases r@.len() - pos,
        {
            pos = pos + 1;
        }
        proof {
            assert(!r@.to_set().contains(c)) by {
                if r@.to_set().contains(c) {
                    assert(cells@.subrange(0, i as int).to_set().contains(c));
                    let m = choose|m: int| 0 <= m < i && cells@.subrange(0, i as int)[m] == c;
                    assert(cells@[m] == cells@[i as int]);
                }
            }
            assert forall|k: int| pos <= k < r@.len() implies cell_lt(c, #[trigger] r@[k]) by {
                assert(r@.to_set().contains(r@[k]));
                if k > pos {
                    assert(cell_lt(r@[pos as int], r@[k]));
                }
            }
        }
        let ghost old_r: Seq<Coordinates> = r@;
        r.insert(pos, c);
        proof {
            assert forall|x: int, y: int| 0 <= x < y < r@.len() implies cell_lt(
                #[trigger] r@[x],
                #[trigger] r@[y],
            ) by {
                if y < pos {
                    assert(r@[x] == old_r[x] && r@[y] == old_r[y]);
                } else if y == pos {
                    assert(r@[x] == old_r[x]);
                } else if x < pos {
                    assert(r@[x] == old_r[x] && r@[y] == old_r[y - 1]);
                } else if x == pos {
                    assert(r@[y] == old_r[y - 1]);
                } else {
                    assert(r@[x] == old_r[x - 1] && r@[y] == old_r[y - 1]);
                }
            }
            let next = cells@.subrange(0, i + 1);
            let prev = cells@.subrange(0, i as int);
            assert(next =~= prev.push(c));
            assert(r@.to_set() =~= next.to_set()) by {
                assert forall|q: Coordinates| r@.to_set().contains(q) implies next.to_set().contains(q) by {
                    let m = choose|m: int| 0 <= m < r@.len() && r@[m] == q;
                    if m < pos {
                        assert(old_r[m] == q);
                        assert(old_r.to_set().contains(q));
                    } else if m > pos {
                        assert(old_r[m - 1] == q);
                        assert(old_r.to_set().contains(q));
                    } else {
                        assert(next[i as int] == q);
                    }
                    if q != c {
                        let w = choose|w: int| 0 <= w < i && prev[w] == q;
                        assert(next[w] == q);
                    }
                }
                assert forall|q: Coordinates| next.to_set().contains(q) implies r@.to_set().contains(q) by {
                    let w = choose|w: int| 0 <= w < i + 1 && next[w] == q;
                    if w == i {
                        assert(r@[pos as int] == q);
                    } else {
                        assert(prev[w] == q);
                        assert(old_r.to_set().contains(q));
                        let m = choose|m: int| 0 <= m < old_r.len() && old_r[m] == q;
                        if m < pos {
                            assert(r@[m] == q);
                        } else {
                            assert(r@[m + 1] == q);
                        }
                    }
                }
            }
        }
        i = i + 1;
    }
    proof {
        assert(cells@.subrange(0, i as int) =~= cells@);
        let t = sorted_cells(cells@);
        assert(strictly_sorted(r@) && r@.to_set() == cells@.to_set());
        assert(strictly_sorted(t) && t.to_set() == cells@.to_set());
        lemma_sorted_unique(r@, t);
    }
    r
}

/// The bytes of each cell in turn.
fn encode_cells(cells: &Vec<Coordinates>) -> (r: Vec<u8>)
    ensures
        r@ == cells_bytes(cells@),
{
    let mut r: Vec<u8> = Vec::new();
    let mut i: usize = 0;
    while i < cells.len()
        invariant
            0 <= i <= cells@.len(),
            r@ == cells_bytes(cells@.subrange(0, i as int)),
        decreases cells@.len() - i,
    {
        let x: u32 = cells[i].x as u32;
        let y: u32 = cells[i].y as u32;
        let ghost before: Seq<u8> = r@;
        r.push((x / 0x100_0000) as u8);
        r.push(((x / 0x1_0000) % 0x100) as u8);
        r.push(((x / 0x100) % 0x100) as u8);
        r.push((x % 0x100) as u8);
        r.push((y / 0x100_0000) as u8);
        r.push(((y / 0x1_0000) % 0x100) as u8);
        r.push(((y / 0x100) % 0x100) as u8);
        r.push((y % 0x100) as u8);
        proof {
            assert(r@ =~= before + cell_bytes(cells@[i as int]));
            assert(cells@.subrange(0, i + 1).drop_last() =~= cells@.subrange(0, i as int));
        }
        i = i + 1;
    }
    assert(cells@.subrange(0, i as int) =~= cells@);
    r
}

/// The fingerprint of the set of cells listed, each once, in `cells`.
pub fn fingerprint(cells: &Vec<Coordinates>) -> (r: Vec<u8>)
    requires
        cells@.no_duplicates(),
    ensures
        r@ == fingerprint_of(cells@),
{
    let sorted: Vec<Coordinates> = sort_cells(cells);
    let bytes: Vec<u8> = encode_cells(&sorted);
    sha256_digest(&bytes)
}

/// A 64-bit key of a fingerprint: its bytes read as digits in base 31,
/// wrapping modulo 2 to the 64th.
pub open spec fn fingerprint_key_of(fp: Seq<u8>) -> u64
    decreases fp.len(),
{
    if fp.len() == 0 {
        0
    } else {
        ((fingerprint_key_of(fp.drop_last()) * 31 + fp.last()) % 0x1_0000_0000_0000_0000) as u64
    }
}

/// The 64-bit key of a fingerprint.
pub fn fingerprint_key(fp: &Vec<u8>) -> (r: u64)
    ensures
        r == fingerprint_key_of(fp@),
{
    let mut key: u64 = 0;
    let mut i: usize = 0;
    while i < fp.len()
        invariant
            0 <= i <= fp@.len(),
            key == fingerprint_key_of(fp@.subrange(0, i as int)),
        decreases fp@.len() - i,
    {
        proof {
            assert(fp@.subrange(0, i + 1).drop_last() =~= fp@.subrange(0, i as int));
        }
        key = ((key as u128 * 31 + fp[i] as u128) % 0x1_0000_0000_0000_0000) as u64;
        i = i + 1;
    }
    assert(fp@.subrange(0, i as int) =~= fp@);
    key
}

/// Lists of the same set of cells have the same fingerprint.
pub proof fn lemma_fingerprint_of_same_set(a: Seq<Coordinates>, b: Seq<Coordinates>)
    requires
        a.to_set() == b.to_set(),
    ensures
        fingerprint_of(a) == fingerprint_of(b),
{
}

} // verus!
