use qautomata::coordinates::Coordinates;
use qautomata::fingerprint::{fingerprint, fingerprint_key};
use sha2::Digest;

fn cell(x: i32, y: i32) -> Coordinates {
    Coordinates { x, y }
}

#[test]
fn fingerprint_is_the_digest_of_the_sorted_cell_bytes() {
    let got = fingerprint(&vec![cell(3, -1), cell(1, 2)]);
    let bytes: Vec<u8> = vec![0, 0, 0, 1, 0, 0, 0, 2, 0, 0, 0, 3, 0xff, 0xff, 0xff, 0xff];
    let expected = sha2::Sha256::digest(&bytes).to_vec();
    assert_eq!(got.len(), 32);
    assert_eq!(got, expected);
}

#[test]
fn fingerprint_ignores_the_order_of_cells() {
    let a = fingerprint(&vec![cell(5, 5), cell(-2, 7), cell(0, 0)]);
    let b = fingerprint(&vec![cell(0, 0), cell(5, 5), cell(-2, 7)]);
    assert_eq!(a, b);
    let c = fingerprint(&vec![cell(0, 0), cell(5, 5)]);
    assert_ne!(a, c);
    assert_eq!(fingerprint_key(&a), fingerprint_key(&b));
}

#[test]
fn fingerprint_of_no_cells_is_the_digest_of_nothing() {
    let expected = sha2::Sha256::digest(b"").to_vec();
    assert_eq!(fingerprint(&Vec::new()), expected);
}

#[test]
fn fingerprint_key_reads_bytes_in_base_31() {
    assert_eq!(fingerprint_key(&vec![]), 0);
    assert_eq!(fingerprint_key(&vec![1, 2, 3]), 31 * 31 + 2 * 31 + 3);
    let long: Vec<u8> = vec![255; 32];
    let mut expected: u64 = 0;
    for b in &long {
        expected = expected.wrapping_mul(31).wrapping_add(*b as u64);
    }
    assert_eq!(fingerprint_key(&long), expected);
}
