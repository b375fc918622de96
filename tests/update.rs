use verkle_commit::commit::decode_scalars;
use verkle_commit::error::CommitError;
use verkle_commit::field::Scalar;
use verkle_commit::update::update_delta;

fn be_of_u64(v: u64) -> [u8; 32] {
    let mut out = [0u8; 32];
    out[24..].copy_from_slice(&v.to_be_bytes());
    out
}

#[test]
fn index_past_the_width_is_refused() {
    let r = update_delta(256, &be_of_u64(1), &be_of_u64(2));
    assert_eq!(r.unwrap_err(), CommitError::IndexOutOfRange);
    let r = update_delta(usize::MAX, &be_of_u64(1), &be_of_u64(2));
    assert_eq!(r.unwrap_err(), CommitError::IndexOutOfRange);
}

#[test]
fn last_index_is_accepted() {
    assert!(update_delta(255, &be_of_u64(1), &be_of_u64(2)).is_ok());
}

#[test]
fn delta_is_new_minus_old() {
    let d = update_delta(3, &be_of_u64(3), &be_of_u64(10)).unwrap();
    assert_eq!(d.to_be_bytes(), be_of_u64(7));
}

#[test]
fn delta_wraps_modulo_order() {
    let d = update_delta(0, &be_of_u64(10), &be_of_u64(3)).unwrap();
    let expected: [u8; 32] = [
        28, 251, 105, 212, 202, 103, 95, 82, 12, 206, 118, 2, 2, 104, 118, 0, 255, 143, 135, 0, 116,
        25, 4, 113, 116, 253, 6, 181, 40, 118, 231, 218,
    ];
    assert_eq!(d.to_be_bytes(), expected);
}

#[test]
fn unchanged_entry_gives_zero_delta() {
    let d = update_delta(7, &[0x33; 32], &[0x33; 32]).unwrap();
    assert!(d.is_zero());
}

#[test]
fn deltas_of_successive_updates_add_up() {
    // a vector entry moves 5 -> 12 -> 2; the two deltas together equal one update 5 -> 2
    let first = update_delta(1, &be_of_u64(5), &be_of_u64(12)).unwrap();
    let second = update_delta(1, &be_of_u64(12), &be_of_u64(2)).unwrap();
    let direct = update_delta(1, &be_of_u64(5), &be_of_u64(2)).unwrap();
    let zero = Scalar::zero();
    let minus_second = zero.sub(&second);
    assert!(direct.sub(&first).equals(&second));
    assert!(direct.sub(&first).sub(&second).is_zero());
    assert!(!minus_second.is_zero());
}

#[test]
fn delta_moves_the_decoded_entry_to_the_new_value() {
    let mut input = Vec::new();
    for v in [4u64, 9, 16] {
        input.extend_from_slice(&be_of_u64(v));
    }
    let v = decode_scalars(&input).unwrap();
    let d = update_delta(1, &be_of_u64(9), &be_of_u64(100)).unwrap();
    let new = Scalar::from_u64(100);
    assert!(new.sub(&v[1]).equals(&d));
}
