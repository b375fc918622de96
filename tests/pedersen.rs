use verkle_commit::commit::plan_commit;
use verkle_commit::error::CommitError;
use verkle_commit::pedersen::{pedersen_hash_bytes, pedersen_scalars, PEDERSEN_DOMAIN};
use verkle_commit::field::Scalar;

fn be_of_u64(v: u64) -> [u8; 32] {
    let mut out = [0u8; 32];
    out[24..].copy_from_slice(&v.to_be_bytes());
    out
}

#[test]
fn zero_address_and_index_one() {
    let mut input = [0u8; 64];
    input[63] = 1;
    let v = pedersen_scalars(&input).unwrap();
    assert_eq!(v.len(), 5);
    assert_eq!(v[0].to_be_bytes(), be_of_u64(2 + 256 * 64));
    assert!(v[1].is_zero());
    assert!(v[2].is_zero());
    assert_eq!(v[3].to_be_bytes(), be_of_u64(1));
    assert!(v[4].is_zero());
}

#[test]
fn domain_constant_value() {
    assert_eq!(PEDERSEN_DOMAIN, 16386);
    assert_eq!(Scalar::from_u64(PEDERSEN_DOMAIN).to_le_bytes()[..2], [2, 64]);
}

#[test]
fn address_halves_are_little_endian() {
    let mut input = [0u8; 64];
    input[0] = 0x01;
    input[1] = 0x02;
    input[16] = 0xff;
    input[31] = 0x80;
    let v = pedersen_scalars(&input).unwrap();
    assert_eq!(v[1].to_be_bytes(), be_of_u64(0x0201));
    let mut high = [0u8; 32];
    high[16] = 0x80;
    high[31] = 0xff;
    assert_eq!(v[2].to_be_bytes(), high);
}

#[test]
fn index_halves_split_the_big_endian_index() {
    let mut input = [0u8; 64];
    input[32] = 0xaa;
    input[47] = 0x01;
    input[48] = 0x02;
    input[63] = 0x03;
    let v = pedersen_scalars(&input).unwrap();
    let mut low = [0u8; 32];
    low[16] = 0x02;
    low[31] = 0x03;
    assert_eq!(v[3].to_be_bytes(), low);
    let mut high = [0u8; 32];
    high[16] = 0xaa;
    high[31] = 0x01;
    assert_eq!(v[4].to_be_bytes(), high);
}

#[test]
fn pedersen_input_must_be_64_bytes() {
    assert_eq!(pedersen_scalars(&[0u8; 63]).unwrap_err(), CommitError::InvalidLength);
    assert_eq!(pedersen_scalars(&[0u8; 65]).unwrap_err(), CommitError::InvalidLength);
    assert_eq!(pedersen_scalars(&[]).unwrap_err(), CommitError::InvalidLength);
}

#[test]
fn pedersen_vector_is_deterministic() {
    let mut input = [0u8; 64];
    for (i, b) in input.iter_mut().enumerate() {
        *b = (31 * i + 7) as u8;
    }
    let a = pedersen_scalars(&input).unwrap();
    let b = pedersen_scalars(&input).unwrap();
    for (x, y) in a.iter().zip(b.iter()) {
        assert!(x.equals(y));
    }
}

#[test]
fn pedersen_vector_is_never_the_identity() {
    let v = pedersen_scalars(&[0u8; 64]).unwrap();
    let bytes: Vec<u8> = v.iter().flat_map(|s| s.to_be_bytes()).collect();
    assert!(matches!(
        plan_commit(&bytes).unwrap(),
        verkle_commit::commit::CommitStep::Combine(_)
    ));
}

#[test]
fn hash_output_is_the_reversed_encoding() {
    let mut encoding = [0u8; 32];
    for (i, b) in encoding.iter_mut().enumerate() {
        *b = i as u8;
    }
    let out = pedersen_hash_bytes(&encoding);
    for i in 0..32 {
        assert_eq!(out[i], (31 - i) as u8);
    }
}
