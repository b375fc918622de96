use verkle_commit::field::Scalar;

const ORDER_BE: [u8; 32] = [
    0x1c, 0xfb, 0x69, 0xd4, 0xca, 0x67, 0x5f, 0x52, 0x0c, 0xce, 0x76, 0x02, 0x02, 0x68, 0x76, 0x00,
    0xff, 0x8f, 0x87, 0x00, 0x74, 0x19, 0x04, 0x71, 0x74, 0xfd, 0x06, 0xb5, 0x28, 0x76, 0xe7, 0xe1,
];

fn be_of_u64(v: u64) -> [u8; 32] {
    let mut out = [0u8; 32];
    out[24..].copy_from_slice(&v.to_be_bytes());
    out
}

#[test]
fn from_u64_encodes_least_significant_first() {
    let s = Scalar::from_u64(0x0102);
    let le = s.to_le_bytes();
    assert_eq!(le[0], 0x02);
    assert_eq!(le[1], 0x01);
    assert!(le[2..].iter().all(|b| *b == 0));
    assert_eq!(s.to_be_bytes(), be_of_u64(0x0102));
}

#[test]
fn field_order_reduces_to_zero() {
    let s = Scalar::from_be_bytes_mod_order(&ORDER_BE);
    assert!(s.is_zero());
    assert_eq!(s.to_be_bytes(), [0u8; 32]);
}

#[test]
fn field_order_plus_one_reduces_to_one() {
    let mut bytes = ORDER_BE;
    bytes[31] += 1;
    let s = Scalar::from_be_bytes_mod_order(&bytes);
    assert_eq!(s.to_be_bytes(), be_of_u64(1));
}

#[test]
fn largest_input_is_reduced() {
    let s = Scalar::from_be_bytes_mod_order(&[0xff; 32]);
    let expected: [u8; 32] = [
        24, 36, 177, 89, 172, 197, 5, 111, 153, 140, 79, 239, 236, 188, 79, 248, 3, 131, 199, 252,
        95, 55, 220, 116, 88, 23, 202, 86, 188, 72, 192, 247,
    ];
    assert_eq!(s.to_be_bytes(), expected);
}

#[test]
fn little_endian_read_is_reduced() {
    let mut bytes = [0u8; 32];
    for (i, b) in bytes.iter_mut().enumerate() {
        *b = (i + 1) as u8;
    }
    let s = Scalar::from_le_bytes_mod_order(&bytes);
    let expected: [u8; 32] = [
        3, 35, 180, 72, 81, 179, 186, 199, 11, 72, 160, 19, 17, 170, 156, 16, 16, 127, 135, 12, 151,
        242, 5, 151, 147, 9, 255, 79, 219, 140, 26, 32,
    ];
    assert_eq!(s.to_be_bytes(), expected);
}

#[test]
fn byte_orders_agree_on_reversed_input() {
    let mut be = [0u8; 32];
    for (i, b) in be.iter_mut().enumerate() {
        *b = (7 * i + 3) as u8;
    }
    let mut le = be;
    le.reverse();
    let a = Scalar::from_be_bytes_mod_order(&be);
    let b = Scalar::from_le_bytes_mod_order(&le);
    assert!(a.equals(&b));
}

#[test]
fn subtraction_without_wrap() {
    let d = Scalar::from_u64(10).sub(&Scalar::from_u64(3));
    assert_eq!(d.to_be_bytes(), be_of_u64(7));
}

#[test]
fn subtraction_wraps_modulo_order() {
    let d = Scalar::from_u64(5).sub(&Scalar::from_u64(7));
    let expected: [u8; 32] = [
        28, 251, 105, 212, 202, 103, 95, 82, 12, 206, 118, 2, 2, 104, 118, 0, 255, 143, 135, 0, 116,
        25, 4, 113, 116, 253, 6, 181, 40, 118, 231, 223,
    ];
    assert_eq!(d.to_be_bytes(), expected);
}

#[test]
fn zero_and_equality() {
    assert!(Scalar::zero().is_zero());
    assert!(!Scalar::from_u64(1).is_zero());
    assert!(Scalar::from_u64(9).equals(&Scalar::from_u64(9)));
    assert!(!Scalar::from_u64(9).equals(&Scalar::from_u64(10)));
    let s = Scalar::from_u64(42);
    assert!(s.sub(&s).is_zero());
}
