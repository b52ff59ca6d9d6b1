use curve25519_ops::field::{
    fe_add, fe_from_bytes, fe_invert, fe_is_negative, fe_is_zero, fe_mul, fe_neg, fe_one,
    fe_pow22523, fe_sqrtm1, fe_sub, fe_to_bytes, fe_zero,
};

fn small(v: u8) -> [u32; 10] {
    let mut b = [0u8; 32];
    b[0] = v;
    fe_from_bytes(&b)
}

fn bytes_of(v: u8) -> [u8; 32] {
    let mut b = [0u8; 32];
    b[0] = v;
    b
}

// p - 1, little-endian.
fn minus_one_bytes() -> [u8; 32] {
    let mut b = [0xffu8; 32];
    b[0] = 0xec;
    b[31] = 0x7f;
    b
}

#[test]
fn field_mul_add_sub() {
    assert_eq!(fe_to_bytes(&fe_mul(&small(6), &small(7))), bytes_of(42));
    assert_eq!(fe_to_bytes(&fe_add(&small(6), &small(7))), bytes_of(13));
    assert_eq!(fe_to_bytes(&fe_sub(&small(7), &small(6))), bytes_of(1));
    assert_eq!(fe_to_bytes(&fe_sub(&small(6), &small(7))), minus_one_bytes());
}

#[test]
fn field_negation() {
    assert_eq!(fe_to_bytes(&fe_neg(&fe_one())), minus_one_bytes());
    assert_eq!(fe_to_bytes(&fe_neg(&fe_zero())), [0u8; 32]);
}

#[test]
fn field_inverse() {
    for v in [1u8, 2, 3, 121] {
        let x = small(v);
        assert_eq!(fe_to_bytes(&fe_mul(&x, &fe_invert(&x))), bytes_of(1));
    }
    assert_eq!(fe_to_bytes(&fe_invert(&fe_zero())), [0u8; 32]);
}

#[test]
fn field_sqrtm1_squares_to_minus_one() {
    let i = fe_sqrtm1();
    assert_eq!(fe_to_bytes(&fe_mul(&i, &i)), minus_one_bytes());
}

#[test]
fn field_pow22523_of_one_and_zero() {
    assert_eq!(fe_to_bytes(&fe_pow22523(&fe_one())), bytes_of(1));
    assert_eq!(fe_to_bytes(&fe_pow22523(&fe_zero())), [0u8; 32]);
}

#[test]
fn field_sign_and_zero_tests() {
    assert!(fe_is_negative(&small(1)));
    assert!(!fe_is_negative(&small(2)));
    // -1 = p - 1 is even.
    assert!(!fe_is_negative(&fe_neg(&fe_one())));
    assert!(fe_is_zero(&fe_zero()));
    assert!(!fe_is_zero(&fe_one()));
    // p itself reads as zero.
    let mut p = [0xffu8; 32];
    p[0] = 0xed;
    p[31] = 0x7f;
    assert!(fe_is_zero(&fe_from_bytes(&p)));
}
