use curve25519_ops::point::{DecodeError, ExtPoint, Point};

const BASEPOINT: [u8; 32] = [
    0x58, 0x66, 0x66, 0x66, 0x66, 0x66, 0x66, 0x66, 0x66, 0x66, 0x66, 0x66, 0x66, 0x66, 0x66,
    0x66, 0x66, 0x66, 0x66, 0x66, 0x66, 0x66, 0x66, 0x66, 0x66, 0x66, 0x66, 0x66, 0x66, 0x66,
    0x66, 0x66,
];

// The public key of the first test vector of RFC 8032, section 7.1.
const RFC8032_KEY: [u8; 32] = [
    0xd7, 0x5a, 0x98, 0x01, 0x82, 0xb1, 0x0a, 0xb7, 0xd5, 0x4b, 0xfe, 0xd3, 0xc9, 0x64, 0x07,
    0x3a, 0x0e, 0xe1, 0x72, 0xf3, 0xda, 0xa6, 0x23, 0x25, 0xaf, 0x02, 0x1a, 0x68, 0xf7, 0x07,
    0x51, 0x1a,
];

fn small_y(y: u8, sign: bool) -> [u8; 32] {
    let mut b = [0u8; 32];
    b[0] = y;
    if sign {
        b[31] = 0x80;
    }
    b
}

fn flipped(b: &[u8; 32]) -> [u8; 32] {
    let mut f = *b;
    f[31] ^= 0x80;
    f
}

#[test]
fn identity_encodes_to_one() {
    let id = ExtPoint::from_bytes_vartime(&small_y(1, false)).unwrap();
    let mut expected = [0u8; 32];
    expected[0] = 0x01;
    assert_eq!(id.to_bytes(), expected);
}

#[test]
fn identity_with_sign_bit_is_rejected() {
    assert_eq!(ExtPoint::from_bytes_vartime(&small_y(1, true)).err(), Some(DecodeError));
}

#[test]
fn basepoint_round_trip() {
    let b = ExtPoint::from_bytes_vartime(&BASEPOINT).unwrap();
    assert_eq!(b.to_bytes(), BASEPOINT);
}

#[test]
fn rfc8032_key_round_trip() {
    let k = ExtPoint::from_bytes_vartime(&RFC8032_KEY).unwrap();
    assert_eq!(k.to_bytes(), RFC8032_KEY);
}

#[test]
fn small_y_round_trip_both_signs() {
    for sign in [false, true] {
        let b = small_y(3, sign);
        let pt = ExtPoint::from_bytes_vartime(&b).unwrap();
        assert_eq!(pt.to_bytes(), b);
    }
}

#[test]
fn y_without_x_is_rejected_for_both_signs() {
    for y in [2u8, 7, 8] {
        assert!(ExtPoint::from_bytes_vartime(&small_y(y, false)).is_err());
        assert!(ExtPoint::from_bytes_vartime(&small_y(y, true)).is_err());
    }
}

#[test]
fn sign_flip_then_negate_matches_direct_decode() {
    for bytes in [BASEPOINT, RFC8032_KEY, small_y(3, false)] {
        let mut p = ExtPoint::from_bytes_vartime(&flipped(&bytes)).unwrap();
        p.invert_vartime();
        let q = ExtPoint::from_bytes_vartime(&bytes).unwrap();
        assert_eq!(p.to_bytes(), q.to_bytes());
        assert_eq!(p.to_bytes(), bytes);
    }
}

#[test]
fn negation_flips_the_sign_bit_only() {
    let mut p = ExtPoint::from_bytes_vartime(&BASEPOINT).unwrap();
    p.invert_vartime();
    assert_eq!(p.to_bytes(), flipped(&BASEPOINT));
}

#[test]
fn double_negation_is_identity() {
    for bytes in [BASEPOINT, RFC8032_KEY, small_y(3, true)] {
        let mut p = ExtPoint::from_bytes_vartime(&bytes).unwrap();
        p.invert_vartime();
        p.invert_vartime();
        assert_eq!(p.to_bytes(), bytes);
    }
}

#[test]
fn negating_identity_keeps_it() {
    let mut id = ExtPoint::from_bytes_vartime(&small_y(1, false)).unwrap();
    id.invert_vartime();
    assert_eq!(id.to_bytes(), small_y(1, false));
}

#[test]
fn non_canonical_y_is_reduced() {
    // p + 1, which names y = 1.
    let mut b = [0xffu8; 32];
    b[0] = 0xee;
    b[31] = 0x7f;
    let pt = ExtPoint::from_bytes_vartime(&b).unwrap();
    assert_eq!(pt.to_bytes(), small_y(1, false));
}

#[test]
fn zero_y_decodes_to_a_point_of_order_four() {
    // y = 0 gives x^2 = -1, so x = sqrt(-1) or its negation.
    let pt = ExtPoint::from_bytes_vartime(&[0u8; 32]).unwrap();
    assert_eq!(pt.to_bytes(), [0u8; 32]);
    let neg = ExtPoint::from_bytes_vartime(&small_y(0, true)).unwrap();
    assert_eq!(neg.to_bytes(), small_y(0, true));
}

#[test]
fn ext_sentinel_encodes_to_zero() {
    assert_eq!(ExtPoint::new_at_infinity().to_bytes(), [0u8; 32]);
}

#[test]
fn projective_sentinel_encodes_to_zero() {
    assert_eq!(Point::new_at_infinity().to_bytes(), [0u8; 32]);
}
