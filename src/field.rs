//! Arithmetic in the prime field of order 2^255 - 19.
//!
//! A field element is ten unsigned 32-bit limbs in the alternating 26/25-bit
//! radix of the curve25519 field code. The limb arithmetic is done by
//! `fiat_crypto`; this module states what each call means for the value mod p
//! and builds inversion, square roots, sign and zero tests on top of it.

use vstd::prelude::*;
use vstd::arithmetic::power::*;
use vstd::arithmetic::power2::*;
use vstd::arithmetic::div_mod::*;
use fiat_crypto::curve25519_32::{
    fiat_25519_add, fiat_25519_carry, fiat_25519_carry_mul, fiat_25519_from_bytes,
    fiat_25519_loose_field_element, fiat_25519_opp, fiat_25519_sub, fiat_25519_tight_field_element,
    fiat_25519_to_bytes,
};

verus! {

/// A field element: ten limbs, little end first.
pub type Elem = [u32; 10];

/// The number of bytes in an encoded field element or point.
pub const ELEM_LEN: usize = 32;

/// The prime p = 2^255 - 19.
pub open spec fn p() -> int {
    38685626227668133590597632 * 38685626227668133590597632 * 38685626227668133590597632 - 19
}

/// The integer that a sequence of limbs stands for, before reduction mod p.
pub open spec fn limbs_eval(e: Seq<u32>) -> int {
    e[0] as int
        + e[1] as int * 67108864
        + e[2] as int * 2251799813685248
        + e[3] as int * 151115727451828646838272
        + e[4] as int * (2251799813685248 * 2251799813685248)
        + e[5] as int * (18446744073709551616 * 18446744073709551616)
        + e[6] as int * (75557863725914323419136 * 151115727451828646838272)
        + e[7] as int * (618970019642690137449562112 * 1237940039285380274899124224)
        + e[8] as int * (5070602400912917605986812821504 * 5070602400912917605986812821504)
        + e[9] as int * (41538374868278621028243970633760768 * 41538374868278621028243970633760768)
}

/// Limbs within the bounds that the carrying operations produce.
pub open spec fn tight(e: Seq<u32>) -> bool {
    &&& e.len() == 10
    &&& forall|i: int| 0 <= i < 10 ==> e[i] <= (if i % 2 == 0 { 0x4000000u32 } else { 0x2000000u32 })
}

/// Limbs within the bounds that additions and negations produce.
pub open spec fn loose(e: Seq<u32>) -> bool {
    &&& e.len() == 10
    &&& forall|i: int| 0 <= i < 10 ==> e[i] <= (if i % 2 == 0 { 0xc000000u32 } else { 0x6000000u32 })
}

/// The field value of a limb sequence, in `0..p`.
pub open spec fn fe(e: Seq<u32>) -> int {
    limbs_eval(e) % p()
}

pub open spec fn fadd(a: int, b: int) -> int {
    (a + b) % p()
}

pub open spec fn fsub(a: int, b: int) -> int {
    (a - b) % p()
}

pub open spec fn fmul(a: int, b: int) -> int {
    (a * b) % p()
}

pub open spec fn fneg(a: int) -> int {
    (-a) % p()
}

/// Inversion by Fermat's exponent p - 2; this maps 0 to 0.
pub open spec fn finv(a: int) -> int {
    pow(a, (p() - 2) as nat) % p()
}

/// The integer that bytes stand for, least significant byte first.
pub open spec fn le_value(s: Seq<u8>) -> int
    decreases s.len(),
{
    if s.len() == 0 {
        0
    } else {
        s[0] as int + 256 * le_value(s.drop_first())
    }
}

/// A field value is negative when its canonical representative is odd.
pub open spec fn is_negative(a: int) -> bool {
    a % 2 == 1
}

// ---------------------------------------------------------------------------
// Calls into fiat_crypto.

/// Relies on fiat_crypto's `fiat_25519_carry_mul`: the product of two loose
/// elements mod p, as a tight element.
#[verifier::external_body]
fn fiat_mul(a: &Elem, b: &Elem) -> (r: Elem)
    requires
        loose(a@),
        loose(b@),
    ensures
        tight(r@),
        limbs_eval(r@) % p() == (limbs_eval(a@) * limbs_eval(b@)) % p(),
{
    let mut out = fiat_25519_tight_field_element([0u32; 10]);
    fiat_25519_carry_mul(&mut out, &fiat_25519_loose_field_element(*a), &fiat_25519_loose_field_element(*b));
    out.0
}

/// Relies on fiat_crypto's `fiat_25519_add`: the sum of two tight elements mod
/// p, as a loose element.
#[verifier::external_body]
fn fiat_add(a: &Elem, b: &Elem) -> (r: Elem)
    requires
        tight(a@),
        tight(b@),
    ensures
        loose(r@),
        limbs_eval(r@) % p() == (limbs_eval(a@) + limbs_eval(b@)) % p(),
{
    let mut out = fiat_25519_loose_field_element([0u32; 10]);
    fiat_25519_add(&mut out, &fiat_25519_tight_field_element(*a), &fiat_25519_tight_field_element(*b));
    out.0
}

/// Relies on fiat_crypto's `fiat_25519_sub`: the difference of two tight
/// elements mod p, as a loose element.
#[verifier::external_body]
fn fiat_sub(a: &Elem, b: &Elem) -> (r: Elem)
    requires
        tight(a@),
        tight(b@),
    ensures
        loose(r@),
        limbs_eval(r@) % p() == (limbs_eval(a@) - limbs_eval(b@)) % p(),
{
    let mut out = fiat_25519_loose_field_element([0u32; 10]);
    fiat_25519_sub(&mut out, &fiat_25519_tight_field_element(*a), &fiat_25519_tight_field_element(*b));
    out.0
}

/// Relies on fiat_crypto's `fiat_25519_opp`: the negation of a tight element
/// mod p, as a loose element.
#[verifier::external_body]
fn fiat_opp(a: &Elem) -> (r: Elem)
    requires
        tight(a@),
    ensures
        loose(r@),
        limbs_eval(r@) % p() == (-limbs_eval(a@)) % p(),
{
    let mut out = fiat_25519_loose_field_element([0u32; 10]);
    fiat_25519_opp(&mut out, &fiat_25519_tight_field_element(*a));
    out.0
}

/// Relies on fiat_crypto's `fiat_25519_carry`: a loose element brought back
/// to tight bounds, with its value mod p kept.
#[verifier::external_body]
fn fiat_carry(a: &Elem) -> (r: Elem)
    requires
        loose(a@),
    ensures
        tight(r@),
        limbs_eval(r@) % p() == limbs_eval(a@) % p(),
{
    let mut out = fiat_25519_tight_field_element([0u32; 10]);
    fiat_25519_carry(&mut out, &fiat_25519_loose_field_element(*a));
    out.0
}

/// Relies on fiat_crypto's `fiat_25519_to_bytes`: the value mod p of a tight
/// element, as 32 bytes in little-endian order.
#[verifier::external_body]
fn fiat_to_bytes(a: &Elem) -> (r: [u8; 32])
    requires
        tight(a@),
    ensures
        le_value(r@) == limbs_eval(a@) % p(),
{
    let mut out = [0u8; 32];
    fiat_25519_to_bytes(&mut out, &fiat_25519_tight_field_element(*a));
    out
}

/// Relies on fiat_crypto's `fiat_25519_from_bytes`: 32 little-endian bytes
/// whose top bit is clear, read as a tight element with that value mod p.
#[verifier::external_body]
fn fiat_from_bytes(b: &[u8; 32]) -> (r: Elem)
    requires
        b[31] <= 0x7f,
    ensures
        tight(r@),
        limbs_eval(r@) % p() == le_value(b@) % p(),
{
    let mut out = fiat_25519_tight_field_element([0u32; 10]);
    fiat_25519_from_bytes(&mut out, b);
    out.0
}

// ---------------------------------------------------------------------------
// Field operations on tight elements.

pub proof fn lemma_fe_range(e: Seq<u32>)
    ensures
        0 <= fe(e) < p(),
{
}

/// The product of two elements.
pub fn fe_mul(a: &Elem, b: &Elem) -> (r: Elem)
    requires
        tight(a@),
        tight(b@),
    ensures
        tight(r@),
        fe(r@) == fmul(fe(a@), fe(b@)),
{
    let r = fiat_mul(a, b);
    proof {
        lemma_mul_mod_noop_general(limbs_eval(a@), limbs_eval(b@), p());
    }
    r
}

/// The sum of two elements.
pub fn fe_add(a: &Elem, b: &Elem) -> (r: Elem)
    requires
        tight(a@),
        tight(b@),
    ensures
        tight(r@),
        fe(r@) == fadd(fe(a@), fe(b@)),
{
    let s = fiat_add(a, b);
    let r = fiat_carry(&s);
    proof {
        lemma_add_mod_noop(limbs_eval(a@), limbs_eval(b@), p());
    }
    r
}

/// The difference of two elements.
pub fn fe_sub(a: &Elem, b: &Elem) -> (r: Elem)
    requires
        tight(a@),
        tight(b@),
    ensures
        tight(r@),
        fe(r@) == fsub(fe(a@), fe(b@)),
{
    let s = fiat_sub(a, b);
    let r = fiat_carry(&s);
    proof {
        lemma_sub_mod_noop(limbs_eval(a@), limbs_eval(b@), p());
    }
    r
}

/// The negation of an element.
pub fn fe_neg(a: &Elem) -> (r: Elem)
    requires
        tight(a@),
    ensures
        tight(r@),
        fe(r@) == fneg(fe(a@)),
{
    let s = fiat_opp(a);
    let r = fiat_carry(&s);
    proof {
        lemma_sub_mod_noop(0, limbs_eval(a@), p());
    }
    r
}

/// The canonical little-endian bytes of an element.
pub fn fe_to_bytes(a: &Elem) -> (r: [u8; 32])
    requires
        tight(a@),
    ensures
        le_value(r@) == fe(a@),
{
    fiat_to_bytes(a)
}

/// Reads 32 little-endian bytes whose top bit is clear.
pub fn fe_from_bytes(b: &[u8; 32]) -> (r: Elem)
    requires
        b[31] <= 0x7f,
    ensures
        tight(r@),
        fe(r@) == le_value(b@) % p(),
{
    fiat_from_bytes(b)
}

pub proof fn lemma_le_value_zero(s: Seq<u8>)
    ensures
        le_value(s) >= 0,
        le_value(s) == 0 <==> (forall|j: int| 0 <= j < s.len() ==> s[j] == 0),
    decreases s.len(),
{
    if s.len() > 0 {
        let t = s.drop_first();
        lemma_le_value_zero(t);
        if le_value(s) == 0 {
            assert forall|j: int| 0 <= j < s.len() implies s[j] == 0 by {
                if j > 0 {
                    assert(s[j] == t[j - 1]);
                }
            }
        }
        if forall|j: int| 0 <= j < s.len() ==> s[j] == 0 {
            assert forall|j: int| 0 <= j < t.len() implies t[j] == 0 by {
                assert(t[j] == s[j + 1]);
            }
        }
    }
}

proof fn lemma_le_value_parity(s: Seq<u8>)
    requires
        s.len() > 0,
    ensures
        le_value(s) % 2 == (s[0] as int) % 2,
{
    let r = le_value(s.drop_first());
    lemma_mod_multiples_vanish(128 * r, s[0] as int, 2);
}

/// Whether an element is zero mod p.
pub fn fe_is_zero(a: &Elem) -> (r: bool)
    requires
        tight(a@),
    ensures
        r == (fe(a@) == 0),
{
    let bytes = fiat_to_bytes(a);
    proof {
        lemma_le_value_zero(bytes@);
    }
    let mut i: usize = 0;
    while i < 32
        invariant
            0 <= i <= 32,
            le_value(bytes@) == fe(a@),
            forall|j: int| 0 <= j < i ==> bytes@[j] == 0,
        decreases 32 - i,
    {
        if bytes[i] != 0 {
            proof {
                lemma_le_value_zero(bytes@);
                assert(bytes@[i as int] != 0);
            }
            return false;
        }
        i += 1;
    }
    proof {
        lemma_le_value_zero(bytes@);
    }
    true
}

/// Whether an element is negative, that is, odd once reduced mod p.
pub fn fe_is_negative(a: &Elem) -> (r: bool)
    requires
        tight(a@),
    ensures
        r == is_negative(fe(a@)),
{
    let bytes = fiat_to_bytes(a);
    let b0 = bytes[0];
    proof {
        lemma_le_value_parity(bytes@);
        assert((b0 & 1u8) == b0 % 2) by (bit_vector);
    }
    (b0 & 1u8) == 1u8
}

// ---------------------------------------------------------------------------
// Powers.

proof fn lemma_pow_mul_mod(b: int, e1: nat, e2: nat)
    ensures
        ((pow(b, e1) % p()) * (pow(b, e2) % p())) % p() == pow(b, e1 + e2) % p(),
{
    lemma_pow_adds(b, e1, e2);
    lemma_mul_mod_noop_general(pow(b, e1), pow(b, e2), p());
}

proof fn lemma_pow_base(e: Seq<u32>)
    ensures
        fe(e) == pow(fe(e), 1) % p(),
{
    lemma_pow1(fe(e));
    lemma_mod_twice(limbs_eval(e), p());
}

proof fn lemma_pow2_250()
    ensures
        pow2(250) == 18014398509481984 * 18014398509481984 * 18014398509481984 * 18014398509481984 * 17179869184,
{
    let c: int = 18014398509481984;
    lemma2_to64();
    lemma2_to64_rest();
    lemma_pow2_adds(54, 54);
    lemma_pow2_adds(108, 54);
    lemma_pow2_adds(162, 54);
    lemma_pow2_adds(216, 34);
    assert(pow2(250) == c * c * c * c * 17179869184) by (nonlinear_arith)
        requires
            pow2(54) == c,
            pow2(34) == 17179869184,
            pow2(108) == pow2(54) * pow2(54),
            pow2(162) == pow2(108) * pow2(54),
            pow2(216) == pow2(162) * pow2(54),
            pow2(250) == pow2(216) * pow2(34),
    ;
}

/// The product of two powers of one base.
fn fe_mul_pows(s: &Elem, t: &Elem, Ghost(b): Ghost<int>, Ghost(e1): Ghost<nat>, Ghost(e2): Ghost<nat>) -> (r: Elem)
    requires
        tight(s@),
        tight(t@),
        fe(s@) == pow(b, e1) % p(),
        fe(t@) == pow(b, e2) % p(),
    ensures
        tight(r@),
        fe(r@) == pow(b, e1 + e2) % p(),
{
    let r = fe_mul(s, t);
    proof {
        lemma_pow_mul_mod(b, e1, e2);
    }
    r
}

/// `z` raised to `2^k - 1`.
fn fe_pow_ones(z: &Elem, k: u32) -> (r: Elem)
    requires
        tight(z@),
        1 <= k,
    ensures
        tight(r@),
        fe(r@) == pow(fe(z@), (pow2(k as nat) - 1) as nat) % p(),
{
    let ghost b = fe(z@);
    proof {
        lemma_pow_base(z@);
        lemma2_to64();
    }
    let mut r = *z;
    let mut i: u32 = 1;
    while i < k
        invariant
            1 <= i <= k,
            tight(r@),
            tight(z@),
            b == fe(z@),
            fe(z@) == pow(b, 1) % p(),
            fe(r@) == pow(b, (pow2(i as nat) - 1) as nat) % p(),
        decreases k - i,
    {
        let ghost e = (pow2(i as nat) - 1) as nat;
        proof {
            lemma_pow2_pos(i as nat);
        }
        let s = fe_mul_pows(&r, &r, Ghost(b), Ghost(e), Ghost(e));
        r = fe_mul_pows(&s, z, Ghost(b), Ghost((e + e) as nat), Ghost(1));
        proof {
            lemma_pow2_unfold((i + 1) as nat);
        }
        i += 1;
    }
    r
}

/// The inverse of an element, as `z^(p-2)`; zero for zero.
pub fn fe_invert(z: &Elem) -> (r: Elem)
    requires
        tight(z@),
    ensures
        tight(r@),
        fe(r@) == finv(fe(z@)),
{
    let ghost b = fe(z@);
    let ghost e = (pow2(250) - 1) as nat;
    proof {
        lemma_pow_base(z@);
        lemma_pow2_250();
    }
    let t = fe_pow_ones(z, 250);
    let t = fe_mul_pows(&t, &t, Ghost(b), Ghost(e), Ghost(e));
    let t = fe_mul_pows(&t, &t, Ghost(b), Ghost(2 * e), Ghost(2 * e));
    let t = fe_mul_pows(&t, z, Ghost(b), Ghost(4 * e), Ghost(1));
    let t = fe_mul_pows(&t, &t, Ghost(b), Ghost(4 * e + 1), Ghost(4 * e + 1));
    let t = fe_mul_pows(&t, &t, Ghost(b), Ghost(8 * e + 2), Ghost(8 * e + 2));
    let t = fe_mul_pows(&t, z, Ghost(b), Ghost(16 * e + 4), Ghost(1));
    let t = fe_mul_pows(&t, &t, Ghost(b), Ghost(16 * e + 5), Ghost(16 * e + 5));
    let t = fe_mul_pows(&t, z, Ghost(b), Ghost(32 * e + 10), Ghost(1));
    assert(32 * e + 11 == p() - 2);
    t
}

/// An element raised to `(p-5)/8`, the exponent of the square-root candidate.
pub fn fe_pow22523(z: &Elem) -> (r: Elem)
    requires
        tight(z@),
    ensures
        tight(r@),
        fe(r@) == pow(fe(z@), ((p() - 5) / 8) as nat) % p(),
{
    let ghost b = fe(z@);
    let ghost e = (pow2(250) - 1) as nat;
    proof {
        lemma_pow_base(z@);
        lemma_pow2_250();
    }
    let t = fe_pow_ones(z, 250);
    let t = fe_mul_pows(&t, &t, Ghost(b), Ghost(e), Ghost(e));
    let t = fe_mul_pows(&t, &t, Ghost(b), Ghost(2 * e), Ghost(2 * e));
    let t = fe_mul_pows(&t, z, Ghost(b), Ghost(4 * e), Ghost(1));
    assert(4 * e + 1 == (p() - 5) / 8);
    t
}

// ---------------------------------------------------------------------------
// Constants.

/// The curve constant d = -121665/121666 mod p.
pub open spec fn d() -> int {
    (109014481914921826637217330734730700952 * 340282366920938463463374607431768211456
        + 581746193016579820166537227703777443) as int
}

/// A square root of -1 mod p, namely 2^((p-1)/4).
pub open spec fn sqrtm1() -> int {
    (57837735039853669993003572062525839271 * 340282366920938463463374607431768211456
        + 62822086998211147343238952298832896176) as int
}

pub proof fn lemma_sqrtm1_squared()
    ensures
        fmul(sqrtm1(), sqrtm1()) == p() - 1,
{
    assert(fmul(sqrtm1(), sqrtm1()) == p() - 1) by (nonlinear_arith);
}

/// The element 0.
pub fn fe_zero() -> (r: Elem)
    ensures
        tight(r@),
        fe(r@) == 0,
        forall|i: int| 0 <= i < 10 ==> r@[i] == 0,
{
    let r: Elem = [0u32; 10];
    assert(r@ =~= seq![0u32, 0, 0, 0, 0, 0, 0, 0, 0, 0]);
    assert(limbs_eval(r@) == 0);
    r
}

/// The element 1.
pub fn fe_one() -> (r: Elem)
    ensures
        tight(r@),
        fe(r@) == 1,
{
    let r: Elem = [1u32, 0, 0, 0, 0, 0, 0, 0, 0, 0];
    assert(r@ =~= seq![1u32, 0, 0, 0, 0, 0, 0, 0, 0, 0]);
    proof {
        assert(r@[0] == 1 && r@[1] == 0 && r@[2] == 0 && r@[3] == 0 && r@[4] == 0);
        assert(r@[5] == 0 && r@[6] == 0 && r@[7] == 0 && r@[8] == 0 && r@[9] == 0);
        assert(limbs_eval(r@) == 1);
        lemma_small_mod(1 as nat, p() as nat);
    }
    r
}

/// The element d.
pub fn fe_d() -> (r: Elem)
    ensures
        tight(r@),
        fe(r@) == d(),
{
    let r: Elem = [
        56195235u32, 13857412, 51736253, 6949390, 114729, 24766616, 60832955, 30306712, 48412415,
        21499315,
    ];
    assert(r@ =~= seq![
        56195235u32, 13857412, 51736253, 6949390, 114729, 24766616, 60832955, 30306712, 48412415,
        21499315,
    ]);
    proof {
        assert(limbs_eval(r@) == d());
        lemma_small_mod(d() as nat, p() as nat);
    }
    r
}

/// The element sqrt(-1).
pub fn fe_sqrtm1() -> (r: Elem)
    ensures
        tight(r@),
        fe(r@) == sqrtm1(),
{
    let r: Elem = [
        34513072u32, 25610706, 9377949, 3500415, 12389472, 33281959, 41962654, 31548777, 326685,
        11406482,
    ];
    assert(r@ =~= seq![
        34513072u32, 25610706, 9377949, 3500415, 12389472, 33281959, 41962654, 31548777, 326685,
        11406482,
    ]);
    proof {
        assert(limbs_eval(r@) == sqrtm1());
        lemma_small_mod(sqrtm1() as nat, p() as nat);
    }
    r
}

} // verus!
