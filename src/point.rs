//! Points in extended and projective coordinates, and their canonical
//! encoding as 32 bytes.
//!
//! A point is encoded by its affine `y` in little-endian order, with the sign
//! of its affine `x` (whether its canonical representative is odd) in the top
//! bit of the last byte.

use vstd::prelude::*;
use vstd::arithmetic::power::{
    lemma_pow0, lemma_pow1, lemma_pow_adds, lemma_pow_positive, lemma_pow_distributes, lemma_pow_mod_noop, lemma_pow_multiplies,
    pow,
};
use vstd::arithmetic::power2::{lemma2_to64, lemma2_to64_rest, lemma_pow2_adds, pow2};
use vstd::arithmetic::div_mod::{
    lemma_add_mod_noop, lemma_add_mod_noop_right, lemma_fundamental_div_mod_converse,
    lemma_mod_multiples_vanish, lemma_mod_twice, lemma_mul_mod_noop_general,
    lemma_mul_mod_noop_left, lemma_mul_mod_noop_right, lemma_small_mod, lemma_sub_mod_noop,
};
use crate::field::{
    d, fadd, fe, fe_add, fe_d, fe_from_bytes, fe_invert, fe_is_negative, fe_is_zero, fe_mul,
    fe_neg, fe_one, fe_pow22523, fe_sqrtm1, fe_sub, fe_to_bytes, fe_zero, finv, fmul, fneg, fsub,
    is_negative, lemma_fe_range, lemma_le_value_zero, lemma_sqrtm1_squared, le_value, p, sqrtm1, tight, Elem, ELEM_LEN,
};

verus! {

/// Decoding failed: the bytes name no point of the curve with the sign they
/// ask for. Deliberately says nothing more.
#[derive(Debug, Clone, Copy, PartialEq, Eq)]
pub struct DecodeError;

// ---------------------------------------------------------------------------
// The encoding.

/// The `n` low bytes of `v`, least significant first.
pub open spec fn le_bytes(v: int, n: nat) -> Seq<u8>
    decreases n,
{
    if n == 0 {
        seq![]
    } else {
        seq![(v % 256) as u8] + le_bytes(v / 256, (n - 1) as nat)
    }
}

/// The canonical encoding of the affine point `(x, y)`: `y` in 32
/// little-endian bytes, with the sign of `x` xored into bit 7 of the last.
pub open spec fn encode_affine(x: int, y: int) -> Seq<u8> {
    let s = le_bytes(y, 32);
    if is_negative(x) {
        s.update(31, s[31] ^ 0x80u8)
    } else {
        s
    }
}

/// The affine coordinates of the projective `(X : Y : Z)`.
pub open spec fn affine_of(x: int, y: int, z: int) -> (int, int) {
    (fmul(x, finv(z)), fmul(y, finv(z)))
}

// ---------------------------------------------------------------------------
// Decoding.

/// The sign bit of an encoding: the top bit of its last byte.
pub open spec fn sign_bit(b: Seq<u8>) -> bool {
    b[31] >= 0x80
}

/// An encoding with its sign bit flipped.
pub open spec fn flip_sign(b: Seq<u8>) -> Seq<u8> {
    b.update(31, b[31] ^ 0x80u8)
}

/// The `y` that an encoding names: its low 255 bits, mod p.
pub open spec fn encoded_y(b: Seq<u8>) -> int {
    le_value(b.update(31, b[31] & 0x7fu8)) % p()
}

/// `y^2 - 1`; a point `(x, y)` is on the curve when `curve_v(y) x^2 = curve_u(y)`.
pub open spec fn curve_u(y: int) -> int {
    fsub(fmul(y, y), 1)
}

/// `d y^2 + 1`.
pub open spec fn curve_v(y: int) -> int {
    fadd(fmul(d(), fmul(y, y)), 1)
}

/// The candidate square root of `u/v`: `u v^3 (u v^7)^((p-5)/8)`.
pub open spec fn sqrt_candidate(u: int, v: int) -> int {
    let v3 = fmul(fmul(v, v), v);
    let v7 = fmul(fmul(v3, v3), v);
    fmul(fmul(u, v3), pow(fmul(u, v7), ((p() - 5) / 8) as nat) % p())
}

/// The `x` recovered for `y`, before its sign is chosen: the candidate root,
/// or the candidate times sqrt(-1) where that is the root; none where neither
/// is.
pub open spec fn recover_x(y: int) -> Option<int> {
    let u = curve_u(y);
    let v = curve_v(y);
    let r = sqrt_candidate(u, v);
    let vrr = fmul(v, fmul(r, r));
    if vrr == u {
        Some(r)
    } else if vrr == fneg(u) {
        Some(fmul(r, sqrtm1()))
    } else {
        None
    }
}

/// The affine point that 32 bytes decode to: the recovered `x`, or its
/// negation, whichever has the sign that the encoding asks for.
pub open spec fn decode_affine(b: Seq<u8>) -> Option<(int, int)> {
    let y = encoded_y(b);
    match recover_x(y) {
        None => None,
        Some(r) => if is_negative(r) == sign_bit(b) {
            Some((r, y))
        } else if is_negative(fneg(r)) == sign_bit(b) {
            Some((fneg(r), y))
        } else {
            None
        },
    }
}

// ---------------------------------------------------------------------------
// Lemmas on the encoding and on field values.

proof fn lemma_le_bytes_value(s: Seq<u8>)
    ensures
        le_bytes(le_value(s), s.len()) == s,
    decreases s.len(),
{
    if s.len() == 0 {
        assert(le_bytes(le_value(s), s.len()) =~= s);
    } else {
        let t = s.drop_first();
        lemma_le_bytes_value(t);
        lemma_le_value_zero(t);
        lemma_fundamental_div_mod_converse(le_value(s), 256, le_value(t), s[0] as int);
        assert(le_bytes(le_value(s), s.len()) =~= s);
    }
}

proof fn lemma_fsub_zero(a: int, b: int)
    requires
        0 <= a < p(),
        0 <= b < p(),
    ensures
        (fsub(a, b) == 0) == (a == b),
{
    lemma_small_mod(0, p() as nat);
    if a > b {
        lemma_small_mod((a - b) as nat, p() as nat);
    } else if a < b {
        lemma_fundamental_div_mod_converse(a - b, p(), -1, a - b + p());
    }
}

proof fn lemma_fneg_value(a: int)
    requires
        0 < a < p(),
    ensures
        fneg(a) == p() - a,
{
    lemma_fundamental_div_mod_converse(-a, p(), -1, p() - a);
}

proof fn lemma_fadd_zero(a: int, b: int)
    requires
        0 <= a < p(),
        0 <= b < p(),
    ensures
        (fadd(a, b) == 0) == (a == fneg(b)),
{
    lemma_small_mod(0, p() as nat);
    if b == 0 {
        lemma_small_mod(a as nat, p() as nat);
    } else {
        lemma_fneg_value(b);
        if a + b < p() {
            lemma_small_mod((a + b) as nat, p() as nat);
        } else {
            lemma_fundamental_div_mod_converse(a + b, p(), 1, a + b - p());
        }
    }
}

proof fn lemma_fmul_fneg(a: int, b: int)
    ensures
        fmul(fneg(a), b) == fneg(fmul(a, b)),
{
    lemma_mul_mod_noop_left(-a, b, p());
    lemma_sub_mod_noop(0, a * b, p());
    assert((-a) * b == -(a * b)) by (nonlinear_arith);
}

proof fn lemma_fmul_one(a: int)
    requires
        0 <= a < p(),
    ensures
        fmul(a, 1) == a,
{
    lemma_small_mod(a as nat, p() as nat);
}

// ---------------------------------------------------------------------------
// The shared encoder.

/// Encodes `(X : Y : Z)`: `y = Y/Z` in little-endian order, with the sign of
/// `x = X/Z` xored into the top bit.
fn point_to_bytes(x: &Elem, y: &Elem, z: &Elem) -> (r: [u8; ELEM_LEN])
    requires
        tight(x@),
        tight(y@),
        tight(z@),
    ensures
        r@ == encode_affine(affine_of(fe(x@), fe(y@), fe(z@)).0, affine_of(fe(x@), fe(y@), fe(z@)).1),
{
    let recip = fe_invert(z);
    let x_over_z = fe_mul(x, &recip);
    let y_over_z = fe_mul(y, &recip);
    let mut bytes = fe_to_bytes(&y_over_z);
    proof {
        lemma_le_bytes_value(bytes@);
    }
    if fe_is_negative(&x_over_z) {
        bytes[31] = bytes[31] ^ 0x80u8;
    }
    bytes
}

// ---------------------------------------------------------------------------
// Extended coordinates.

/// A point in extended coordinates `(X : Y : Z : T)`, with `T Z = X Y`.
pub struct ExtPoint {
    x: Elem,
    y: Elem,
    z: Elem,
    t: Elem,
}

impl ExtPoint {
    /// The value of `X` mod p.
    pub closed spec fn x_val(&self) -> int {
        fe(self.x@)
    }

    /// The value of `Y` mod p.
    pub closed spec fn y_val(&self) -> int {
        fe(self.y@)
    }

    /// The value of `Z` mod p.
    pub closed spec fn z_val(&self) -> int {
        fe(self.z@)
    }

    /// The value of `T` mod p.
    pub closed spec fn t_val(&self) -> int {
        fe(self.t@)
    }

    /// Limbs within bounds, and `T Z = X Y`.
    pub closed spec fn wf(&self) -> bool {
        &&& tight(self.x@)
        &&& tight(self.y@)
        &&& tight(self.z@)
        &&& tight(self.t@)
        &&& fmul(self.t_val(), self.z_val()) == fmul(self.x_val(), self.y_val())
    }

    /// The affine coordinates `(X/Z, Y/Z)`.
    pub open spec fn affine(&self) -> (int, int) {
        affine_of(self.x_val(), self.y_val(), self.z_val())
    }

    /// The all-zero value: a placeholder to be overwritten before use.
    pub fn new_at_infinity() -> (r: Self)
        ensures
            r.wf(),
            r.x_val() == 0,
            r.y_val() == 0,
            r.z_val() == 0,
            r.t_val() == 0,
    {
        ExtPoint { x: fe_zero(), y: fe_zero(), z: fe_zero(), t: fe_zero() }
    }

    /// Decodes 32 bytes, in time that depends on them. Succeeds exactly where
    /// `decode_affine` gives a point, which it returns with `Z = 1`; that
    /// point lies on the curve.
    pub fn from_bytes_vartime(bytes: &[u8; ELEM_LEN]) -> (r: Result<Self, DecodeError>)
        ensures
            match r {
                Ok(pt) => pt.wf() && pt.z_val() == 1 && decode_affine(bytes@) == Some(
                    (pt.x_val(), pt.y_val()),
                ) && on_curve(pt.x_val(), pt.y_val()),
                Err(_) => decode_affine(bytes@) is None,
            },
    {
        let mut masked = *bytes;
        let top = bytes[31];
        masked[31] = top & 0x7fu8;
        let sign = top >= 0x80u8;
        assert(top & 0x7fu8 <= 0x7fu8) by (bit_vector);
        assert(masked@ == bytes@.update(31, bytes@[31] & 0x7fu8));
        let y = fe_from_bytes(&masked);
        let one = fe_one();
        let yy = fe_mul(&y, &y);
        let u = fe_sub(&yy, &one);
        let dyy = fe_mul(&fe_d(), &yy);
        let v = fe_add(&dyy, &one);
        let v2 = fe_mul(&v, &v);
        let v3 = fe_mul(&v2, &v);
        let v6 = fe_mul(&v3, &v3);
        let v7 = fe_mul(&v6, &v);
        let uv7 = fe_mul(&u, &v7);
        let pw = fe_pow22523(&uv7);
        let uv3 = fe_mul(&u, &v3);
        let cand = fe_mul(&uv3, &pw);
        let cc = fe_mul(&cand, &cand);
        let vcc = fe_mul(&v, &cc);
        proof {
            lemma_fe_range(vcc@);
            lemma_fe_range(u@);
            lemma_fsub_zero(fe(vcc@), fe(u@));
            lemma_fadd_zero(fe(vcc@), fe(u@));
        }
        let mut x;
        if fe_is_zero(&fe_sub(&vcc, &u)) {
            x = cand;
        } else if fe_is_zero(&fe_add(&vcc, &u)) {
            x = fe_mul(&cand, &fe_sqrtm1());
        } else {
            return Err(DecodeError);
        }
        if fe_is_negative(&x) != sign {
            x = fe_neg(&x);
            if fe_is_negative(&x) != sign {
                return Err(DecodeError);
            }
        }
        let t = fe_mul(&x, &y);
        proof {
            lemma_fe_range(t@);
            lemma_fmul_one(fe(t@));
            lemma_decoded_on_curve(bytes@);
        }
        Ok(ExtPoint { x, y, z: one, t })
    }

    /// The canonical encoding of the point.
    pub fn to_bytes(&self) -> (r: [u8; ELEM_LEN])
        requires
            self.wf(),
        ensures
            r@ == encode_affine(self.affine().0, self.affine().1),
    {
        point_to_bytes(&self.x, &self.y, &self.z)
    }

    /// Negates the point in place: `X` and `T` become `-X` and `-T`.
    pub fn invert_vartime(&mut self)
        requires
            old(self).wf(),
        ensures
            final(self).wf(),
            final(self).x_val() == fneg(old(self).x_val()),
            final(self).y_val() == old(self).y_val(),
            final(self).z_val() == old(self).z_val(),
            final(self).t_val() == fneg(old(self).t_val()),
    {
        proof {
            lemma_fmul_fneg(self.t_val(), self.z_val());
            lemma_fmul_fneg(self.x_val(), self.y_val());
        }
        self.x = fe_neg(&self.x);
        self.t = fe_neg(&self.t);
    }
}

// ---------------------------------------------------------------------------
// Projective coordinates.

/// A point in projective coordinates `(X : Y : Z)`.
pub struct Point {
    x: Elem,
    y: Elem,
    z: Elem,
}

impl Point {
    /// The value of `X` mod p.
    pub closed spec fn x_val(&self) -> int {
        fe(self.x@)
    }

    /// The value of `Y` mod p.
    pub closed spec fn y_val(&self) -> int {
        fe(self.y@)
    }

    /// The value of `Z` mod p.
    pub closed spec fn z_val(&self) -> int {
        fe(self.z@)
    }

    /// Limbs within bounds.
    pub closed spec fn wf(&self) -> bool {
        &&& tight(self.x@)
        &&& tight(self.y@)
        &&& tight(self.z@)
    }

    /// The affine coordinates `(X/Z, Y/Z)`.
    pub open spec fn affine(&self) -> (int, int) {
        affine_of(self.x_val(), self.y_val(), self.z_val())
    }

    /// The all-zero value: a placeholder to be overwritten before use.
    pub fn new_at_infinity() -> (r: Self)
        ensures
            r.wf(),
            r.x_val() == 0,
            r.y_val() == 0,
            r.z_val() == 0,
    {
        Point { x: fe_zero(), y: fe_zero(), z: fe_zero() }
    }

    /// The canonical encoding of the point.
    pub fn to_bytes(&self) -> (r: [u8; ELEM_LEN])
        requires
            self.wf(),
        ensures
            r@ == encode_affine(self.affine().0, self.affine().1),
    {
        point_to_bytes(&self.x, &self.y, &self.z)
    }
}

// ---------------------------------------------------------------------------
// Laws.

proof fn lemma_fneg_facts(a: int)
    requires
        0 <= a < p(),
    ensures
        0 <= fneg(a) < p(),
        fneg(fneg(a)) == a,
        a == 0 ==> fneg(a) == 0,
        a != 0 ==> is_negative(fneg(a)) != is_negative(a),
{
    lemma_small_mod(0, p() as nat);
    if a != 0 {
        lemma_fneg_value(a);
        lemma_fneg_value(p() - a);
        assert(p() % 2 == 1);
    }
}

/// Negating a point twice gives back the coordinates it had, so the same
/// affine point and the same encoding.
pub proof fn lemma_double_negation(x: int, y: int, z: int)
    requires
        0 <= x < p(),
    ensures
        fneg(fneg(x)) == x,
        affine_of(fneg(fneg(x)), y, z) == affine_of(x, y, z),
        encode_affine(affine_of(fneg(fneg(x)), y, z).0, affine_of(fneg(fneg(x)), y, z).1)
            == encode_affine(affine_of(x, y, z).0, affine_of(x, y, z).1),
{
    lemma_fneg_facts(x);
}

/// The affine point negated: `x` becomes `-x`.
pub open spec fn negate_affine(o: Option<(int, int)>) -> Option<(int, int)> {
    match o {
        Some(q) => Some((fneg(q.0), q.1)),
        None => None,
    }
}

/// Whether the bytes decode to a point with `x = 0`.
pub open spec fn decodes_to_zero_x(b: Seq<u8>) -> bool {
    match decode_affine(b) {
        Some(q) => q.0 == 0,
        None => false,
    }
}

/// Flipping the sign bit of an encoding, decoding, and negating gives what
/// decoding the encoding itself gives (both succeed or both fail). This
/// leaves out the points with `x = 0`, whose negation is themselves: of the
/// two encodings of such a `y` only the one with a clear sign bit decodes.
pub proof fn lemma_sign_flip_negates(b: Seq<u8>)
    requires
        b.len() == 32,
        !decodes_to_zero_x(b),
        !decodes_to_zero_x(flip_sign(b)),
    ensures
        negate_affine(decode_affine(flip_sign(b))) == decode_affine(b),
{
    let f = flip_sign(b);
    let top = b[31];
    assert((top ^ 0x80u8) & 0x7fu8 == top & 0x7fu8) by (bit_vector);
    assert(((top ^ 0x80u8) >= 0x80u8) == !(top >= 0x80u8)) by (bit_vector);
    assert(f.update(31, f[31] & 0x7fu8) =~= b.update(31, b[31] & 0x7fu8));
    let y = encoded_y(b);
    assert(encoded_y(f) == y);
    assert(sign_bit(f) == !sign_bit(b));
    match recover_x(y) {
        None => {},
        Some(r) => {
            assert(0 <= r < p());
            lemma_fneg_facts(r);
        },
    }
}

/// The curve equation `-x^2 + y^2 = 1 + d x^2 y^2`.
pub open spec fn on_curve(x: int, y: int) -> bool {
    fsub(fmul(y, y), fmul(x, x)) == fadd(1, fmul(d(), fmul(fmul(x, x), fmul(y, y))))
}

proof fn lemma_mod_shift(a: int, b: int, c: int)
    ensures
        (a % p() == b % p()) == ((a + c) % p() == (b + c) % p()),
{
    lemma_add_mod_noop(a, c, p());
    lemma_add_mod_noop(b, c, p());
    lemma_add_mod_noop(a + c, -c, p());
    lemma_add_mod_noop(b + c, -c, p());
}

/// The curve equation, solved for `x^2`: `(d y^2 + 1) x^2 = y^2 - 1`.
proof fn lemma_curve_equation(x: int, y: int)
    ensures
        on_curve(x, y) == (fmul(curve_v(y), fmul(x, x)) == curve_u(y)),
{
    let pp = p();
    let x2 = fmul(x, x);
    let y2 = fmul(y, y);
    let dy2 = fmul(d(), y2);
    let m = d() * y2 * x2;
    // (d y^2 + 1) x^2 = d x^2 y^2 + x^2
    lemma_mul_mod_noop_left(dy2 + 1, x2, pp);
    assert((dy2 + 1) * x2 == dy2 * x2 + x2) by (nonlinear_arith);
    lemma_add_mod_noop(dy2 * x2, x2, pp);
    lemma_mul_mod_noop_left(d() * y2, x2, pp);
    lemma_add_mod_noop(m, x2, pp);
    assert(fmul(curve_v(y), x2) == (m + x2) % pp);
    // 1 + d x^2 y^2
    lemma_mul_mod_noop_right(d(), x2 * y2, pp);
    assert(d() * (x2 * y2) == m) by (nonlinear_arith)
        requires
            m == d() * y2 * x2,
    ;
    lemma_add_mod_noop_right(1, m, pp);
    assert(fadd(1, fmul(d(), fmul(x2, y2))) == (1 + m) % pp);
    // shift both sides by 1 - x^2
    lemma_mod_twice(y2 - 1, pp);
    lemma_mod_shift(m + x2, y2 - 1, 1 - x2);
    lemma_mod_twice(m + x2, pp);
}

proof fn lemma_fmul_comm(a: int, b: int)
    ensures
        fmul(a, b) == fmul(b, a),
{
    assert(a * b == b * a) by (nonlinear_arith);
}

proof fn lemma_square_of_neg(r: int)
    ensures
        fmul(fneg(r), fneg(r)) == fmul(r, r),
{
    lemma_fmul_fneg(r, fneg(r));
    lemma_fmul_comm(r, fneg(r));
    lemma_fmul_fneg(r, r);
    lemma_fe_range_of(fmul(r, r));
    lemma_fneg_facts(fmul(r, r));
}

proof fn lemma_fe_range_of(a: int)
    ensures
        0 <= a % p() < p(),
{
}

/// `(r i)^2 = -r^2` for `i = sqrt(-1)`.
proof fn lemma_square_times_sqrtm1(r: int)
    ensures
        fmul(fmul(r, sqrtm1()), fmul(r, sqrtm1())) == fneg(fmul(r, r)),
{
    let pp = p();
    let i = sqrtm1();
    lemma_mul_mod_noop_general(r * i, r * i, pp);
    assert((r * i) * (r * i) == (r * r) * (i * i)) by (nonlinear_arith);
    lemma_mul_mod_noop_general(r * r, i * i, pp);
    lemma_sqrtm1_squared();
    // (r^2 mod p) (p - 1) = -(r^2 mod p) mod p
    let s = (r * r) % pp;
    assert(s * (pp - 1) == s * pp + (-s)) by (nonlinear_arith);
    lemma_mod_multiples_vanish(s, -s, pp);
    assert(pp * s == s * pp) by (nonlinear_arith);
    lemma_sub_mod_noop(0, r * r, pp);
    lemma_small_mod(0, pp as nat);
}

/// What decoding returns lies on the curve.
pub proof fn lemma_decoded_on_curve(b: Seq<u8>)
    requires
        b.len() == 32,
        decode_affine(b) is Some,
    ensures
        match decode_affine(b) {
            Some(q) => 0 <= q.0 < p() && 0 <= q.1 < p() && on_curve(q.0, q.1),
            None => false,
        },
{
    let y = encoded_y(b);
    let u = curve_u(y);
    let v = curve_v(y);
    let r = sqrt_candidate(u, v);
    let x0 = recover_x(y)->0;
    lemma_fe_range_of(v * fmul(r, r));
    lemma_fe_range_of(y * y - 1);
    if fmul(v, fmul(r, r)) != u {
        lemma_square_times_sqrtm1(r);
        lemma_fmul_comm(v, fneg(fmul(r, r)));
        lemma_fmul_fneg(fmul(r, r), v);
        lemma_fmul_comm(fmul(r, r), v);
        lemma_fneg_facts(u);
    }
    assert(fmul(v, fmul(x0, x0)) == u);
    lemma_square_of_neg(x0);
    lemma_fe_range_of(x0);
    let q = decode_affine(b)->0;
    let x = q.0;
    assert(fmul(x, x) == fmul(x0, x0));
    lemma_curve_equation(x, y);
}

/// A `y` with no `x` on the curve is refused, whichever sign is asked for.
pub proof fn lemma_no_x_refused(b: Seq<u8>)
    requires
        b.len() == 32,
        forall|x: int| 0 <= x < p() ==> !on_curve(x, encoded_y(b)),
    ensures
        decode_affine(b) is None,
        decode_affine(flip_sign(b)) is None,
{
    let f = flip_sign(b);
    let top = b[31];
    assert((top ^ 0x80u8) & 0x7fu8 == top & 0x7fu8) by (bit_vector);
    assert(f.update(31, f[31] & 0x7fu8) =~= b.update(31, b[31] & 0x7fu8));
    if decode_affine(b) is Some {
        lemma_decoded_on_curve(b);
    }
    if decode_affine(f) is Some {
        lemma_decoded_on_curve(f);
    }
}

proof fn lemma_scale_coordinate(c: int, z: int, l: int)
    requires
        pow(l, (p() - 1) as nat) % p() == 1,
    ensures
        fmul(fmul(l, c), finv(fmul(l, z))) == fmul(c, finv(z)),
{
    let pp = p();
    let e = (pp - 2) as nat;
    let a = pow(l, e);
    let bz = pow(z, e);
    lemma_pow_mod_noop(l * z, e, pp);
    lemma_pow_distributes(l, z, e);
    assert(finv(fmul(l, z)) == (a * bz) % pp);
    lemma_mul_mod_noop_general(l * c, a * bz, pp);
    lemma_pow_adds(l, 1, e);
    lemma_pow1(l);
    assert(pow(l, (pp - 1) as nat) == l * a);
    assert((l * c) * (a * bz) == (l * a) * (c * bz)) by (nonlinear_arith);
    lemma_mul_mod_noop_left(l * a, c * bz, pp);
    lemma_mul_mod_noop_right(c, bz, pp);
}

/// Scaling `(X : Y : Z)` by any `l` with `l^(p-1) = 1 mod p` keeps the
/// affine point, and so the encoding.
pub proof fn lemma_scaling_keeps_encoding(x: int, y: int, z: int, l: int)
    requires
        pow(l, (p() - 1) as nat) % p() == 1,
    ensures
        affine_of(fmul(l, x), fmul(l, y), fmul(l, z)) == affine_of(x, y, z),
        encode_affine(
            affine_of(fmul(l, x), fmul(l, y), fmul(l, z)).0,
            affine_of(fmul(l, x), fmul(l, y), fmul(l, z)).1,
        ) == encode_affine(affine_of(x, y, z).0, affine_of(x, y, z).1),
{
    lemma_scale_coordinate(x, z, l);
    lemma_scale_coordinate(y, z, l);
}

proof fn lemma_le_bytes_of_small(v: int, n: nat)
    requires
        n >= 1,
        0 <= v < 128 * pow(256, (n - 1) as nat),
    ensures
        le_bytes(v, n).len() == n,
        le_value(le_bytes(v, n)) == v,
        le_bytes(v, n)[n - 1] < 128,
    decreases n,
{
    let s = le_bytes(v, n);
    let q = v / 256;
    lemma_fundamental_div_mod_converse(v, 256, q, v % 256);
    if n == 1 {
        lemma_pow0(256);
        lemma_small_mod(v as nat, 256);
        assert(le_bytes(q, 0) =~= Seq::<u8>::empty());
        assert(s.drop_first() =~= Seq::<u8>::empty());
        assert(le_value(s.drop_first()) == 0);
    } else {
        lemma_pow_adds(256, 1, (n - 2) as nat);
        lemma_pow1(256);
        assert(pow(256, (n - 1) as nat) == 256 * pow(256, (n - 2) as nat));
        lemma_le_bytes_of_small(q, (n - 1) as nat);
        assert(s.drop_first() =~= le_bytes(q, (n - 1) as nat));
    }
}

proof fn lemma_p_below_top_bit()
    ensures
        p() < 128 * pow(256, 31),
{
    lemma2_to64();
    lemma2_to64_rest();
    lemma_pow_positive(2, 8);
    lemma_pow_positive(2, 248);
    lemma_pow_multiplies(2, 8, 31);
    lemma_pow2_adds(7, 248);
    lemma_pow2_adds(64, 21);
    lemma_pow2_adds(85, 85);
    lemma_pow2_adds(170, 85);
    let c = pow2(85) as int;
    assert(c == 38685626227668133590597632) by (nonlinear_arith)
        requires
            pow2(64) == 18446744073709551616,
            pow2(21) == 2097152,
            c == pow2(64) * pow2(21),
    ;
    assert(128 * pow(256, 31) == c * c * c) by (nonlinear_arith)
        requires
            pow(2, 8) == 256,
            pow2(7) == 128,
            pow(pow(2, 8), 31) == pow(2, 248),
            pow2(248) == pow(2, 248),
            pow2(255) == pow2(7) * pow2(248),
            pow2(170) == c * c,
            pow2(255) == pow2(170) * c,
    ;
}

/// Decoding the encoding of an affine point gives back its `y`; where it
/// succeeds, it gives an `x` on the curve with the sign of the point's `x`.
pub proof fn lemma_decode_of_encoding(x: int, y: int)
    requires
        0 <= x < p(),
        0 <= y < p(),
    ensures
        encoded_y(encode_affine(x, y)) == y,
        sign_bit(encode_affine(x, y)) == is_negative(x),
        match decode_affine(encode_affine(x, y)) {
            Some(q) => q.1 == y && is_negative(q.0) == is_negative(x) && on_curve(q.0, q.1),
            None => true,
        },
{
    lemma_p_below_top_bit();
    lemma_le_bytes_of_small(y, 32);
    let s = le_bytes(y, 32);
    let e = encode_affine(x, y);
    let top = s[31];
    assert(top < 128u8 ==> (top ^ 0x80u8) & 0x7fu8 == top && top & 0x7fu8 == top
        && (top ^ 0x80u8) >= 0x80u8) by (bit_vector);
    assert(e.update(31, e[31] & 0x7fu8) =~= s);
    lemma_small_mod(y as nat, p() as nat);
    if decode_affine(e) is Some {
        lemma_decoded_on_curve(e);
    }
}

} // verus!
