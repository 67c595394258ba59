use vstd::prelude::*;

pub mod lookup;
pub mod simd;

use crate::gf8::lookup::{gf_inv_scalar, gf_mul_scalar};

pub use crate::gf8::simd::gf8_simd_mul;
pub use crate::gf8::simd::gf8_simd_mul_xor;

verus! {

/// An element of GF(2^8), stored as its byte representation.
#[derive(Clone, Copy, PartialEq, Eq, Default, Debug)]
pub struct GF8(u8);

impl View for GF8 {
    type V = u8;

    closed spec fn view(&self) -> u8 {
        self.0
    }
}

/// Two elements are equal exactly when their bytes are.
pub broadcast proof fn lemma_gf8_view_injective(a: GF8, b: GF8)
    ensures
        #![trigger a@, b@]
        (a@ == b@) == (a == b),
{
}

impl GF8 {
    /// The element whose byte representation is `value`.
    pub fn new(value: u8) -> (r: GF8)
        ensures
            r@ == value,
    {
        GF8(value)
    }

    /// The multiplicative inverse; zero has none.
    pub fn inv(&self) -> (r: GF8)
        requires
            self@ != 0,
        ensures
            gf_mul(self@, r@) == 1,
            r@ == gf_inv(self@),
    {
        proof {
            lemma_inverse(self@);
        }
        GF8(gf_inv_scalar(self.0))
    }

    /// Field multiplication.
    pub fn mul(&self, rhs: GF8) -> (r: GF8)
        ensures
            r@ == gf_mul(self@, rhs@),
    {
        GF8(gf_mul_scalar(self.0, rhs.0))
    }

    /// Field addition, which is xor in characteristic 2.
    pub fn add(&self, rhs: GF8) -> (r: GF8)
        ensures
            r@ == self@ ^ rhs@,
    {
        GF8(self.0 ^ rhs.0)
    }

    /// The byte representation.
    pub fn value(&self) -> (r: u8)
        ensures
            r == self@,
    {
        self.0
    }
}

/// `v` when `b` has the bit `bit`, else zero.
pub open spec fn sel16(b: u8, bit: u8, v: u16) -> u16 {
    if b & bit != 0 { v } else { 0u16 }
}

/// `c` when `r` has the bit `bit`, else zero: the reduction term of that bit.
pub open spec fn red(r: u16, bit: u16, c: u8) -> u8 {
    if r & bit != 0 { c } else { 0u8 }
}

/// Carry-less product of two bytes (polynomial product over GF(2)).
pub open spec fn clmul(a: u8, b: u8) -> u16 {
    let w = a as u16;
    sel16(b, 1, w) ^ sel16(b, 2, (w << 1u16) as u16) ^ sel16(b, 4, (w << 2u16) as u16) ^ sel16(
        b,
        8,
        (w << 3u16) as u16,
    ) ^ sel16(b, 16, (w << 4u16) as u16) ^ sel16(b, 32, (w << 5u16) as u16) ^ sel16(
        b,
        64,
        (w << 6u16) as u16,
    ) ^ sel16(b, 128, (w << 7u16) as u16)
}

/// Reduction of a polynomial of degree < 15 modulo x^8 + x^4 + x^3 + x^2 + 1.
pub open spec fn reduce(r: u16) -> u8 {
    (r & 0xFFu16) as u8 ^ red(r, 0x100, 0x1D) ^ red(r, 0x200, 0x3A) ^ red(r, 0x400, 0x74) ^ red(
        r,
        0x800,
        0xE8,
    ) ^ red(r, 0x1000, 0xCD) ^ red(r, 0x2000, 0x87) ^ red(r, 0x4000, 0x13)
}

/// Product in GF(2^8) = GF(2)[x] / (x^8 + x^4 + x^3 + x^2 + 1): the polynomial
/// product of `a` and `b`, reduced modulo the field polynomial.
pub open spec fn gf_mul(a: u8, b: u8) -> u8 {
    reduce(clmul(a, b))
}

/// Multiplication in GF(2^8) is commutative.
pub proof fn lemma_mul_comm(a: u8, b: u8)
    by (bit_vector)
    ensures
        gf_mul(a, b) == gf_mul(b, a),
{
}

/// Multiplication distributes over addition (xor).
pub proof fn lemma_mul_distrib(a: u8, b: u8, c: u8)
    by (bit_vector)
    ensures
        gf_mul(a, b ^ c) == gf_mul(a, b) ^ gf_mul(a, c),
{
}

/// Multiplication by `x`.
pub open spec fn xtime(a: u8) -> u8 {
    if a & 0x80u8 != 0 {
        ((a << 1u8) ^ 0x1Du8) as u8
    } else {
        (a << 1u8) as u8
    }
}

/// `v` when the lowest bit of `c` is set, else zero.
pub open spec fn low_bit_part(c: u8, v: u8) -> u8 {
    if c & 1 == 1 { v } else { 0u8 }
}

/// One step of shift-and-add multiplication, and facts about `xtime`.
proof fn lemma_bv_facts(a: u8, b: u8)
    by (bit_vector)
    ensures
        gf_mul(a, b) == low_bit_part(b, a) ^ gf_mul(xtime(a), b >> 1u8),
        gf_mul(a, 0) == 0,
        xtime(a ^ b) == xtime(a) ^ xtime(b),
        xtime(0) == 0,
        b > 0 ==> (b >> 1u8) < b,
        a ^ 0 == a,
        0 ^ a == a,
{
}

/// `(x a) b == x (a b)`.
proof fn lemma_xtime_mul(a: u8, b: u8)
    ensures
        gf_mul(xtime(a), b) == xtime(gf_mul(a, b)),
    decreases b,
{
    lemma_bv_facts(a, b);
    lemma_bv_facts(xtime(a), b);
    if b != 0 {
        lemma_xtime_mul(xtime(a), b >> 1u8);
        lemma_bv_facts(low_bit_part(b, a), gf_mul(xtime(a), b >> 1u8));
        lemma_bv_facts(xtime(a), xtime(a));
    }
}

/// `a (x y) == (x a) y`.
proof fn lemma_mul_xtime_right(a: u8, y: u8)
    ensures
        gf_mul(a, xtime(y)) == gf_mul(xtime(a), y),
{
    lemma_mul_comm(a, xtime(y));
    lemma_xtime_mul(y, a);
    lemma_mul_comm(y, a);
    lemma_xtime_mul(a, y);
}

/// Multiplication in GF(2^8) is associative.
pub proof fn lemma_mul_assoc(a: u8, b: u8, c: u8)
    ensures
        gf_mul(gf_mul(a, b), c) == gf_mul(a, gf_mul(b, c)),
    decreases c,
{
    let ab = gf_mul(a, b);
    lemma_bv_facts(ab, c);
    lemma_bv_facts(b, c);
    lemma_bv_facts(a, 0);
    if c != 0 {
        let c1 = c >> 1u8;
        lemma_xtime_mul(a, b);
        lemma_mul_assoc(xtime(a), b, c1);
        lemma_mul_distrib(a, low_bit_part(c, b), gf_mul(xtime(b), c1));
        lemma_xtime_mul(b, c1);
        lemma_mul_xtime_right(a, gf_mul(b, c1));
    }
}

/// Algebraic facts about xor on bytes (addition in GF(2^8)).
pub proof fn lemma_xor(x: u8, y: u8, z: u8)
    by (bit_vector)
    ensures
        x ^ y == y ^ x,
        (x ^ y) ^ z == x ^ (y ^ z),
        x ^ x == 0,
        x ^ 0 == x,
        0 ^ x == x,
        (x ^ y == 0) == (x == y),
{
}

/// Regrouping a sum of four terms.
pub proof fn lemma_xor4(a: u8, b: u8, c: u8, d: u8)
    by (bit_vector)
    ensures
        (a ^ b) ^ (c ^ d) == (a ^ c) ^ (b ^ d),
{
}

/// Regrouping a sum of three sums of three terms.
pub proof fn lemma_xor_regroup3(a0: u8, a1: u8, a2: u8, b0: u8, b1: u8, b2: u8, c0: u8, c1: u8, c2: u8)
    by (bit_vector)
    ensures
        (a0 ^ a1 ^ a2) ^ (b0 ^ b1 ^ b2) ^ (c0 ^ c1 ^ c2) == (a0 ^ b0 ^ c0) ^ (a1 ^ b1 ^ c1) ^ (a2 ^ b2
            ^ c2),
        a0 ^ a1 ^ a2 == a1 ^ a0 ^ a2,
        a0 ^ a1 ^ a2 == a2 ^ a1 ^ a0,
        a0 ^ a0 ^ a1 ^ a1 == 0,
        a0 ^ (a1 ^ a2) == a0 ^ a1 ^ a2,
        a0 ^ a1 ^ a2 ^ b0 == (a0 ^ b0) ^ (a1 ^ a2),
        (a0 ^ b0) ^ (a1 ^ b1) ^ (a2 ^ b2) == (a0 ^ a1 ^ a2) ^ (b0 ^ b1 ^ b2),
{
}

/// `a^e`, by repeated multiplication.
pub open spec fn gf_pow(a: u8, e: nat) -> u8
    decreases e,
{
    if e == 0 {
        1
    } else {
        gf_mul(gf_pow(a, (e - 1) as nat), a)
    }
}

/// `a^(m + n) == a^m * a^n`.
pub proof fn lemma_pow_add(a: u8, m: nat, n: nat)
    ensures
        gf_pow(a, m + n) == gf_mul(gf_pow(a, m), gf_pow(a, n)),
    decreases n,
{
    if n == 0 {
        lemma_mul_unit(gf_pow(a, m));
    } else {
        lemma_pow_add(a, m, (n - 1) as nat);
        assert(gf_pow(a, m + n) == gf_mul(gf_pow(a, (m + n - 1) as nat), a));
        lemma_mul_assoc(gf_pow(a, m), gf_pow(a, (n - 1) as nat), a);
    }
}

/// 1 is the multiplicative identity and 0 is absorbing.
pub proof fn lemma_mul_unit(a: u8)
    by (bit_vector)
    ensures
        gf_mul(a, 1) == a,
        gf_mul(1, a) == a,
        gf_mul(a, 0) == 0,
        gf_mul(0, a) == 0,
{
}

/// Addition distributes on the left too.
pub proof fn lemma_mul_distrib_left(a: u8, b: u8, c: u8)
    ensures
        gf_mul(a ^ b, c) == gf_mul(a, c) ^ gf_mul(b, c),
{
    lemma_mul_comm(a ^ b, c);
    lemma_mul_distrib(c, a, b);
    lemma_mul_comm(a, c);
    lemma_mul_comm(b, c);
}

/// GF(2^8) has no zero divisors.
pub proof fn lemma_no_zero_divisors(a: u8, b: u8)
    by (bit_vector)
    ensures
        gf_mul(a, b) == 0 ==> a == 0 || b == 0,
{
}

/// `a^(2^k)`: `a` squared `k` times.
pub open spec fn square_iter(a: u8, k: nat) -> u8
    decreases k,
{
    if k == 0 {
        a
    } else {
        gf_mul(square_iter(a, (k - 1) as nat), square_iter(a, (k - 1) as nat))
    }
}

/// The product of `a^(2^i)` over the set bits `i < k` of 254 (all of 1..k), that is
/// `a^(254 mod 2^k)`, in the order in which square-and-multiply forms it.
pub open spec fn inv_partial(a: u8, k: nat) -> u8
    decreases k,
{
    if k <= 1 {
        1
    } else {
        gf_mul(inv_partial(a, (k - 1) as nat), square_iter(a, (k - 1) as nat))
    }
}

/// `a^254`, which is the multiplicative inverse of every non-zero `a`, since the
/// multiplicative group of GF(2^8) has order 255.
pub open spec fn gf_inv(a: u8) -> u8 {
    inv_partial(a, 8)
}

/// The square-and-multiply chain for `a^254` ends in the inverse of `a`.
proof fn lemma_inverse_chain(
    a: u8,
    s1: u8,
    s2: u8,
    s3: u8,
    s4: u8,
    s5: u8,
    s6: u8,
    s7: u8,
    r3: u8,
    r4: u8,
    r5: u8,
    r6: u8,
    r7: u8,
)
    by (bit_vector)
    requires
        a != 0,
        s1 == gf_mul(a, a),
        s2 == gf_mul(s1, s1),
        s3 == gf_mul(s2, s2),
        s4 == gf_mul(s3, s3),
        s5 == gf_mul(s4, s4),
        s6 == gf_mul(s5, s5),
        s7 == gf_mul(s6, s6),
        r3 == gf_mul(s1, s2),
        r4 == gf_mul(r3, s3),
        r5 == gf_mul(r4, s4),
        r6 == gf_mul(r5, s5),
        r7 == gf_mul(r6, s6),
    ensures
        gf_mul(a, gf_mul(r7, s7)) == 1,
{
}

/// Every non-zero element has `gf_inv` as its multiplicative inverse.
pub proof fn lemma_inverse(a: u8)
    requires
        a != 0,
    ensures
        gf_mul(a, gf_inv(a)) == 1,
        gf_mul(gf_inv(a), a) == 1,
{
    reveal_with_fuel(square_iter, 8);
    reveal_with_fuel(inv_partial, 8);
    let s1 = square_iter(a, 1);
    let s2 = square_iter(a, 2);
    let s3 = square_iter(a, 3);
    let s4 = square_iter(a, 4);
    let s5 = square_iter(a, 5);
    let s6 = square_iter(a, 6);
    let s7 = square_iter(a, 7);
    lemma_mul_unit(s1);
    assert(inv_partial(a, 2) == s1);
    let r3 = inv_partial(a, 3);
    let r4 = inv_partial(a, 4);
    let r5 = inv_partial(a, 5);
    let r6 = inv_partial(a, 6);
    let r7 = inv_partial(a, 7);
    assert(gf_inv(a) == gf_mul(r7, s7));
    lemma_inverse_chain(a, s1, s2, s3, s4, s5, s6, s7, r3, r4, r5, r6, r7);
    lemma_mul_comm(a, gf_inv(a));
}

/// Inverses are unique: whatever `b` gives `a * b == 1` is `gf_inv(a)`.
pub proof fn lemma_inverse_unique(a: u8, b: u8)
    requires
        gf_mul(a, b) == 1,
    ensures
        a != 0,
        b == gf_inv(a),
{
    lemma_mul_unit(b);
    if a == 0 {
        assert(false);
    }
    lemma_inverse(a);
    lemma_mul_assoc(gf_inv(a), a, b);
    lemma_mul_unit(gf_inv(a));
}

} // verus!
