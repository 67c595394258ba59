use vstd::prelude::*;

use crate::gf8::{GF8, gf_mul, gf_inv, xtime, low_bit_part, lemma_xor, lemma_inverse, square_iter, inv_partial};

verus! {

/// Nibble lookup tables for multiplying by one fixed element `n`:
/// `lo[i] = i * n` and `hi[i] = (i << 4) * n` for every nibble `i`.
#[derive(Copy, Clone)]
pub struct MulLookup {
    pub hi: [u8; 16],
    pub lo: [u8; 16],
}

impl MulLookup {
    /// `self` holds the nibble tables of `n`.
    pub open spec fn tables_of(&self, n: u8) -> bool {
        &&& forall|i: int| 0 <= i < 16 ==> #[trigger] self.lo[i] == gf_mul(i as u8, n)
        &&& forall|i: int| 0 <= i < 16 ==> #[trigger] self.hi[i] == gf_mul(gf_mul(i as u8, n), 16)
    }
}

/// Doubling through a 16-bit shift is `xtime`, which is multiplication by 2.
proof fn lemma_double_bits(a: u8)
    by (bit_vector)
    ensures
        (if a & 0x80u8 != 0 { (((a as u16) << 1u16) ^ 0x11Du16) as u8 } else { ((a as u16) << 1u16) as u8 })
            == xtime(a),
        xtime(a) == gf_mul(a, 2),
{
}

/// Multiplication by `x` (that is, by 2).
pub fn gf_double(a: u8) -> (r: u8)
    ensures
        r == xtime(a),
        r == gf_mul(a, 2),
{
    proof {
        lemma_double_bits(a);
    }
    let shifted = (a as u16) << 1;
    if a & 0x80 != 0 {
        (shifted ^ 0x11D) as u8
    } else {
        shifted as u8
    }
}

/// One step of shift-and-add multiplication.
proof fn lemma_scalar_step(a: u8, b: u8)
    by (bit_vector)
    ensures
        gf_mul(a, b) == low_bit_part(b, a) ^ gf_mul(xtime(a), b >> 1u8),
        (b & 1 != 0) == (b & 1 == 1),
        b > 0 ==> (b >> 1u8) < b,
        gf_mul(a, 0) == 0,
{
}

/// Shift-and-add multiplication.
pub fn gf_mul_scalar(a: u8, b: u8) -> (r: u8)
    ensures
        r == gf_mul(a, b),
{
    let ghost a0 = a;
    let ghost b0 = b;
    let mut a = a;
    let mut b = b;
    let mut result = 0u8;
    proof {
        lemma_xor(gf_mul(a, b), 0, 0);
    }
    while b > 0
        invariant
            result ^ gf_mul(a, b) == gf_mul(a0, b0),
        decreases b,
    {
        proof {
            lemma_scalar_step(a, b);
            lemma_xor(result, low_bit_part(b, a), gf_mul(xtime(a), b >> 1u8));
        }
        if b & 1 != 0 {
            result ^= a;
        } else {
            proof {
                lemma_xor(result, 0, 0);
            }
        }
        a = gf_double(a);
        b >>= 1;
    }
    proof {
        lemma_scalar_step(a, b);
        lemma_xor(result, 0, 0);
    }
    result
}

/// The bits of the exponent 254, as square-and-multiply reads them.
proof fn lemma_exponent_bits(k: u8)
    by (bit_vector)
    requires
        k < 8,
    ensures
        (254u8 >> k) > 0,
        ((254u8 >> k) & 1 != 0) == (k != 0),
        (254u8 >> k) >> 1u8 == 254u8 >> ((k + 1) as u8),
        254u8 >> 8u8 == 0,
        254u8 >> 0u8 == 254,
{
}

/// `a^254` by square-and-multiply; for non-zero `a` this is its inverse.
pub fn gf_inv_scalar(a: u8) -> (r: u8)
    ensures
        r == gf_inv(a),
{
    let mut result = 1u8;
    let mut base = a;
    let mut exp = 254u8;
    let ghost mut k: nat = 0;
    proof {
        lemma_exponent_bits(0);
    }
    while exp > 0
        invariant
            k <= 8,
            exp == 254u8 >> (k as u8),
            base == square_iter(a, k),
            result == inv_partial(a, k),
        decreases 8 - k,
    {
        proof {
            if k == 8 {
                lemma_exponent_bits(0);
                assert(false);
            }
            lemma_exponent_bits(k as u8);
        }
        if exp & 1 != 0 {
            result = gf_mul_scalar(result, base);
        }
        base = gf_mul_scalar(base, base);
        exp >>= 1;
        proof {
            k = k + 1;
        }
    }
    proof {
        if k < 8 {
            lemma_exponent_bits(k as u8);
        }
    }
    result
}

/// The nibble tables of `x`.
pub fn mul_lookup(x: u8) -> (r: MulLookup)
    ensures
        r.tables_of(x),
{
    let mut hi = [0u8; 16];
    let mut lo = [0u8; 16];
    let mut y: usize = 0;
    while y < 16
        invariant
            y <= 16,
            forall|i: int| 0 <= i < y ==> #[trigger] lo[i] == gf_mul(i as u8, x),
            forall|i: int| 0 <= i < y ==> #[trigger] hi[i] == gf_mul(gf_mul(i as u8, x), 16),
        decreases 16 - y,
    {
        let l = GF8::new(y as u8).mul(GF8::new(x));
        let h = l.mul(GF8::new(16));
        hi[y] = h.value();
        lo[y] = l.value();
        y += 1;
    }
    MulLookup { hi, lo }
}

/// For every multiplier `x`, the nibble tables of `x`.
pub fn build_lookup() -> (r: [MulLookup; 256])
    ensures
        forall|x: int| 0 <= x < 256 ==> (#[trigger] r[x]).tables_of(x as u8),
{
    let mut result = [MulLookup { hi: [0; 16], lo: [0; 16] }; 256];
    let mut x: usize = 0;
    while x < 256
        invariant
            x <= 256,
            forall|i: int| 0 <= i < x ==> (#[trigger] result[i]).tables_of(i as u8),
        decreases 256 - x,
    {
        result[x] = mul_lookup(x as u8);
        x += 1;
    }
    result
}

/// The full multiplication table: `r[i][j] = i * j`.
pub fn build_mul_table() -> (r: [[u8; 256]; 256])
    ensures
        forall|i: int, j: int| 0 <= i < 256 && 0 <= j < 256 ==> #[trigger] r[i][j] == gf_mul(i as u8, j as u8),
{
    let mut t = [[0u8; 256]; 256];
    let mut i: usize = 0;
    while i < 256
        invariant
            i <= 256,
            forall|a: int, b: int| 0 <= a < i && 0 <= b < 256 ==> #[trigger] t[a][b] == gf_mul(a as u8, b as u8),
        decreases 256 - i,
    {
        let mut row = [0u8; 256];
        let mut j: usize = 0;
        while j < 256
            invariant
                i < 256,
                j <= 256,
                forall|b: int| 0 <= b < j ==> #[trigger] row[b] == gf_mul(i as u8, b as u8),
            decreases 256 - j,
        {
            row[j] = gf_mul_scalar(i as u8, j as u8);
            j += 1;
        }
        t[i] = row;
        i += 1;
    }
    t
}

/// The inverse table: `r[0] = 0` and `r[i]` is the inverse of `i` for `i > 0`.
pub fn build_inv_table() -> (r: [u8; 256])
    ensures
        r[0] == 0,
        forall|i: int| 1 <= i < 256 ==> gf_mul(i as u8, #[trigger] r[i]) == 1,
        forall|i: int| 1 <= i < 256 ==> #[trigger] r[i] == gf_inv(i as u8),
{
    let mut t = [0u8; 256];
    let mut i: usize = 1;
    while i < 256
        invariant
            1 <= i <= 256,
            t[0] == 0,
            forall|a: int| 1 <= a < i ==> #[trigger] t[a] == gf_inv(a as u8),
        decreases 256 - i,
    {
        t[i] = gf_inv_scalar(i as u8);
        i += 1;
    }
    assert forall|a: int| 1 <= a < 256 implies gf_mul(a as u8, #[trigger] t[a]) == 1 by {
        lemma_inverse(a as u8);
    }
    t
}

} // verus!
