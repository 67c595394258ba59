use vstd::prelude::*;

use crate::gf8::lookup::{mul_lookup, MulLookup};
use crate::gf8::{gf_mul, lemma_mul_assoc, lemma_mul_comm, lemma_mul_distrib_left};

verus! {

/// A byte is its high nibble times 16 (in GF(2^8)) plus its low nibble.
proof fn lemma_nibble_split(v: u8)
    by (bit_vector)
    ensures
        v == gf_mul(v >> 4u8, 16) ^ (v & 15u8),
        (v >> 4u8) < 16,
        (v & 15u8) < 16,
{
}

/// Multiplying through the nibble tables gives the field product.
pub proof fn lemma_lookup_mul(t: MulLookup, n: u8, v: u8)
    requires
        t.tables_of(n),
    ensures
        (v >> 4u8) < 16,
        (v & 15u8) < 16,
        t.hi[(v >> 4u8) as int] ^ t.lo[(v & 15u8) as int] == gf_mul(v, n),
{
    let h = v >> 4u8;
    let l = v & 15u8;
    lemma_nibble_split(v);
    assert(t.lo[l as int] == gf_mul(l, n));
    assert(t.hi[h as int] == gf_mul(gf_mul(h, n), 16));
    lemma_mul_distrib_left(gf_mul(h, 16), l, n);
    lemma_mul_assoc(h, 16, n);
    lemma_mul_comm(16, n);
    lemma_mul_assoc(h, n, 16);
}

/// Multiplies every lane of `values` by `n`, through the nibble tables of `n`.
pub fn gf8_simd_mul<const LANES: usize>(values: [u8; LANES], n: u8) -> (r: [u8; LANES])
    requires
        LANES >= 16,
    ensures
        forall|i: int| 0 <= i < LANES ==> #[trigger] r[i] == gf_mul(values[i], n),
{
    let lookup = mul_lookup(n);
    let mut result = [0u8; LANES];
    let mut i: usize = 0;
    while i < LANES
        invariant
            i <= LANES,
            lookup.tables_of(n),
            forall|j: int| 0 <= j < i ==> #[trigger] result[j] == gf_mul(values[j], n),
        decreases LANES - i,
    {
        let v = values[i];
        proof {
            lemma_lookup_mul(lookup, n, v);
        }
        let values_hi = (v >> 4) as usize;
        let values_lo = (v & 0b1111) as usize;
        result[i] = lookup.hi[values_hi] ^ lookup.lo[values_lo];
        i += 1;
    }
    result
}

/// Adds `values * n` into `acc`, lane by lane.
pub fn gf8_simd_mul_xor<const LANES: usize>(acc: &mut [u8; LANES], values: [u8; LANES], n: u8)
    requires
        LANES >= 16,
    ensures
        forall|i: int| 0 <= i < LANES ==> #[trigger] final(acc)[i] == old(acc)[i] ^ gf_mul(values[i], n),
{
    let lookup = mul_lookup(n);
    let mut i: usize = 0;
    while i < LANES
        invariant
            i <= LANES,
            lookup.tables_of(n),
            forall|j: int| 0 <= j < i ==> #[trigger] acc[j] == old(acc)[j] ^ gf_mul(values[j], n),
            forall|j: int| i <= j < LANES ==> #[trigger] acc[j] == old(acc)[j],
        decreases LANES - i,
    {
        let v = values[i];
        proof {
            lemma_lookup_mul(lookup, n, v);
        }
        let values_lo = (v & 0b1111) as usize;
        let values_hi = (v >> 4) as usize;
        let x = acc[i] ^ lookup.lo[values_lo] ^ lookup.hi[values_hi];
        proof {
            crate::gf8::lemma_xor(acc[i as int], lookup.lo[values_lo as int], lookup.hi[values_hi as int]);
            crate::gf8::lemma_xor(lookup.lo[values_lo as int], lookup.hi[values_hi as int], 0);
        }
        acc[i] = x;
        i += 1;
    }
}

} // verus!
