use reed_solomon::gf8::lookup::{build_inv_table, build_lookup, build_mul_table, gf_double, gf_inv_scalar, gf_mul_scalar, mul_lookup};
use reed_solomon::gf8::{gf8_simd_mul, gf8_simd_mul_xor, GF8};

#[test]
fn doubling_reduces_by_the_field_polynomial() {
    assert_eq!(gf_double(0x01), 0x02);
    assert_eq!(gf_double(0x40), 0x80);
    assert_eq!(gf_double(0x80), 0x1D);
    assert_eq!(gf_double(0xFF), 0xE3);
}

#[test]
fn scalar_products() {
    assert_eq!(gf_mul_scalar(0, 0x53), 0);
    assert_eq!(gf_mul_scalar(1, 0x53), 0x53);
    assert_eq!(gf_mul_scalar(2, 0x80), 0x1D);
    assert_eq!(gf_mul_scalar(3, 7), 9);
    assert_eq!(gf_mul_scalar(0x10, 0x10), 0x1D);
}

#[test]
fn multiplication_is_commutative_and_associative_on_samples() {
    for a in (0u16..256).step_by(7) {
        for b in (0u16..256).step_by(11) {
            let (a, b) = (a as u8, b as u8);
            assert_eq!(gf_mul_scalar(a, b), gf_mul_scalar(b, a));
            for c in [1u8, 2, 29, 200, 255] {
                assert_eq!(gf_mul_scalar(gf_mul_scalar(a, b), c), gf_mul_scalar(a, gf_mul_scalar(b, c)));
                assert_eq!(gf_mul_scalar(a, b ^ c), gf_mul_scalar(a, b) ^ gf_mul_scalar(a, c));
            }
        }
    }
}

#[test]
fn every_nonzero_element_has_an_inverse() {
    let inv = build_inv_table();
    for a in 1u16..256 {
        let a = a as u8;
        assert_eq!(gf_mul_scalar(a, inv[a as usize]), 1);
        assert_eq!(gf_inv_scalar(a), inv[a as usize]);
    }
    assert_eq!(inv[2], 0x8E);
}

#[test]
fn multiplication_table_matches_scalar_product() {
    let t = build_mul_table();
    for a in 0..256usize {
        for b in (0..256usize).step_by(5) {
            assert_eq!(t[a][b], gf_mul_scalar(a as u8, b as u8));
        }
    }
}

#[test]
fn nibble_tables_split_products() {
    let lookups = build_lookup();
    for n in [0u8, 1, 2, 0x53, 0xCA, 0xFF] {
        let l = mul_lookup(n);
        for x in 0u16..256 {
            let x = x as u8;
            assert_eq!(l.hi[(x >> 4) as usize] ^ l.lo[(x & 15) as usize], gf_mul_scalar(n, x));
        }
        assert_eq!(lookups[n as usize].hi, l.hi);
        assert_eq!(lookups[n as usize].lo, l.lo);
    }
}

#[test]
fn gf8_element_operations() {
    let a = GF8::new(0x57);
    let b = GF8::new(0x83);
    assert_eq!(a.value(), 0x57);
    assert_eq!(a.add(b).value(), 0x57 ^ 0x83);
    assert_eq!(a.mul(b).value(), gf_mul_scalar(0x57, 0x83));
    assert_eq!(a.mul(a.inv()).value(), 1);
    assert_eq!(GF8::new(1).inv(), GF8::new(1));
    assert_eq!(GF8::new(2).inv().value(), 0x8E);
}

#[test]
fn vector_products() {
    let values: [u8; 16] = std::array::from_fn(|v| (v * 9) as u8);
    let r = gf8_simd_mul(values, 0x1D);
    for i in 0..16 {
        assert_eq!(r[i], gf_mul_scalar(values[i], 0x1D));
    }
    let wide: [u8; 32] = std::array::from_fn(|v| (v * 13 + 5) as u8);
    let mut acc: [u8; 32] = std::array::from_fn(|v| (v * 3 + 1) as u8);
    let before = acc;
    gf8_simd_mul_xor(&mut acc, wide, 0x80);
    for i in 0..32 {
        assert_eq!(acc[i], before[i] ^ gf_mul_scalar(wide[i], 0x80));
    }
}
