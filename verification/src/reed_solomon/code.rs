//! The RS(9, 6) code as a mathematical object: its parity-check matrix, its codewords,
//! and the fact that any 6 positions of a codeword determine the whole codeword.
use vstd::prelude::*;

use crate::reed_solomon::linalg::{
    annihilates, comb, dot, is_injective, is_matrix, is_zero, lemma_comb_dot, lemma_dot3,
    lemma_dot_ext, lemma_dot_scale_right, lemma_dot_split, lemma_dot_unit, lemma_dot_unit_right,
    lemma_dot_xor_right, mat_mul, mat_vec, select, unit, vscale, vxor,
    identity, lemma_mat_vec_assoc, lemma_identity_mat_vec, lemma_mat_mul_is_matrix,
};
use crate::gf8::{
    gf_mul, gf_pow, lemma_mul_assoc, lemma_mul_comm, lemma_mul_distrib, lemma_mul_distrib_left,
    lemma_mul_unit, lemma_no_zero_divisors, lemma_pow_add, lemma_xor, lemma_xor4,
    lemma_xor_regroup3,
};

verus! {

/// Three distinct non-zero nodes and three coefficients with
/// `sum_k x_k^e y_k == 0` for `e = 1, 2, 3` (the transposed Vandermonde system that the
/// parity checks form on three positions).
pub open spec fn vandermonde3_zero(x0: u8, x1: u8, x2: u8, y0: u8, y1: u8, y2: u8) -> bool {
    &&& gf_mul(x0, y0) ^ gf_mul(x1, y1) ^ gf_mul(x2, y2) == 0
    &&& gf_mul(gf_mul(x0, x0), y0) ^ gf_mul(gf_mul(x1, x1), y1) ^ gf_mul(gf_mul(x2, x2), y2) == 0
    &&& gf_mul(gf_mul(gf_mul(x0, x0), x0), y0) ^ gf_mul(gf_mul(gf_mul(x1, x1), x1), y1) ^ gf_mul(
        gf_mul(gf_mul(x2, x2), x2),
        y2,
    ) == 0
}

/// `z * (x*x + b*x + g) == (x*x)*z + b*(x*z) + g*z`.
proof fn lemma_eval_quadratic(x: u8, z: u8, b: u8, g: u8)
    ensures
        gf_mul(gf_mul(x, x) ^ gf_mul(b, x) ^ g, z) == gf_mul(gf_mul(x, x), z) ^ gf_mul(b, gf_mul(x, z))
            ^ gf_mul(g, z),
{
    lemma_mul_distrib_left(gf_mul(x, x) ^ gf_mul(b, x), g, z);
    lemma_mul_distrib_left(gf_mul(x, x), gf_mul(b, x), z);
    lemma_mul_assoc(b, x, z);
}

/// In the first position of a zero transposed Vandermonde system, the coefficient
/// times `x0` vanishes.
proof fn lemma_vandermonde_first(x0: u8, x1: u8, x2: u8, z0: u8, z1: u8, z2: u8)
    requires
        x0 != x1,
        x0 != x2,
        z0 ^ z1 ^ z2 == 0,
        gf_mul(x0, z0) ^ gf_mul(x1, z1) ^ gf_mul(x2, z2) == 0,
        gf_mul(gf_mul(x0, x0), z0) ^ gf_mul(gf_mul(x1, x1), z1) ^ gf_mul(gf_mul(x2, x2), z2) == 0,
    ensures
        z0 == 0,
{
    let b = x1 ^ x2;
    let g = gf_mul(x1, x2);
    // q(X) = X^2 + b X + g vanishes at x1 and x2, and q(x0) = (x0 + x1)(x0 + x2).
    let e1 = gf_mul(x0, z0) ^ gf_mul(x1, z1) ^ gf_mul(x2, z2);
    lemma_mul_distrib(b, gf_mul(x0, z0) ^ gf_mul(x1, z1), gf_mul(x2, z2));
    lemma_mul_distrib(b, gf_mul(x0, z0), gf_mul(x1, z1));
    lemma_mul_distrib(g, z0 ^ z1, z2);
    lemma_mul_distrib(g, z0, z1);
    lemma_mul_unit(b);
    lemma_mul_unit(g);
    lemma_xor_regroup3(
        gf_mul(gf_mul(x0, x0), z0),
        gf_mul(gf_mul(x1, x1), z1),
        gf_mul(gf_mul(x2, x2), z2),
        gf_mul(b, gf_mul(x0, z0)),
        gf_mul(b, gf_mul(x1, z1)),
        gf_mul(b, gf_mul(x2, z2)),
        gf_mul(g, z0),
        gf_mul(g, z1),
        gf_mul(g, z2),
    );
    lemma_xor(0, 0, 0);
    lemma_eval_quadratic(x0, z0, b, g);
    lemma_eval_quadratic(x1, z1, b, g);
    lemma_eval_quadratic(x2, z2, b, g);
    // q(x1) == 0
    lemma_mul_distrib_left(x1, x2, x1);
    lemma_mul_comm(x2, x1);
    lemma_xor_regroup3(gf_mul(x1, x1), gf_mul(x1, x1), g, g, 0, 0, 0, 0, 0);
    lemma_xor(gf_mul(x1, x1), gf_mul(x1, x1) ^ g, g);
    lemma_xor(gf_mul(x1, x1), gf_mul(x1, x1), g);
    lemma_xor(0, g, g);
    lemma_xor(g, g, 0);
    assert(gf_mul(x1, x1) ^ gf_mul(b, x1) ^ g == 0);
    lemma_mul_comm(0, z1);
    lemma_mul_unit(z1);
    // q(x2) == 0
    lemma_mul_distrib_left(x1, x2, x2);
    lemma_xor(gf_mul(x2, x2), gf_mul(x1, x2), gf_mul(x2, x2));
    lemma_xor(gf_mul(x1, x2), gf_mul(x2, x2), 0);
    lemma_xor(gf_mul(x2, x2), gf_mul(x2, x2), gf_mul(x1, x2));
    lemma_xor(gf_mul(x1, x2), gf_mul(x1, x2), 0);
    lemma_xor(gf_mul(x2, x2) ^ gf_mul(x1, x2), gf_mul(x2, x2), g);
    lemma_xor(gf_mul(x2, x2), gf_mul(x1, x2), gf_mul(x2, x2) ^ g);
    lemma_xor(gf_mul(x1, x2), gf_mul(x2, x2), g);
    lemma_xor(gf_mul(x2, x2), gf_mul(x2, x2) ^ gf_mul(x1, x2), g);
    lemma_xor_regroup3(gf_mul(x2, x2), gf_mul(x1, x2), gf_mul(x2, x2), g, 0, 0, 0, 0, 0);
    lemma_xor_regroup3(gf_mul(x2, x2), gf_mul(x2, x2), gf_mul(x1, x2), g, 0, 0, 0, 0, 0);
    assert(gf_mul(x2, x2) ^ gf_mul(b, x2) ^ g == 0);
    lemma_mul_unit(z2);
    // q(x0) == (x0 + x1) * (x0 + x2)
    let d = gf_mul(x0 ^ x1, x0 ^ x2);
    lemma_mul_distrib(x0 ^ x1, x0, x2);
    lemma_mul_distrib_left(x0, x1, x0);
    lemma_mul_distrib_left(x0, x1, x2);
    lemma_mul_distrib_left(x1, x2, x0);
    lemma_mul_comm(x1, x0);
    lemma_mul_comm(x2, x0);
    lemma_xor4(gf_mul(x0, x0), gf_mul(x0, x1), gf_mul(x0, x2), g);
    lemma_xor(gf_mul(x0, x0), gf_mul(x0, x1) ^ gf_mul(x0, x2), g);
    lemma_xor(gf_mul(x0, x0), gf_mul(x0, x1), gf_mul(x0, x2));
    lemma_xor(gf_mul(x0, x1), gf_mul(x0, x2), 0);
    lemma_xor_regroup3(gf_mul(x0, x0), gf_mul(x0, x1), gf_mul(x0, x2), g, 0, 0, 0, 0, 0);
    lemma_xor_regroup3(gf_mul(x0, x0), gf_mul(x0, x2), gf_mul(x0, x1), g, 0, 0, 0, 0, 0);
    lemma_xor(gf_mul(x0, x0) ^ gf_mul(x0, x2), gf_mul(x0, x1), g);
    lemma_xor(gf_mul(x0, x0) ^ gf_mul(x0, x1), gf_mul(x0, x2), g);
    lemma_xor(gf_mul(x0, x2), gf_mul(x0, x1), 0);
    assert(gf_mul(x0, x0) ^ gf_mul(b, x0) ^ g == d);
    lemma_xor(gf_mul(d, z0), 0, 0);
    lemma_xor(0, 0, gf_mul(d, z0));
    assert(gf_mul(d, z0) == 0);
    lemma_no_zero_divisors(d, z0);
    lemma_no_zero_divisors(x0 ^ x1, x0 ^ x2);
    lemma_xor(x0, x1, 0);
    lemma_xor(x0, x2, 0);
}

/// A transposed Vandermonde system on three distinct non-zero nodes has only the zero
/// solution.
pub proof fn lemma_vandermonde3(x0: u8, x1: u8, x2: u8, y0: u8, y1: u8, y2: u8)
    requires
        x0 != 0,
        x1 != 0,
        x2 != 0,
        x0 != x1,
        x0 != x2,
        x1 != x2,
        vandermonde3_zero(x0, x1, x2, y0, y1, y2),
    ensures
        y0 == 0,
        y1 == 0,
        y2 == 0,
{
    let z0 = gf_mul(x0, y0);
    let z1 = gf_mul(x1, y1);
    let z2 = gf_mul(x2, y2);
    lemma_mul_assoc(x0, x0, y0);
    lemma_mul_assoc(x1, x1, y1);
    lemma_mul_assoc(x2, x2, y2);
    lemma_mul_assoc(gf_mul(x0, x0), x0, y0);
    lemma_mul_assoc(gf_mul(x1, x1), x1, y1);
    lemma_mul_assoc(gf_mul(x2, x2), x2, y2);
    let a0 = gf_mul(x0, z0);
    let a1 = gf_mul(x1, z1);
    let a2 = gf_mul(x2, z2);
    let b0 = gf_mul(gf_mul(x0, x0), z0);
    let b1 = gf_mul(gf_mul(x1, x1), z1);
    let b2 = gf_mul(gf_mul(x2, x2), z2);
    lemma_vandermonde_first(x0, x1, x2, z0, z1, z2);
    lemma_xor_regroup3(z0, z1, z2, 0, 0, 0, 0, 0, 0);
    lemma_xor_regroup3(a0, a1, a2, 0, 0, 0, 0, 0, 0);
    lemma_xor_regroup3(b0, b1, b2, 0, 0, 0, 0, 0, 0);
    lemma_vandermonde_first(x1, x0, x2, z1, z0, z2);
    lemma_vandermonde_first(x2, x1, x0, z2, z1, z0);
    lemma_no_zero_divisors(x0, y0);
    lemma_no_zero_divisors(x1, y1);
    lemma_no_zero_divisors(x2, y2);
}

/// The evaluation points `alpha^j` of the code, with the primitive element `alpha = 2`.
pub open spec fn node(j: int) -> u8 {
    gf_pow(2, j as nat)
}

/// The parity-check matrix: `H[i][j] = alpha^((i + 1) * j)` for `i < 3`, `j < 9`.
pub open spec fn parity_check() -> Seq<Seq<u8>> {
    Seq::new(3, |i: int| Seq::new(9, |j: int| gf_pow(2, ((i + 1) * j) as nat)))
}

/// A codeword of the RS(9, 6) code: 9 symbols that every parity check sends to zero.
pub open spec fn is_codeword(c: Seq<u8>) -> bool {
    c.len() == 9 && annihilates(parity_check(), c, 9)
}

/// The first powers of 2 in GF(2^8).
proof fn lemma_doubling_values()
    by (bit_vector)
    ensures
        gf_mul(1, 2) == 2,
        gf_mul(2, 2) == 4,
        gf_mul(4, 2) == 8,
        gf_mul(8, 2) == 16,
        gf_mul(16, 2) == 32,
        gf_mul(32, 2) == 64,
        gf_mul(64, 2) == 128,
        gf_mul(128, 2) == 29,
{
}

/// The values of the nine nodes: 1, 2, 4, 8, 16, 32, 64, 128, 29.
pub open spec fn node_value(j: int) -> u8 {
    if j == 0 {
        1
    } else if j == 1 {
        2
    } else if j == 2 {
        4
    } else if j == 3 {
        8
    } else if j == 4 {
        16
    } else if j == 5 {
        32
    } else if j == 6 {
        64
    } else if j == 7 {
        128
    } else {
        29
    }
}

/// The nodes are the powers of 2 listed by `node_value`.
pub proof fn lemma_node_value(j: int)
    requires
        0 <= j < 9,
    ensures
        node(j) == node_value(j),
{
    lemma_doubling_values();
    assert(node(0) == 1);
    assert(node(1) == gf_mul(node(0), 2));
    assert(node(2) == gf_mul(node(1), 2));
    assert(node(3) == gf_mul(node(2), 2));
    assert(node(4) == gf_mul(node(3), 2));
    assert(node(5) == gf_mul(node(4), 2));
    assert(node(6) == gf_mul(node(5), 2));
    assert(node(7) == gf_mul(node(6), 2));
    assert(node(8) == gf_mul(node(7), 2));
}

/// Row `i` of the parity-check matrix holds the `(i + 1)`-th powers of the nodes.
pub proof fn lemma_parity_check_entries(j: int)
    requires
        0 <= j < 9,
    ensures
        parity_check()[0][j] == node(j),
        parity_check()[1][j] == gf_mul(node(j), node(j)),
        parity_check()[2][j] == gf_mul(gf_mul(node(j), node(j)), node(j)),
{
    lemma_pow_add(2, j as nat, j as nat);
    lemma_pow_add(2, (2 * j) as nat, j as nat);
    assert((0 + 1) * j == j) by (nonlinear_arith);
    assert((1 + 1) * j == j + j) by (nonlinear_arith);
    assert((2 + 1) * j == 2 * j + j) by (nonlinear_arith);
}

/// A dot product with a vector that is zero outside three positions.
pub proof fn lemma_dot_three(u: Seq<u8>, c: Seq<u8>, n: nat, t0: int, t1: int, t2: int)
    requires
        0 <= t0 < n,
        0 <= t1 < n,
        0 <= t2 < n,
        t0 != t1,
        t0 != t2,
        t1 != t2,
        forall|k: int| 0 <= k < n && k != t0 && k != t1 && k != t2 ==> c[k] == 0,
    ensures
        dot(u, c, n) == gf_mul(u[t0], c[t0]) ^ gf_mul(u[t1], c[t1]) ^ gf_mul(u[t2], c[t2]),
{
    let e0 = vscale(c[t0], unit(n, t0));
    let e1 = vscale(c[t1], unit(n, t1));
    let e2 = vscale(c[t2], unit(n, t2));
    let w = vxor(e0, vxor(e1, e2));
    assert forall|k: int| 0 <= k < n implies u[k] == u[k] && c[k] == #[trigger] w[k] by {
        lemma_mul_unit(c[t0]);
        lemma_mul_unit(c[t1]);
        lemma_mul_unit(c[t2]);
        lemma_xor(0, 0, 0);
        lemma_xor(c[k], 0, 0);
        lemma_xor(0, c[k], 0);
    }
    lemma_dot_ext(u, c, u, w, n);
    lemma_dot_xor_right(u, e0, vxor(e1, e2), n);
    lemma_dot_xor_right(u, e1, e2, n);
    lemma_dot_scale_right(c[t0], u, unit(n, t0), n);
    lemma_dot_scale_right(c[t1], u, unit(n, t1), n);
    lemma_dot_scale_right(c[t2], u, unit(n, t2), n);
    lemma_dot_unit_right(u, unit(n, t0), n, t0);
    lemma_dot_unit_right(u, unit(n, t1), n, t1);
    lemma_dot_unit_right(u, unit(n, t2), n, t2);
    lemma_mul_comm(c[t0], u[t0]);
    lemma_mul_comm(c[t1], u[t1]);
    lemma_mul_comm(c[t2], u[t2]);
    lemma_xor_regroup3(gf_mul(u[t0], c[t0]), gf_mul(u[t1], c[t1]), gf_mul(u[t2], c[t2]), 0, 0, 0, 0, 0, 0);
}

/// A codeword that is zero outside three positions is zero.
pub proof fn lemma_codeword_three_support(c: Seq<u8>, t0: int, t1: int, t2: int)
    requires
        is_codeword(c),
        0 <= t0 < 9,
        0 <= t1 < 9,
        0 <= t2 < 9,
        t0 != t1,
        t0 != t2,
        t1 != t2,
        forall|k: int| 0 <= k < 9 && k != t0 && k != t1 && k != t2 ==> c[k] == 0,
    ensures
        is_zero(c),
{
    let h = parity_check();
    lemma_parity_check_entries(t0);
    lemma_parity_check_entries(t1);
    lemma_parity_check_entries(t2);
    lemma_node_value(t0);
    lemma_node_value(t1);
    lemma_node_value(t2);
    assert(dot(h[0], c, 9) == 0);
    assert(dot(h[1], c, 9) == 0);
    assert(dot(h[2], c, 9) == 0);
    lemma_dot_three(h[0], c, 9, t0, t1, t2);
    lemma_dot_three(h[1], c, 9, t0, t1, t2);
    lemma_dot_three(h[2], c, 9, t0, t1, t2);
    assert(node(t0) != node(t1));
    assert(node(t0) != node(t2));
    assert(node(t1) != node(t2));
    lemma_vandermonde3(node(t0), node(t1), node(t2), c[t0], c[t1], c[t2]);
}

/// Outside six distinct positions of `0..9` lie exactly three others.
pub proof fn lemma_three_outside(s: Seq<int>) -> (t: (int, int, int))
    requires
        s.len() == 6,
        s.no_duplicates(),
        forall|k: int| 0 <= k < 6 ==> 0 <= #[trigger] s[k] < 9,
    ensures
        0 <= t.0 < 9,
        0 <= t.1 < 9,
        0 <= t.2 < 9,
        t.0 != t.1,
        t.0 != t.2,
        t.1 != t.2,
        !s.contains(t.0),
        !s.contains(t.1),
        !s.contains(t.2),
        forall|p: int| 0 <= p < 9 && !s.contains(p) ==> p == t.0 || p == t.1 || p == t.2,
{
    broadcast use vstd::set::group_set_axioms;
    broadcast use vstd::seq_lib::seq_to_set_is_finite;

    let u = vstd::set_lib::set_int_range(0, 9);
    vstd::set_lib::lemma_int_range(0, 9);
    let st = s.to_set();
    s.unique_seq_to_set();
    assert(u.intersect(st) =~= st);
    vstd::set_lib::lemma_set_difference_len(u, st);
    let d = u.difference(st);
    assert(d.len() == 3);
    let t0 = d.choose();
    let d1 = d.remove(t0);
    let t1 = d1.choose();
    let d2 = d1.remove(t1);
    let t2 = d2.choose();
    let d3 = d2.remove(t2);
    assert(d3.len() == 0);
    vstd::set_lib::lemma_set_empty_equivalency_len(d3);
    assert forall|p: int| 0 <= p < 9 && !s.contains(p) implies p == t0 || p == t1 || p == t2 by {
        assert(d.contains(p));
        if p != t0 && p != t1 && p != t2 {
            assert(d3.contains(p));
        }
    }
    (t0, t1, t2)
}

/// Any six positions of a codeword determine it: a codeword that is zero at six
/// distinct positions is zero.
pub proof fn lemma_codeword_zero_on_six(c: Seq<u8>, s: Seq<int>)
    requires
        is_codeword(c),
        s.len() == 6,
        s.no_duplicates(),
        forall|k: int| 0 <= k < 6 ==> 0 <= #[trigger] s[k] < 9,
        forall|k: int| 0 <= k < 6 ==> c[#[trigger] s[k]] == 0,
    ensures
        is_zero(c),
{
    let t = lemma_three_outside(s);
    assert forall|k: int| 0 <= k < 9 && k != t.0 && k != t.1 && k != t.2 implies c[k] == 0 by {
        assert(s.contains(k));
        let i = choose|i: int| 0 <= i < s.len() && s[i] == k;
        assert(c[s[i]] == 0);
    }
    lemma_codeword_three_support(c, t.0, t.1, t.2);
}

/// The columns of the parity-check matrix at the data positions `0..6`.
pub open spec fn parity_check_data() -> Seq<Seq<u8>> {
    Seq::new(3, |i: int| Seq::new(6, |j: int| parity_check()[i][j]))
}

/// The columns of the parity-check matrix at the parity positions `6..9`.
pub open spec fn parity_check_parity() -> Seq<Seq<u8>> {
    Seq::new(3, |i: int| Seq::new(3, |j: int| parity_check()[i][j + 6]))
}

/// Six distinct positions of a 9-symbol codeword.
pub open spec fn valid_positions(s: Seq<int>) -> bool {
    &&& s.len() == 6
    &&& s.no_duplicates()
    &&& forall|k: int| 0 <= k < 6 ==> 0 <= #[trigger] s[k] < 9
}

/// The systematic generator matrix: the identity on top of the parity matrix `P`,
/// where `P` solves `H_parity P == H_data`.
pub open spec fn is_generator(g: Seq<Seq<u8>>) -> bool {
    &&& is_matrix(g, 9, 6)
    &&& forall|i: int| 0 <= i < 6 ==> #[trigger] g[i] == unit(6, i)
    &&& mat_mul(parity_check_parity(), g.skip(6), 3, 6) == parity_check_data()
}

/// `c` holds `vals[k]` at position `s[k]` for each `k`.
pub open spec fn agrees(c: Seq<u8>, s: Seq<int>, vals: Seq<u8>) -> bool {
    forall|k: int| 0 <= k < s.len() ==> c[#[trigger] s[k]] == vals[k]
}

/// The codeword that holds `vals` at the positions `s`.
pub open spec fn decoded(s: Seq<int>, vals: Seq<u8>) -> Seq<u8> {
    choose|c: Seq<u8>| is_codeword(c) && agrees(c, s, vals)
}

/// The parity columns of the parity-check matrix are linearly independent.
pub proof fn lemma_parity_columns_injective()
    ensures
        is_injective(parity_check_parity(), 3),
{
    let hp = parity_check_parity();
    let h = parity_check();
    assert forall|y: Seq<u8>| y.len() == 3 && #[trigger] annihilates(hp, y, 3) implies is_zero(y) by {
        let c = Seq::new(9, |k: int| if k < 6 { 0u8 } else { y[k - 6] });
        assert forall|i: int| 0 <= i < 3 implies #[trigger] dot(h[i], c, 9) == 0 by {
            lemma_dot_three(h[i], c, 9, 6, 7, 8);
            lemma_dot3(hp[i], y);
            assert(dot(hp[i], y, 3) == 0);
        }
        assert(is_codeword(c));
        lemma_codeword_three_support(c, 6, 7, 8);
        assert forall|k: int| 0 <= k < y.len() implies #[trigger] y[k] == 0 by {
            assert(c[k + 6] == 0);
        }
    }
}

/// The sum of two codewords is a codeword.
pub proof fn lemma_codeword_xor(c1: Seq<u8>, c2: Seq<u8>)
    requires
        is_codeword(c1),
        is_codeword(c2),
    ensures
        is_codeword(vxor(c1, c2)),
{
    let h = parity_check();
    assert forall|i: int| 0 <= i < 3 implies #[trigger] dot(h[i], vxor(c1, c2), 9) == 0 by {
        lemma_dot_xor_right(h[i], c1, c2, 9);
        assert(dot(h[i], c1, 9) == 0);
        assert(dot(h[i], c2, 9) == 0);
        lemma_xor(0, 0, 0);
    }
}

/// Encoding with the generator: `G m` is a codeword that starts with `m`.
pub proof fn lemma_generator_codeword(g: Seq<Seq<u8>>, m: Seq<u8>)
    requires
        is_generator(g),
        m.len() == 6,
    ensures
        is_codeword(mat_vec(g, m, 6)),
        forall|i: int| 0 <= i < 6 ==> #[trigger] mat_vec(g, m, 6)[i] == m[i],
{
    let c = mat_vec(g, m, 6);
    let h = parity_check();
    let hd = parity_check_data();
    let hp = parity_check_parity();
    let p = g.skip(6);
    assert forall|i: int| 0 <= i < 6 implies #[trigger] c[i] == m[i] by {
        lemma_dot_unit(g[i], m, 6, i);
    }
    assert forall|i: int| 0 <= i < 3 implies #[trigger] dot(h[i], c, 9) == 0 by {
        lemma_dot_split(h[i], c, 6, 3);
        lemma_dot_ext(h[i], c, hd[i], m, 6);
        assert forall|k: int| 0 <= k < 3 implies #[trigger] h[i].skip(6)[k] == hp[i][k] && c.skip(6)[k]
            == mat_vec(p, m, 6)[k] by {}
        lemma_dot_ext(h[i].skip(6), c.skip(6), hp[i], mat_vec(p, m, 6), 3);
        lemma_comb_dot(hp[i], p, 3, 6, m);
        assert(mat_mul(hp, p, 3, 6)[i] == hd[i]);
        assert(comb(hp[i], p, 3, 6) == hd[i]);
        lemma_xor(dot(hd[i], m, 6), dot(hd[i], m, 6), 0);
    }
}

/// Every codeword is the encoding of its first six symbols.
pub proof fn lemma_codeword_is_encoding(g: Seq<Seq<u8>>, c: Seq<u8>)
    requires
        is_generator(g),
        is_codeword(c),
    ensures
        mat_vec(g, c.take(6), 6) == c,
{
    let e = mat_vec(g, c.take(6), 6);
    lemma_generator_codeword(g, c.take(6));
    lemma_codeword_xor(e, c);
    let d = vxor(e, c);
    let s = seq![0int, 1, 2, 3, 4, 5];
    assert forall|k: int| 0 <= k < 6 implies d[#[trigger] s[k]] == 0 by {
        lemma_xor(c[k], c[k], 0);
    }
    lemma_codeword_zero_on_six(d, s);
    assert forall|k: int| 0 <= k < 9 implies #[trigger] e[k] == c[k] by {
        assert(d[k] == 0);
        lemma_xor(e[k], c[k], 0);
    }
    assert(e =~= c);
}

/// Two codewords that agree at six distinct positions are equal.
pub proof fn lemma_codewords_agree(c1: Seq<u8>, c2: Seq<u8>, s: Seq<int>)
    requires
        is_codeword(c1),
        is_codeword(c2),
        valid_positions(s),
        forall|k: int| 0 <= k < 6 ==> c1[#[trigger] s[k]] == c2[s[k]],
    ensures
        c1 == c2,
{
    lemma_codeword_xor(c1, c2);
    let d = vxor(c1, c2);
    assert forall|k: int| 0 <= k < 6 implies d[#[trigger] s[k]] == 0 by {
        lemma_xor(c1[s[k]], c1[s[k]], 0);
    }
    lemma_codeword_zero_on_six(d, s);
    assert forall|k: int| 0 <= k < 9 implies #[trigger] c1[k] == c2[k] by {
        assert(d[k] == 0);
        lemma_xor(c1[k], c2[k], 0);
    }
    assert(c1 =~= c2);
}

/// Any codeword that holds `vals` at the positions `s` is the decoded one.
pub proof fn lemma_decoded_unique(s: Seq<int>, vals: Seq<u8>, c: Seq<u8>)
    requires
        valid_positions(s),
        is_codeword(c),
        agrees(c, s, vals),
    ensures
        decoded(s, vals) == c,
{
    let d = decoded(s, vals);
    assert(is_codeword(d) && agrees(d, s, vals));
    lemma_codewords_agree(d, c, s);
}

/// Erasure decoding recovers every codeword from any six of its symbols.
pub proof fn lemma_recover_codeword(c: Seq<u8>, s: Seq<int>)
    requires
        valid_positions(s),
        is_codeword(c),
    ensures
        decoded(s, select(c, s)) == c,
{
    lemma_decoded_unique(s, select(c, s), c);
}

/// The rows of the generator at six distinct positions form an invertible matrix.
pub proof fn lemma_generator_rows_injective(g: Seq<Seq<u8>>, s: Seq<int>)
    requires
        is_generator(g),
        valid_positions(s),
    ensures
        is_injective(select(g, s), 6),
{
    assert forall|m: Seq<u8>| m.len() == 6 && #[trigger] annihilates(select(g, s), m, 6) implies is_zero(m) by {
        let c = mat_vec(g, m, 6);
        lemma_generator_codeword(g, m);
        assert forall|k: int| 0 <= k < 6 implies c[#[trigger] s[k]] == 0 by {
            assert(dot(select(g, s)[k], m, 6) == 0);
        }
        lemma_codeword_zero_on_six(c, s);
        assert forall|k: int| 0 <= k < m.len() implies #[trigger] m[k] == 0 by {
            assert(c[k] == 0);
        }
    }
}

/// `f` maps any six values at the positions `s` to the codeword holding them there.
pub open spec fn decodes(f: Seq<Seq<u8>>, s: Seq<int>) -> bool {
    &&& is_matrix(f, 9, 6)
    &&& forall|vals: Seq<u8>|
        vals.len() == 6 ==> is_codeword(#[trigger] mat_vec(f, vals, 6)) && agrees(
            mat_vec(f, vals, 6),
            s,
            vals,
        )
}

/// `G W` decodes from the positions `s` when `W` is a right inverse of the rows of `G` at `s`.
pub proof fn lemma_fix_decodes(g: Seq<Seq<u8>>, w: Seq<Seq<u8>>, s: Seq<int>)
    requires
        is_generator(g),
        valid_positions(s),
        is_matrix(w, 6, 6),
        mat_mul(select(g, s), w, 6, 6) == identity(6),
    ensures
        decodes(mat_mul(g, w, 6, 6), s),
{
    let f = mat_mul(g, w, 6, 6);
    let gs = select(g, s);
    lemma_mat_mul_is_matrix(g, w, 9, 6, 6);
    assert forall|vals: Seq<u8>| vals.len() == 6 implies is_codeword(#[trigger] mat_vec(f, vals, 6))
        && agrees(mat_vec(f, vals, 6), s, vals) by {
        let m = mat_vec(w, vals, 6);
        lemma_mat_vec_assoc(g, w, 6, 6, vals);
        lemma_generator_codeword(g, m);
        lemma_mat_vec_assoc(gs, w, 6, 6, vals);
        lemma_identity_mat_vec(vals, 6);
        assert forall|k: int| 0 <= k < s.len() implies mat_vec(f, vals, 6)[#[trigger] s[k]] == vals[k] by {
            assert(mat_vec(gs, m, 6)[k] == dot(g[s[k]], m, 6));
        }
    }
}

/// The strictly increasing sequences of `k` positions from `lo..9`, in lexicographic order.
pub open spec fn combinations_from(k: nat, lo: int) -> Seq<Seq<int>>
    decreases k, 9 - lo,
{
    if k == 0 {
        seq![Seq::<int>::empty()]
    } else if lo + k > 9 {
        Seq::empty()
    } else {
        combinations_from((k - 1) as nat, lo + 1).map_values(|t: Seq<int>| seq![lo] + t)
            + combinations_from(k, lo + 1)
    }
}

/// Strictly increasing.
pub open spec fn is_increasing(t: Seq<int>) -> bool {
    forall|i: int, j: int| 0 <= i < j < t.len() ==> #[trigger] t[i] < #[trigger] t[j]
}

/// The number of strictly increasing sequences of `k` positions from `lo..9`.
pub open spec fn combination_count(k: nat, lo: int) -> nat
    decreases k, 9 - lo,
{
    if k == 0 {
        1
    } else if lo + k > 9 {
        0
    } else {
        combination_count((k - 1) as nat, lo + 1) + combination_count(k, lo + 1)
    }
}

/// The number of increasing sequences is `combination_count`.
pub proof fn lemma_combinations_len(k: nat, lo: int)
    ensures
        combinations_from(k, lo).len() == combination_count(k, lo),
    decreases k, 9 - lo,
{
    if k > 0 && lo + k <= 9 {
        lemma_combinations_len((k - 1) as nat, lo + 1);
        lemma_combinations_len(k, lo + 1);
    }
}

/// There are 84 ways to choose 6 positions out of 9.
pub proof fn lemma_combination_count()
    ensures
        combinations_from(6, 0).len() == 84,
{
    lemma_combinations_len(6, 0);
    reveal_with_fuel(combination_count, 2);
    assert(combination_count(1, 8) == 1);
    assert(combination_count(1, 7) == 2);
    assert(combination_count(1, 6) == 3);
    assert(combination_count(1, 5) == 4);
    assert(combination_count(1, 4) == 5);
    assert(combination_count(1, 3) == 6);
    assert(combination_count(1, 2) == 7);
    assert(combination_count(1, 1) == 8);
    assert(combination_count(1, 0) == 9);
    assert(combination_count(2, 7) == 1);
    assert(combination_count(2, 6) == 3);
    assert(combination_count(2, 5) == 6);
    assert(combination_count(2, 4) == 10);
    assert(combination_count(2, 3) == 15);
    assert(combination_count(2, 2) == 21);
    assert(combination_count(2, 1) == 28);
    assert(combination_count(2, 0) == 36);
    assert(combination_count(3, 6) == 1);
    assert(combination_count(3, 5) == 4);
    assert(combination_count(3, 4) == 10);
    assert(combination_count(3, 3) == 20);
    assert(combination_count(3, 2) == 35);
    assert(combination_count(3, 1) == 56);
    assert(combination_count(3, 0) == 84);
    assert(combination_count(4, 5) == 1);
    assert(combination_count(4, 4) == 5);
    assert(combination_count(4, 3) == 15);
    assert(combination_count(4, 2) == 35);
    assert(combination_count(4, 1) == 70);
    assert(combination_count(4, 0) == 126);
    assert(combination_count(5, 4) == 1);
    assert(combination_count(5, 3) == 6);
    assert(combination_count(5, 2) == 21);
    assert(combination_count(5, 1) == 56);
    assert(combination_count(5, 0) == 126);
    assert(combination_count(6, 3) == 1);
    assert(combination_count(6, 2) == 7);
    assert(combination_count(6, 1) == 28);
    assert(combination_count(6, 0) == 84);
}

/// Every listed sequence is a strictly increasing choice of `k` positions from `lo..9`.
pub proof fn lemma_combinations_members(k: nat, lo: int, i: int)
    requires
        0 <= i < combinations_from(k, lo).len(),
    ensures
        combinations_from(k, lo)[i].len() == k,
        is_increasing(combinations_from(k, lo)[i]),
        forall|j: int| 0 <= j < k ==> lo <= #[trigger] combinations_from(k, lo)[i][j] < 9,
    decreases k, 9 - lo,
{
    if k > 0 && lo + k <= 9 {
        let first = combinations_from((k - 1) as nat, lo + 1);
        let t = combinations_from(k, lo)[i];
        if i < first.len() {
            lemma_combinations_members((k - 1) as nat, lo + 1, i);
            assert(t == seq![lo] + first[i]);
        } else {
            lemma_combinations_members(k, lo + 1, i - first.len());
        }
    }
}

/// Every strictly increasing choice of `k` positions from `lo..9` is listed.
pub proof fn lemma_combinations_complete(k: nat, lo: int, t: Seq<int>)
    requires
        t.len() == k,
        is_increasing(t),
        forall|j: int| 0 <= j < k ==> lo <= #[trigger] t[j] < 9,
    ensures
        combinations_from(k, lo).contains(t),
    decreases k, 9 - lo,
{
    if k == 0 {
        assert(t =~= Seq::<int>::empty());
        assert(combinations_from(k, lo)[0] == t);
    } else {
        if lo + k > 9 {
            // the k distinct increasing entries from lo..9 cannot fit
            assert forall|j: int| 0 <= j < k implies #[trigger] t[j] >= lo + j by {
                lemma_increasing_lower_bound(t, lo, j);
            }
            assert(t[k - 1] >= lo + k - 1);
            assert(false);
        }
        let first = combinations_from((k - 1) as nat, lo + 1);
        let rest = combinations_from(k, lo + 1);
        let mapped = first.map_values(|u: Seq<int>| seq![lo] + u);
        if t[0] == lo {
            let tail = t.drop_first();
            assert forall|j: int| 0 <= j < k - 1 implies lo + 1 <= #[trigger] tail[j] < 9 by {
                assert(t[0] < t[j + 1]);
            }
            lemma_combinations_complete((k - 1) as nat, lo + 1, tail);
            let idx = choose|idx: int| 0 <= idx < first.len() && first[idx] == tail;
            assert(mapped[idx] =~= t);
            assert(combinations_from(k, lo)[idx] == t);
        } else {
            assert forall|j: int| 0 <= j < k implies lo + 1 <= #[trigger] t[j] < 9 by {
                if j > 0 {
                    assert(t[0] < t[j]);
                }
            }
            lemma_combinations_complete(k, lo + 1, t);
            let idx = choose|idx: int| 0 <= idx < rest.len() && rest[idx] == t;
            assert(combinations_from(k, lo)[mapped.len() + idx] == t);
        }
    }
}

/// The entries of an increasing sequence from `lo` on are at least `lo` plus their rank.
proof fn lemma_increasing_lower_bound(t: Seq<int>, lo: int, j: int)
    requires
        is_increasing(t),
        0 <= j < t.len(),
        forall|i: int| 0 <= i < t.len() ==> lo <= #[trigger] t[i],
    ensures
        t[j] >= lo + j,
    decreases j,
{
    if j > 0 {
        lemma_increasing_lower_bound(t, lo, j - 1);
        assert(t[j - 1] < t[j]);
    }
}

/// `t` lists, in increasing order, the three positions of `0..9` outside `s`.
pub open spec fn is_outside_triple(s: Seq<int>, t: (int, int, int)) -> bool {
    &&& 0 <= t.0 < t.1
    &&& t.1 < t.2 < 9
    &&& !s.contains(t.0)
    &&& !s.contains(t.1)
    &&& !s.contains(t.2)
    &&& forall|p: int| 0 <= p < 9 && !s.contains(p) ==> p == t.0 || p == t.1 || p == t.2
}

/// The three positions outside `s`, in increasing order.
pub open spec fn outside(s: Seq<int>) -> (int, int, int) {
    choose|t: (int, int, int)| is_outside_triple(s, t)
}

/// The `r`-th position outside `s`.
pub open spec fn outside_at(s: Seq<int>, r: int) -> int {
    if r == 0 {
        outside(s).0
    } else if r == 1 {
        outside(s).1
    } else {
        outside(s).2
    }
}

/// The three positions outside six distinct positions are listed by `outside`, in increasing order.
pub proof fn lemma_outside(s: Seq<int>)
    requires
        valid_positions(s),
    ensures
        is_outside_triple(s, outside(s)),
{
    let t = lemma_three_outside(s);
    let lo = if t.0 < t.1 && t.0 < t.2 { t.0 } else if t.1 < t.2 { t.1 } else { t.2 };
    let hi = if t.0 > t.1 && t.0 > t.2 { t.0 } else if t.1 > t.2 { t.1 } else { t.2 };
    let mid = if t.0 != lo && t.0 != hi { t.0 } else if t.1 != lo && t.1 != hi { t.1 } else { t.2 };
    assert(is_outside_triple(s, (lo, mid, hi)));
}

/// Two strictly increasing sequences with the same elements are equal.
pub proof fn lemma_increasing_same_elements(t1: Seq<int>, t2: Seq<int>)
    requires
        t1.len() == t2.len(),
        is_increasing(t1),
        is_increasing(t2),
        forall|q: int| t1.contains(q) == t2.contains(q),
    ensures
        t1 == t2,
    decreases t1.len(),
{
    if t1.len() > 0 {
        assert(t1.contains(t1[0]));
        assert(t2.contains(t2[0]));
        let j2 = choose|j: int| 0 <= j < t2.len() && t2[j] == t1[0];
        let j1 = choose|j: int| 0 <= j < t1.len() && t1[j] == t2[0];
        if j2 > 0 {
            assert(t2[0] < t2[j2]);
        }
        if j1 > 0 {
            assert(t1[0] < t1[j1]);
        }
        assert(t1[0] == t2[0]);
        let r1 = t1.drop_first();
        let r2 = t2.drop_first();
        assert forall|q: int| r1.contains(q) == r2.contains(q) by {
            if r1.contains(q) {
                let j = choose|j: int| 0 <= j < r1.len() && r1[j] == q;
                assert(t1[0] < t1[j + 1]);
                assert(t1.contains(q));
                let k = choose|k: int| 0 <= k < t2.len() && t2[k] == q;
                assert(k != 0);
                assert(r2[k - 1] == q);
            }
            if r2.contains(q) {
                let j = choose|j: int| 0 <= j < r2.len() && r2[j] == q;
                assert(t2[0] < t2[j + 1]);
                assert(t2.contains(q));
                let k = choose|k: int| 0 <= k < t1.len() && t1[k] == q;
                assert(k != 0);
                assert(r1[k - 1] == q);
            }
        }
        lemma_increasing_same_elements(r1, r2);
        assert(t1 =~= seq![t1[0]] + r1);
        assert(t2 =~= seq![t2[0]] + r2);
    }
}

/// The listed choices are pairwise distinct.
pub proof fn lemma_combinations_distinct(k: nat, lo: int)
    ensures
        combinations_from(k, lo).no_duplicates(),
    decreases k, 9 - lo,
{
    if k > 0 && lo + k <= 9 {
        let a = combinations_from((k - 1) as nat, lo + 1);
        let b = combinations_from(k, lo + 1);
        let ma = a.map_values(|t: Seq<int>| seq![lo] + t);
        lemma_combinations_distinct((k - 1) as nat, lo + 1);
        lemma_combinations_distinct(k, lo + 1);
        let all = combinations_from(k, lo);
        assert(all == ma + b);
        assert forall|i: int, j: int| 0 <= i < all.len() && 0 <= j < all.len() && i != j implies all[i] != all[j] by {
            if i < ma.len() && j < ma.len() {
                if all[i] == all[j] {
                    assert(a[i] =~= ma[i].drop_first());
                    assert(a[j] =~= ma[j].drop_first());
                }
            } else if i >= ma.len() && j >= ma.len() {
            } else if i < ma.len() {
                lemma_combinations_members(k, lo + 1, j - ma.len());
                assert(all[i][0] == lo);
                assert(all[j][0] >= lo + 1);
            } else {
                lemma_combinations_members(k, lo + 1, i - ma.len());
                assert(all[j][0] == lo);
                assert(all[i][0] >= lo + 1);
            }
        }
    }
}

/// The three rows of `f3` give, for any six values at the positions `s`, the symbols of
/// the decoded codeword at the three positions outside `s`.
pub open spec fn fixes_missing(f3: Seq<Seq<u8>>, s: Seq<int>) -> bool {
    &&& decodable(s)
    &&& forall|vals: Seq<u8>, r: int|
        vals.len() == 6 && 0 <= r < 3 ==> #[trigger] dot(f3[r], vals, 6) == decoded(s, vals)[outside_at(
            s,
            r,
        )]
}

/// For any six values there is a codeword holding them at the positions `s`.
pub open spec fn decodable(s: Seq<int>) -> bool {
    forall|vals: Seq<u8>|
        vals.len() == 6 ==> is_codeword(#[trigger] decoded(s, vals)) && agrees(decoded(s, vals), s, vals)
}

/// A decoding matrix shows that every choice of values at `s` is decodable.
pub proof fn lemma_decodable(f: Seq<Seq<u8>>, s: Seq<int>)
    requires
        decodes(f, s),
        valid_positions(s),
    ensures
        decodable(s),
{
    assert forall|vals: Seq<u8>| vals.len() == 6 implies is_codeword(#[trigger] decoded(s, vals)) && agrees(
        decoded(s, vals),
        s,
        vals,
    ) by {
        let c = mat_vec(f, vals, 6);
        lemma_decoded_unique(s, vals, c);
    }
}

/// Row `p` of a decoding matrix gives symbol `p` of the decoded codeword.
pub proof fn lemma_fix_row(f: Seq<Seq<u8>>, s: Seq<int>, vals: Seq<u8>, p: int)
    requires
        decodes(f, s),
        valid_positions(s),
        vals.len() == 6,
        0 <= p < 9,
    ensures
        dot(f[p], vals, 6) == decoded(s, vals)[p],
{
    let c = mat_vec(f, vals, 6);
    assert(is_codeword(c) && agrees(c, s, vals));
    lemma_decoded_unique(s, vals, c);
}


/// Three bytes packed into the low 24 bits of a `u32`.
pub open spec fn pack3(y: (u8, u8, u8)) -> u32 {
    (y.0 as u32) | ((y.1 as u32) << 8u32) | ((y.2 as u32) << 16u32)
}

/// The three bytes packed into `p`.
pub open spec fn unpack3(p: u32) -> (u8, u8, u8) {
    ((p & 0xFF) as u8, ((p >> 8u32) & 0xFF) as u8, ((p >> 16u32) & 0xFF) as u8)
}

/// Packing and unpacking bytes, bit by bit.
proof fn lemma_pack3_bits(y0: u8, y1: u8, y2: u8, p: u32)
    by (bit_vector)
    ensures
        ((y0 as u32) | ((y1 as u32) << 8u32) | ((y2 as u32) << 16u32)) < 0x1000000,
        (((y0 as u32) | ((y1 as u32) << 8u32) | ((y2 as u32) << 16u32)) & 0xFF) as u8 == y0,
        ((((y0 as u32) | ((y1 as u32) << 8u32) | ((y2 as u32) << 16u32)) >> 8u32) & 0xFF) as u8 == y1,
        ((((y0 as u32) | ((y1 as u32) << 8u32) | ((y2 as u32) << 16u32)) >> 16u32) & 0xFF) as u8 == y2,
        p < 0x1000000 ==> ((((p & 0xFF) as u8) as u32) | (((((p >> 8u32) & 0xFF) as u8) as u32) << 8u32) | (
        ((((p >> 16u32) & 0xFF) as u8) as u32) << 16u32)) == p,
{
}

/// Packing is a bijection between byte triples and the numbers below `2^24`.
proof fn lemma_pack3(y: (u8, u8, u8), p: u32)
    ensures
        pack3(y) < 0x1000000,
        unpack3(pack3(y)) == y,
        p < 0x1000000 ==> pack3(unpack3(p)) == p,
{
    lemma_pack3_bits(y.0, y.1, y.2, p);
}

/// A map that sends the numbers below `2^24` injectively into themselves reaches each
/// of them.
proof fn lemma_injective_onto(f: spec_fn(u32) -> u32, q: u32) -> (p: u32)
    requires
        q < 0x1000000,
        forall|a: u32| a < 0x1000000 ==> #[trigger] f(a) < 0x1000000,
        forall|a: u32, b: u32| a < 0x1000000 && b < 0x1000000 && #[trigger] f(a) == #[trigger] f(b) ==> a == b,
    ensures
        p < 0x1000000,
        f(p) == q,
{
    let d = Set::<u32>::range(0u32, 0x1000000u32);
    vstd::set_lib::range_set_properties::<u32>(0u32, 0x1000000u32);
    let img = d.map(f);
    assert(vstd::relations::injective_on(f, d));
    vstd::set_lib::lemma_map_size(d, img, f);
    assert(img.subset_of(d)) by {
        assert forall|b: u32| img.contains(b) implies d.contains(b) by {
            let a = choose|a: u32| d.contains(a) && b == f(a);
        }
    }
    vstd::set_lib::lemma_subset_equality(img, d);
    assert(d.contains(q));
    assert(img.contains(q));
    choose|a: u32| d.contains(a) && q == f(a)
}


/// The transposed Vandermonde map on the nodes `x`:
/// `y |-> (sum_k x_k y_k, sum_k x_k^2 y_k, sum_k x_k^3 y_k)`.
pub open spec fn vandermonde3(x: (u8, u8, u8), y: (u8, u8, u8)) -> (u8, u8, u8) {
    (
        gf_mul(x.0, y.0) ^ gf_mul(x.1, y.1) ^ gf_mul(x.2, y.2),
        gf_mul(gf_mul(x.0, x.0), y.0) ^ gf_mul(gf_mul(x.1, x.1), y.1) ^ gf_mul(gf_mul(x.2, x.2), y.2),
        gf_mul(gf_mul(gf_mul(x.0, x.0), x.0), y.0) ^ gf_mul(gf_mul(gf_mul(x.1, x.1), x.1), y.1) ^ gf_mul(
            gf_mul(gf_mul(x.2, x.2), x.2),
            y.2,
        ),
    )
}

/// `sum_k p_k (a_k + b_k) == sum_k p_k a_k + sum_k p_k b_k`.
proof fn lemma_combination3_xor(p0: u8, p1: u8, p2: u8, a0: u8, a1: u8, a2: u8, b0: u8, b1: u8, b2: u8)
    ensures
        gf_mul(p0, a0 ^ b0) ^ gf_mul(p1, a1 ^ b1) ^ gf_mul(p2, a2 ^ b2) == (gf_mul(p0, a0) ^ gf_mul(p1, a1)
            ^ gf_mul(p2, a2)) ^ (gf_mul(p0, b0) ^ gf_mul(p1, b1) ^ gf_mul(p2, b2)),
{
    lemma_mul_distrib(p0, a0, b0);
    lemma_mul_distrib(p1, a1, b1);
    lemma_mul_distrib(p2, a2, b2);
    lemma_xor_regroup3(
        gf_mul(p0, a0),
        gf_mul(p1, a1),
        gf_mul(p2, a2),
        gf_mul(p0, b0),
        gf_mul(p1, b1),
        gf_mul(p2, b2),
        0,
        0,
        0,
    );
}

/// On three distinct non-zero nodes the transposed Vandermonde map is injective.
proof fn lemma_vandermonde3_injective(x: (u8, u8, u8), a: (u8, u8, u8), b: (u8, u8, u8))
    requires
        x.0 != 0,
        x.1 != 0,
        x.2 != 0,
        x.0 != x.1,
        x.0 != x.2,
        x.1 != x.2,
        vandermonde3(x, a) == vandermonde3(x, b),
    ensures
        a == b,
{
    let d = (a.0 ^ b.0, a.1 ^ b.1, a.2 ^ b.2);
    let va = vandermonde3(x, a);
    let vb = vandermonde3(x, b);
    lemma_combination3_xor(x.0, x.1, x.2, a.0, a.1, a.2, b.0, b.1, b.2);
    lemma_combination3_xor(
        gf_mul(x.0, x.0),
        gf_mul(x.1, x.1),
        gf_mul(x.2, x.2),
        a.0,
        a.1,
        a.2,
        b.0,
        b.1,
        b.2,
    );
    lemma_combination3_xor(
        gf_mul(gf_mul(x.0, x.0), x.0),
        gf_mul(gf_mul(x.1, x.1), x.1),
        gf_mul(gf_mul(x.2, x.2), x.2),
        a.0,
        a.1,
        a.2,
        b.0,
        b.1,
        b.2,
    );
    lemma_xor(va.0, va.0, 0);
    lemma_xor(va.1, va.1, 0);
    lemma_xor(va.2, va.2, 0);
    assert(vandermonde3_zero(x.0, x.1, x.2, d.0, d.1, d.2));
    lemma_vandermonde3(x.0, x.1, x.2, d.0, d.1, d.2);
    lemma_xor(a.0, b.0, 0);
    lemma_xor(a.1, b.1, 0);
    lemma_xor(a.2, b.2, 0);
}

/// On three distinct non-zero nodes the transposed Vandermonde map reaches every triple.
pub proof fn lemma_vandermonde3_onto(x: (u8, u8, u8), r: (u8, u8, u8)) -> (y: (u8, u8, u8))
    requires
        x.0 != 0,
        x.1 != 0,
        x.2 != 0,
        x.0 != x.1,
        x.0 != x.2,
        x.1 != x.2,
    ensures
        vandermonde3(x, y) == r,
{
    let f = |p: u32| pack3(vandermonde3(x, unpack3(p)));
    assert forall|a: u32| a < 0x1000000 implies #[trigger] f(a) < 0x1000000 by {
        lemma_pack3(vandermonde3(x, unpack3(a)), a);
    }
    assert forall|a: u32, b: u32| a < 0x1000000 && b < 0x1000000 && #[trigger] f(a) == #[trigger] f(b) implies a == b by {
        lemma_pack3(vandermonde3(x, unpack3(a)), a);
        lemma_pack3(vandermonde3(x, unpack3(b)), b);
        lemma_vandermonde3_injective(x, unpack3(a), unpack3(b));
    }
    lemma_pack3(r, 0);
    let p = lemma_injective_onto(f, pack3(r));
    lemma_pack3(vandermonde3(x, unpack3(p)), p);
    unpack3(p)
}


/// A parity check that a vector `w`, supported on three positions, cancels in `c0 + w`.
proof fn lemma_cancel_row(u: Seq<u8>, c0: Seq<u8>, w: Seq<u8>, t: (int, int, int))
    requires
        0 <= t.0 < 9,
        0 <= t.1 < 9,
        0 <= t.2 < 9,
        t.0 != t.1,
        t.0 != t.2,
        t.1 != t.2,
        c0.len() == 9,
        forall|k: int| 0 <= k < 9 && k != t.0 && k != t.1 && k != t.2 ==> w[k] == 0,
        gf_mul(u[t.0], w[t.0]) ^ gf_mul(u[t.1], w[t.1]) ^ gf_mul(u[t.2], w[t.2]) == dot(u, c0, 9),
    ensures
        dot(u, vxor(c0, w), 9) == 0,
{
    lemma_dot_xor_right(u, c0, w, 9);
    lemma_dot_three(u, w, 9, t.0, t.1, t.2);
    lemma_xor(dot(u, c0, 9), 0, 0);
}

/// The vector that holds `vals` at the positions `s` and zero elsewhere.
pub open spec fn spread(s: Seq<int>, vals: Seq<u8>) -> Seq<u8> {
    Seq::new(9, |p: int| if s.contains(p) { vals[s.index_of(p)] } else { 0u8 })
}

/// The vector that holds `y` at the positions `t` and zero elsewhere.
pub open spec fn spread3(t: (int, int, int), y: (u8, u8, u8)) -> Seq<u8> {
    Seq::new(9, |p: int| if p == t.0 { y.0 } else if p == t.1 { y.1 } else if p == t.2 { y.2 } else { 0u8 })
}

/// For any six distinct positions and any values for them there is a codeword that
/// holds those values there.
proof fn lemma_codeword_through(s: Seq<int>, vals: Seq<u8>) -> (c: Seq<u8>)
    requires
        valid_positions(s),
        vals.len() == 6,
    ensures
        is_codeword(c),
        agrees(c, s, vals),
{
    let t = lemma_three_outside(s);
    let h = parity_check();
    let c0 = spread(s, vals);
    let r = (dot(h[0], c0, 9), dot(h[1], c0, 9), dot(h[2], c0, 9));
    lemma_node_value(t.0);
    lemma_node_value(t.1);
    lemma_node_value(t.2);
    let x = (node(t.0), node(t.1), node(t.2));
    let y = lemma_vandermonde3_onto(x, r);
    let w = spread3(t, y);
    let c = vxor(c0, w);
    lemma_parity_check_entries(t.0);
    lemma_parity_check_entries(t.1);
    lemma_parity_check_entries(t.2);
    lemma_cancel_row(h[0], c0, w, t);
    lemma_cancel_row(h[1], c0, w, t);
    lemma_cancel_row(h[2], c0, w, t);
    assert(annihilates(h, c, 9));
    assert forall|k: int| 0 <= k < s.len() implies c[#[trigger] s[k]] == vals[k] by {
        let p = s[k];
        assert(s.contains(p));
        let i = s.index_of(p);
        assert(s[i] == p);
        assert(i == k);
        lemma_xor(vals[k], 0, 0);
    }
    c
}

/// Any six distinct positions of the code can be decoded: whatever values they hold,
/// exactly one codeword holds them there. So any three lost blocks of a stripe can be
/// rebuilt from the six others.
pub proof fn lemma_every_choice_decodable(s: Seq<int>)
    requires
        valid_positions(s),
    ensures
        decodable(s),
{
    assert forall|vals: Seq<u8>| vals.len() == 6 implies is_codeword(#[trigger] decoded(s, vals)) && agrees(
        decoded(s, vals),
        s,
        vals,
    ) by {
        let c = lemma_codeword_through(s, vals);
        assert(is_codeword(c) && agrees(c, s, vals));
    }
}


/// The positions of `s` from `lo` up to 9, in increasing order.
pub open spec fn arranged_from(s: Seq<int>, lo: int) -> Seq<int>
    decreases 9 - lo,
{
    if lo >= 9 {
        Seq::empty()
    } else if s.contains(lo) {
        seq![lo] + arranged_from(s, lo + 1)
    } else {
        arranged_from(s, lo + 1)
    }
}

/// The positions of `s` in increasing order.
pub open spec fn arranged(s: Seq<int>) -> Seq<int> {
    arranged_from(s, 0)
}

/// `arranged_from` lists, in increasing order, the positions of `s` from `lo` on.
proof fn lemma_arranged_from(s: Seq<int>, lo: int)
    requires
        0 <= lo <= 9,
    ensures
        is_increasing(arranged_from(s, lo)),
        forall|q: int| #[trigger] arranged_from(s, lo).contains(q) == (lo <= q < 9 && s.contains(q)),
    decreases 9 - lo,
{
    if lo < 9 {
        lemma_arranged_from(s, lo + 1);
        let r = arranged_from(s, lo + 1);
        if s.contains(lo) {
            let a = seq![lo] + r;
            assert forall|i: int, j: int| 0 <= i < j < a.len() implies #[trigger] a[i] < #[trigger] a[j] by {
                assert(a[j] == r[j - 1]);
                assert(r.contains(r[j - 1]));
                if i > 0 {
                    assert(a[i] == r[i - 1]);
                }
            }
            assert forall|q: int| #[trigger] a.contains(q) == (lo <= q < 9 && s.contains(q)) by {
                if a.contains(q) {
                    let k = choose|k: int| 0 <= k < a.len() && a[k] == q;
                    if k > 0 {
                        assert(r[k - 1] == q);
                        assert(r.contains(q));
                    }
                }
                if lo <= q < 9 && s.contains(q) {
                    if q == lo {
                        assert(a[0] == q);
                    } else {
                        assert(r.contains(q));
                        let k = choose|k: int| 0 <= k < r.len() && r[k] == q;
                        assert(a[k + 1] == q);
                    }
                }
            }
        }
    }
}

/// Arranging six distinct positions gives them in increasing order, and leaves an
/// increasing choice as it is.
pub proof fn lemma_arranged(s: Seq<int>)
    requires
        valid_positions(s),
    ensures
        valid_positions(arranged(s)),
        is_increasing(arranged(s)),
        forall|q: int| #[trigger] arranged(s).contains(q) == s.contains(q),
        is_increasing(s) ==> arranged(s) == s,
{
    broadcast use vstd::set::group_set_axioms;
    broadcast use vstd::seq_lib::seq_to_set_is_finite;

    lemma_arranged_from(s, 0);
    let a = arranged(s);
    assert forall|q: int| #[trigger] a.contains(q) == s.contains(q) by {
        if s.contains(q) {
            let k = choose|k: int| 0 <= k < s.len() && s[k] == q;
            assert(0 <= s[k] < 9);
        }
    }
    assert(a.no_duplicates()) by {
        assert forall|i: int, j: int| 0 <= i < a.len() && 0 <= j < a.len() && i != j implies a[i] != a[j] by {
            if i < j {
                assert(a[i] < a[j]);
            } else {
                assert(a[j] < a[i]);
            }
        }
    }
    a.unique_seq_to_set();
    s.unique_seq_to_set();
    assert(a.to_set() =~= s.to_set());
    assert forall|k: int| 0 <= k < 6 implies 0 <= #[trigger] a[k] < 9 by {
        assert(a.contains(a[k]));
    }
    if is_increasing(s) {
        lemma_increasing_same_elements(a, s);
    }
}

} // verus!
