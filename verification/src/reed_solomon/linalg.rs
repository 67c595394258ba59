//! Vectors and matrices over GF(2^8), as mathematical sequences, with the algebra
//! that Gauss-Jordan elimination and erasure decoding rely on.
use vstd::prelude::*;

use crate::gf8::{
    gf_mul, lemma_mul_assoc, lemma_mul_comm, lemma_mul_distrib, lemma_mul_distrib_left,
    lemma_mul_unit, lemma_xor, lemma_xor4,
};

verus! {

/// `sum_{k < n} u[k] * v[k]`.
pub open spec fn dot(u: Seq<u8>, v: Seq<u8>, n: nat) -> u8
    decreases n,
{
    if n == 0 {
        0
    } else {
        dot(u, v, (n - 1) as nat) ^ gf_mul(u[n - 1], v[n - 1])
    }
}

/// The sum (xor) of two vectors, entry by entry.
pub open spec fn vxor(u: Seq<u8>, w: Seq<u8>) -> Seq<u8> {
    Seq::new(u.len(), |k: int| u[k] ^ w[k])
}

/// The vector `u` multiplied by the scalar `f`.
pub open spec fn vscale(f: u8, u: Seq<u8>) -> Seq<u8> {
    Seq::new(u.len(), |k: int| gf_mul(f, u[k]))
}

/// The zero vector of length `n`.
pub open spec fn zeros(n: nat) -> Seq<u8> {
    Seq::new(n, |k: int| 0u8)
}

/// The unit vector of length `n` with its one at `i`.
pub open spec fn unit(n: nat, i: int) -> Seq<u8> {
    Seq::new(n, |k: int| if k == i { 1u8 } else { 0u8 })
}

/// The `n x n` identity matrix.
pub open spec fn identity(n: nat) -> Seq<Seq<u8>> {
    Seq::new(n, |i: int| unit(n, i))
}

/// `m` has `r` rows of `c` entries each.
pub open spec fn is_matrix(m: Seq<Seq<u8>>, r: nat, c: nat) -> bool {
    &&& m.len() == r
    &&& forall|i: int| 0 <= i < r ==> (#[trigger] m[i]).len() == c
}

/// Column `j` of `m`.
pub open spec fn column(m: Seq<Seq<u8>>, j: int) -> Seq<u8> {
    Seq::new(m.len(), |k: int| m[k][j])
}

/// The linear combination `sum_{k < n} u[k] * rows[k]` of vectors of length `p`.
pub open spec fn comb(u: Seq<u8>, rows: Seq<Seq<u8>>, n: nat, p: nat) -> Seq<u8>
    decreases n,
{
    if n == 0 {
        zeros(p)
    } else {
        vxor(comb(u, rows, (n - 1) as nat, p), vscale(u[n - 1], rows[n - 1]))
    }
}

/// The product `m x` of a matrix with `p` columns and a vector.
pub open spec fn mat_vec(m: Seq<Seq<u8>>, x: Seq<u8>, p: nat) -> Seq<u8> {
    Seq::new(m.len(), |i: int| dot(m[i], x, p))
}

/// The product of an `r x n` matrix `a` and an `n x p` matrix `b`.
pub open spec fn mat_mul(a: Seq<Seq<u8>>, b: Seq<Seq<u8>>, n: nat, p: nat) -> Seq<Seq<u8>> {
    Seq::new(a.len(), |i: int| comb(a[i], b, n, p))
}

/// Every entry of `v` below `n` is zero.
pub open spec fn is_zero(v: Seq<u8>) -> bool {
    forall|k: int| 0 <= k < v.len() ==> #[trigger] v[k] == 0
}

/// Dot products depend only on the first `n` entries.
pub proof fn lemma_dot_ext(u: Seq<u8>, v: Seq<u8>, u2: Seq<u8>, v2: Seq<u8>, n: nat)
    requires
        forall|k: int| 0 <= k < n ==> u[k] == u2[k] && v[k] == v2[k],
    ensures
        dot(u, v, n) == dot(u2, v2, n),
    decreases n,
{
    if n > 0 {
        lemma_dot_ext(u, v, u2, v2, (n - 1) as nat);
    }
}

/// `(u + w) . v == u . v + w . v`.
pub proof fn lemma_dot_xor_left(u: Seq<u8>, w: Seq<u8>, v: Seq<u8>, n: nat)
    requires
        n <= u.len(),
    ensures
        dot(vxor(u, w), v, n) == dot(u, v, n) ^ dot(w, v, n),
    decreases n,
{
    if n == 0 {
        lemma_xor(0, 0, 0);
    } else {
        let k = n - 1;
        lemma_dot_xor_left(u, w, v, (n - 1) as nat);
        lemma_mul_distrib_left(u[k], w[k], v[k]);
        lemma_xor4(dot(u, v, (n - 1) as nat), dot(w, v, (n - 1) as nat), gf_mul(u[k], v[k]), gf_mul(w[k], v[k]));
    }
}

/// `u . (v + w) == u . v + u . w`.
pub proof fn lemma_dot_xor_right(u: Seq<u8>, v: Seq<u8>, w: Seq<u8>, n: nat)
    requires
        n <= v.len(),
    ensures
        dot(u, vxor(v, w), n) == dot(u, v, n) ^ dot(u, w, n),
    decreases n,
{
    if n == 0 {
        lemma_xor(0, 0, 0);
    } else {
        let k = n - 1;
        lemma_dot_xor_right(u, v, w, (n - 1) as nat);
        lemma_mul_distrib(u[k], v[k], w[k]);
        lemma_xor4(dot(u, v, (n - 1) as nat), dot(u, w, (n - 1) as nat), gf_mul(u[k], v[k]), gf_mul(u[k], w[k]));
    }
}

/// `(f u) . v == f (u . v)`.
pub proof fn lemma_dot_scale_left(f: u8, u: Seq<u8>, v: Seq<u8>, n: nat)
    requires
        n <= u.len(),
    ensures
        dot(vscale(f, u), v, n) == gf_mul(f, dot(u, v, n)),
    decreases n,
{
    if n == 0 {
        lemma_mul_unit(f);
    } else {
        let k = n - 1;
        lemma_dot_scale_left(f, u, v, (n - 1) as nat);
        lemma_mul_assoc(f, u[k], v[k]);
        lemma_mul_distrib(f, dot(u, v, (n - 1) as nat), gf_mul(u[k], v[k]));
    }
}

/// `u . (f v) == f (u . v)`.
pub proof fn lemma_dot_scale_right(f: u8, u: Seq<u8>, v: Seq<u8>, n: nat)
    requires
        n <= v.len(),
    ensures
        dot(u, vscale(f, v), n) == gf_mul(f, dot(u, v, n)),
    decreases n,
{
    if n == 0 {
        lemma_mul_unit(f);
    } else {
        let k = n - 1;
        lemma_dot_scale_right(f, u, v, (n - 1) as nat);
        lemma_mul_assoc(u[k], f, v[k]);
        lemma_mul_comm(u[k], f);
        lemma_mul_assoc(f, u[k], v[k]);
        lemma_mul_distrib(f, dot(u, v, (n - 1) as nat), gf_mul(u[k], v[k]));
    }
}

/// A dot product with a vector that is zero below `n` is zero.
pub proof fn lemma_dot_zero(u: Seq<u8>, v: Seq<u8>, n: nat)
    requires
        forall|k: int| 0 <= k < n ==> v[k] == 0,
    ensures
        dot(u, v, n) == 0,
    decreases n,
{
    if n > 0 {
        lemma_dot_zero(u, v, (n - 1) as nat);
        lemma_mul_unit(u[n - 1]);
        lemma_xor(0, 0, 0);
    }
}

/// A dot product with the `i`-th unit vector picks entry `i`.
pub proof fn lemma_dot_unit(u: Seq<u8>, v: Seq<u8>, n: nat, i: int)
    requires
        0 <= i,
        forall|k: int| 0 <= k < n ==> u[k] == (if k == i { 1u8 } else { 0u8 }),
    ensures
        dot(u, v, n) == (if i < n { v[i] } else { 0u8 }),
    decreases n,
{
    if n > 0 {
        let k = n - 1;
        lemma_dot_unit(u, v, (n - 1) as nat, i);
        lemma_mul_unit(v[k]);
        lemma_xor(v[k], 0, 0);
        lemma_xor(dot(u, v, (n - 1) as nat), 0, 0);
    }
}

/// A combination of rows has one entry per column.
pub proof fn lemma_comb_len(u: Seq<u8>, rows: Seq<Seq<u8>>, n: nat, p: nat)
    ensures
        comb(u, rows, n, p).len() == p,
    decreases n,
{
    if n > 0 {
        lemma_comb_len(u, rows, (n - 1) as nat, p);
    }
}

/// Entry `j` of a linear combination of rows.
pub proof fn lemma_comb_index(u: Seq<u8>, rows: Seq<Seq<u8>>, n: nat, p: nat, j: int)
    requires
        0 <= j < p,
        n <= rows.len(),
        forall|k: int| 0 <= k < n ==> (#[trigger] rows[k]).len() == p,
    ensures
        comb(u, rows, n, p)[j] == dot(u, column(rows, j), n),
    decreases n,
{
    if n > 0 {
        lemma_comb_index(u, rows, (n - 1) as nat, p, j);
        lemma_comb_len(u, rows, (n - 1) as nat, p);
    }
}

/// Linear combinations are additive in their coefficients.
pub proof fn lemma_comb_xor(u: Seq<u8>, w: Seq<u8>, rows: Seq<Seq<u8>>, n: nat, p: nat)
    requires
        n <= u.len(),
        n <= rows.len(),
        forall|k: int| 0 <= k < n ==> (#[trigger] rows[k]).len() == p,
    ensures
        comb(vxor(u, w), rows, n, p) == vxor(comb(u, rows, n, p), comb(w, rows, n, p)),
{
    lemma_comb_len(vxor(u, w), rows, n, p);
    lemma_comb_len(u, rows, n, p);
    lemma_comb_len(w, rows, n, p);
    assert forall|j: int| 0 <= j < p implies #[trigger] comb(vxor(u, w), rows, n, p)[j] == comb(
        u,
        rows,
        n,
        p,
    )[j] ^ comb(w, rows, n, p)[j] by {
        lemma_comb_index(vxor(u, w), rows, n, p, j);
        lemma_comb_index(u, rows, n, p, j);
        lemma_comb_index(w, rows, n, p, j);
        lemma_dot_xor_left(u, w, column(rows, j), n);
    }
    assert(comb(vxor(u, w), rows, n, p) =~= vxor(comb(u, rows, n, p), comb(w, rows, n, p)));
}

/// Linear combinations are homogeneous in their coefficients.
pub proof fn lemma_comb_scale(f: u8, u: Seq<u8>, rows: Seq<Seq<u8>>, n: nat, p: nat)
    requires
        n <= u.len(),
        n <= rows.len(),
        forall|k: int| 0 <= k < n ==> (#[trigger] rows[k]).len() == p,
    ensures
        comb(vscale(f, u), rows, n, p) == vscale(f, comb(u, rows, n, p)),
{
    lemma_comb_len(vscale(f, u), rows, n, p);
    lemma_comb_len(u, rows, n, p);
    assert forall|j: int| 0 <= j < p implies #[trigger] comb(vscale(f, u), rows, n, p)[j]
        == gf_mul(f, comb(u, rows, n, p)[j]) by {
        lemma_comb_index(vscale(f, u), rows, n, p, j);
        lemma_comb_index(u, rows, n, p, j);
        lemma_dot_scale_left(f, u, column(rows, j), n);
    }
    assert(comb(vscale(f, u), rows, n, p) =~= vscale(f, comb(u, rows, n, p)));
}

/// The combination with the `i`-th unit coefficients is row `i`.
pub proof fn lemma_comb_unit(rows: Seq<Seq<u8>>, n: nat, p: nat, i: int)
    requires
        0 <= i < n,
        n <= rows.len(),
        forall|k: int| 0 <= k < n ==> (#[trigger] rows[k]).len() == p,
    ensures
        comb(unit(n, i), rows, n, p) == rows[i],
{
    lemma_comb_len(unit(n, i), rows, n, p);
    assert forall|j: int| 0 <= j < p implies #[trigger] comb(unit(n, i), rows, n, p)[j]
        == rows[i][j] by {
        lemma_comb_index(unit(n, i), rows, n, p, j);
        lemma_dot_unit(unit(n, i), column(rows, j), n, i);
    }
    assert(comb(unit(n, i), rows, n, p) =~= rows[i]);
}

/// Associativity of products: `(u^T R) x == u^T (R x)`.
pub proof fn lemma_comb_dot(u: Seq<u8>, rows: Seq<Seq<u8>>, n: nat, p: nat, x: Seq<u8>)
    requires
        n <= u.len(),
        n <= rows.len(),
        forall|k: int| 0 <= k < n ==> (#[trigger] rows[k]).len() == p,
    ensures
        dot(comb(u, rows, n, p), x, p) == dot(u, mat_vec(rows, x, p), n),
    decreases n,
{
    if n == 0 {
        lemma_dot_zero(x, zeros(p), p);
        lemma_dot_comm_zero(zeros(p), x, p);
    } else {
        let k = n - 1;
        lemma_comb_dot(u, rows, (n - 1) as nat, p, x);
        lemma_comb_len(u, rows, (n - 1) as nat, p);
        lemma_dot_xor_left(comb(u, rows, (n - 1) as nat, p), vscale(u[k], rows[k]), x, p);
        lemma_dot_scale_left(u[k], rows[k], x, p);
        let mv = mat_vec(rows, x, p);
        assert(mv[k] == dot(rows[k], x, p));
        lemma_dot_ext(u, mv, u, mat_vec(rows, x, p), (n - 1) as nat);
    }
}

/// A dot product with a vector that is zero on the left is zero.
pub proof fn lemma_dot_comm_zero(u: Seq<u8>, v: Seq<u8>, n: nat)
    requires
        forall|k: int| 0 <= k < n ==> u[k] == 0,
    ensures
        dot(u, v, n) == 0,
    decreases n,
{
    if n > 0 {
        lemma_dot_comm_zero(u, v, (n - 1) as nat);
        lemma_mul_unit(v[n - 1]);
        lemma_xor(0, 0, 0);
    }
}

/// A dot product with the `j`-th unit vector on the right picks entry `j`.
pub proof fn lemma_dot_unit_right(u: Seq<u8>, v: Seq<u8>, n: nat, j: int)
    requires
        0 <= j,
        forall|k: int| 0 <= k < n ==> v[k] == (if k == j { 1u8 } else { 0u8 }),
    ensures
        dot(u, v, n) == (if j < n { u[j] } else { 0u8 }),
    decreases n,
{
    if n > 0 {
        let k = n - 1;
        lemma_dot_unit_right(u, v, (n - 1) as nat, j);
        lemma_mul_unit(u[k]);
        lemma_xor(u[k], 0, 0);
        lemma_xor(dot(u, v, (n - 1) as nat), 0, 0);
    }
}

/// Entries of `v` at positions `m..n` that are zero do not contribute.
pub proof fn lemma_dot_tail_zero(u: Seq<u8>, v: Seq<u8>, m: nat, n: nat)
    requires
        m <= n,
        forall|k: int| m <= k < n ==> v[k] == 0,
    ensures
        dot(u, v, n) == dot(u, v, m),
    decreases n,
{
    if n > m {
        lemma_dot_tail_zero(u, v, m, (n - 1) as nat);
        lemma_mul_unit(u[n - 1]);
        lemma_xor(dot(u, v, (n - 1) as nat), 0, 0);
    }
}

/// `m x` is zero, row by row.
pub open spec fn annihilates(m: Seq<Seq<u8>>, x: Seq<u8>, n: nat) -> bool {
    forall|r: int| 0 <= r < m.len() ==> #[trigger] dot(m[r], x, n) == 0
}

/// Only the zero vector of length `n` is sent to zero by `m`.
pub open spec fn is_injective(m: Seq<Seq<u8>>, n: nat) -> bool {
    forall|x: Seq<u8>| x.len() == n && #[trigger] annihilates(m, x, n) ==> is_zero(x)
}

/// `a` and `b` send the same vectors of length `n` to zero.
pub open spec fn same_kernel(a: Seq<Seq<u8>>, b: Seq<Seq<u8>>, n: nat) -> bool {
    forall|x: Seq<u8>| x.len() == n ==> (#[trigger] annihilates(a, x, n) <==> annihilates(b, x, n))
}

/// The matrix `m` with rows `i` and `j` exchanged.
pub open spec fn swap_rows(m: Seq<Seq<u8>>, i: int, j: int) -> Seq<Seq<u8>> {
    m.update(i, m[j]).update(j, m[i])
}

/// The matrix `m` with row `i` multiplied by `f`.
pub open spec fn scale_row(m: Seq<Seq<u8>>, i: int, f: u8) -> Seq<Seq<u8>> {
    m.update(i, vscale(f, m[i]))
}

/// The matrix `m` with `f` times row `c` added to row `r`.
pub open spec fn add_row(m: Seq<Seq<u8>>, r: int, f: u8, c: int) -> Seq<Seq<u8>> {
    m.update(r, vxor(m[r], vscale(f, m[c])))
}

/// The state of Gauss-Jordan elimination of `a0`: `a` is `inv * a0`, has the kernel
/// of `a0`, and `inv` is injective.
pub open spec fn elimination_state(a: Seq<Seq<u8>>, inv: Seq<Seq<u8>>, a0: Seq<Seq<u8>>, n: nat) -> bool {
    &&& is_matrix(a, n, n)
    &&& is_matrix(inv, n, n)
    &&& is_matrix(a0, n, n)
    &&& forall|r: int| 0 <= r < n ==> #[trigger] comb(inv[r], a0, n, n) == a[r]
    &&& same_kernel(a, a0, n)
    &&& is_injective(inv, n)
}

/// Exchanging two rows keeps the kernel.
proof fn lemma_kernel_swap(m: Seq<Seq<u8>>, n: nat, i: int, j: int, x: Seq<u8>)
    requires
        0 <= i < m.len(),
        0 <= j < m.len(),
    ensures
        annihilates(swap_rows(m, i, j), x, n) == annihilates(m, x, n),
{
    let s = swap_rows(m, i, j);
    if annihilates(m, x, n) {
        assert forall|r: int| 0 <= r < s.len() implies #[trigger] dot(s[r], x, n) == 0 by {
            if r == j {
                assert(dot(m[i], x, n) == 0);
            } else if r == i {
                assert(dot(m[j], x, n) == 0);
            } else {
                assert(dot(m[r], x, n) == 0);
            }
        }
    }
    if annihilates(s, x, n) {
        assert forall|r: int| 0 <= r < m.len() implies #[trigger] dot(m[r], x, n) == 0 by {
            if r == j {
                assert(dot(s[i], x, n) == 0);
            } else if r == i {
                assert(dot(s[j], x, n) == 0);
            } else {
                assert(dot(s[r], x, n) == 0);
            }
        }
    }
}

/// Scaling a row by a non-zero factor keeps the kernel.
proof fn lemma_kernel_scale(m: Seq<Seq<u8>>, n: nat, i: int, f: u8, x: Seq<u8>)
    requires
        0 <= i < m.len(),
        n <= m[i].len(),
        f != 0,
    ensures
        annihilates(scale_row(m, i, f), x, n) == annihilates(m, x, n),
{
    let s = scale_row(m, i, f);
    lemma_dot_scale_left(f, m[i], x, n);
    lemma_mul_unit(f);
    crate::gf8::lemma_no_zero_divisors(f, dot(m[i], x, n));
    if annihilates(m, x, n) {
        assert forall|r: int| 0 <= r < s.len() implies #[trigger] dot(s[r], x, n) == 0 by {
            assert(dot(m[r], x, n) == 0);
        }
    }
    if annihilates(s, x, n) {
        assert forall|r: int| 0 <= r < m.len() implies #[trigger] dot(m[r], x, n) == 0 by {
            assert(dot(s[r], x, n) == 0);
        }
    }
}

/// Adding a multiple of one row to another keeps the kernel.
proof fn lemma_kernel_add(m: Seq<Seq<u8>>, n: nat, r0: int, f: u8, c: int, x: Seq<u8>)
    requires
        0 <= r0 < m.len(),
        0 <= c < m.len(),
        r0 != c,
        n <= m[r0].len(),
        n <= m[c].len(),
    ensures
        annihilates(add_row(m, r0, f, c), x, n) == annihilates(m, x, n),
{
    let s = add_row(m, r0, f, c);
    lemma_dot_xor_left(m[r0], vscale(f, m[c]), x, n);
    lemma_dot_scale_left(f, m[c], x, n);
    lemma_mul_unit(f);
    lemma_xor(dot(m[r0], x, n), 0, 0);
    if annihilates(m, x, n) {
        assert forall|r: int| 0 <= r < s.len() implies #[trigger] dot(s[r], x, n) == 0 by {
            assert(dot(m[r], x, n) == 0);
            assert(dot(m[c], x, n) == 0);
        }
    }
    if annihilates(s, x, n) {
        assert forall|r: int| 0 <= r < m.len() implies #[trigger] dot(m[r], x, n) == 0 by {
            assert(dot(s[r], x, n) == 0);
            assert(dot(s[c], x, n) == 0);
        }
    }
}

/// Swapping two rows of both matrices keeps the elimination state.
pub proof fn lemma_elimination_swap(a: Seq<Seq<u8>>, inv: Seq<Seq<u8>>, a0: Seq<Seq<u8>>, n: nat, i: int, j: int)
    requires
        elimination_state(a, inv, a0, n),
        0 <= i < n,
        0 <= j < n,
    ensures
        elimination_state(swap_rows(a, i, j), swap_rows(inv, i, j), a0, n),
{
    let a2 = swap_rows(a, i, j);
    let inv2 = swap_rows(inv, i, j);
    assert forall|r: int| 0 <= r < n implies #[trigger] comb(inv2[r], a0, n, n) == a2[r] by {
        assert(comb(inv[r], a0, n, n) == a[r]);
        assert(comb(inv[i], a0, n, n) == a[i]);
        assert(comb(inv[j], a0, n, n) == a[j]);
    }
    assert forall|x: Seq<u8>| x.len() == n implies (#[trigger] annihilates(a2, x, n) <==> annihilates(a0, x, n)) by {
        lemma_kernel_swap(a, n, i, j, x);
        assert(annihilates(a, x, n) <==> annihilates(a0, x, n));
    }
    assert forall|x: Seq<u8>| x.len() == n && #[trigger] annihilates(inv2, x, n) implies is_zero(x) by {
        lemma_kernel_swap(inv, n, i, j, x);
        assert(annihilates(inv, x, n));
    }
}

/// Scaling a row of both matrices by a non-zero factor keeps the elimination state.
pub proof fn lemma_elimination_scale(a: Seq<Seq<u8>>, inv: Seq<Seq<u8>>, a0: Seq<Seq<u8>>, n: nat, i: int, f: u8)
    requires
        elimination_state(a, inv, a0, n),
        0 <= i < n,
        f != 0,
    ensures
        elimination_state(scale_row(a, i, f), scale_row(inv, i, f), a0, n),
{
    let a2 = scale_row(a, i, f);
    let inv2 = scale_row(inv, i, f);
    assert forall|r: int| 0 <= r < n implies #[trigger] comb(inv2[r], a0, n, n) == a2[r] by {
        assert(comb(inv[r], a0, n, n) == a[r]);
        if r == i {
            lemma_comb_scale(f, inv[i], a0, n, n);
        }
    }
    assert forall|x: Seq<u8>| x.len() == n implies (#[trigger] annihilates(a2, x, n) <==> annihilates(a0, x, n)) by {
        lemma_kernel_scale(a, n, i, f, x);
        assert(annihilates(a, x, n) <==> annihilates(a0, x, n));
    }
    assert forall|x: Seq<u8>| x.len() == n && #[trigger] annihilates(inv2, x, n) implies is_zero(x) by {
        lemma_kernel_scale(inv, n, i, f, x);
        assert(annihilates(inv, x, n));
    }
    assert(is_matrix(a2, n, n));
    assert(is_matrix(inv2, n, n));
}

/// Adding a multiple of one row to another, in both matrices, keeps the elimination state.
pub proof fn lemma_elimination_add(a: Seq<Seq<u8>>, inv: Seq<Seq<u8>>, a0: Seq<Seq<u8>>, n: nat, r0: int, f: u8, c: int)
    requires
        elimination_state(a, inv, a0, n),
        0 <= r0 < n,
        0 <= c < n,
        r0 != c,
    ensures
        elimination_state(add_row(a, r0, f, c), add_row(inv, r0, f, c), a0, n),
{
    let a2 = add_row(a, r0, f, c);
    let inv2 = add_row(inv, r0, f, c);
    assert forall|r: int| 0 <= r < n implies #[trigger] comb(inv2[r], a0, n, n) == a2[r] by {
        assert(comb(inv[r], a0, n, n) == a[r]);
        if r == r0 {
            assert(comb(inv[c], a0, n, n) == a[c]);
            lemma_comb_xor(inv[r0], vscale(f, inv[c]), a0, n, n);
            lemma_comb_scale(f, inv[c], a0, n, n);
        }
    }
    assert forall|x: Seq<u8>| x.len() == n implies (#[trigger] annihilates(a2, x, n) <==> annihilates(a0, x, n)) by {
        lemma_kernel_add(a, n, r0, f, c, x);
        assert(annihilates(a, x, n) <==> annihilates(a0, x, n));
    }
    assert forall|x: Seq<u8>| x.len() == n && #[trigger] annihilates(inv2, x, n) implies is_zero(x) by {
        lemma_kernel_add(inv, n, r0, f, c, x);
        assert(annihilates(inv, x, n));
    }
    assert(is_matrix(a2, n, n));
    assert(is_matrix(inv2, n, n));
}

/// Columns `0..col` of `a` are those of the identity matrix.
pub open spec fn unit_columns(a: Seq<Seq<u8>>, n: nat, col: int) -> bool {
    forall|r: int, k: int| 0 <= r < n && 0 <= k < col ==> #[trigger] a[r][k] == (if r == k { 1u8 } else { 0u8 })
}

/// Elimination starts from `a0` itself and the identity.
pub proof fn lemma_elimination_start(a0: Seq<Seq<u8>>, n: nat)
    requires
        is_matrix(a0, n, n),
    ensures
        elimination_state(a0, identity(n), a0, n),
        is_matrix(identity(n), n, n),
{
    let id = identity(n);
    assert forall|r: int| 0 <= r < n implies #[trigger] comb(id[r], a0, n, n) == a0[r] by {
        lemma_comb_unit(a0, n, n, r);
    }
    assert forall|x: Seq<u8>| x.len() == n && #[trigger] annihilates(id, x, n) implies is_zero(x) by {
        assert forall|k: int| 0 <= k < x.len() implies #[trigger] x[k] == 0 by {
            assert(dot(id[k], x, n) == 0);
            lemma_dot_unit(id[k], x, n, k);
        }
    }
}

/// When every column is a unit column, `inv` is the two-sided inverse of `a0`.
pub proof fn lemma_elimination_done(a: Seq<Seq<u8>>, inv: Seq<Seq<u8>>, a0: Seq<Seq<u8>>, n: nat)
    requires
        elimination_state(a, inv, a0, n),
        unit_columns(a, n, n as int),
    ensures
        mat_mul(inv, a0, n, n) == identity(n),
        mat_mul(a0, inv, n, n) == identity(n),
{
    assert forall|r: int| 0 <= r < n implies #[trigger] a[r] == unit(n, r) by {
        assert(a[r] =~= unit(n, r));
    }
    assert(mat_mul(inv, a0, n, n) =~= identity(n)) by {
        assert forall|r: int| 0 <= r < n implies #[trigger] mat_mul(inv, a0, n, n)[r] == identity(n)[r] by {
            assert(comb(inv[r], a0, n, n) == a[r]);
        }
    }
    // inv * (a0 * y) == y for every column y of inv, and inv is injective.
    assert forall|i: int| 0 <= i < n implies #[trigger] mat_mul(a0, inv, n, n)[i] == identity(n)[i] by {
        lemma_comb_len(a0[i], inv, n, n);
        assert forall|j: int| 0 <= j < n implies #[trigger] comb(a0[i], inv, n, n)[j] == unit(n, i)[j] by {
            let y = column(inv, j);
            let ay = mat_vec(a0, y, n);
            let w = vxor(ay, unit(n, j));
            assert forall|r: int| 0 <= r < n implies #[trigger] dot(inv[r], w, n) == 0 by {
                lemma_dot_xor_right(inv[r], ay, unit(n, j), n);
                lemma_comb_dot(inv[r], a0, n, n, y);
                assert(comb(inv[r], a0, n, n) == unit(n, r));
                lemma_dot_unit(unit(n, r), y, n, r);
                lemma_dot_unit_right(inv[r], unit(n, j), n, j);
                crate::gf8::lemma_xor(y[r], y[r], 0);
            }
            assert(annihilates(inv, w, n));
            assert(is_zero(w));
            assert(w[i] == 0);
            crate::gf8::lemma_xor(ay[i], unit(n, j)[i], 0);
            lemma_comb_index(a0[i], inv, n, n, j);
        }
        assert(comb(a0[i], inv, n, n) =~= unit(n, i));
    }
    assert(mat_mul(a0, inv, n, n) =~= identity(n));
}

/// If no row at or below `col` has a non-zero entry in column `col`, `a0` is not injective.
pub proof fn lemma_no_pivot(a: Seq<Seq<u8>>, inv: Seq<Seq<u8>>, a0: Seq<Seq<u8>>, n: nat, col: int)
    requires
        elimination_state(a, inv, a0, n),
        0 <= col < n,
        unit_columns(a, n, col),
        forall|r: int| col <= r < n ==> #[trigger] a[r][col] == 0,
    ensures
        !is_injective(a0, n),
{
    let v = Seq::new(n, |k: int| if k < col { a[k][col] } else if k == col { 1u8 } else { 0u8 });
    assert forall|r: int| 0 <= r < n implies #[trigger] dot(a[r], v, n) == 0 by {
        lemma_dot_unit(a[r], v, col as nat, r);
        assert(dot(a[r], v, (col + 1) as nat) == dot(a[r], v, col as nat) ^ gf_mul(a[r][col], 1));
        lemma_mul_unit(a[r][col]);
        lemma_dot_tail_zero(a[r], v, (col + 1) as nat, n);
        crate::gf8::lemma_xor(a[r][col], a[r][col], 0);
        crate::gf8::lemma_xor(0, 0, 0);
    }
    assert(annihilates(a, v, n));
    assert(annihilates(a0, v, n));
    assert(v[col] == 1);
}

/// Rows `s[0], s[1], ...` of `m`.
pub open spec fn select<A>(m: Seq<A>, s: Seq<int>) -> Seq<A> {
    Seq::new(s.len(), |k: int| m[s[k]])
}

/// `(A B) x == A (B x)`.
pub proof fn lemma_mat_vec_assoc(a: Seq<Seq<u8>>, b: Seq<Seq<u8>>, n: nat, p: nat, x: Seq<u8>)
    requires
        forall|i: int| 0 <= i < a.len() ==> n <= (#[trigger] a[i]).len(),
        is_matrix(b, n, p),
    ensures
        mat_vec(mat_mul(a, b, n, p), x, p) == mat_vec(a, mat_vec(b, x, p), n),
{
    assert forall|i: int| 0 <= i < a.len() implies #[trigger] mat_vec(mat_mul(a, b, n, p), x, p)[i]
        == mat_vec(a, mat_vec(b, x, p), n)[i] by {
        lemma_comb_dot(a[i], b, n, p, x);
    }
    assert(mat_vec(mat_mul(a, b, n, p), x, p) =~= mat_vec(a, mat_vec(b, x, p), n));
}

/// `(A B) C == A (B C)`.
pub proof fn lemma_mat_mul_assoc(
    a: Seq<Seq<u8>>,
    b: Seq<Seq<u8>>,
    c: Seq<Seq<u8>>,
    n: nat,
    p: nat,
    q: nat,
)
    requires
        forall|i: int| 0 <= i < a.len() ==> n <= (#[trigger] a[i]).len(),
        is_matrix(b, n, p),
        is_matrix(c, p, q),
    ensures
        mat_mul(mat_mul(a, b, n, p), c, p, q) == mat_mul(a, mat_mul(b, c, p, q), n, q),
{
    let ab = mat_mul(a, b, n, p);
    let bc = mat_mul(b, c, p, q);
    assert forall|i: int| 0 <= i < a.len() implies #[trigger] mat_mul(ab, c, p, q)[i] == mat_mul(
        a,
        bc,
        n,
        q,
    )[i] by {
        lemma_comb_len(ab[i], c, p, q);
        lemma_comb_len(a[i], bc, n, q);
        lemma_comb_len(a[i], b, n, p);
        assert forall|j: int| 0 <= j < q implies #[trigger] comb(ab[i], c, p, q)[j] == comb(
            a[i],
            bc,
            n,
            q,
        )[j] by {
            lemma_comb_index(ab[i], c, p, q, j);
            lemma_comb_dot(a[i], b, n, p, column(c, j));
            assert forall|k: int| 0 <= k < n implies (#[trigger] bc[k]).len() == q by {
                lemma_comb_len(b[k], c, p, q);
            }
            lemma_comb_index(a[i], bc, n, q, j);
            assert forall|k: int| 0 <= k < n implies a[i][k] == a[i][k] && #[trigger] mat_vec(
                b,
                column(c, j),
                p,
            )[k] == column(bc, j)[k] by {
                lemma_comb_index(b[k], c, p, q, j);
            }
            lemma_dot_ext(a[i], mat_vec(b, column(c, j), p), a[i], column(bc, j), n);
        }
        assert(comb(ab[i], c, p, q) =~= comb(a[i], bc, n, q));
    }
    assert(mat_mul(ab, c, p, q) =~= mat_mul(a, bc, n, q));
}

/// `I x == x`.
pub proof fn lemma_identity_mat_vec(x: Seq<u8>, n: nat)
    requires
        x.len() == n,
    ensures
        mat_vec(identity(n), x, n) == x,
{
    assert forall|i: int| 0 <= i < n implies #[trigger] mat_vec(identity(n), x, n)[i] == x[i] by {
        lemma_dot_unit(unit(n, i), x, n, i);
    }
    assert(mat_vec(identity(n), x, n) =~= x);
}

/// `I B == B`.
pub proof fn lemma_identity_mat_mul(b: Seq<Seq<u8>>, n: nat, p: nat)
    requires
        is_matrix(b, n, p),
    ensures
        mat_mul(identity(n), b, n, p) == b,
{
    assert forall|i: int| 0 <= i < n implies #[trigger] mat_mul(identity(n), b, n, p)[i] == b[i] by {
        lemma_comb_unit(b, n, p, i);
    }
    assert(mat_mul(identity(n), b, n, p) =~= b);
}

/// The shape of a product.
pub proof fn lemma_mat_mul_is_matrix(a: Seq<Seq<u8>>, b: Seq<Seq<u8>>, r: nat, n: nat, p: nat)
    requires
        is_matrix(a, r, n),
    ensures
        is_matrix(mat_mul(a, b, n, p), r, p),
{
    assert forall|i: int| 0 <= i < r implies (#[trigger] mat_mul(a, b, n, p)[i]).len() == p by {
        lemma_comb_len(a[i], b, n, p);
    }
}

/// `sum_{k < a + b} == sum_{k < a} + sum_{a <= k < a + b}`.
pub proof fn lemma_dot_split(u: Seq<u8>, v: Seq<u8>, a: nat, b: nat)
    requires
        a + b <= u.len(),
        a + b <= v.len(),
    ensures
        dot(u, v, a + b) == dot(u, v, a) ^ dot(u.skip(a as int), v.skip(a as int), b),
    decreases b,
{
    if b == 0 {
        lemma_xor(dot(u, v, a), 0, 0);
    } else {
        lemma_dot_split(u, v, a, (b - 1) as nat);
        assert(dot(u, v, a + b) == dot(u, v, (a + b - 1) as nat) ^ gf_mul(u[a + b - 1], v[a + b - 1]));
        lemma_xor(
            dot(u, v, a),
            dot(u.skip(a as int), v.skip(a as int), (b - 1) as nat),
            gf_mul(u[a + b - 1], v[a + b - 1]),
        );
    }
}

/// A sum of three products.
pub proof fn lemma_dot3(u: Seq<u8>, v: Seq<u8>)
    ensures
        dot(u, v, 3) == gf_mul(u[0], v[0]) ^ gf_mul(u[1], v[1]) ^ gf_mul(u[2], v[2]),
{
    reveal_with_fuel(dot, 4);
    lemma_xor(gf_mul(u[0], v[0]), 0, 0);
}

} // verus!
