use vstd::prelude::*;

use crate::gf8::{gf_mul, lemma_mul_comm, lemma_mul_unit, lemma_xor, GF8};
use crate::gf8::gf_pow;
use crate::reed_solomon::code::{
    arranged, arranged_from, combination_count, combinations_from, fixes_missing, is_outside_triple, lemma_combinations_len, is_increasing, lemma_arranged,
    lemma_combinations_distinct, lemma_combinations_members, lemma_fix_row,
    lemma_increasing_same_elements, lemma_outside, outside, outside_at, lemma_combination_count, decodes, is_generator, lemma_fix_decodes, lemma_generator_rows_injective, lemma_parity_columns_injective, parity_check,
    parity_check_data, parity_check_parity, valid_positions,
};
use crate::reed_solomon::linalg::{
    add_row, column, comb, dot, elimination_state, identity, is_injective,
    lemma_comb_index, lemma_comb_len, lemma_elimination_add, lemma_elimination_done,
    lemma_elimination_scale, lemma_elimination_start, lemma_elimination_swap,
    lemma_identity_mat_mul, lemma_mat_mul_assoc, lemma_no_pivot, mat_mul, scale_row, select,
    swap_rows, unit, unit_columns, vscale, vxor,
};

verus! {

/// Number of blocks per stripe.
pub const RS_N: usize = 9;

/// Number of data blocks per stripe.
pub const RS_K: usize = 6;

/// Number of parity blocks per stripe.
pub const RS_M: usize = RS_N - RS_K;

/// The indices in `rows`, as integers.
pub open spec fn positions<const K: usize>(rows: [usize; K]) -> Seq<int> {
    Seq::new(K as nat, |k: int| rows[k] as int)
}

/// The entries of a row, as bytes.
pub open spec fn row_seq<const C: usize>(r: [GF8; C]) -> Seq<u8> {
    Seq::new(C as nat, |j: int| r[j]@)
}

/// The entries of a matrix, as bytes, row by row.
pub open spec fn mat_view<const R: usize, const C: usize>(m: [[GF8; C]; R]) -> Seq<Seq<u8>> {
    Seq::new(R as nat, |i: int| row_seq(m[i]))
}

/// `f * row`.
fn row_scaled<const N: usize>(row: [GF8; N], f: GF8) -> (r: [GF8; N])
    ensures
        row_seq(r) == vscale(f@, row_seq(row)),
{
    let mut out = row;
    let mut j: usize = 0;
    while j < N
        invariant
            j <= N,
            forall|k: int| 0 <= k < j ==> #[trigger] out[k]@ == gf_mul(f@, row[k]@),
            forall|k: int| j <= k < N ==> #[trigger] out[k] == row[k],
        decreases N - j,
    {
        let x = out[j].mul(f);
        proof {
            lemma_mul_comm(row[j as int]@, f@);
        }
        out[j] = x;
        j += 1;
    }
    assert(row_seq(out) =~= vscale(f@, row_seq(row)));
    out
}

/// `row + f * other`.
fn row_added<const N: usize>(row: [GF8; N], f: GF8, other: [GF8; N]) -> (r: [GF8; N])
    ensures
        row_seq(r) == vxor(row_seq(row), vscale(f@, row_seq(other))),
{
    let mut out = row;
    let mut j: usize = 0;
    while j < N
        invariant
            j <= N,
            forall|k: int| 0 <= k < j ==> #[trigger] out[k]@ == row[k]@ ^ gf_mul(f@, other[k]@),
            forall|k: int| j <= k < N ==> #[trigger] out[k] == row[k],
        decreases N - j,
    {
        let x = out[j].add(f.mul(other[j]));
        out[j] = x;
        j += 1;
    }
    assert(row_seq(out) =~= vxor(row_seq(row), vscale(f@, row_seq(other))));
    out
}

/// The identity matrix.
fn identity_matrix<const N: usize>() -> (r: [[GF8; N]; N])
    ensures
        mat_view(r) == identity(N as nat),
{
    let mut inv = [[GF8::new(0); N]; N];
    let mut i: usize = 0;
    while i < N
        invariant
            i <= N,
            forall|r: int, k: int| 0 <= r < N && 0 <= k < N ==> #[trigger] inv[r][k]@ == (if r < i && r == k { 1u8 } else { 0u8 }),
        decreases N - i,
    {
        let mut row = inv[i];
        row[i] = GF8::new(1);
        inv[i] = row;
        i += 1;
    }
    assert forall|r: int| 0 <= r < N implies #[trigger] mat_view(inv)[r] == identity(N as nat)[r] by {
        assert(row_seq(inv[r]) =~= unit(N as nat, r));
    }
    assert(mat_view(inv) =~= identity(N as nat));
    inv
}

/// Inverts a square matrix by Gauss-Jordan elimination. Only matrices that send no
/// non-zero vector to zero (the invertible ones) are accepted.
#[verifier::loop_isolation(false)]
pub fn invert_matrix<const N: usize>(a: [[GF8; N]; N]) -> (inv: [[GF8; N]; N])
    requires
        is_injective(mat_view(a), N as nat),
    ensures
        mat_mul(mat_view(inv), mat_view(a), N as nat, N as nat) == identity(N as nat),
        mat_mul(mat_view(a), mat_view(inv), N as nat, N as nat) == identity(N as nat),
{
    let ghost a0 = mat_view(a);
    let ghost n = N as nat;
    let mut a = a;
    let mut inv = identity_matrix::<N>();
    proof {
        lemma_elimination_start(a0, n);
    }
    let mut col: usize = 0;
    while col < N
        invariant
            col <= N,
            elimination_state(mat_view(a), mat_view(inv), a0, n),
            unit_columns(mat_view(a), n, col as int),
        decreases N - col,
    {
        let mut pivot = col;
        while pivot < N && a[pivot][col].value() == 0
            invariant
                col <= pivot <= N,
                forall|r: int| col <= r < pivot ==> #[trigger] mat_view(a)[r][col as int] == 0,
            decreases N - pivot,
        {
            pivot += 1;
        }
        if pivot == N {
            proof {
                lemma_no_pivot(mat_view(a), mat_view(inv), a0, n, col as int);
            }
            return inv;
        }
        if pivot != col {
            let ghost va = mat_view(a);
            let ghost vi = mat_view(inv);
            let tmp = a[col];
            a[col] = a[pivot];
            a[pivot] = tmp;
            let tmp = inv[col];
            inv[col] = inv[pivot];
            inv[pivot] = tmp;
            proof {
                assert(mat_view(a) =~= swap_rows(va, col as int, pivot as int));
                assert(mat_view(inv) =~= swap_rows(vi, col as int, pivot as int));
                lemma_elimination_swap(va, vi, a0, n, col as int, pivot as int);
                assert forall|r: int, k: int| 0 <= r < n && 0 <= k < col implies #[trigger] mat_view(a)[r][k] == (if r == k { 1u8 } else { 0u8 }) by {
                    assert(va[r][k] == (if r == k { 1u8 } else { 0u8 }));
                    assert(va[col as int][k] == 0u8);
                    assert(va[pivot as int][k] == 0u8);
                }
            }
        }
        let pivot_inv = a[col][col].inv();
        proof {
            lemma_mul_unit(mat_view(a)[col as int][col as int]);
        }
        let ghost va = mat_view(a);
        let ghost vi = mat_view(inv);
        let scaled = row_scaled(a[col], pivot_inv);
        a[col] = scaled;
        let scaled = row_scaled(inv[col], pivot_inv);
        inv[col] = scaled;
        proof {
            assert(mat_view(a) =~= scale_row(va, col as int, pivot_inv@));
            assert(mat_view(inv) =~= scale_row(vi, col as int, pivot_inv@));
            lemma_elimination_scale(va, vi, a0, n, col as int, pivot_inv@);
            lemma_mul_comm(pivot_inv@, va[col as int][col as int]);
            assert forall|r: int, k: int| 0 <= r < n && 0 <= k < col implies #[trigger] mat_view(a)[r][k] == (if r == k { 1u8 } else { 0u8 }) by {
                assert(va[r][k] == (if r == k { 1u8 } else { 0u8 }));
                lemma_mul_unit(pivot_inv@);
            }
        }
        let mut row: usize = 0;
        while row < N
            invariant
                0 <= col < N,
                row <= N,
                elimination_state(mat_view(a), mat_view(inv), a0, n),
                unit_columns(mat_view(a), n, col as int),
                mat_view(a)[col as int][col as int] == 1,
                forall|r: int| 0 <= r < row && r != col ==> #[trigger] mat_view(a)[r][col as int] == 0,
            decreases N - row,
        {
            if row != col {
                let factor = a[row][col];
                if factor.value() != 0 {
                    let ghost va = mat_view(a);
                    let ghost vi = mat_view(inv);
                    let added = row_added(a[row], factor, a[col]);
                    a[row] = added;
                    let added = row_added(inv[row], factor, inv[col]);
                    inv[row] = added;
                    proof {
                        assert(mat_view(a) =~= add_row(va, row as int, factor@, col as int));
                        assert(mat_view(inv) =~= add_row(vi, row as int, factor@, col as int));
                        lemma_elimination_add(va, vi, a0, n, row as int, factor@, col as int);
                        lemma_mul_unit(factor@);
                        lemma_xor(factor@, factor@, 0);
                        assert forall|r: int, k: int| 0 <= r < n && 0 <= k < col implies #[trigger] mat_view(a)[r][k] == (if r == k { 1u8 } else { 0u8 }) by {
                            assert(va[r][k] == (if r == k { 1u8 } else { 0u8 }));
                            assert(va[col as int][k] == 0u8);
                            lemma_mul_unit(factor@);
                            lemma_xor(va[r][k], 0, 0);
                        }
                    }
                }
            }
            row += 1;
        }
        col += 1;
    }
    proof {
        lemma_elimination_done(mat_view(a), mat_view(inv), a0, n);
    }
    inv
}

/// The product of an `M x N` and an `N x P` matrix.
pub fn matmul<const M: usize, const N: usize, const P: usize>(
    a: [[GF8; N]; M],
    b: [[GF8; P]; N],
) -> (out: [[GF8; P]; M])
    ensures
        mat_view(out) == mat_mul(mat_view(a), mat_view(b), N as nat, P as nat),
{
    let ghost va = mat_view(a);
    let ghost vb = mat_view(b);
    let mut out = [[GF8::new(0); P]; M];
    let mut i: usize = 0;
    while i < M
        invariant
            i <= M,
            va == mat_view(a),
            vb == mat_view(b),
            forall|r: int| 0 <= r < i ==> #[trigger] row_seq(out[r]) == comb(va[r], vb, N as nat, P as nat),
        decreases M - i,
    {
        let mut row = out[i];
        let mut j: usize = 0;
        while j < P
            invariant
                i < M,
                j <= P,
                va == mat_view(a),
                vb == mat_view(b),
                forall|c: int| 0 <= c < j ==> #[trigger] row[c]@ == dot(va[i as int], column(vb, c), N as nat),
            decreases P - j,
        {
            let mut acc = GF8::new(0);
            let mut k: usize = 0;
            while k < N
                invariant
                    i < M,
                    j < P,
                    k <= N,
                    va == mat_view(a),
                    vb == mat_view(b),
                    acc@ == dot(va[i as int], column(vb, j as int), k as nat),
                decreases N - k,
            {
                acc = acc.add(a[i][k].mul(b[k][j]));
                k += 1;
            }
            row[j] = acc;
            j += 1;
        }
        proof {
            lemma_comb_len(va[i as int], vb, N as nat, P as nat);
            assert forall|c: int| 0 <= c < P implies #[trigger] row_seq(row)[c] == comb(va[i as int], vb, N as nat, P as nat)[c] by {
                lemma_comb_index(va[i as int], vb, N as nat, P as nat, c);
            }
            assert(row_seq(row) =~= comb(va[i as int], vb, N as nat, P as nat));
        }
        out[i] = row;
        i += 1;
    }
    assert(mat_view(out) =~= mat_mul(va, vb, N as nat, P as nat));
    out
}

/// The rows `rows[0], rows[1], ...` of `matrix`.
pub fn select_rows<const N: usize, const M: usize, const K: usize>(
    matrix: [[GF8; M]; N],
    rows: [usize; K],
) -> (out: [[GF8; M]; K])
    requires
        forall|i: int| 0 <= i < K ==> #[trigger] rows[i] < N,
    ensures
        mat_view(out) == select(mat_view(matrix), positions(rows)),
{
    let mut out = [[GF8::new(0); M]; K];
    let mut i: usize = 0;
    while i < K
        invariant
            i <= K,
            forall|i: int| 0 <= i < K ==> #[trigger] rows[i] < N,
            forall|r: int| 0 <= r < i ==> #[trigger] out[r] == matrix[rows[r] as int],
        decreases K - i,
    {
        let row = rows[i];
        out[i] = matrix[row];
        i += 1;
    }
    assert(mat_view(out) =~= select(mat_view(matrix), positions(rows)));
    out
}

/// The parity-check matrix `H[i][j] = 2^((i + 1) * j)`.
pub fn compute_h_matrix() -> (result: [[GF8; RS_N]; RS_M])
    ensures
        mat_view(result) == parity_check(),
{
    let mut result = [[GF8::new(0); RS_N]; RS_M];
    let mut i: usize = 0;
    while i < RS_M
        invariant
            i <= RS_M,
            forall|r: int, c: int| 0 <= r < i && 0 <= c < RS_N ==> #[trigger] result[r][c]@ == gf_pow(2, ((r + 1) * c) as nat),
        decreases RS_M - i,
    {
        let mut row = result[i];
        let mut j: usize = 0;
        while j < RS_N
            invariant
                i < RS_M,
                j <= RS_N,
                forall|c: int| 0 <= c < j ==> #[trigger] row[c]@ == gf_pow(2, ((i + 1) * c) as nat),
            decreases RS_N - j,
        {
            let mut x = GF8::new(1);
            let mut k: usize = 0;
            assert((i + 1) * j <= 27) by (nonlinear_arith)
                requires
                    i < 3,
                    j < 9,
            ;
            while k < ((i + 1) * j)
                invariant
                    i < RS_M,
                    j < RS_N,
                    k <= (i + 1) * j,
                    (i + 1) * j <= 27,
                    x@ == gf_pow(2, k as nat),
                decreases (i + 1) * j - k,
            {
                x = x.mul(GF8::new(2));
                k += 1;
            }
            row[j] = x;
            j += 1;
        }
        result[i] = row;
        i += 1;
    }
    assert forall|r: int| 0 <= r < RS_M implies #[trigger] mat_view(result)[r] == parity_check()[r] by {
        assert(mat_view(result)[r] =~= parity_check()[r]);
    }
    assert(mat_view(result) =~= parity_check());
    result
}

/// The columns of `H` at the data positions.
pub fn compute_h_m_matrix() -> (result: [[GF8; RS_K]; RS_M])
    ensures
        mat_view(result) == parity_check_data(),
{
    let h = compute_h_matrix();
    let mut result = [[GF8::new(0); RS_K]; RS_M];
    let mut i: usize = 0;
    while i < RS_M
        invariant
            i <= RS_M,
            mat_view(h) == parity_check(),
            forall|r: int, c: int| 0 <= r < i && 0 <= c < RS_K ==> #[trigger] result[r][c] == h[r][c],
        decreases RS_M - i,
    {
        let mut row = result[i];
        let mut j: usize = 0;
        while j < RS_K
            invariant
                i < RS_M,
                j <= RS_K,
                forall|c: int| 0 <= c < j ==> #[trigger] row[c] == h[i as int][c],
            decreases RS_K - j,
        {
            row[j] = h[i][j];
            j += 1;
        }
        result[i] = row;
        i += 1;
    }
    assert forall|r: int| 0 <= r < RS_M implies #[trigger] mat_view(result)[r] == parity_check_data()[r] by {
        assert(mat_view(result)[r] =~= parity_check_data()[r]);
    }
    assert(mat_view(result) =~= parity_check_data());
    result
}

/// The columns of `H` at the parity positions.
pub fn compute_h_p_matrix() -> (result: [[GF8; RS_M]; RS_M])
    ensures
        mat_view(result) == parity_check_parity(),
{
    let h = compute_h_matrix();
    let mut result = [[GF8::new(0); RS_M]; RS_M];
    let mut i: usize = 0;
    while i < RS_M
        invariant
            i <= RS_M,
            mat_view(h) == parity_check(),
            forall|r: int, c: int| 0 <= r < i && 0 <= c < RS_M ==> #[trigger] result[r][c] == h[r][c + RS_K],
        decreases RS_M - i,
    {
        let mut row = result[i];
        let mut j: usize = 0;
        while j < RS_M
            invariant
                i < RS_M,
                j <= RS_M,
                forall|c: int| 0 <= c < j ==> #[trigger] row[c] == h[i as int][c + RS_K],
            decreases RS_M - j,
        {
            row[j] = h[i][j + RS_K];
            j += 1;
        }
        result[i] = row;
        i += 1;
    }
    assert forall|r: int| 0 <= r < RS_M implies #[trigger] mat_view(result)[r] == parity_check_parity()[r] by {
        assert(mat_view(result)[r] =~= parity_check_parity()[r]);
    }
    assert(mat_view(result) =~= parity_check_parity());
    result
}

/// The parity matrix `P = H_parity^-1 H_data`: parity symbols are `P m` for a message `m`.
pub fn compute_p_matrix() -> (result: [[GF8; RS_K]; RS_M])
    ensures
        mat_mul(parity_check_parity(), mat_view(result), 3, 6) == parity_check_data(),
{
    let h_p = compute_h_p_matrix();
    let h_m = compute_h_m_matrix();
    proof {
        lemma_parity_columns_injective();
    }
    let inv = invert_matrix(h_p);
    let p = matmul(inv, h_m);
    proof {
        lemma_mat_mul_assoc(mat_view(h_p), mat_view(inv), mat_view(h_m), 3, 3, 6);
        lemma_identity_mat_mul(mat_view(h_m), 3, 6);
    }
    p
}

/// The systematic generator matrix: the identity on top of `P`.
pub fn compute_g() -> (result: [[GF8; RS_K]; RS_N])
    ensures
        is_generator(mat_view(result)),
{
    let p = compute_p_matrix();
    let mut result = [[GF8::new(0); RS_K]; RS_N];
    let mut i: usize = 0;
    while i < RS_N
        invariant
            i <= RS_N,
            forall|r: int, c: int| 0 <= r < i && 0 <= c < RS_K ==> #[trigger] result[r][c]@ == (if r < RS_K {
                if r == c { 1u8 } else { 0u8 }
            } else {
                p[r - RS_K][c]@
            }),
        decreases RS_N - i,
    {
        let mut row = result[i];
        let mut j: usize = 0;
        while j < RS_K
            invariant
                i < RS_N,
                j <= RS_K,
                forall|c: int| 0 <= c < j ==> #[trigger] row[c]@ == (if i < RS_K {
                    if i == c { 1u8 } else { 0u8 }
                } else {
                    p[i - RS_K][c]@
                }),
            decreases RS_K - j,
        {
            row[j] = if i < RS_K {
                GF8::new(if i == j { 1 } else { 0 })
            } else {
                p[i - RS_K][j]
            };
            j += 1;
        }
        result[i] = row;
        i += 1;
    }
    let ghost g = mat_view(result);
    assert forall|r: int| 0 <= r < 6 implies #[trigger] g[r] == unit(6, r) by {
        assert(g[r] =~= unit(6, r));
    }
    assert forall|r: int| 0 <= r < 3 implies #[trigger] g.skip(6)[r] == mat_view(p)[r] by {
        assert(g.skip(6)[r] =~= mat_view(p)[r]);
    }
    assert(g.skip(6) =~= mat_view(p));
    result
}

/// The matrix that maps the six blocks at `indices` to all nine blocks of the stripe:
/// `G (G_indices)^-1`.
pub fn compute_fix_matrix(indices: [usize; RS_K]) -> (result: [[GF8; RS_K]; RS_N])
    requires
        valid_positions(positions(indices)),
    ensures
        decodes(mat_view(result), positions(indices)),
{
    let g = compute_g();
    proof {
        assert forall|i: int| 0 <= i < RS_K implies #[trigger] indices[i] < RS_N by {
            assert(positions(indices)[i] == indices[i] as int);
        }
        lemma_generator_rows_injective(mat_view(g), positions(indices));
    }
    let gs = select_rows(g, indices);
    let inv = invert_matrix(gs);
    let f = matmul(g, inv);
    proof {
        lemma_fix_decodes(mat_view(g), mat_view(inv), positions(indices));
    }
    f
}

/// The entries of `combinations_from(6, 0)` from index `idx` on begin with the
/// completions of `p` by `k` increasing positions from `x` on, in order.
pub open spec fn upcoming(p: Seq<int>, k: nat, x: int, idx: int) -> bool {
    forall|j: int|
        0 <= j < combination_count(k, x) ==> combinations_from(6, 0)[idx + j] == p + #[trigger] combinations_from(
            k,
            x,
        )[j]
}

/// Completing `p` from `x` on is first completing `p + [x]` from `x + 1` on, then
/// completing `p` from `x + 1` on.
proof fn lemma_upcoming_split(p: Seq<int>, k: nat, x: int, idx: int)
    requires
        k >= 1,
        0 <= x,
        x + k <= 9,
        upcoming(p, k, x, idx),
    ensures
        combination_count(k, x) == combination_count((k - 1) as nat, x + 1) + combination_count(k, x + 1),
        upcoming(p.push(x), (k - 1) as nat, x + 1, idx),
        upcoming(p, k, x + 1, idx + combination_count((k - 1) as nat, x + 1)),
{
    lemma_combinations_len((k - 1) as nat, x + 1);
    lemma_combinations_len(k, x + 1);
    lemma_combinations_len(k, x);
    let first = combinations_from((k - 1) as nat, x + 1);
    let mapped = first.map_values(|t: Seq<int>| seq![x] + t);
    let n1 = combination_count((k - 1) as nat, x + 1);
    assert(combinations_from(k, x) == mapped + combinations_from(k, x + 1));
    assert forall|j: int| 0 <= j < n1 implies combinations_from(6, 0)[idx + j] == p.push(x) + #[trigger] first[j] by {
        assert(combinations_from(k, x)[j] == mapped[j]);
        assert(p + (seq![x] + first[j]) =~= p.push(x) + first[j]);
    }
    assert forall|j: int| 0 <= j < combination_count(k, x + 1) implies combinations_from(6, 0)[idx + n1 + j] == p
        + #[trigger] combinations_from(k, x + 1)[j] by {
        assert(combinations_from(k, x)[n1 + j] == combinations_from(k, x + 1)[j]);
        assert(idx + n1 + j == idx + (n1 + j));
    }
}

/// All 84 ways to choose 6 of the 9 positions, each in increasing order, listed in
/// lexicographic order.
pub fn compute_combinations() -> (out: [[usize; RS_K]; 84])
    ensures
        forall|i: int| 0 <= i < 84 ==> #[trigger] positions(out[i]) == combinations_from(6, 0)[i],
{
    let mut out = [[0usize; RS_K]; 84];
    let mut idx: usize = 0;
    proof {
        lemma_combination_count();
        lemma_combinations_len(6, 0);
        assert forall|j: int| 0 <= j < combination_count(6, 0) implies combinations_from(6, 0)[0 + j]
            == Seq::<int>::empty() + #[trigger] combinations_from(6, 0)[j] by {
            assert(Seq::<int>::empty() + combinations_from(6, 0)[j] =~= combinations_from(6, 0)[j]);
        }
    }
    let mut a: usize = 0;
    while a <= 3
        invariant
            idx + combination_count(6, a as int) == 84,
            upcoming(seq![], 6, a as int, idx as int),
            forall|m: int| 0 <= m < idx ==> #[trigger] positions(out[m]) == combinations_from(6, 0)[m],
        decreases 4 - a,
    {
        proof {
            lemma_upcoming_split(seq![], 6, a as int, idx as int);
        }
        let ghost end_a = idx + combination_count(5, a + 1);
        let mut b: usize = a + 1;
        while b <= 4
            invariant
                idx + combination_count(5, b as int) == end_a,
                end_a <= 84,
                upcoming(seq![a as int], 5, b as int, idx as int),
                forall|m: int| 0 <= m < idx ==> #[trigger] positions(out[m]) == combinations_from(6, 0)[m],
            decreases 5 - b,
        {
            proof {
                lemma_upcoming_split(seq![a as int], 5, b as int, idx as int);
                assert(seq![a as int].push(b as int) =~= seq![a as int, b as int]);
            }
            let ghost end_b = idx + combination_count(4, b + 1);
            let mut c: usize = b + 1;
            while c <= 5
                invariant
                    idx + combination_count(4, c as int) == end_b,
                    end_b <= 84,
                    upcoming(seq![a as int, b as int], 4, c as int, idx as int),
                    forall|m: int| 0 <= m < idx ==> #[trigger] positions(out[m]) == combinations_from(6, 0)[m],
                decreases 6 - c,
            {
                proof {
                    lemma_upcoming_split(seq![a as int, b as int], 4, c as int, idx as int);
                    assert(seq![a as int, b as int].push(c as int) =~= seq![a as int, b as int, c as int]);
                }
                let ghost end_c = idx + combination_count(3, c + 1);
                let mut d: usize = c + 1;
                while d <= 6
                    invariant
                        idx + combination_count(3, d as int) == end_c,
                        end_c <= 84,
                        upcoming(seq![a as int, b as int, c as int], 3, d as int, idx as int),
                        forall|m: int| 0 <= m < idx ==> #[trigger] positions(out[m]) == combinations_from(6, 0)[m],
                    decreases 7 - d,
                {
                    proof {
                        lemma_upcoming_split(seq![a as int, b as int, c as int], 3, d as int, idx as int);
                        assert(seq![a as int, b as int, c as int].push(d as int) =~= seq![
                            a as int,
                            b as int,
                            c as int,
                            d as int,
                        ]);
                    }
                    let ghost end_d = idx + combination_count(2, d + 1);
                    let mut e: usize = d + 1;
                    while e <= 7
                        invariant
                            idx + combination_count(2, e as int) == end_d,
                            end_d <= 84,
                            upcoming(seq![a as int, b as int, c as int, d as int], 2, e as int, idx as int),
                            forall|m: int| 0 <= m < idx ==> #[trigger] positions(out[m]) == combinations_from(6, 0)[m],
                        decreases 8 - e,
                    {
                        proof {
                            lemma_upcoming_split(seq![a as int, b as int, c as int, d as int], 2, e as int, idx as int);
                            assert(seq![a as int, b as int, c as int, d as int].push(e as int) =~= seq![
                                a as int,
                                b as int,
                                c as int,
                                d as int,
                                e as int,
                            ]);
                        }
                        let ghost end_e = idx + combination_count(1, e + 1);
                        let mut f: usize = e + 1;
                        while f <= 8
                            invariant
                                idx + combination_count(1, f as int) == end_e,
                                end_e <= 84,
                                upcoming(seq![a as int, b as int, c as int, d as int, e as int], 1, f as int, idx as int),
                                forall|m: int| 0 <= m < idx ==> #[trigger] positions(out[m]) == combinations_from(6, 0)[m],
                            decreases 9 - f,
                        {
                            let ghost p = seq![a as int, b as int, c as int, d as int, e as int];
                            proof {
                                lemma_upcoming_split(p, 1, f as int, idx as int);
                                assert(combinations_from(0, f + 1)[0] == Seq::<int>::empty());
                                assert(combinations_from(6, 0)[idx + 0] == p.push(f as int) + combinations_from(0, f + 1)[0]);
                            }
                            out[idx] = [a, b, c, d, e, f];
                            proof {
                                assert(positions(out[idx as int]) =~= p.push(f as int));
                            }
                            idx += 1;
                            f += 1;
                        }
                        e += 1;
                    }
                    d += 1;
                }
                c += 1;
            }
            b += 1;
        }
        a += 1;
    }
    out
}

/// `p` is one of the positions recorded in the bit mask `m`.
pub open spec fn has_bit(m: usize, p: usize) -> bool {
    (m >> p) & 1usize == 1usize
}

/// The bit mask with bit `t[i]` set for every `i`.
pub open spec fn mask_value(t: Seq<int>) -> usize
    decreases t.len(),
{
    if t.len() == 0 {
        0
    } else {
        mask_value(t.drop_last()) | (1usize << (t.last() as usize))
    }
}

/// Setting bit `p` of a mask below `2^9` sets exactly that bit.
proof fn lemma_mask_bit(m: usize, p: usize, q: usize)
    by (bit_vector)
    requires
        m < 512,
        p < 9,
        q < 9,
    ensures
        (m | (1usize << p)) < 512,
        has_bit(m | (1usize << p), q) == (has_bit(m, q) || p == q),
        !has_bit(0, q),
{
}

/// The mask of a choice of positions records exactly those positions.
pub proof fn lemma_mask_value(t: Seq<int>)
    requires
        forall|i: int| 0 <= i < t.len() ==> 0 <= #[trigger] t[i] < 9,
    ensures
        mask_value(t) < 512,
        forall|q: int| 0 <= q < 9 ==> #[trigger] has_bit(mask_value(t), q as usize) == t.contains(q),
    decreases t.len(),
{
    if t.len() == 0 {
        assert forall|q: int| 0 <= q < 9 implies #[trigger] has_bit(mask_value(t), q as usize) == t.contains(q) by {
            lemma_mask_bit(0, 0, q as usize);
        }
    } else {
        let d = t.drop_last();
        lemma_mask_value(d);
        assert forall|q: int| 0 <= q < 9 implies #[trigger] has_bit(mask_value(t), q as usize) == t.contains(q) by {
            lemma_mask_bit(mask_value(d), t.last() as usize, q as usize);
            if d.contains(q) {
                let j = choose|j: int| 0 <= j < d.len() && d[j] == q;
                assert(t[j] == q);
            }
            if t.contains(q) && q != t.last() {
                let j = choose|j: int| 0 <= j < t.len() && t[j] == q;
                assert(d[j] == q);
            }
        }
        lemma_mask_bit(mask_value(d), t.last() as usize, 0);
    }
}

/// Two increasing choices of six positions with the same mask are equal.
pub proof fn lemma_mask_injective(t1: Seq<int>, t2: Seq<int>)
    requires
        t1.len() == 6,
        t2.len() == 6,
        is_increasing(t1),
        is_increasing(t2),
        forall|i: int| 0 <= i < 6 ==> 0 <= #[trigger] t1[i] < 9,
        forall|i: int| 0 <= i < 6 ==> 0 <= #[trigger] t2[i] < 9,
        mask_value(t1) == mask_value(t2),
    ensures
        t1 == t2,
{
    lemma_mask_value(t1);
    lemma_mask_value(t2);
    assert forall|q: int| t1.contains(q) == t2.contains(q) by {
        if 0 <= q < 9 {
            assert(has_bit(mask_value(t1), q as usize) == t1.contains(q));
            assert(has_bit(mask_value(t2), q as usize) == t2.contains(q));
        } else {
            if t1.contains(q) {
                let k = choose|k: int| 0 <= k < t1.len() && t1[k] == q;
                assert(0 <= t1[k] < 9);
            }
            if t2.contains(q) {
                let k = choose|k: int| 0 <= k < t2.len() && t2[k] == q;
                assert(0 <= t2[k] < 9);
            }
        }
    }
    lemma_increasing_same_elements(t1, t2);
}

/// For the mask of each choice of six positions, its index in `compute_combinations`;
/// `u8::MAX` for every other mask.
pub fn compute_bitmask_to_idx() -> (result: [u8; 512])
    ensures
        forall|i: int| 0 <= i < 84 ==> #[trigger] result[mask_value(combinations_from(6, 0)[i]) as int] == i,
        forall|m: int|
            0 <= m < 512 && (forall|i: int| 0 <= i < 84 ==> mask_value(#[trigger] combinations_from(6, 0)[i]) != m)
                ==> result[m] == u8::MAX,
{
    let combinations = compute_combinations();
    let ghost cs = combinations_from(6, 0);
    proof {
        lemma_combination_count();
    }
    let mut result = [u8::MAX; 512];
    let mut i: usize = 0;
    while i < 84
        invariant
            forall|j: int| 0 <= j < 84 ==> #[trigger] positions(combinations[j]) == cs[j],
            cs == combinations_from(6, 0),
            cs.len() == 84,
            i <= 84,
            forall|j: int| 0 <= j < i ==> #[trigger] result[mask_value(cs[j]) as int] == j,
            forall|m: int|
                0 <= m < 512 && (forall|j: int| 0 <= j < i ==> mask_value(#[trigger] cs[j]) != m) ==> result[m]
                    == u8::MAX,
        decreases 84 - i,
    {
        let combo = combinations[i];
        proof {
            assert(cs[i as int] == positions(combo));
            lemma_combinations_members(6, 0, i as int);
            lemma_mask_value(cs[i as int]);
        }
        let mut mask: usize = 0;
        let mut j: usize = 0;
        while j < RS_K
            invariant
                j <= RS_K,
                cs[i as int] == positions(combo),
                forall|k: int| 0 <= k < 6 ==> 0 <= #[trigger] cs[i as int][k] < 9,
                mask == mask_value(positions(combo).take(j as int)),
                mask < 512,
            decreases RS_K - j,
        {
            proof {
                assert(positions(combo)[j as int] == combo[j as int] as int);
                assert(positions(combo).take(j + 1).drop_last() =~= positions(combo).take(j as int));
                lemma_mask_bit(mask, combo[j as int], 0);
            }
            mask |= 1 << combo[j];
            j += 1;
        }
        proof {
            assert(positions(combo).take(6) =~= positions(combo));
            lemma_combinations_distinct(6, 0);
            assert forall|j: int| 0 <= j < i implies mask_value(#[trigger] cs[j]) != mask by {
                lemma_combinations_members(6, 0, j);
                if mask_value(cs[j]) == mask {
                    lemma_mask_injective(cs[j], cs[i as int]);
                }
            }
        }
        let ghost prev = result;
        result[mask] = i as u8;
        proof {
            assert(mask == mask_value(cs[i as int]));
            assert forall|j: int| 0 <= j < i + 1 implies #[trigger] result[mask_value(cs[j]) as int] == j by {
                if j < i {
                    lemma_combinations_members(6, 0, j);
                    lemma_mask_value(cs[j]);
                    assert(mask_value(cs[j]) != mask);
                    assert(prev[mask_value(cs[j]) as int] == j);
                }
            }
            assert forall|m: int|
                0 <= m < 512 && (forall|j: int| 0 <= j < i + 1 ==> mask_value(#[trigger] cs[j]) != m) implies result[m]
                    == u8::MAX by {
                assert(mask_value(cs[i as int]) != m);
                assert(prev[m] == u8::MAX);
            }
        }
        i += 1;
    }
    result
}

/// The three rows of a fix matrix, as bytes.
pub open spec fn rows_view(f3: [[u8; RS_K]; RS_M]) -> Seq<Seq<u8>> {
    Seq::new(3, |r: int| Seq::new(6, |c: int| f3[r][c]))
}

/// The rows of the fix matrix of the surviving positions `combo` at the three missing
/// positions, in increasing order.
fn fix_rows(combo: [usize; RS_K]) -> (fix: [[u8; RS_K]; RS_M])
    requires
        valid_positions(positions(combo)),
    ensures
        fixes_missing(rows_view(fix), positions(combo)),
{
    let ghost s = positions(combo);
    proof {
        lemma_outside(s);
    }
    let ghost t = outside(s);
    let mut mask = [true; RS_N];
    let mut j: usize = 0;
    while j < RS_K
        invariant
            j <= RS_K,
            s == positions(combo),
            forall|k: int| 0 <= k < 6 ==> 0 <= #[trigger] s[k] < 9,
            forall|p: int| 0 <= p < 9 ==> #[trigger] mask[p] == !s.take(j as int).contains(p),
        decreases RS_K - j,
    {
        proof {
            let sj1 = s.take(j + 1);
            let sj = s.take(j as int);
            assert forall|p: int| 0 <= p < 9 implies sj1.contains(p) == (sj.contains(p) || p == s[j as int]) by {
                if sj1.contains(p) {
                    let k = choose|k: int| 0 <= k < sj1.len() && sj1[k] == p;
                    if k < j {
                        assert(sj[k] == p);
                    }
                }
                if sj.contains(p) {
                    let k = choose|k: int| 0 <= k < sj.len() && sj[k] == p;
                    assert(sj1[k] == p);
                }
                if p == s[j as int] {
                    assert(sj1[j as int] == p);
                }
            }
        }
        proof {
            assert(s[j as int] == combo[j as int] as int);
        }
        mask[combo[j]] = false;
        j += 1;
    }
    proof {
        assert(s.take(6) =~= s);
    }
    let mut error_indices = [0usize; RS_M];
    let mut count: usize = 0;
    let mut j: usize = 0;
    while j < RS_N
        invariant
            j <= RS_N,
            is_outside_triple(s, t),
            forall|p: int| 0 <= p < 9 ==> #[trigger] mask[p] == !s.contains(p),
            count == (if j > t.2 { 3usize } else if j > t.1 { 2usize } else if j > t.0 { 1usize } else { 0usize }),
            forall|c: int| 0 <= c < count ==> #[trigger] error_indices[c] as int == (if c == 0 { t.0 } else if c == 1 { t.1 } else { t.2 }),
        decreases RS_N - j,
    {
        if mask[j] {
            error_indices[count] = j;
            count += 1;
        }
        j += 1;
    }
    let full = compute_fix_matrix(combo);
    let mut fix = [[0u8; RS_K]; RS_M];
    let mut r: usize = 0;
    while r < RS_M
        invariant
            r <= RS_M,
            forall|c: int| 0 <= c < 3 ==> #[trigger] error_indices[c] as int == (if c == 0 { t.0 } else if c == 1 { t.1 } else { t.2 }),
            is_outside_triple(s, t),
            forall|a: int, c: int| 0 <= a < r && 0 <= c < RS_K ==> #[trigger] fix[a][c] == full[error_indices[a] as int][c]@,
        decreases RS_M - r,
    {
        let mut row = fix[r];
        let mut c: usize = 0;
        while c < RS_K
            invariant
                r < RS_M,
                c <= RS_K,
                forall|c: int| 0 <= c < 3 ==> #[trigger] error_indices[c] as int == (if c == 0 { t.0 } else if c == 1 { t.1 } else { t.2 }),
                is_outside_triple(s, t),
                forall|k: int| 0 <= k < c ==> #[trigger] row[k] == full[error_indices[r as int] as int][k]@,
            decreases RS_K - c,
        {
            row[c] = full[error_indices[r]][c].value();
            c += 1;
        }
        fix[r] = row;
        r += 1;
    }
    proof {
        crate::reed_solomon::code::lemma_decodable(mat_view(full), s);
        let f3 = rows_view(fix);
        assert forall|vals: Seq<u8>, r: int| vals.len() == 6 && 0 <= r < 3 implies #[trigger] dot(f3[r], vals, 6)
            == crate::reed_solomon::code::decoded(s, vals)[outside_at(s, r)] by {
            let p = outside_at(s, r);
            assert(error_indices[r] as int == p);
            assert(f3[r] =~= mat_view(full)[p]);
            lemma_fix_row(mat_view(full), s, vals, p);
        }
    }
    fix
}

/// For each choice of six surviving positions, in the order of `compute_combinations`,
/// the rows of its fix matrix at the three other positions, in increasing order.
pub fn compute_fix_matrices() -> (result: [[[u8; RS_K]; RS_M]; 84])
    ensures
        forall|i: int| 0 <= i < 84 ==> fixes_missing(#[trigger] rows_view(result[i]), combinations_from(6, 0)[i]),
{
    let combinations = compute_combinations();
    let ghost cs = combinations_from(6, 0);
    proof {
        lemma_combination_count();
    }
    let mut result = [[[0u8; RS_K]; RS_M]; 84];
    let mut i: usize = 0;
    while i < 84
        invariant
            forall|j: int| 0 <= j < 84 ==> #[trigger] positions(combinations[j]) == cs[j],
            cs == combinations_from(6, 0),
            cs.len() == 84,
            i <= 84,
            forall|j: int| 0 <= j < i ==> fixes_missing(#[trigger] rows_view(result[j]), cs[j]),
        decreases 84 - i,
    {
        let combo = combinations[i];
        proof {
            let s = positions(combo);
            assert(cs[i as int] == s);
            lemma_combinations_members(6, 0, i as int);
            assert(s.no_duplicates()) by {
                assert forall|a: int, b: int| 0 <= a < s.len() && 0 <= b < s.len() && a != b implies s[a] != s[b] by {
                    if a < b {
                        assert(s[a] < s[b]);
                    } else {
                        assert(s[b] < s[a]);
                    }
                }
            }
        }
        let fix = fix_rows(combo);
        result[i] = fix;
        i += 1;
    }
    result
}

/// The rows of the fix matrix of the surviving positions `survivors`, taken in
/// increasing order, at the three missing positions, in increasing order.
pub fn get_fix_matrix(survivors: &[usize; RS_K]) -> (result: [[u8; RS_K]; RS_M])
    requires
        valid_positions(positions(*survivors)),
    ensures
        fixes_missing(rows_view(result), arranged(positions(*survivors))),
{
    let ghost s = positions(*survivors);
    let mut member = [false; RS_N];
    let mut j: usize = 0;
    while j < RS_K
        invariant
            j <= RS_K,
            s == positions(*survivors),
            valid_positions(s),
            forall|p: int| 0 <= p < RS_N ==> #[trigger] member[p] == s.take(j as int).contains(p),
        decreases RS_K - j,
    {
        proof {
            assert(s[j as int] == survivors[j as int] as int);
            let sj1 = s.take(j + 1);
            let sj = s.take(j as int);
            assert forall|p: int| 0 <= p < 9 implies sj1.contains(p) == (sj.contains(p) || p == s[j as int]) by {
                if sj1.contains(p) {
                    let k = choose|k: int| 0 <= k < sj1.len() && sj1[k] == p;
                    if k < j {
                        assert(sj[k] == p);
                    }
                }
                if sj.contains(p) {
                    let k = choose|k: int| 0 <= k < sj.len() && sj[k] == p;
                    assert(sj1[k] == p);
                }
                if p == s[j as int] {
                    assert(sj1[j as int] == p);
                }
            }
        }
        member[survivors[j]] = true;
        j += 1;
    }
    proof {
        assert(s.take(6) =~= s);
        lemma_arranged(s);
    }
    let mut sorted = [0usize; RS_K];
    let mut count: usize = 0;
    let mut p: usize = 0;
    while p < RS_N
        invariant
            p <= RS_N,
            valid_positions(arranged(s)),
            forall|q: int| 0 <= q < RS_N ==> #[trigger] member[q] == s.contains(q),
            count + arranged_from(s, p as int).len() == RS_K,
            positions(sorted).take(count as int) + arranged_from(s, p as int) == arranged(s),
        decreases RS_N - p,
    {
        if member[p] {
            proof {
                assert(arranged_from(s, p as int) == seq![p as int] + arranged_from(s, p + 1));
            }
            let ghost before = positions(sorted).take(count as int);
            sorted[count] = p;
            proof {
                assert(positions(sorted).take(count + 1) =~= before.push(p as int));
                assert(positions(sorted).take(count + 1) + arranged_from(s, p + 1) =~= before + (seq![p as int]
                    + arranged_from(s, p + 1)));
            }
            count += 1;
        }
        p += 1;
    }
    proof {
        assert(positions(sorted).take(count as int) + arranged_from(s, 9) =~= positions(sorted).take(count as int));
        assert(positions(sorted) =~= positions(sorted).take(6));
    }
    fix_rows(sorted)
}

} // verus!
