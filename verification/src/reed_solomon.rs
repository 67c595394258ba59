use vstd::prelude::*;

pub mod code;
pub mod constants;
pub mod lanes;
pub mod linalg;

pub use crate::reed_solomon::lanes::LANES;

use crate::gf8::{gf_mul, lemma_mul_comm, lemma_xor, gf8_simd_mul, gf8_simd_mul_xor};
use crate::reed_solomon::code::{
    agrees, decodable, lemma_arranged, lemma_every_choice_decodable, decoded, fixes_missing, is_codeword, is_outside_triple, lemma_decoded_unique,
    lemma_outside, outside, outside_at, valid_positions,
};
use crate::reed_solomon::constants::{get_fix_matrix, positions, rows_view, RS_K, RS_M, RS_N};
use crate::reed_solomon::linalg::dot;

verus! {

/// The positions of the entries of `v`.
pub fn get_indices<T, const N: usize>(v: &[(usize, T); N]) -> (r: [usize; N])
    ensures
        forall|i: int| 0 <= i < N ==> #[trigger] r[i] == v[i].0,
{
    let mut r = [0usize; N];
    let mut i: usize = 0;
    while i < N
        invariant
            i <= N,
            forall|k: int| 0 <= k < i ==> #[trigger] r[k] == v[k].0,
        decreases N - i,
    {
        r[i] = v[i].0;
        i += 1;
    }
    r
}

/// The number of positions below `p` that are not in `s`.
pub open spec fn rank_outside(s: Seq<int>, p: int) -> nat
    decreases p,
{
    if p <= 0 {
        0
    } else {
        rank_outside(s, p - 1) + if s.contains(p - 1) {
            0nat
        } else {
            1nat
        }
    }
}

/// Among six distinct positions, the rank of each of the three missing positions names
/// it: rank `r` belongs to `outside_at(s, r)`.
pub proof fn lemma_rank_outside(s: Seq<int>)
    requires
        valid_positions(s),
    ensures
        forall|p: int|
            0 <= p < RS_N && !s.contains(p) ==> #[trigger] rank_outside(s, p) < RS_M && outside_at(s, rank_outside(s, p) as int)
                == p,
{
    lemma_outside(s);
    let t = outside(s);
    lemma_rank_counts(s, t, 9);
    assert forall|p: int| 0 <= p < RS_N && !s.contains(p) implies #[trigger] rank_outside(s, p) < RS_M && outside_at(
        s,
        rank_outside(s, p) as int,
    ) == p by {
        lemma_rank_counts(s, t, p);
    }
}

/// Below `p` lie as many missing positions as members of `t` below `p`.
proof fn lemma_rank_counts(s: Seq<int>, t: (int, int, int), p: int)
    requires
        is_outside_triple(s, t),
        0 <= p <= RS_N,
    ensures
        rank_outside(s, p) == (if p > t.2 { 3nat } else if p > t.1 { 2nat } else if p > t.0 { 1nat } else { 0nat }),
    decreases p,
{
    if p > 0 {
        lemma_rank_counts(s, t, p - 1);
    }
}

/// For each position in `to_fix_pos`, its rank among the positions that are not
/// survivors, which is the row of the fix matrix that rebuilds it; `usize::MAX` for a
/// position that is a survivor.
pub fn fix_matrix_indices<const N: usize>(survivor_pos: &[usize; RS_K], to_fix_pos: &[usize; N]) -> (result: [usize; N])
    requires
        forall|k: int| 0 <= k < RS_K ==> #[trigger] survivor_pos[k] < RS_N,
        forall|i: int| 0 <= i < N ==> #[trigger] to_fix_pos[i] < RS_N,
    ensures
        forall|i: int|
            0 <= i < N ==> #[trigger] result[i] == (if positions(*survivor_pos).contains(to_fix_pos[i] as int) {
                usize::MAX
            } else {
                rank_outside(positions(*survivor_pos), to_fix_pos[i] as int) as usize
            }),
{
    let ghost s = positions(*survivor_pos);
    let mut pos_to_idx = [0usize; RS_N];
    let mut j: usize = 0;
    while j < RS_K
        invariant
            j <= RS_K,
            s == positions(*survivor_pos),
            forall|k: int| 0 <= k < RS_K ==> #[trigger] survivor_pos[k] < RS_N,
            forall|p: int| 0 <= p < RS_N ==> #[trigger] pos_to_idx[p] == (if s.take(j as int).contains(p) { usize::MAX } else { 0 }),
        decreases RS_K - j,
    {
        proof {
            assert(s[j as int] == survivor_pos[j as int] as int);
            let sj1 = s.take(j + 1);
            let sj = s.take(j as int);
            assert forall|p: int| 0 <= p < 9 implies sj1.contains(p) == (sj.contains(p) || p == s[j as int]) by {
                if sj1.contains(p) {
                    let k = choose|k: int| 0 <= k < sj1.len() && sj1[k] == p;
                    if k < j {
                        assert(sj[k] == p);
                    }
                }
                if sj.contains(p) {
                    let k = choose|k: int| 0 <= k < sj.len() && sj[k] == p;
                    assert(sj1[k] == p);
                }
                if p == s[j as int] {
                    assert(sj1[j as int] == p);
                }
            }
        }
        pos_to_idx[survivor_pos[j]] = usize::MAX;
        j += 1;
    }
    proof {
        assert(s.take(6) =~= s);
    }
    let mut count: usize = 0;
    let mut p: usize = 0;
    while p < RS_N
        invariant
            p <= RS_N,
            count == rank_outside(s, p as int),
            count <= p,
            forall|q: int| 0 <= q < RS_N && s.contains(q) ==> #[trigger] pos_to_idx[q] == usize::MAX,
            forall|q: int| 0 <= q < p && !s.contains(q) ==> #[trigger] pos_to_idx[q] == rank_outside(s, q),
            forall|q: int| p <= q < RS_N && !s.contains(q) ==> #[trigger] pos_to_idx[q] == 0,
        decreases RS_N - p,
    {
        if pos_to_idx[p] == usize::MAX {
            p += 1;
            continue;
        }
        pos_to_idx[p] = count;
        count += 1;
        p += 1;
    }
    let mut result = [0usize; N];
    let mut i: usize = 0;
    while i < N
        invariant
            i <= N,
            s == positions(*survivor_pos),
            forall|k: int| 0 <= k < N ==> #[trigger] to_fix_pos[k] < RS_N,
            forall|q: int| 0 <= q < RS_N && s.contains(q) ==> #[trigger] pos_to_idx[q] == usize::MAX,
            forall|q: int| 0 <= q < RS_N && !s.contains(q) ==> #[trigger] pos_to_idx[q] == rank_outside(s, q),
            forall|k: int|
                0 <= k < i ==> #[trigger] result[k] == (if s.contains(to_fix_pos[k] as int) {
                    usize::MAX
                } else {
                    rank_outside(s, to_fix_pos[k] as int) as usize
                }),
        decreases N - i,
    {
        result[i] = pos_to_idx[to_fix_pos[i]];
        i += 1;
    }
    result
}

/// The positions of the surviving blocks, as integers.
pub open spec fn survivor_positions<const K: usize>(survivors: [(usize, &[u8]); K]) -> Seq<int> {
    Seq::new(K as nat, |k: int| survivors[k].0 as int)
}

/// The bytes at offset `b` of the surviving blocks.
pub open spec fn stripe_column<const K: usize>(survivors: [(usize, &[u8]); K], b: int) -> Seq<u8> {
    Seq::new(K as nat, |k: int| survivors[k].1@[b])
}

/// Some entry of `arr` is `x`.
pub open spec fn contains_entry<T, const K: usize>(arr: [(usize, T); K], x: (usize, T)) -> bool {
    exists|k: int| 0 <= k < K && arr[k] == x
}

/// Some entry of `perm` is `k`.
pub open spec fn hits(perm: Seq<int>, k: int) -> bool {
    exists|a: int| 0 <= a < perm.len() && perm[a] == k
}

/// Orders `items` by increasing position. The positions must be distinct.
fn sort_by_position<T: Copy>(items: [(usize, T); RS_K]) -> (sorted: [(usize, T); RS_K])
    requires
        forall|a: int, b: int| 0 <= a < RS_K && 0 <= b < RS_K && a != b ==> items[a].0 != items[b].0,
    ensures
        forall|a: int, b: int| 0 <= a < b < RS_K ==> #[trigger] sorted[a].0 < #[trigger] sorted[b].0,
        forall|a: int| 0 <= a < RS_K ==> #[trigger] contains_entry(items, sorted[a]),
        forall|k: int| 0 <= k < RS_K ==> #[trigger] contains_entry(sorted, items[k]),
{
    let mut out = items;
    let ghost mut perm: Seq<int> = Seq::new(RS_K as nat, |i: int| i);
    proof {
        assert forall|k: int| 0 <= k < RS_K implies #[trigger] hits(perm, k) by {
            assert(perm[k] == k);
        }
    }
    let mut i: usize = 0;
    while i < RS_K
        invariant
            i <= RS_K,
            perm.len() == RS_K,
            forall|a: int| 0 <= a < RS_K ==> 0 <= #[trigger] perm[a] < RS_K,
            forall|a: int| 0 <= a < RS_K ==> #[trigger] out[a] == items[perm[a]],
            forall|a: int, b: int| 0 <= a < RS_K && 0 <= b < RS_K && a != b ==> #[trigger] perm[a] != #[trigger] perm[b],
            forall|k: int| 0 <= k < RS_K ==> #[trigger] hits(perm, k),
            forall|a: int, b: int| 0 <= a < b < i ==> #[trigger] out[a].0 <= #[trigger] out[b].0,
            forall|a: int, b: int| 0 <= a < i && i <= b < RS_K ==> #[trigger] out[a].0 <= #[trigger] out[b].0,
            forall|a: int, b: int| 0 <= a < RS_K && 0 <= b < RS_K && a != b ==> items[a].0 != items[b].0,
        decreases RS_K - i,
    {
        let mut m = i;
        let mut j = i + 1;
        while j < RS_K
            invariant
                i < RS_K,
                i <= m < RS_K,
                i < j <= RS_K,
                m < j,
                forall|c: int| i <= c < j ==> out[m as int].0 <= #[trigger] out[c].0,
            decreases RS_K - j,
        {
            if out[j].0 < out[m].0 {
                m = j;
            }
            j += 1;
        }
        let ghost old_perm = perm;
        let ghost old_out = out;
        let tmp = out[i];
        out[i] = out[m];
        out[m] = tmp;
        proof {
            perm = old_perm.update(i as int, old_perm[m as int]).update(m as int, old_perm[i as int]);
            assert forall|k: int| 0 <= k < RS_K implies #[trigger] hits(perm, k) by {
                assert(hits(old_perm, k));
                let a = choose|a: int| 0 <= a < RS_K && old_perm[a] == k;
                if a == i {
                    assert(perm[m as int] == k);
                } else if a == m {
                    assert(perm[i as int] == k);
                } else {
                    assert(perm[a] == k);
                }
            }
            assert forall|a: int, b: int| 0 <= a < RS_K && 0 <= b < RS_K && a != b implies #[trigger] perm[a] != #[trigger] perm[b] by {
                let oa = if a == i { m as int } else if a == m { i as int } else { a };
                let ob = if b == i { m as int } else if b == m { i as int } else { b };
                assert(perm[a] == old_perm[oa]);
                assert(perm[b] == old_perm[ob]);
            }
            assert forall|a: int, b: int| 0 <= a < b < i + 1 implies #[trigger] out[a].0 <= #[trigger] out[b].0 by {
                if b == i {
                    assert(old_out[a].0 <= old_out[m as int].0);
                }
            }
            assert forall|a: int, b: int| 0 <= a < i + 1 && i + 1 <= b < RS_K implies #[trigger] out[a].0 <= #[trigger] out[b].0 by {
                if a == i {
                    if b == m {
                        assert(old_out[m as int].0 <= old_out[i as int].0);
                    } else {
                        assert(old_out[m as int].0 <= old_out[b].0);
                    }
                } else {
                    if b == m {
                        assert(old_out[a].0 <= old_out[i as int].0);
                    }
                }
            }
        }
        i += 1;
    }
    proof {
        assert forall|a: int, b: int| 0 <= a < b < RS_K implies #[trigger] out[a].0 < #[trigger] out[b].0 by {
            assert(perm[a] != perm[b]);
        }
        assert forall|a: int| 0 <= a < RS_K implies #[trigger] contains_entry(items, out[a]) by {
            assert(out[a] == items[perm[a]]);
        }
        assert forall|k: int| 0 <= k < RS_K implies #[trigger] contains_entry(out, items[k]) by {
            assert(hits(perm, k));
            let a = choose|a: int| 0 <= a < RS_K && perm[a] == k;
            assert(out[a] == items[k]);
        }
    }
    out
}

/// The bytes of a block of `len` bytes that fall in whole vectors of lanes.
pub open spec fn full_lanes(len: nat) -> nat {
    (len / (LANES as nat)) * (LANES as nat)
}

/// The coefficients of a fix-matrix row.
pub open spec fn row_coefficients(row: [u8; RS_K]) -> Seq<u8> {
    Seq::new(RS_K as nat, |k: int| row[k])
}

/// The bytes at offset `base + l` of the sorted survivors, for lane `l`.
pub open spec fn lane_column(lanes: [[u8; LANES]; RS_K], l: int) -> Seq<u8> {
    Seq::new(RS_K as nat, |k: int| lanes[k][l])
}

/// The `LANES` bytes of `block` from offset `base` on.
fn load_lanes(block: &[u8], base: usize) -> (r: [u8; LANES])
    requires
        base + LANES <= block@.len(),
    ensures
        forall|l: int| 0 <= l < LANES ==> #[trigger] r[l] == block@[base + l],
{
    let mut r = [0u8; LANES];
    let len = block.len();
    let mut l: usize = 0;
    while l < LANES
        invariant
            l <= LANES,
            len == block@.len(),
            base + LANES <= len,
            forall|i: int| 0 <= i < l ==> #[trigger] r[i] == block@[base + i],
        decreases LANES - l,
    {
        r[l] = block[base + l];
        l += 1;
    }
    r
}

/// Writes `lanes` into `block` from offset `base` on.
fn store_lanes(block: &mut [u8], base: usize, lanes: [u8; LANES])
    requires
        base + LANES <= old(block)@.len(),
    ensures
        final(block)@.len() == old(block)@.len(),
        forall|b: int|
            0 <= b < old(block)@.len() ==> #[trigger] final(block)@[b] == (if base <= b < base + LANES {
                lanes[b - base]
            } else {
                old(block)@[b]
            }),
{
    let len = block.len();
    let mut l: usize = 0;
    while l < LANES
        invariant
            l <= LANES,
            block@.len() == old(block)@.len(),
            len == block@.len(),
            base + LANES <= len,
            forall|b: int|
                0 <= b < block@.len() ==> #[trigger] block@[b] == (if base <= b < base + l {
                    lanes[b - base]
                } else {
                    old(block)@[b]
                }),
        decreases LANES - l,
    {
        block[base + l] = lanes[l];
        l += 1;
    }
}

/// One vector of lanes of a rebuilt block: lane `l` is the combination, with the
/// coefficients `row`, of lane `l` of the six survivor vectors.
fn combine_lanes(survivor_simd: &[[u8; LANES]; RS_K], row: [u8; RS_K]) -> (result: [u8; LANES])
    ensures
        forall|l: int|
            0 <= l < LANES ==> #[trigger] result[l] == dot(row_coefficients(row), lane_column(*survivor_simd, l), 6),
{
    let mut result = gf8_simd_mul(survivor_simd[0], row[0]);
    proof {
        assert forall|l: int| 0 <= l < LANES implies #[trigger] result[l] == dot(
            row_coefficients(row),
            lane_column(*survivor_simd, l),
            1,
        ) by {
            let col = lane_column(*survivor_simd, l);
            assert(dot(row_coefficients(row), col, 1) == dot(row_coefficients(row), col, 0) ^ gf_mul(row[0], col[0]));
            lemma_mul_comm(row[0], col[0]);
            lemma_xor(gf_mul(row[0], col[0]), 0, 0);
        }
    }
    let mut k: usize = 1;
    while k < RS_K
        invariant
            1 <= k <= RS_K,
            forall|l: int|
                0 <= l < LANES ==> #[trigger] result[l] == dot(row_coefficients(row), lane_column(*survivor_simd, l), k as nat),
        decreases RS_K - k,
    {
        let ghost prev = result;
        gf8_simd_mul_xor(&mut result, survivor_simd[k], row[k]);
        proof {
            assert forall|l: int| 0 <= l < LANES implies #[trigger] result[l] == dot(
                row_coefficients(row),
                lane_column(*survivor_simd, l),
                (k + 1) as nat,
            ) by {
                let col = lane_column(*survivor_simd, l);
                lemma_mul_comm(row[k as int], col[k as int]);
                assert(prev[l] == dot(row_coefficients(row), col, k as nat));
            }
        }
        k += 1;
    }
    result
}

/// A chunk before the last whole one fits in every block with that many whole chunks.
proof fn lemma_chunk_fits(len: nat, n_chunks: nat, chunk_idx: nat)
    requires
        len / LANES as nat == n_chunks,
        chunk_idx < n_chunks,
    ensures
        chunk_idx * LANES + LANES <= len,
{
    assert(chunk_idx * 16 + 16 <= len) by (nonlinear_arith)
        requires
            len / 16 == n_chunks,
            chunk_idx < n_chunks,
    ;
}

/// Rebuilds the blocks in `to_fix` from the six surviving blocks: each byte becomes the
/// symbol, at that block's position, of the codeword that holds the survivors' bytes at
/// the same offset. Only whole vectors of `LANES` bytes are written.
pub fn fix_errors<const N: usize>(survivors: [(usize, &[u8]); RS_K], to_fix: [(usize, &mut [u8]); N])
    requires
        valid_positions(survivor_positions(survivors)),
        forall|k: int| 0 <= k < RS_K ==> (#[trigger] survivors[k]).1@.len() / LANES as nat == survivors[0].1@.len() / LANES as nat,
        forall|j: int|
            0 <= j < N ==> (#[trigger] to_fix[j]).0 < RS_N && !survivor_positions(survivors).contains(
                to_fix[j].0 as int,
            ) && to_fix[j].1@.len() / LANES as nat == survivors[0].1@.len() / LANES as nat,
    ensures
        decodable(survivor_positions(survivors)),
        forall|j: int| 0 <= j < N ==> (#[trigger] final(to_fix[j].1)@).len() == to_fix[j].1@.len(),
        forall|j: int, b: int|
            0 <= j < N && 0 <= b < full_lanes(survivors[0].1@.len()) ==> #[trigger] final(to_fix[j].1)@[b]
                == decoded(survivor_positions(survivors), stripe_column(survivors, b))[to_fix[j].0 as int],
        forall|j: int, b: int|
            0 <= j < N && full_lanes(survivors[0].1@.len()) <= b < to_fix[j].1@.len()
                ==> #[trigger] final(to_fix[j].1)@[b] == to_fix[j].1@[b],
{
    let ghost s0 = survivor_positions(survivors);
    let ghost t0 = to_fix;
    proof {
        lemma_every_choice_decodable(s0);
    }
    if N == 0 {
        return;
    }
    proof {
        assert forall|a: int, b: int| 0 <= a < RS_K && 0 <= b < RS_K && a != b implies survivors[a].0 != survivors[b].0 by {
            assert(s0[a] != s0[b]);
        }
    }
    let sorted = sort_by_position(survivors);
    let survivor_indices = get_indices(&sorted);
    let ghost s = positions(survivor_indices);
    proof {
        assert forall|a: int, b: int| 0 <= a < b < RS_K implies s[a] < s[b] by {
            assert(sorted[a].0 < sorted[b].0);
        }
        assert forall|k: int| 0 <= k < RS_K implies #[trigger] survivor_indices[k] < RS_N by {
            assert(contains_entry(survivors, sorted[k]));
            let k0 = choose|k0: int| 0 <= k0 < RS_K && survivors[k0] == sorted[k];
            assert(s0[k0] == survivors[k0].0);
        }
        assert forall|a: int, b: int| 0 <= a < s.len() && 0 <= b < s.len() && a != b implies s[a] != s[b] by {
            if a < b {
                assert(s[a] < s[b]);
            } else {
                assert(s[b] < s[a]);
            }
        }
        assert(valid_positions(s));
        lemma_arranged(s);
    }
    let to_fix_indices = get_indices(&to_fix);
    let fix_matrix = get_fix_matrix(&survivor_indices);
    let fix_matrix_indices = fix_matrix_indices(&survivor_indices, &to_fix_indices);
    proof {
        lemma_rank_outside(s);
        assert forall|i: int| 0 <= i < N implies #[trigger] fix_matrix_indices[i] < RS_M && outside_at(
            s,
            fix_matrix_indices[i] as int,
        ) == to_fix_indices[i] as int by {
            assert(to_fix_indices[i] == to_fix[i].0);
            if s.contains(to_fix_indices[i] as int) {
                let a = choose|a: int| 0 <= a < s.len() && s[a] == to_fix_indices[i] as int;
                assert(contains_entry(survivors, sorted[a]));
                let k0 = choose|k0: int| 0 <= k0 < RS_K && survivors[k0] == sorted[a];
                assert(s0[k0] == to_fix_indices[i] as int);
            }
        }
    }
    let block_size = sorted[0].1.len();
    let n_chunks = block_size / LANES;
    proof {
        assert(contains_entry(survivors, sorted[0]));
        let k0 = choose|k0: int| 0 <= k0 < RS_K && survivors[k0] == sorted[0];
        assert(survivors[k0].1@.len() / 16 == survivors[0].1@.len() / 16);
        assert forall|k: int| 0 <= k < RS_K implies (#[trigger] sorted[k]).1@.len() / LANES as nat == n_chunks by {
            assert(contains_entry(survivors, sorted[k]));
            let k1 = choose|k1: int| 0 <= k1 < RS_K && survivors[k1] == sorted[k];
            assert(survivors[k1].1@.len() / 16 == survivors[0].1@.len() / 16);
        }
    }
    let mut to_fix = to_fix;
    let mut chunk_idx: usize = 0;
    while chunk_idx < n_chunks
        invariant
            chunk_idx <= n_chunks,
            forall|i: int| 0 <= i < N ==> #[trigger] to_fix_indices[i] == t0[i].0,
            forall|i: int|
                0 <= i < N ==> #[trigger] fix_matrix_indices[i] < RS_M && outside_at(s, fix_matrix_indices[i] as int)
                    == to_fix_indices[i] as int,
            fixes_missing(rows_view(fix_matrix), s),
            n_chunks == survivors[0].1@.len() / LANES as nat,
            n_chunks == block_size / LANES,
            forall|i: int| 0 <= i < N ==> (#[trigger] t0[i]).1@.len() / LANES as nat == n_chunks,
            forall|k: int| 0 <= k < RS_K ==> (#[trigger] sorted[k]).1@.len() / LANES as nat == n_chunks,
            forall|i: int| 0 <= i < N ==> (#[trigger] to_fix[i]).0 == t0[i].0,
            forall|i: int| 0 <= i < N ==> (#[trigger] final(to_fix[i].1)@) == final(t0[i].1)@,
            forall|i: int| 0 <= i < N ==> (#[trigger] to_fix[i]).1@.len() == t0[i].1@.len(),
            forall|i: int, b: int|
                0 <= i < N && 0 <= b < chunk_idx * LANES ==> #[trigger] to_fix[i].1@[b] == dot(
                    rows_view(fix_matrix)[fix_matrix_indices[i] as int],
                    stripe_column(sorted, b),
                    6,
                ),
            forall|i: int, b: int|
                0 <= i < N && chunk_idx * LANES <= b < t0[i].1@.len() ==> #[trigger] to_fix[i].1@[b] == t0[i].1@[b],
        decreases n_chunks - chunk_idx,
    {
        proof {
            lemma_chunk_fits(block_size as nat, n_chunks as nat, chunk_idx as nat);
        }
        let base = chunk_idx * LANES;
        proof {
            assert forall|k: int| 0 <= k < RS_K implies base + LANES <= (#[trigger] sorted[k]).1@.len() by {
                lemma_chunk_fits(sorted[k].1@.len(), n_chunks as nat, chunk_idx as nat);
            }
            assert forall|i: int| 0 <= i < N implies base + LANES <= (#[trigger] to_fix[i]).1@.len() by {
                lemma_chunk_fits(t0[i].1@.len(), n_chunks as nat, chunk_idx as nat);
            }
        }
        let mut survivor_simd = [[0u8; LANES]; RS_K];
        let mut k: usize = 0;
        while k < RS_K
            invariant
                k <= RS_K,
                forall|i: int| 0 <= i < RS_K ==> base + LANES <= (#[trigger] sorted[i]).1@.len(),
                forall|i: int, l: int|
                    0 <= i < k && 0 <= l < LANES ==> #[trigger] survivor_simd[i][l] == sorted[i].1@[base + l],
            decreases RS_K - k,
        {
            survivor_simd[k] = load_lanes(sorted[k].1, base);
            k += 1;
        }
        proof {
            assert forall|l: int| 0 <= l < LANES implies #[trigger] lane_column(survivor_simd, l) == stripe_column(
                sorted,
                base + l,
            ) by {
                assert(lane_column(survivor_simd, l) =~= stripe_column(sorted, base + l));
            }
        }
        let ghost start = to_fix;
        let mut j: usize = 0;
        while j < N
            invariant
                j <= N,
                base == chunk_idx * LANES,
                forall|i: int| 0 <= i < N ==> base + LANES <= (#[trigger] start[i]).1@.len(),
                forall|i: int| 0 <= i < N ==> #[trigger] fix_matrix_indices[i] < RS_M,
                forall|l: int| 0 <= l < LANES ==> #[trigger] lane_column(survivor_simd, l) == stripe_column(sorted, base + l),
                forall|i: int| 0 <= i < N ==> (#[trigger] to_fix[i]).0 == start[i].0,
                forall|i: int| 0 <= i < N ==> (#[trigger] final(to_fix[i].1)@) == final(start[i].1)@,
                forall|i: int| 0 <= i < N ==> (#[trigger] to_fix[i]).1@.len() == start[i].1@.len(),
                forall|i: int, b: int|
                    0 <= i < N && 0 <= b < start[i].1@.len() && !(i < j && base <= b < base + LANES) ==> #[trigger] to_fix[i].1@[b]
                        == start[i].1@[b],
                forall|i: int, b: int|
                    0 <= i < j && base <= b < base + LANES ==> #[trigger] to_fix[i].1@[b] == dot(
                        rows_view(fix_matrix)[fix_matrix_indices[i] as int],
                        stripe_column(sorted, b),
                        6,
                    ),
            decreases N - j,
        {
            let row = fix_matrix[fix_matrix_indices[j]];
            proof {
                assert(rows_view(fix_matrix)[fix_matrix_indices[j as int] as int] =~= row_coefficients(row));
            }
            let result = combine_lanes(&survivor_simd, row);
            let ghost before = to_fix;
            store_lanes(to_fix[j].1, base, result);
            proof {
                assert forall|b: int| base <= b < base + LANES implies #[trigger] to_fix[j as int].1@[b] == dot(
                    rows_view(fix_matrix)[fix_matrix_indices[j as int] as int],
                    stripe_column(sorted, b),
                    6,
                ) by {
                    assert(lane_column(survivor_simd, b - base) == stripe_column(sorted, base + (b - base)));
                }
            }
            j += 1;
        }
        chunk_idx += 1;
    }
    proof {
        assert(has_resolved(to_fix));
        assert forall|j: int| 0 <= j < N implies #[trigger] final(t0[j].1)@ == to_fix[j].1@ by {
            assert(has_resolved(to_fix[j]));
            assert(has_resolved(to_fix[j].1));
        }
        assert forall|j: int, b: int|
            0 <= j < N && 0 <= b < full_lanes(survivors[0].1@.len()) implies #[trigger] to_fix[j].1@[b]
                == decoded(s0, stripe_column(survivors, b))[t0[j].0 as int] by {
            let vals = stripe_column(sorted, b);
            let vals0 = stripe_column(survivors, b);
            let r = fix_matrix_indices[j] as int;
            assert(dot(rows_view(fix_matrix)[r], vals, 6) == decoded(s, vals)[outside_at(s, r)]);
            let c = decoded(s, vals);
            assert(agrees(c, s0, vals0)) by {
                assert forall|k: int| 0 <= k < s0.len() implies c[#[trigger] s0[k]] == vals0[k] by {
                    assert(contains_entry(sorted, survivors[k]));
                    let a = choose|a: int| 0 <= a < RS_K && sorted[a] == survivors[k];
                    assert(c[s[a]] == vals[a]);
                }
            }
            lemma_decoded_unique(s0, vals0, c);
        }
    }
}

/// What `fix_errors` writes does not depend on the order of its entries: the survivors,
/// listed in another order, decode to the same codeword at every offset, and each byte
/// written depends only on the position its buffer is paired with.
pub proof fn lemma_fix_errors_order_free(
    survivors: [(usize, &[u8]); RS_K],
    reordered: [(usize, &[u8]); RS_K],
    b: int,
)
    requires
        valid_positions(survivor_positions(survivors)),
        valid_positions(survivor_positions(reordered)),
        forall|k: int| 0 <= k < RS_K ==> #[trigger] contains_entry(survivors, reordered[k]),
    ensures
        decoded(survivor_positions(reordered), stripe_column(reordered, b)) == decoded(
            survivor_positions(survivors),
            stripe_column(survivors, b),
        ),
{
    let s = survivor_positions(survivors);
    let vals = stripe_column(survivors, b);
    let s2 = survivor_positions(reordered);
    let vals2 = stripe_column(reordered, b);
    lemma_every_choice_decodable(s);
    let c = decoded(s, vals);
    assert(is_codeword(c) && agrees(c, s, vals));
    assert forall|k: int| 0 <= k < s2.len() implies c[#[trigger] s2[k]] == vals2[k] by {
        assert(contains_entry(survivors, reordered[k]));
        let a = choose|a: int| 0 <= a < RS_K && survivors[a] == reordered[k];
        assert(c[s[a]] == vals[a]);
    }
    lemma_decoded_unique(s2, vals2, c);
}

} // verus!
