use reed_solomon::gf8::GF8;
use reed_solomon::reed_solomon::constants::{
    compute_bitmask_to_idx, compute_combinations, compute_fix_matrices, compute_fix_matrix, compute_g,
    compute_h_m_matrix, compute_h_matrix, compute_h_p_matrix, compute_p_matrix, get_fix_matrix, invert_matrix,
    matmul, select_rows, RS_K,
};
use std::collections::HashSet;

#[test]
fn test_inv_and_mul() {
    let h_p = compute_h_p_matrix();
    let result = matmul(h_p, invert_matrix(h_p));
    let expected = [
        [GF8::new(1), GF8::new(0), GF8::new(0)],
        [GF8::new(0), GF8::new(1), GF8::new(0)],
        [GF8::new(0), GF8::new(0), GF8::new(1)],
    ];
    assert_eq!(result, expected);
}

#[test]
fn test_select_first_rows_of_g() {
    let mat = select_rows(compute_g(), [0, 1, 2, 3, 4, 5]);
    let expected = [
        [GF8::new(1), GF8::new(0), GF8::new(0), GF8::new(0), GF8::new(0), GF8::new(0)],
        [GF8::new(0), GF8::new(1), GF8::new(0), GF8::new(0), GF8::new(0), GF8::new(0)],
        [GF8::new(0), GF8::new(0), GF8::new(1), GF8::new(0), GF8::new(0), GF8::new(0)],
        [GF8::new(0), GF8::new(0), GF8::new(0), GF8::new(1), GF8::new(0), GF8::new(0)],
        [GF8::new(0), GF8::new(0), GF8::new(0), GF8::new(0), GF8::new(1), GF8::new(0)],
        [GF8::new(0), GF8::new(0), GF8::new(0), GF8::new(0), GF8::new(0), GF8::new(1)],
    ];
    assert_eq!(mat, expected);
}

#[test]
fn test_select_last_rows_of_g() {
    let mat = select_rows(compute_g(), [6, 7, 8]);
    assert_eq!(mat, compute_p_matrix());
}

fn col<const N: usize>(values: [u8; N]) -> [[GF8; 1]; N] {
    let mut result = [[GF8::new(0); 1]; N];
    let mut i = 0;
    while i < N {
        result[i][0] = GF8::new(values[i]);
        i += 1;
    }
    result
}

#[test]
fn test_compute_fix_matrix() {
    let m = col([0, 1, 2, 3, 4, 5]);
    let c = matmul(compute_g(), m);
    for i in 0..6 {
        assert_eq!(c[i], m[i]);
    }
    let mut survivors = [[GF8::new(0)]; RS_K];
    let indices = [3, 4, 5, 6, 7, 8];
    for (idx, i) in indices.iter().enumerate() {
        survivors[idx][0] = c[*i][0];
    }
    let fix_m = compute_fix_matrix([3, 4, 5, 6, 7, 8]);
    let fixed_c = matmul(fix_m, survivors);
    assert_eq!(fixed_c, c);
}

#[test]
fn test_combinations() {
    let combinations = compute_combinations();
    for v in combinations {
        for (prev, next) in v.iter().zip(v.iter().skip(1)) {
            assert!(*prev < *next);
            assert!(*prev < 9);
            assert!(*next < 9);
        }
    }
    let h = HashSet::from(combinations);
    assert_eq!(h.len(), combinations.len());
    let mut sorted = combinations;
    sorted.sort();
    assert_eq!(combinations, sorted);
}

#[test]
fn test_get_fix_matrix() {
    let got = get_fix_matrix(&[2, 4, 5, 6, 7, 8]);
    assert_eq!(got, [[222, 29, 63, 197, 80, 19], [4, 160, 147, 163, 77, 152], [93, 10, 138, 210, 78, 238]]);
}

#[test]
fn there_are_84_combinations() {
    let combinations = compute_combinations();
    assert_eq!(combinations.len(), 84);
    assert_eq!(combinations[0], [0, 1, 2, 3, 4, 5]);
    assert_eq!(combinations[83], [3, 4, 5, 6, 7, 8]);
}

#[test]
fn bitmask_maps_back_to_combination() {
    let combinations = compute_combinations();
    let table = compute_bitmask_to_idx();
    for (i, c) in combinations.iter().enumerate() {
        let mask: usize = c.iter().map(|p| 1usize << p).sum();
        assert_eq!(table[mask] as usize, i);
    }
    assert_eq!(table[0], u8::MAX);
    assert_eq!(table[511], u8::MAX);
}

#[test]
fn fix_matrices_line_up_with_combinations() {
    let combinations = compute_combinations();
    let matrices = compute_fix_matrices();
    for (i, c) in combinations.iter().enumerate() {
        assert_eq!(matrices[i], get_fix_matrix(c));
    }
}

#[test]
fn parity_check_matrix_is_vandermonde() {
    let h = compute_h_matrix();
    assert_eq!(h[0][0], GF8::new(1));
    assert_eq!(h[0][1], GF8::new(2));
    assert_eq!(h[1][1], GF8::new(4));
    assert_eq!(h[2][1], GF8::new(8));
    assert_eq!(h[0][8], GF8::new(2).mul(GF8::new(128)));
    let h_m = compute_h_m_matrix();
    let h_p = compute_h_p_matrix();
    for r in 0..3 {
        for c in 0..6 {
            assert_eq!(h_m[r][c], h[r][c]);
        }
        for c in 0..3 {
            assert_eq!(h_p[r][c], h[r][6 + c]);
        }
    }
}

#[test]
fn generator_rows_satisfy_parity_check() {
    let hg = matmul(compute_h_matrix(), compute_g());
    for r in 0..3 {
        for c in 0..6 {
            assert_eq!(hg[r][c], GF8::new(0));
        }
    }
}

#[test]
fn inverse_of_identity_is_identity() {
    let id = [[GF8::new(1), GF8::new(0)], [GF8::new(0), GF8::new(1)]];
    assert_eq!(invert_matrix(id), id);
}

#[test]
fn fix_matrix_ignores_survivor_order() {
    assert_eq!(get_fix_matrix(&[8, 2, 6, 4, 7, 5]), get_fix_matrix(&[2, 4, 5, 6, 7, 8]));
}
