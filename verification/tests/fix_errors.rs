use reed_solomon::reed_solomon::{fix_errors, fix_matrix_indices, get_indices};

#[test]
fn test_fix_errors() {
    const SIZE: usize = 1024;
    let a = vec![0_u8; SIZE];
    let b = vec![1_u8; SIZE];
    let c = vec![2_u8; SIZE];
    let d = vec![3_u8; SIZE];
    let e = vec![4_u8; SIZE];
    let f = vec![5_u8; SIZE];
    let mut g = vec![0_u8; SIZE];
    let mut h = vec![0_u8; SIZE];
    let mut i = vec![0_u8; SIZE];
    fix_errors::<3>(
        [(0, &a), (1, &b), (2, &c), (3, &d), (4, &e), (5, &f)],
        [(6, &mut g), (7, &mut h), (8, &mut i)],
    );

    {
        let mut d_fixed = vec![0_u8; SIZE];
        let mut e_fixed = vec![0_u8; SIZE];
        let mut f_fixed = vec![0_u8; SIZE];
        fix_errors::<3>(
            [(0, &a), (1, &b), (2, &c), (6, &g), (7, &h), (8, &i)],
            [(3, &mut d_fixed), (4, &mut e_fixed), (5, &mut f_fixed)],
        );

        assert_eq!(d, d_fixed);
        assert_eq!(e, e_fixed);
        assert_eq!(f, f_fixed);
    }

    {
        let mut d_fixed = vec![0_u8; SIZE];
        let mut f_fixed = vec![0_u8; SIZE];
        fix_errors::<2>(
            [(0, &a), (1, &b), (2, &c), (6, &g), (7, &h), (8, &i)],
            [(3, &mut d_fixed), (5, &mut f_fixed)],
        );

        assert_eq!(d, d_fixed);
        assert_eq!(f, f_fixed);
    }

    {
        let mut d_fixed = vec![0_u8; SIZE];
        fix_errors::<1>(
            [(0, &a), (1, &b), (2, &c), (6, &g), (7, &h), (8, &i)],
            [(3, &mut d_fixed)],
        );

        assert_eq!(d, d_fixed);
    }
}

#[test]
fn fix_errors_leaves_bytes_past_the_last_whole_vector() {
    let lanes = reed_solomon::BLOCK_ALIGNMENT;
    let size = 2 * lanes + 3;
    let blocks: Vec<Vec<u8>> = (0..6).map(|i| vec![i as u8 + 1; size]).collect();
    let mut fixed = vec![0xAA_u8; size];
    fix_errors::<1>(
        [
            (0, blocks[0].as_slice()),
            (1, blocks[1].as_slice()),
            (2, blocks[2].as_slice()),
            (3, blocks[3].as_slice()),
            (4, blocks[4].as_slice()),
            (5, blocks[5].as_slice()),
        ],
        [(7, &mut fixed)],
    );
    for b in 2 * lanes..size {
        assert_eq!(fixed[b], 0xAA);
    }
    assert_ne!(fixed[0], 0xAA);
}

#[test]
fn fix_errors_with_nothing_to_fix() {
    let a = vec![1_u8; 16];
    fix_errors::<0>([(0, &a), (1, &a), (2, &a), (3, &a), (4, &a), (5, &a)], []);
}

#[test]
fn fix_errors_reads_only_whole_vectors() {
    let lanes = reed_solomon::BLOCK_ALIGNMENT;
    let size = 2 * lanes;
    let data: Vec<Vec<u8>> = (0..6).map(|i| (0..size).map(|b| (b * 5 + i * 3) as u8).collect()).collect();
    let mut g = vec![0_u8; size];
    fix_errors::<1>(
        [
            (0, data[0].as_slice()),
            (1, data[1].as_slice()),
            (2, data[2].as_slice()),
            (3, data[3].as_slice()),
            (4, data[4].as_slice()),
            (5, data[5].as_slice()),
        ],
        [(6, &mut g)],
    );
    let mut longer = data[2].clone();
    longer.extend_from_slice(&[9, 9, 9]);
    let mut rebuilt = vec![0x55_u8; size + 7];
    fix_errors::<1>(
        [
            (0, data[0].as_slice()),
            (1, data[1].as_slice()),
            (6, g.as_slice()),
            (2, longer.as_slice()),
            (4, data[4].as_slice()),
            (5, data[5].as_slice()),
        ],
        [(3, &mut rebuilt)],
    );
    assert_eq!(&rebuilt[..size], data[3].as_slice());
    assert!(rebuilt[size..].iter().all(|&b| b == 0x55));
}

#[test]
fn fix_matrix_rows_follow_missing_positions() {
    assert_eq!(fix_matrix_indices(&[0, 1, 2, 3, 4, 5], &[8, 6, 7]), [2, 0, 1]);
    assert_eq!(fix_matrix_indices(&[1, 2, 4, 5, 7, 8], &[6, 0]), [2, 0]);
    assert_eq!(fix_matrix_indices(&[1, 2, 4, 5, 7, 8], &[4]), [usize::MAX]);
}

#[test]
fn indices_of_entries() {
    assert_eq!(get_indices(&[(4, 'a'), (0, 'b'), (7, 'c')]), [4, 0, 7]);
}

#[test]
fn fix_errors_does_not_depend_on_entry_order() {
    let size = 2 * reed_solomon::BLOCK_ALIGNMENT;
    let blocks: Vec<Vec<u8>> = (0..6).map(|i| (0..size).map(|b| (b * 7 + i * 29) as u8).collect()).collect();
    let mut x6 = vec![0_u8; size];
    let mut x8 = vec![0_u8; size];
    fix_errors::<2>(
        [
            (0, blocks[0].as_slice()),
            (1, blocks[1].as_slice()),
            (2, blocks[2].as_slice()),
            (3, blocks[3].as_slice()),
            (4, blocks[4].as_slice()),
            (5, blocks[5].as_slice()),
        ],
        [(6, &mut x6), (8, &mut x8)],
    );
    let mut y6 = vec![0_u8; size];
    let mut y8 = vec![0_u8; size];
    fix_errors::<2>(
        [
            (4, blocks[4].as_slice()),
            (2, blocks[2].as_slice()),
            (5, blocks[5].as_slice()),
            (0, blocks[0].as_slice()),
            (3, blocks[3].as_slice()),
            (1, blocks[1].as_slice()),
        ],
        [(8, &mut y8), (6, &mut y6)],
    );
    assert_eq!(x6, y6);
    assert_eq!(x8, y8);
}
