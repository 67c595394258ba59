use reed_solomon::{encode, recover, Error, BLOCK_ALIGNMENT, K, M, N};

const SIZE: usize = 4 * BLOCK_ALIGNMENT;

fn make_data() -> [Vec<u8>; K] {
    std::array::from_fn(|i| vec![i as u8; SIZE])
}

fn encode_stripe(data: &[Vec<u8>; K]) -> [Vec<u8>; M] {
    let mut parity: [Vec<u8>; M] = std::array::from_fn(|_| vec![0u8; SIZE]);
    let [p0, p1, p2] = &mut parity;
    encode(
        std::array::from_fn(|i| data[i].as_slice()),
        [p0.as_mut_slice(), p1.as_mut_slice(), p2.as_mut_slice()],
    )
    .unwrap();
    parity
}

fn encode_into(data: &[Vec<u8>; K], parity: &mut [Vec<u8>; M]) -> Result<(), Error> {
    let [p0, p1, p2] = parity;
    encode(
        std::array::from_fn(|i| data[i].as_slice()),
        [p0.as_mut_slice(), p1.as_mut_slice(), p2.as_mut_slice()],
    )
}

#[test]
fn test_encode_recover_all_parity() {
    let data = make_data();
    let parity = encode_stripe(&data);

    let mut r0 = vec![0u8; SIZE];
    let mut r1 = vec![0u8; SIZE];
    let mut r2 = vec![0u8; SIZE];
    recover(
        std::array::from_fn(|i| (i, data[i].as_slice())),
        [(K, &mut r0), (K + 1, &mut r1), (K + 2, &mut r2)],
    )
    .unwrap();

    assert_eq!(r0, parity[0]);
    assert_eq!(r1, parity[1]);
    assert_eq!(r2, parity[2]);
}

#[test]
fn test_recover_3_data_blocks() {
    let data = make_data();
    let [p0, p1, p2] = encode_stripe(&data);

    let mut r3 = vec![0u8; SIZE];
    let mut r4 = vec![0u8; SIZE];
    let mut r5 = vec![0u8; SIZE];
    recover(
        [
            (0, data[0].as_slice()),
            (1, data[1].as_slice()),
            (2, data[2].as_slice()),
            (6, p0.as_slice()),
            (7, p1.as_slice()),
            (8, p2.as_slice()),
        ],
        [(3, &mut r3), (4, &mut r4), (5, &mut r5)],
    )
    .unwrap();

    assert_eq!(r3, data[3]);
    assert_eq!(r4, data[4]);
    assert_eq!(r5, data[5]);
}

#[test]
fn test_recover_mixed_data_and_parity() {
    let data = make_data();
    let [p0, p1, p2] = encode_stripe(&data);

    let mut r0 = vec![0u8; SIZE];
    let mut r6 = vec![0u8; SIZE];
    let mut r8 = vec![0u8; SIZE];
    recover(
        [
            (1, data[1].as_slice()),
            (2, data[2].as_slice()),
            (3, data[3].as_slice()),
            (4, data[4].as_slice()),
            (5, data[5].as_slice()),
            (7, p1.as_slice()),
        ],
        [(0, &mut r0), (6, &mut r6), (8, &mut r8)],
    )
    .unwrap();

    assert_eq!(r0, data[0]);
    assert_eq!(r6, p0);
    assert_eq!(r8, p2);
}

#[test]
fn test_error_invalid_block_size_zero() {
    let data: [Vec<u8>; K] = std::array::from_fn(|_| vec![]);
    let mut p0 = vec![];
    let mut p1 = vec![];
    let mut p2 = vec![];
    assert_eq!(
        encode(
            std::array::from_fn(|i| data[i].as_slice()),
            [p0.as_mut_slice(), p1.as_mut_slice(), p2.as_mut_slice()],
        ),
        Err(Error::InvalidBlockSize(0))
    );
}

#[test]
fn test_error_invalid_block_size_unaligned() {
    let sz = BLOCK_ALIGNMENT + 1;
    let data: [Vec<u8>; K] = std::array::from_fn(|_| vec![0u8; sz]);
    let mut p0 = vec![0u8; sz];
    let mut p1 = vec![0u8; sz];
    let mut p2 = vec![0u8; sz];
    assert_eq!(
        encode(
            std::array::from_fn(|i| data[i].as_slice()),
            [p0.as_mut_slice(), p1.as_mut_slice(), p2.as_mut_slice()],
        ),
        Err(Error::InvalidBlockSize(sz))
    );
}

#[test]
fn test_error_block_size_mismatch() {
    let data: [Vec<u8>; K] =
        std::array::from_fn(|i| vec![0u8; if i == 3 { 2 * BLOCK_ALIGNMENT } else { SIZE }]);
    let mut p0 = vec![0u8; SIZE];
    let mut p1 = vec![0u8; SIZE];
    let mut p2 = vec![0u8; SIZE];
    assert_eq!(
        encode(
            std::array::from_fn(|i| data[i].as_slice()),
            [p0.as_mut_slice(), p1.as_mut_slice(), p2.as_mut_slice()],
        ),
        Err(Error::BlockSizeMismatch { expected: SIZE, got: 2 * BLOCK_ALIGNMENT })
    );
}

#[test]
fn test_error_index_out_of_range() {
    let data = make_data();
    let [p0, _, _] = encode_stripe(&data);
    let mut r = vec![0u8; SIZE];
    assert_eq!(
        recover(
            [
                (0, data[0].as_slice()),
                (1, data[1].as_slice()),
                (2, data[2].as_slice()),
                (3, data[3].as_slice()),
                (4, data[4].as_slice()),
                (9, p0.as_slice()),
            ],
            [(5, &mut r)],
        ),
        Err(Error::IndexOutOfRange(9))
    );
}

#[test]
fn test_error_duplicate_index() {
    let data = make_data();
    let [p0, _, _] = encode_stripe(&data);
    let mut r = vec![0u8; SIZE];
    assert_eq!(
        recover(
            [
                (0, data[0].as_slice()),
                (1, data[1].as_slice()),
                (2, data[2].as_slice()),
                (3, data[3].as_slice()),
                (4, data[4].as_slice()),
                (4, p0.as_slice()),
            ],
            [(5, &mut r)],
        ),
        Err(Error::DuplicateIndex(4))
    );
}

fn varied_data(size: usize) -> [Vec<u8>; K] {
    std::array::from_fn(|i| (0..size).map(|b| ((b * 31 + i * 17 + b * i) % 256) as u8).collect())
}

#[test]
fn encode_then_recover_every_choice_of_three_lost_blocks() {
    let size = 2 * BLOCK_ALIGNMENT;
    let data = varied_data(size);
    let mut parity: [Vec<u8>; M] = std::array::from_fn(|_| vec![0u8; size]);
    encode_into(&data, &mut parity).unwrap();
    let blocks: Vec<Vec<u8>> = data.iter().chain(parity.iter()).cloned().collect();
    for a in 0..N {
        for b in a + 1..N {
            for c in b + 1..N {
                let lost = [a, b, c];
                let kept: Vec<usize> = (0..N).filter(|i| !lost.contains(i)).collect();
                let known: [(usize, &[u8]); K] = std::array::from_fn(|k| (kept[k], blocks[kept[k]].as_slice()));
                let mut ra = vec![0u8; size];
                let mut rb = vec![0u8; size];
                let mut rc = vec![0u8; size];
                recover(known, [(c, &mut rc), (a, &mut ra), (b, &mut rb)]).unwrap();
                assert_eq!(ra, blocks[a]);
                assert_eq!(rb, blocks[b]);
                assert_eq!(rc, blocks[c]);
            }
        }
    }
}

#[test]
fn recover_with_unsorted_known_blocks() {
    let size = BLOCK_ALIGNMENT;
    let data = varied_data(size);
    let mut parity: [Vec<u8>; M] = std::array::from_fn(|_| vec![0u8; size]);
    encode_into(&data, &mut parity).unwrap();
    let mut r1 = vec![0u8; size];
    let mut r4 = vec![0u8; size];
    recover(
        [
            (8, parity[2].as_slice()),
            (0, data[0].as_slice()),
            (6, parity[0].as_slice()),
            (5, data[5].as_slice()),
            (2, data[2].as_slice()),
            (3, data[3].as_slice()),
        ],
        [(1, &mut r1), (4, &mut r4)],
    )
    .unwrap();
    assert_eq!(r1, data[1]);
    assert_eq!(r4, data[4]);
}

#[test]
fn parity_of_zero_data_is_zero() {
    let data: [Vec<u8>; K] = std::array::from_fn(|_| vec![0u8; SIZE]);
    let mut parity: [Vec<u8>; M] = std::array::from_fn(|_| vec![7u8; SIZE]);
    encode_into(&data, &mut parity).unwrap();
    for p in parity.iter() {
        assert!(p.iter().all(|&b| b == 0));
    }
}

#[test]
fn encode_is_linear() {
    let size = BLOCK_ALIGNMENT;
    let x = varied_data(size);
    let y: [Vec<u8>; K] = std::array::from_fn(|i| (0..size).map(|b| ((b * 7 + i * 101) % 256) as u8).collect());
    let xy: [Vec<u8>; K] = std::array::from_fn(|i| x[i].iter().zip(y[i].iter()).map(|(a, b)| a ^ b).collect());
    let mut px: [Vec<u8>; M] = std::array::from_fn(|_| vec![0u8; size]);
    let mut py: [Vec<u8>; M] = std::array::from_fn(|_| vec![0u8; size]);
    let mut pxy: [Vec<u8>; M] = std::array::from_fn(|_| vec![0u8; size]);
    encode_into(&x, &mut px).unwrap();
    encode_into(&y, &mut py).unwrap();
    encode_into(&xy, &mut pxy).unwrap();
    for j in 0..M {
        for b in 0..size {
            assert_eq!(pxy[j][b], px[j][b] ^ py[j][b]);
        }
    }
}

#[test]
fn encode_error_leaves_parity_untouched() {
    let data = make_data();
    let mut parity: [Vec<u8>; M] = [vec![9u8; SIZE], vec![9u8; SIZE], vec![9u8; SIZE + 1]];
    assert_eq!(
        encode_into(&data, &mut parity),
        Err(Error::BlockSizeMismatch { expected: SIZE, got: SIZE + 1 })
    );
    assert_eq!(parity[0], vec![9u8; SIZE]);
    assert_eq!(parity[2], vec![9u8; SIZE + 1]);
}

#[test]
fn recover_with_nothing_missing_only_checks() {
    let data = make_data();
    let missing: [(usize, &mut [u8]); 0] = [];
    assert_eq!(recover(std::array::from_fn(|i| (i, data[i].as_slice())), missing), Ok(()));
}

#[test]
fn recover_with_nothing_missing_reports_invalid_block_size() {
    let data: [Vec<u8>; K] = std::array::from_fn(|_| vec![0u8; 3]);
    let missing: [(usize, &mut [u8]); 0] = [];
    assert_eq!(
        recover(std::array::from_fn(|i| (i, data[i].as_slice())), missing),
        Err(Error::InvalidBlockSize(3))
    );
    let empty: [Vec<u8>; K] = std::array::from_fn(|_| vec![]);
    let missing: [(usize, &mut [u8]); 0] = [];
    assert_eq!(
        recover(std::array::from_fn(|i| (i, empty[i].as_slice())), missing),
        Err(Error::InvalidBlockSize(0))
    );
}

#[test]
fn recover_with_nothing_missing_reports_bad_index() {
    let data = make_data();
    let missing: [(usize, &mut [u8]); 0] = [];
    assert_eq!(
        recover(std::array::from_fn(|i| (i + 4, data[i].as_slice())), missing),
        Err(Error::IndexOutOfRange(9))
    );
}

#[test]
fn recover_reports_invalid_block_size() {
    let data: [Vec<u8>; K] = std::array::from_fn(|_| vec![0u8; 3]);
    let mut r = vec![0u8; 3];
    assert_eq!(
        recover(std::array::from_fn(|i| (i, data[i].as_slice())), [(6, &mut r)]),
        Err(Error::InvalidBlockSize(3))
    );
}

#[test]
fn recover_reports_mismatch_in_missing_block() {
    let data = make_data();
    let mut r6 = vec![1u8; SIZE];
    let mut r7 = vec![1u8; 2 * SIZE];
    assert_eq!(
        recover(std::array::from_fn(|i| (i, data[i].as_slice())), [(6, &mut r6), (7, &mut r7)]),
        Err(Error::BlockSizeMismatch { expected: SIZE, got: 2 * SIZE })
    );
    assert_eq!(r6, vec![1u8; SIZE]);
}

#[test]
fn recover_reports_missing_index_that_is_known() {
    let data = make_data();
    let mut r6 = vec![0u8; SIZE];
    let mut r2 = vec![0u8; SIZE];
    assert_eq!(
        recover(std::array::from_fn(|i| (i, data[i].as_slice())), [(6, &mut r6), (2, &mut r2)]),
        Err(Error::DuplicateIndex(2))
    );
}

#[test]
fn recover_reports_out_of_range_missing_index() {
    let data = make_data();
    let mut r6 = vec![0u8; SIZE];
    let mut r12 = vec![0u8; SIZE];
    assert_eq!(
        recover(std::array::from_fn(|i| (i, data[i].as_slice())), [(6, &mut r6), (12, &mut r12)]),
        Err(Error::IndexOutOfRange(12))
    );
}

#[test]
fn recover_reports_first_fault_in_order() {
    let data = make_data();
    let short = vec![0u8; BLOCK_ALIGNMENT];
    let mut r = vec![0u8; SIZE];
    let known: [(usize, &[u8]); K] = [
        (0, data[0].as_slice()),
        (1, data[1].as_slice()),
        (2, short.as_slice()),
        (2, data[3].as_slice()),
        (4, data[4].as_slice()),
        (5, data[5].as_slice()),
    ];
    assert_eq!(
        recover(known, [(6, &mut r)]),
        Err(Error::BlockSizeMismatch { expected: SIZE, got: BLOCK_ALIGNMENT })
    );
}
