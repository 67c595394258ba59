//! Reed-Solomon erasure coding over GF(2^8).
//!
//! A systematic RS(9, 6) code: stripes of `N` = 9 equal-sized blocks, of which `K` = 6
//! carry data and `M` = 3 are parity. Any combination of up to `M` lost blocks can be
//! recovered from the remaining `K` blocks.
use vstd::prelude::*;

pub mod error;
pub mod gf8;
pub mod reed_solomon;

pub use crate::error::Error;
pub use crate::reed_solomon::constants::{RS_K as K, RS_M as M, RS_N as N};

use crate::reed_solomon::code::{decodable, decoded, is_codeword, lemma_recover_codeword, valid_positions};
use crate::reed_solomon::linalg::select;
use crate::reed_solomon::{fix_errors, full_lanes, stripe_column, survivor_positions, LANES};

verus! {

/// Required alignment for block sizes: every block passed to `encode` or `recover` must
/// have a length that is a positive multiple of this value.
pub const BLOCK_ALIGNMENT: usize = LANES;

/// A block size is accepted.
pub open spec fn valid_block_size(size: nat) -> bool {
    size != 0 && size % (BLOCK_ALIGNMENT as nat) == 0
}

/// Checks that a block size is a positive multiple of `BLOCK_ALIGNMENT`.
pub fn validate_block_size(size: usize) -> (r: Result<(), Error>)
    ensures
        r == (if valid_block_size(size as nat) { Ok(()) } else { Err(Error::InvalidBlockSize(size)) }),
        r is Ok <==> size > 0 && size % BLOCK_ALIGNMENT == 0,
        r is Err ==> r == Err::<(), Error>(Error::InvalidBlockSize(size)),
{
    if size == 0 || size % BLOCK_ALIGNMENT != 0 {
        return Err(Error::InvalidBlockSize(size));
    }
    Ok(())
}

/// The first length in `lens` that differs from `size`, if any.
pub open spec fn first_mismatch(lens: Seq<nat>, size: nat) -> Option<nat>
    decreases lens.len(),
{
    if lens.len() == 0 {
        None
    } else if lens[0] != size {
        Some(lens[0])
    } else {
        first_mismatch(lens.drop_first(), size)
    }
}

/// When the first `i` lengths equal `size`, the first mismatch is at `i` or later.
proof fn lemma_first_mismatch(lens: Seq<nat>, size: nat, i: int)
    requires
        0 <= i <= lens.len(),
        forall|k: int| 0 <= k < i ==> #[trigger] lens[k] == size,
    ensures
        i < lens.len() && lens[i] != size ==> first_mismatch(lens, size) == Some(lens[i]),
        i == lens.len() ==> first_mismatch(lens, size) is None,
    decreases i,
{
    if i > 0 {
        assert(lens[0] == size);
        lemma_first_mismatch(lens.drop_first(), size, i - 1);
    }
}

/// The lengths of the data blocks.
pub open spec fn data_lens(data: [&[u8]; K]) -> Seq<nat> {
    Seq::new(K as nat, |i: int| data[i]@.len())
}

/// The lengths of the parity blocks.
pub open spec fn parity_lens(parity: [&mut [u8]; M]) -> Seq<nat> {
    Seq::new(M as nat, |j: int| parity[j]@.len())
}

/// What `encode` reports for blocks of these lengths: the block size is that of the
/// first data block; it must be valid, and then the first block of another size, data
/// before parity, is reported.
pub open spec fn encode_result(dl: Seq<nat>, pl: Seq<nat>) -> Result<(), Error> {
    if !valid_block_size(dl[0]) {
        Err(Error::InvalidBlockSize(dl[0] as usize))
    } else {
        match first_mismatch(dl.drop_first(), dl[0]) {
            Some(got) => Err(Error::BlockSizeMismatch { expected: dl[0] as usize, got: got as usize }),
            None => match first_mismatch(pl, dl[0]) {
                Some(got) => Err(Error::BlockSizeMismatch { expected: dl[0] as usize, got: got as usize }),
                None => Ok(()),
            },
        }
    }
}

/// Block `i` of a stripe: a data block for `i < K`, else a parity block.
pub open spec fn block(data: [&[u8]; K], p0: Seq<u8>, p1: Seq<u8>, p2: Seq<u8>, i: int) -> Seq<u8> {
    if i < K {
        data[i]@
    } else if i == K {
        p0
    } else if i == K + 1 {
        p1
    } else {
        p2
    }
}

/// Byte `b` of each of the nine blocks of a stripe.
pub open spec fn stripe(data: [&[u8]; K], p0: Seq<u8>, p1: Seq<u8>, p2: Seq<u8>, b: int) -> Seq<u8> {
    Seq::new(N as nat, |i: int| block(data, p0, p1, p2, i)[b])
}

/// A valid block is made of whole vectors of lanes.
proof fn lemma_full_lanes(size: nat)
    requires
        valid_block_size(size),
    ensures
        full_lanes(size) == size,
{
    assert((size / 16) * 16 == size) by (nonlinear_arith)
        requires
            size % 16 == 0,
    ;
}

/// The first mismatch, if any, is a length of `lens` that differs from `size`; with
/// none, every length of `lens` is `size`.
proof fn lemma_first_mismatch_found(lens: Seq<nat>, size: nat)
    ensures
        match first_mismatch(lens, size) {
            Some(g) => g != size && exists|i: int| 0 <= i < lens.len() && lens[i] == g,
            None => forall|i: int| 0 <= i < lens.len() ==> lens[i] == size,
        },
    decreases lens.len(),
{
    if lens.len() > 0 {
        let rest = lens.drop_first();
        lemma_first_mismatch_found(rest, size);
        if lens[0] == size {
            match first_mismatch(rest, size) {
                Some(g) => {
                    let i = choose|i: int| 0 <= i < rest.len() && rest[i] == g;
                    assert(lens[i + 1] == g);
                },
                None => {
                    assert forall|i: int| 0 <= i < lens.len() implies lens[i] == size by {
                        if i > 0 {
                            assert(lens[i] == rest[i - 1]);
                        }
                    }
                },
            }
        }
    }
}

/// The blocks of a stripe all have one length, which is a positive multiple of
/// `BLOCK_ALIGNMENT`.
pub open spec fn well_formed_stripe(data: [&[u8]; K], parity: [&mut [u8]; M]) -> bool {
    &&& data[0]@.len() > 0
    &&& data[0]@.len() % (BLOCK_ALIGNMENT as nat) == 0
    &&& forall|i: int| 0 <= i < K ==> #[trigger] data[i]@.len() == data[0]@.len()
    &&& forall|j: int| 0 <= j < M ==> #[trigger] parity[j]@.len() == data[0]@.len()
}

/// `encode` succeeds exactly on well-formed stripes, whatever their length, and every
/// error it reports names a real fault: an invalid length of the first data block, or a
/// block whose length differs from it.
pub proof fn lemma_encode_result(data: [&[u8]; K], parity: [&mut [u8]; M])
    ensures
        (encode_result(data_lens(data), parity_lens(parity)) is Ok) <==> well_formed_stripe(data, parity),
        encode_result(data_lens(data), parity_lens(parity)) matches Err(Error::InvalidBlockSize(x)) ==> x
            == data[0]@.len() && (x == 0 || x % BLOCK_ALIGNMENT != 0),
        encode_result(data_lens(data), parity_lens(parity)) matches Err(
            Error::BlockSizeMismatch { expected, got },
        ) ==> expected == data[0]@.len() && got != expected && ((exists|i: int|
            0 <= i < K && #[trigger] data[i]@.len() == got) || (exists|j: int|
            0 <= j < M && #[trigger] parity[j]@.len() == got)),
        encode_result(data_lens(data), parity_lens(parity)) is Err ==> (encode_result(
            data_lens(data),
            parity_lens(parity),
        ) matches Err(Error::InvalidBlockSize(_)) || encode_result(data_lens(data), parity_lens(parity)) matches Err(
            Error::BlockSizeMismatch { .. },
        )),
{
    let dl = data_lens(data);
    let pl = parity_lens(parity);
    let size = dl[0];
    assert forall|i: int| 0 <= i < K implies #[trigger] data[i]@.len() <= usize::MAX by {
        vstd::slice::axiom_spec_len(data[i]);
    }
    assert forall|j: int| 0 <= j < M implies #[trigger] parity[j]@.len() <= usize::MAX by {
        vstd::slice::axiom_spec_len(&*parity[j]);
    }
    assert(size == data[0]@.len());
    lemma_first_mismatch_found(dl.drop_first(), size);
    lemma_first_mismatch_found(pl, size);
    if valid_block_size(size) {
        match first_mismatch(dl.drop_first(), size) {
            Some(g) => {
                let i = choose|i: int| 0 <= i < dl.drop_first().len() && dl.drop_first()[i] == g;
                assert(data[i + 1]@.len() == g);
            },
            None => {
                assert forall|i: int| 0 <= i < K implies #[trigger] data[i]@.len() == data[0]@.len() by {
                    if i > 0 {
                        assert(dl.drop_first()[i - 1] == dl[i]);
                    }
                }
                match first_mismatch(pl, size) {
                    Some(g) => {
                        let j = choose|j: int| 0 <= j < pl.len() && pl[j] == g;
                        assert(parity[j]@.len() == g);
                    },
                    None => {
                        assert forall|j: int| 0 <= j < M implies #[trigger] parity[j]@.len() == data[0]@.len() by {
                            assert(pl[j] == size);
                        }
                    },
                }
            },
        }
    }
    if well_formed_stripe(data, parity) {
        assert(valid_block_size(size));
        match first_mismatch(dl.drop_first(), size) {
            Some(g) => {
                let i = choose|i: int| 0 <= i < dl.drop_first().len() && dl.drop_first()[i] == g;
                assert(data[i + 1]@.len() == data[0]@.len());
            },
            None => {
                match first_mismatch(pl, size) {
                    Some(g) => {
                        let j = choose|j: int| 0 <= j < pl.len() && pl[j] == g;
                        assert(parity[j]@.len() == data[0]@.len());
                    },
                    None => {},
                }
            },
        }
    }
}

/// A block of `n` zero bytes.
fn zeroed(n: usize) -> (r: Vec<u8>)
    ensures
        r@.len() == n,
{
    let mut r: Vec<u8> = Vec::new();
    let mut i: usize = 0;
    while i < n
        invariant
            i <= n,
            r@.len() == i,
        decreases n - i,
    {
        r.push(0);
        i += 1;
    }
    r
}

/// Copies `src` into `dst`, which has the same length.
fn copy_into(dst: &mut [u8], src: &[u8])
    requires
        old(dst)@.len() == src@.len(),
    ensures
        final(dst)@ == src@,
{
    let mut i: usize = 0;
    while i < src.len()
        invariant
            i <= src@.len(),
            dst@.len() == src@.len(),
            forall|k: int| 0 <= k < i ==> #[trigger] dst@[k] == src@[k],
        decreases src@.len() - i,
    {
        dst[i] = src[i];
        i += 1;
    }
    assert(dst@ =~= src@);
}

/// Computes the `M` parity blocks from `K` data blocks.
///
/// Data blocks are assigned indices `0..K` and parity blocks indices `K..N`. All blocks
/// must have the same length, which must be a positive multiple of `BLOCK_ALIGNMENT`;
/// otherwise `InvalidBlockSize` or `BlockSizeMismatch` is returned and the parity blocks
/// are left as they were. On success, byte `b` of the nine blocks forms a codeword, for
/// every `b`.
#[verifier::loop_isolation(false)]
pub fn encode(data: [&[u8]; K], parity: [&mut [u8]; M]) -> (r: Result<(), Error>)
    ensures
        r == encode_result(data_lens(data), parity_lens(parity)),
        r is Ok <==> well_formed_stripe(data, parity),
        r matches Err(Error::InvalidBlockSize(x)) ==> x == data[0]@.len() && (x == 0 || x % BLOCK_ALIGNMENT != 0),
        r matches Err(Error::BlockSizeMismatch { expected, got }) ==> expected == data[0]@.len() && got != expected
            && ((exists|i: int| 0 <= i < K && #[trigger] data[i]@.len() == got) || (exists|j: int|
            0 <= j < M && #[trigger] parity[j]@.len() == got)),
        forall|j: int| 0 <= j < M ==> (#[trigger] final(parity[j])@).len() == parity[j]@.len(),
        r is Err ==> forall|j: int| 0 <= j < M ==> #[trigger] final(parity[j])@ == parity[j]@,
        r is Ok ==> forall|b: int|
            0 <= b < data[0]@.len() ==> #[trigger] is_codeword(
                stripe(data, final(parity[0])@, final(parity[1])@, final(parity[2])@, b),
            ),
{
    proof {
        lemma_encode_result(data, parity);
    }
    let ghost dl = data_lens(data);
    let ghost pl = parity_lens(parity);
    let block_size = data[0].len();
    if let Err(e) = validate_block_size(block_size) {
        return Err(e);
    }
    let mut i: usize = 1;
    while i < K
        invariant
            1 <= i <= K,
            dl == data_lens(data),
            block_size == dl[0],
            valid_block_size(dl[0]),
            forall|k: int| 0 <= k < i - 1 ==> #[trigger] dl.drop_first()[k] == dl[0],
        decreases K - i,
    {
        let len = data[i].len();
        if len != block_size {
            proof {
                lemma_first_mismatch(dl.drop_first(), dl[0], i - 1);
            }
            return Err(Error::BlockSizeMismatch { expected: block_size, got: len });
        }
        i += 1;
    }
    proof {
        lemma_first_mismatch(dl.drop_first(), dl[0], K - 1);
    }
    let mut j: usize = 0;
    while j < M
        invariant
            j <= M,
            pl == parity_lens(parity),
            block_size == dl[0],
            forall|k: int| 0 <= k < j ==> #[trigger] pl[k] == dl[0],
        decreases M - j,
    {
        let len = parity[j].len();
        if len != block_size {
            proof {
                lemma_first_mismatch(pl, dl[0], j as int);
            }
            return Err(Error::BlockSizeMismatch { expected: block_size, got: len });
        }
        j += 1;
    }
    proof {
        lemma_first_mismatch(pl, dl[0], M as int);
    }
    let mut survivors: [(usize, &[u8]); K] = [(0, data[0]); K];
    let mut i: usize = 0;
    while i < K
        invariant
            i <= K,
            forall|k: int| 0 <= k < i ==> #[trigger] survivors[k] == (k as usize, data[k]),
        decreases K - i,
    {
        survivors[i] = (i, data[i]);
        i += 1;
    }
    // The parity blocks are rebuilt in buffers of their own, then copied out.
    let mut t0 = zeroed(block_size);
    let mut t1 = zeroed(block_size);
    let mut t2 = zeroed(block_size);
    let ghost s0 = survivor_positions(survivors);
    proof {
        assert forall|a: int, b: int| 0 <= a < s0.len() && 0 <= b < s0.len() && a != b implies s0[a] != s0[b] by {}
        assert(valid_positions(s0));
        assert(survivors[0] == (0usize, data[0]));
        assert forall|k: int| 0 <= k < K implies (#[trigger] survivors[k]).1@.len() == survivors[0].1@.len() by {
            assert(survivors[k] == (k as usize, data[k]));
            if k > 0 {
                assert(dl.drop_first()[k - 1] == dl[k]);
            }
            assert(dl[k] == dl[0]);
        }
        assert forall|k: int| K <= k < N implies !s0.contains(k) by {
            if s0.contains(k) {
                let a = choose|a: int| 0 <= a < s0.len() && s0[a] == k;
            }
        }
        lemma_full_lanes(dl[0]);
    }
    let to_fix = [(K, t0.as_mut_slice()), (K + 1, t1.as_mut_slice()), (K + 2, t2.as_mut_slice())];
    let ghost tf = to_fix;
    fix_errors(survivors, to_fix);
    proof {
        assert(final(tf[0].1)@.len() == tf[0].1@.len());
        assert(final(tf[1].1)@.len() == tf[1].1@.len());
        assert(final(tf[2].1)@.len() == tf[2].1@.len());
    }
    let ghost p = parity;
    let mut parity = parity;
    proof {
        assert(pl[0] == dl[0] && pl[1] == dl[0] && pl[2] == dl[0]);
    }
    copy_into(parity[0], t0.as_slice());
    copy_into(parity[1], t1.as_slice());
    copy_into(parity[2], t2.as_slice());
    proof {
        assert(has_resolved(parity[0]) && has_resolved(parity[1]) && has_resolved(parity[2]));
        assert(final(p[0])@ == t0@ && final(p[1])@ == t1@ && final(p[2])@ == t2@);
        assert forall|b: int| 0 <= b < data[0]@.len() implies #[trigger] is_codeword(stripe(data, t0@, t1@, t2@, b)) by {
            let vals = stripe_column(survivors, b);
            let c = decoded(s0, vals);
            assert(is_codeword(c));
            assert(stripe(data, t0@, t1@, t2@, b) =~= c) by {
                assert forall|i: int| 0 <= i < N implies #[trigger] stripe(data, t0@, t1@, t2@, b)[i] == c[i] by {
                    if i < K {
                        assert(s0[i] == i);
                    }
                }
            }
        }
    }
    Ok(())
}

/// The position and length of each block given to `recover`: the known blocks, then the
/// missing ones.
pub open spec fn recover_entries<const MISSING: usize>(
    known: [(usize, &[u8]); K],
    missing: [(usize, &mut [u8]); MISSING],
) -> Seq<(usize, nat)> {
    Seq::new(K as nat, |k: int| (known[k].0, known[k].1@.len())) + Seq::new(
        MISSING as nat,
        |j: int| (missing[j].0, missing[j].1@.len()),
    )
}

/// What is wrong with entry `i`, given the entries before it and the block size.
pub open spec fn entry_error(entries: Seq<(usize, nat)>, size: nat, i: int) -> Option<Error> {
    let (idx, len) = entries[i];
    if idx >= N {
        Some(Error::IndexOutOfRange(idx))
    } else if exists|k: int| 0 <= k < i && #[trigger] entries[k].0 == idx {
        Some(Error::DuplicateIndex(idx))
    } else if len != size {
        Some(Error::BlockSizeMismatch { expected: size as usize, got: len as usize })
    } else {
        None
    }
}

/// The error of the first faulty entry from `i` on, if any.
pub open spec fn first_error(entries: Seq<(usize, nat)>, size: nat, i: int) -> Option<Error>
    decreases entries.len() - i,
{
    if i < 0 || i >= entries.len() {
        None
    } else {
        match entry_error(entries, size, i) {
            Some(e) => Some(e),
            None => first_error(entries, size, i + 1),
        }
    }
}

/// What `recover` reports: the block size is that of the first known block, it must be
/// valid, and then the first faulty entry, known blocks before missing ones, is reported.
pub open spec fn recover_result(entries: Seq<(usize, nat)>) -> Result<(), Error> {
    if !valid_block_size(entries[0].1) {
        Err(Error::InvalidBlockSize(entries[0].1 as usize))
    } else {
        match first_error(entries, entries[0].1, 0) {
            Some(e) => Err(e),
            None => Ok(()),
        }
    }
}

/// Bit `p` of `seen` is set.
pub open spec fn seen_bit(seen: u16, p: u16) -> bool {
    seen & (1u16 << p) != 0
}

/// Setting bit `q` of `seen` sets exactly that bit.
proof fn lemma_seen_bit(seen: u16, p: u16, q: u16)
    by (bit_vector)
    requires
        p < 16,
        q < 16,
    ensures
        seen_bit(seen | (1u16 << q), p) == (seen_bit(seen, p) || p == q),
        !seen_bit(0, p),
{
}

/// `seen` records exactly the positions of the first `i` entries, all of which are in range.
pub open spec fn records(seen: u16, entries: Seq<(usize, nat)>, i: int) -> bool {
    &&& forall|k: int| 0 <= k < i ==> (#[trigger] entries[k]).0 < N
    &&& forall|p: u16|
        p < 16 ==> (#[trigger] seen_bit(seen, p) <==> exists|k: int| 0 <= k < i && #[trigger] entries[k].0 == p as usize)
}

/// Checks entry `i`, at position `idx` and of length `len`, and records its position.
fn check_entry(
    seen: u16,
    idx: usize,
    len: usize,
    block_size: usize,
    Ghost(entries): Ghost<Seq<(usize, nat)>>,
    Ghost(i): Ghost<int>,
) -> (r: Result<u16, Error>)
    requires
        0 <= i < entries.len(),
        entries[i] == (idx, len as nat),
        records(seen, entries, i),
    ensures
        match r {
            Ok(next) => entry_error(entries, block_size as nat, i) is None && records(next, entries, i + 1),
            Err(e) => entry_error(entries, block_size as nat, i) == Some(e),
        },
{
    if idx >= N {
        return Err(Error::IndexOutOfRange(idx));
    }
    let q = idx as u16;
    let bit: u16 = 1u16 << q;
    if seen & bit != 0 {
        proof {
            assert(seen_bit(seen, q));
            let k = choose|k: int| 0 <= k < i && #[trigger] entries[k].0 == q as usize;
            assert(entries[k].0 == idx);
        }
        return Err(Error::DuplicateIndex(idx));
    }
    proof {
        assert(!seen_bit(seen, q));
        assert(!exists|k: int| 0 <= k < i && #[trigger] entries[k].0 == idx) by {
            if exists|k: int| 0 <= k < i && #[trigger] entries[k].0 == idx {
                let k = choose|k: int| 0 <= k < i && #[trigger] entries[k].0 == idx;
                assert(entries[k].0 == q as usize);
            }
        }
    }
    if len != block_size {
        return Err(Error::BlockSizeMismatch { expected: block_size, got: len });
    }
    let next = seen | bit;
    proof {
        assert forall|p: u16| p < 16 implies (#[trigger] seen_bit(next, p) <==> exists|k: int|
            0 <= k < i + 1 && #[trigger] entries[k].0 == p as usize) by {
            lemma_seen_bit(seen, p, q);
            if seen_bit(next, p) {
                if p == q {
                    assert(entries[i].0 == p as usize);
                } else {
                    let k = choose|k: int| 0 <= k < i && #[trigger] entries[k].0 == p as usize;
                }
            }
            if exists|k: int| 0 <= k < i + 1 && #[trigger] entries[k].0 == p as usize {
                let k = choose|k: int| 0 <= k < i + 1 && #[trigger] entries[k].0 == p as usize;
                if k < i {
                    assert(seen_bit(seen, p));
                } else {
                    assert(p as usize == idx);
                }
            }
        }
    }
    Ok(next)
}

/// A faultless prefix leaves the first error to the rest.
proof fn lemma_first_error_step(entries: Seq<(usize, nat)>, size: nat, i: int)
    requires
        0 <= i < entries.len(),
        entry_error(entries, size, i) is None,
    ensures
        first_error(entries, size, i) == first_error(entries, size, i + 1),
{
}

/// The first error from `i` on, if any, is the error of some entry from `i` on; with
/// none, no entry from `i` on is faulty.
proof fn lemma_first_error_found(entries: Seq<(usize, nat)>, size: nat, i: int)
    requires
        0 <= i,
    ensures
        match first_error(entries, size, i) {
            Some(e) => exists|j: int| i <= j < entries.len() && #[trigger] entry_error(entries, size, j) == Some(e),
            None => forall|j: int| i <= j < entries.len() ==> #[trigger] entry_error(entries, size, j) is None,
        },
    decreases entries.len() - i,
{
    if i < entries.len() {
        lemma_first_error_found(entries, size, i + 1);
    }
}

/// A request to `recover`: the indices are in range and distinct, and all blocks have one
/// length, which is a positive multiple of `BLOCK_ALIGNMENT`.
pub open spec fn well_formed_request<const MISSING: usize>(
    known: [(usize, &[u8]); K],
    missing: [(usize, &mut [u8]); MISSING],
) -> bool {
    &&& known[0].1@.len() > 0
    &&& known[0].1@.len() % (BLOCK_ALIGNMENT as nat) == 0
    &&& forall|k: int| 0 <= k < K ==> (#[trigger] known[k]).0 < N && known[k].1@.len() == known[0].1@.len()
    &&& forall|j: int| 0 <= j < MISSING ==> (#[trigger] missing[j]).0 < N && missing[j].1@.len() == known[0].1@.len()
    &&& forall|a: int, b: int| 0 <= a < K && 0 <= b < K && a != b ==> #[trigger] known[a].0 != #[trigger] known[b].0
    &&& forall|a: int, b: int|
        0 <= a < MISSING && 0 <= b < MISSING && a != b ==> #[trigger] missing[a].0 != #[trigger] missing[b].0
    &&& forall|j: int, k: int| 0 <= j < MISSING && 0 <= k < K ==> #[trigger] missing[j].0 != #[trigger] known[k].0
}

/// `recover` accepts exactly the well-formed requests, for any number of missing blocks up
/// to `M` and any block length, and every error it reports names a real fault: an invalid
/// length of the first known block, a block whose length differs from it, an index out of
/// range that some block has, or an index that two blocks share.
pub proof fn lemma_recover_result<const MISSING: usize>(
    known: [(usize, &[u8]); K],
    missing: [(usize, &mut [u8]); MISSING],
)
    ensures
        (recover_result(recover_entries(known, missing)) is Ok) <==> well_formed_request(known, missing),
        recover_result(recover_entries(known, missing)) matches Err(Error::InvalidBlockSize(x)) ==> x
            == known[0].1@.len() && (x == 0 || x % BLOCK_ALIGNMENT != 0),
        recover_result(recover_entries(known, missing)) matches Err(Error::BlockSizeMismatch { expected, got })
            ==> expected == known[0].1@.len() && got != expected && ((exists|k: int|
            0 <= k < K && #[trigger] known[k].1@.len() == got) || (exists|j: int|
            0 <= j < MISSING && #[trigger] missing[j].1@.len() == got)),
        recover_result(recover_entries(known, missing)) matches Err(Error::IndexOutOfRange(i)) ==> i >= N && ((
        exists|k: int| 0 <= k < K && #[trigger] known[k].0 == i) || (exists|j: int|
            0 <= j < MISSING && #[trigger] missing[j].0 == i)),
        recover_result(recover_entries(known, missing)) matches Err(Error::DuplicateIndex(i)) ==> (exists|a: int, b: int|
            0 <= a < b < K && #[trigger] known[a].0 == i && #[trigger] known[b].0 == i) || (exists|j: int, k: int|
            0 <= j < MISSING && 0 <= k < K && #[trigger] missing[j].0 == i && #[trigger] known[k].0 == i) || (exists|
            a: int,
            b: int,
        | 0 <= a < b < MISSING && #[trigger] missing[a].0 == i && #[trigger] missing[b].0 == i),
{
    let e = recover_entries(known, missing);
    let size = e[0].1;
    assert forall|k: int| 0 <= k < K implies #[trigger] known[k].1@.len() <= usize::MAX by {
        vstd::slice::axiom_spec_len(known[k].1);
    }
    assert forall|j: int| 0 <= j < MISSING implies #[trigger] missing[j].1@.len() <= usize::MAX by {
        vstd::slice::axiom_spec_len(&*missing[j].1);
    }
    assert forall|k: int| 0 <= k < K implies #[trigger] e[k] == (known[k].0, known[k].1@.len()) by {}
    assert forall|j: int| 0 <= j < MISSING implies #[trigger] e[K + j] == (missing[j].0, missing[j].1@.len()) by {}
    assert(e.len() == K + MISSING);
    assert(size == known[0].1@.len());
    lemma_first_error_found(e, size, 0);
    if well_formed_request(known, missing) {
        assert forall|j: int| 0 <= j < e.len() implies #[trigger] entry_error(e, size, j) is None by {
            if j < K {
                assert(e[j] == (known[j].0, known[j].1@.len()));
                assert forall|k: int| 0 <= k < j implies e[k].0 != e[j].0 by {
                    assert(e[k] == (known[k].0, known[k].1@.len()));
                    assert(known[k].0 != known[j].0);
                }
            } else {
                let jj = j - K;
                assert(e[j] == (missing[jj].0, missing[jj].1@.len()));
                assert forall|k: int| 0 <= k < j implies e[k].0 != e[j].0 by {
                    if k < K {
                        assert(e[k] == (known[k].0, known[k].1@.len()));
                        assert(missing[jj].0 != known[k].0);
                    } else {
                        assert(e[k] == (missing[k - K].0, missing[k - K].1@.len()));
                        assert(missing[k - K].0 != missing[jj].0);
                    }
                }
            }
        }
        if first_error(e, size, 0) is Some {
            let err = first_error(e, size, 0)->0;
            let j = choose|j: int| 0 <= j < e.len() && #[trigger] entry_error(e, size, j) == Some(err);
            assert(entry_error(e, size, j) is None);
        }
    }
    if valid_block_size(size) {
        match first_error(e, size, 0) {
            Some(err) => {
                let j = choose|j: int| 0 <= j < e.len() && #[trigger] entry_error(e, size, j) == Some(err);
                let idx = e[j].0;
                if j < K {
                    assert(e[j] == (known[j].0, known[j].1@.len()));
                } else {
                    assert(e[j] == (missing[j - K].0, missing[j - K].1@.len()));
                }
                if idx < N && exists|k: int| 0 <= k < j && #[trigger] e[k].0 == idx {
                    let k = choose|k: int| 0 <= k < j && #[trigger] e[k].0 == idx;
                    if k < K {
                        assert(e[k] == (known[k].0, known[k].1@.len()));
                    } else {
                        assert(e[k] == (missing[k - K].0, missing[k - K].1@.len()));
                    }
                }
            },
            None => {
                assert forall|k: int| 0 <= k < K implies (#[trigger] known[k]).0 < N && known[k].1@.len()
                    == known[0].1@.len() by {
                    assert(entry_error(e, size, k) is None);
                }
                assert forall|j: int| 0 <= j < MISSING implies (#[trigger] missing[j]).0 < N && missing[j].1@.len()
                    == known[0].1@.len() by {
                    assert(entry_error(e, size, K + j) is None);
                }
                assert forall|a: int, b: int| 0 <= a < K && 0 <= b < K && a != b implies #[trigger] known[a].0
                    != #[trigger] known[b].0 by {
                    if a < b {
                        assert(entry_error(e, size, b) is None);
                        assert(e[a].0 == known[a].0);
                    } else {
                        assert(entry_error(e, size, a) is None);
                        assert(e[b].0 == known[b].0);
                    }
                }
                assert forall|a: int, b: int| 0 <= a < MISSING && 0 <= b < MISSING && a != b implies #[trigger] missing[a].0
                    != #[trigger] missing[b].0 by {
                    if a < b {
                        assert(entry_error(e, size, K + b) is None);
                        assert(e[K + a].0 == missing[a].0);
                    } else {
                        assert(entry_error(e, size, K + a) is None);
                        assert(e[K + b].0 == missing[b].0);
                    }
                }
                assert forall|j: int, k: int| 0 <= j < MISSING && 0 <= k < K implies #[trigger] missing[j].0
                    != #[trigger] known[k].0 by {
                    assert(entry_error(e, size, K + j) is None);
                    assert(e[k].0 == known[k].0);
                }
            },
        }
    }
}

/// Recovers up to `M` missing blocks from `K` known blocks.
///
/// `known` holds exactly `K` blocks, each paired with its stripe index in `0..N`;
/// `missing` pairs the indices of the blocks to rebuild with buffers for them. All blocks
/// must have the same length, a positive multiple of `BLOCK_ALIGNMENT`, and the indices
/// must be distinct; otherwise the first fault found is returned, in the order
/// `InvalidBlockSize`, then per block, known blocks first, `IndexOutOfRange`,
/// `DuplicateIndex`, `BlockSizeMismatch`, and `missing` is left as it was. On success each
/// missing block holds, byte by byte, the symbol at its index of the codeword that agrees
/// with the known blocks. At most `M` blocks can be missing; with none missing the blocks
/// are only checked.
#[verifier::loop_isolation(false)]
pub fn recover<const MISSING: usize>(
    known: [(usize, &[u8]); K],
    missing: [(usize, &mut [u8]); MISSING],
) -> (r: Result<(), Error>)
    requires
        MISSING <= M,
    ensures
        r == recover_result(recover_entries(known, missing)),
        r is Ok <==> well_formed_request(known, missing),
        r matches Err(Error::InvalidBlockSize(x)) ==> x == known[0].1@.len() && (x == 0 || x % BLOCK_ALIGNMENT != 0),
        r matches Err(Error::BlockSizeMismatch { expected, got }) ==> expected == known[0].1@.len() && got != expected
            && ((exists|k: int| 0 <= k < K && #[trigger] known[k].1@.len() == got) || (exists|j: int|
            0 <= j < MISSING && #[trigger] missing[j].1@.len() == got)),
        r matches Err(Error::IndexOutOfRange(i)) ==> i >= N && ((exists|k: int| 0 <= k < K && #[trigger] known[k].0 == i)
            || (exists|j: int| 0 <= j < MISSING && #[trigger] missing[j].0 == i)),
        r matches Err(Error::DuplicateIndex(i)) ==> (exists|a: int, b: int|
            0 <= a < b < K && #[trigger] known[a].0 == i && #[trigger] known[b].0 == i) || (exists|j: int, k: int|
            0 <= j < MISSING && 0 <= k < K && #[trigger] missing[j].0 == i && #[trigger] known[k].0 == i) || (exists|
            a: int,
            b: int,
        | 0 <= a < b < MISSING && #[trigger] missing[a].0 == i && #[trigger] missing[b].0 == i),
        forall|j: int| 0 <= j < MISSING ==> (#[trigger] final(missing[j].1)@).len() == missing[j].1@.len(),
        r is Err ==> forall|j: int| 0 <= j < MISSING ==> #[trigger] final(missing[j].1)@ == missing[j].1@,
        r is Ok && MISSING > 0 ==> decodable(survivor_positions(known)),
        r is Ok ==> forall|j: int, b: int|
            0 <= j < MISSING && 0 <= b < missing[j].1@.len() ==> #[trigger] final(missing[j].1)@[b] == decoded(
                survivor_positions(known),
                stripe_column(known, b),
            )[missing[j].0 as int],
{
    proof {
        lemma_recover_result(known, missing);
    }
    let ghost entries = recover_entries(known, missing);
    let block_size = known[0].1.len();
    if let Err(e) = validate_block_size(block_size) {
        return Err(e);
    }
    proof {
        assert(entries[0].1 == block_size);
        assert forall|p: u16| p < 16 implies (#[trigger] seen_bit(0, p) <==> exists|k: int|
            0 <= k < 0 && #[trigger] entries[k].0 == p as usize) by {
            lemma_seen_bit(0, p, 0);
        }
    }
    let mut seen: u16 = 0;
    let mut i: usize = 0;
    while i < K
        invariant
            i <= K,
            entries.len() == K + MISSING,
            records(seen, entries, i as int),
            forall|k: int| 0 <= k < i ==> #[trigger] entry_error(entries, block_size as nat, k) is None,
            first_error(entries, block_size as nat, 0) == first_error(entries, block_size as nat, i as int),
        decreases K - i,
    {
        assert(entries[i as int] == (known[i as int].0, known[i as int].1@.len()));
        match check_entry(seen, known[i].0, known[i].1.len(), block_size, Ghost(entries), Ghost(i as int)) {
            Ok(next) => {
                proof {
                    lemma_first_error_step(entries, block_size as nat, i as int);
                }
                seen = next;
            },
            Err(e) => {
                return Err(e);
            },
        }
        i += 1;
    }
    let mut j: usize = 0;
    while j < MISSING
        invariant
            j <= MISSING,
            entries == recover_entries(known, missing),
            entries.len() == K + MISSING,
            records(seen, entries, K + j),
            forall|k: int| 0 <= k < K + j ==> #[trigger] entry_error(entries, block_size as nat, k) is None,
            first_error(entries, block_size as nat, 0) == first_error(entries, block_size as nat, K + j),
        decreases MISSING - j,
    {
        assert(entries[K + j] == (missing[j as int].0, missing[j as int].1@.len()));
        match check_entry(seen, missing[j].0, missing[j].1.len(), block_size, Ghost(entries), Ghost(K + j)) {
            Ok(next) => {
                proof {
                    lemma_first_error_step(entries, block_size as nat, K + j);
                }
                seen = next;
            },
            Err(e) => {
                return Err(e);
            },
        }
        j += 1;
    }
    let ghost s0 = survivor_positions(known);
    proof {
        assert(first_error(entries, block_size as nat, K + MISSING) is None);
        assert forall|a: int, b: int| 0 <= a < s0.len() && 0 <= b < s0.len() && a != b implies s0[a] != s0[b] by {
            if a < b {
                assert(entry_error(entries, block_size as nat, b) is None);
                assert(entries[a].0 == known[a].0);
            } else {
                assert(entry_error(entries, block_size as nat, a) is None);
                assert(entries[b].0 == known[b].0);
            }
        }
        assert forall|k: int| 0 <= k < K implies 0 <= #[trigger] s0[k] < N by {
            assert(entries[k].0 == known[k].0);
        }
        assert(valid_positions(s0));
        assert forall|k: int| 0 <= k < K implies (#[trigger] known[k]).1@.len() == known[0].1@.len() by {
            assert(entry_error(entries, block_size as nat, k) is None);
        }
        assert forall|k: int| 0 <= k < MISSING implies (#[trigger] missing[k]).0 < N
            && !s0.contains(missing[k].0 as int) && missing[k].1@.len() == known[0].1@.len() by {
            assert(entries[K + k] == (missing[k].0, missing[k].1@.len()));
            assert(entry_error(entries, block_size as nat, K + k) is None);
            if s0.contains(missing[k].0 as int) {
                let a = choose|a: int| 0 <= a < s0.len() && s0[a] == missing[k].0 as int;
                assert(entries[a].0 == missing[k].0);
            }
        }
        lemma_full_lanes(block_size as nat);
    }
    fix_errors(known, missing);
    Ok(())
}

/// Recovery undoes the loss of blocks of an encoded stripe: when byte `b` of the nine
/// blocks forms a codeword, as `encode` guarantees, and `known` holds six blocks of the
/// stripe at distinct indices, the byte that `recover` writes for any index `p` is byte
/// `b` of block `p`.
pub proof fn lemma_recover_after_encode(
    data: [&[u8]; K],
    p0: Seq<u8>,
    p1: Seq<u8>,
    p2: Seq<u8>,
    known: [(usize, &[u8]); K],
    b: int,
    p: int,
)
    requires
        0 <= p < N,
        is_codeword(stripe(data, p0, p1, p2, b)),
        valid_positions(survivor_positions(known)),
        forall|k: int| 0 <= k < K ==> (#[trigger] known[k]).1@ == block(data, p0, p1, p2, known[k].0 as int),
    ensures
        decoded(survivor_positions(known), stripe_column(known, b))[p] == block(data, p0, p1, p2, p)[b],
{
    let s = survivor_positions(known);
    let c = stripe(data, p0, p1, p2, b);
    assert(stripe_column(known, b) =~= select(c, s)) by {
        assert forall|k: int| 0 <= k < K implies #[trigger] stripe_column(known, b)[k] == select(c, s)[k] by {
            assert(known[k].1@ == block(data, p0, p1, p2, s[k]));
            assert(0 <= s[k] < N);
        }
    }
    lemma_recover_codeword(c, s);
}

} // verus!
