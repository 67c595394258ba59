# reed_solomon

Reed-Solomon erasure coding over GF(2^8), verified with Verus.

The code is a systematic RS(9, 6) code: a stripe holds `K` = 6 data blocks and
`M` = 3 parity blocks of equal length, and any 6 of the 9 blocks rebuild the other 3.
`encode` computes the parity blocks; `recover` rebuilds up to 3 lost blocks from 6
known ones. Byte `b` of the nine blocks of a stripe is a codeword: a vector `c` of
9 field elements with `H c = 0`, where `H[i][j] = 2^((i + 1) j)` is a Vandermonde
parity-check matrix.

Layout of `src/`:

- `gf8.rs`: the field GF(2^8) (polynomial `x^8 + x^4 + x^3 + x^2 + 1`) as spec
  functions, with its laws (commutativity, associativity, distributivity,
  inverses), and the `GF8` element type.
- `gf8/lookup.rs`: scalar multiplication, inversion and the lookup tables.
- `gf8/simd.rs`: multiplication of a vector of lanes through nibble tables.
- `reed_solomon/linalg.rs`: vectors and matrices over GF(2^8) as sequences, and the
  algebra of Gauss-Jordan elimination.
- `reed_solomon/code.rs`: the code itself: codewords, the proof that any six
  positions determine a codeword and can hold any values, decoding, and the
  enumeration of the 84 choices of six positions.
- `reed_solomon/constants.rs`: the matrices `H`, `P` and `G`, matrix inversion,
  the decoding ("fix") matrix of every choice of six surviving positions.
- `reed_solomon.rs`: `fix_errors`, which rebuilds blocks from six survivors.
- `lib.rs`: `encode`, `recover`, their exact error behaviour, and the law that
  recovering after encoding gives back the lost blocks.
- `error.rs`: the error type and its messages.

`tests/` exercises the library on concrete stripes.
