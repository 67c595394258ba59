use vstd::prelude::*;
use vstd::string::StringExecFns;

use crate::{BLOCK_ALIGNMENT, N};

verus! {

/// Errors returned by `encode` and `recover`.
#[derive(Debug, Clone, PartialEq, Eq, Hash)]
#[non_exhaustive]
pub enum Error {
    /// Block size is zero or not a multiple of `BLOCK_ALIGNMENT`.
    InvalidBlockSize(usize),
    /// Not all blocks have the same length. `expected` is the length of the first block.
    BlockSizeMismatch {
        /// The length inferred from the first block.
        expected: usize,
        /// The mismatched length.
        got: usize,
    },
    /// The same block index appeared more than once across the inputs.
    DuplicateIndex(usize),
    /// A block index is out of range; valid indices are `0..N`.
    IndexOutOfRange(usize),
}

/// The character of the decimal digit `d`.
pub open spec fn digit_char(d: nat) -> char {
    if d == 0 {
        '0'
    } else if d == 1 {
        '1'
    } else if d == 2 {
        '2'
    } else if d == 3 {
        '3'
    } else if d == 4 {
        '4'
    } else if d == 5 {
        '5'
    } else if d == 6 {
        '6'
    } else if d == 7 {
        '7'
    } else if d == 8 {
        '8'
    } else {
        '9'
    }
}

/// The decimal notation of `n`, without leading zeros.
pub open spec fn decimal(n: nat) -> Seq<char>
    decreases n,
{
    if n < 10 {
        seq![digit_char(n)]
    } else {
        decimal(n / 10) + seq![digit_char(n % 10)]
    }
}

/// The text that describes an error.
pub open spec fn message_text(e: Error) -> Seq<char> {
    match e {
        Error::InvalidBlockSize(size) => "block size "@ + decimal(size as nat) + " is not a positive multiple of "@
            + decimal(BLOCK_ALIGNMENT as nat),
        Error::BlockSizeMismatch { expected, got } => "block size mismatch: expected "@ + decimal(expected as nat)
            + " bytes, got "@ + decimal(got as nat) + " bytes"@,
        Error::DuplicateIndex(idx) => "duplicate block index "@ + decimal(idx as nat),
        Error::IndexOutOfRange(idx) => "block index "@ + decimal(idx as nat) + " is out of range (must be less than "@
            + decimal(N as nat) + ")"@,
    }
}

/// Appends the digit `d` to `s`.
fn push_digit(s: &mut String, d: usize)
    requires
        d < 10,
    ensures
        final(s)@ == old(s)@ + seq![digit_char(d as nat)],
{
    if d == 0 {
        proof {
            reveal_strlit("0");
        }
        s.append("0");
    } else if d == 1 {
        proof {
            reveal_strlit("1");
        }
        s.append("1");
    } else if d == 2 {
        proof {
            reveal_strlit("2");
        }
        s.append("2");
    } else if d == 3 {
        proof {
            reveal_strlit("3");
        }
        s.append("3");
    } else if d == 4 {
        proof {
            reveal_strlit("4");
        }
        s.append("4");
    } else if d == 5 {
        proof {
            reveal_strlit("5");
        }
        s.append("5");
    } else if d == 6 {
        proof {
            reveal_strlit("6");
        }
        s.append("6");
    } else if d == 7 {
        proof {
            reveal_strlit("7");
        }
        s.append("7");
    } else if d == 8 {
        proof {
            reveal_strlit("8");
        }
        s.append("8");
    } else {
        proof {
            reveal_strlit("9");
        }
        s.append("9");
    }
}

/// Appends the decimal notation of `n` to `s`.
fn push_decimal(s: &mut String, n: usize)
    ensures
        final(s)@ == old(s)@ + decimal(n as nat),
    decreases n,
{
    if n >= 10 {
        push_decimal(s, n / 10);
        push_digit(s, n % 10);
        assert(s@ =~= old(s)@ + decimal(n as nat)) by {
            assert(decimal(n as nat) == decimal((n / 10) as nat) + seq![digit_char((n % 10) as nat)]);
        }
    } else {
        push_digit(s, n);
    }
}

impl Error {
    /// A description of the error, for people.
    pub fn message(&self) -> (r: String)
        ensures
            r@ == message_text(*self),
    {
        match self {
            Error::InvalidBlockSize(size) => {
                let mut s = String::from_str("block size ");
                push_decimal(&mut s, *size);
                s.append(" is not a positive multiple of ");
                push_decimal(&mut s, BLOCK_ALIGNMENT);
                assert(s@ =~= message_text(*self));
                s
            },
            Error::BlockSizeMismatch { expected, got } => {
                let mut s = String::from_str("block size mismatch: expected ");
                push_decimal(&mut s, *expected);
                s.append(" bytes, got ");
                push_decimal(&mut s, *got);
                s.append(" bytes");
                assert(s@ =~= message_text(*self));
                s
            },
            Error::DuplicateIndex(idx) => {
                let mut s = String::from_str("duplicate block index ");
                push_decimal(&mut s, *idx);
                assert(s@ =~= message_text(*self));
                s
            },
            Error::IndexOutOfRange(idx) => {
                let mut s = String::from_str("block index ");
                push_decimal(&mut s, *idx);
                s.append(" is out of range (must be less than ");
                push_decimal(&mut s, N);
                s.append(")");
                assert(s@ =~= message_text(*self));
                s
            },
        }
    }
}

} // verus!
