use vstd::prelude::*;

verus! {

/// Width, in bytes, of the vectors of lanes that the block computations work on.
pub const LANES: usize = 16;

} // verus!
