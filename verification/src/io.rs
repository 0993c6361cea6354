//! Buffer sizing for the applets' buffered input and output.

use vstd::prelude::*;

verus! {

const DEFAULT_BUF_SIZE: usize = 8192;

/// The capacity of the applets' input and output buffers.
pub fn buffer_size() -> (r: usize)
    ensures
        r == 8192,
{
    DEFAULT_BUF_SIZE
}

} // verus!
