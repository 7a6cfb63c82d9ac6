//! Classification of a single 16-byte lane.
//!
//! One lane of raw input is pushed through the nibble-table classifier on
//! its own, without any quote tracking; useful for inspecting how a window
//! of bytes is classified.

use vstd::prelude::*;

use crate::stage1::{class_of, classify};

verus! {

/// Classify the 16-byte window of `chunk` starting at `at`: byte `i` of the
/// result is the class bitset of `chunk[at + i]`.
pub fn run(chunk: &[u8], at: usize) -> (r: Vec<u8>)
    requires
        at + 16 <= chunk@.len(),
    ensures
        r@.len() == 16,
        forall|i: int| 0 <= i < 16 ==> r@[i] == class_of(chunk@[at + i]),
{
    let len: usize = chunk.len();
    let mut r: Vec<u8> = Vec::new();
    let mut i: usize = 0;
    while i < 16
        invariant
            i <= 16,
            at + 16 <= len,
            len == chunk@.len(),
            r@.len() == i,
            forall|j: int| 0 <= j < i ==> r@[j] == class_of(chunk@[at + j]),
        decreases 16 - i,
    {
        r.push(classify(chunk[at + i]));
        i += 1;
    }
    r
}

} // verus!
