//! What the ranks that share a model agree on.
use vstd::prelude::*;

verus! {

/// The number of blocks that every rank can hold: the least of what rank 0 and the other
/// ranks reported.
pub fn min_blocks(own: usize, reported: &[usize]) -> (blocks: usize)
    ensures
        blocks <= own,
        forall|i: int| 0 <= i < reported@.len() ==> blocks <= #[trigger] reported@[i],
        blocks == own || reported@.contains(blocks),
{
    let mut blocks = own;
    let mut i: usize = 0;
    while i < reported.len()
        invariant
            i <= reported@.len(),
            blocks <= own,
            forall|j: int| 0 <= j < i ==> blocks <= #[trigger] reported@[j],
            blocks == own || reported@.contains(blocks),
        decreases reported@.len() - i,
    {
        if reported[i] < blocks {
            blocks = reported[i];
            assert(reported@[i as int] == blocks);
        }
        i = i + 1;
    }
    blocks
}

} // verus!
