//! The mathematical view of a board value: a sequence of rows of cells.

use vstd::prelude::*;

verus! {

/// The mathematical contents of a board: a sequence of rows of cells.
pub open spec fn bv(b: Vec<Vec<Option<u8>>>) -> Seq<Seq<Option<u8>>> {
    Seq::new(b@.len(), |y: int| b@[y]@)
}

/// The board view is as long as the vector of rows.
pub broadcast proof fn lemma_bv_len(b: Vec<Vec<Option<u8>>>)
    ensures
        (#[trigger] bv(b)).len() == b@.len(),
{
}

/// A row of the board view is the view of the stored row.
pub broadcast proof fn lemma_bv_row(b: Vec<Vec<Option<u8>>>, y: int)
    requires
        0 <= y < b@.len(),
    ensures
        #![trigger bv(b)[y]]
        #![trigger b@[y]]
        bv(b)[y] == b@[y]@,
{
}

} // verus!
