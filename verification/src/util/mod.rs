//! Checks on the texts of single tokens.

pub mod allowed_chars;
pub mod escape;
pub mod underscores;

use vstd::prelude::*;

verus! {

/// The outcome of a check is the list of the offsets of what is wrong, or
/// success where that list is empty.
pub open spec fn reports(outcome: Result<(), Vec<usize>>, offsets: Seq<int>) -> bool {
    match outcome {
        Ok(_) => offsets.len() == 0,
        Err(found) => {
            &&& offsets.len() > 0
            &&& found@.len() == offsets.len()
            &&& forall|i: int| 0 <= i < offsets.len() ==> #[trigger] found@[i] == offsets[i]
        },
    }
}

} // verus!
