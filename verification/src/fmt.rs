//! Formatting of cell sources. Running rustfmt is the caller's part; this
//! is what is done with its answer.

use vstd::prelude::*;

verus! {

/// Format a cell function source: the text rustfmt gave back, or the
/// source itself when rustfmt failed.
pub fn rustfmt_cell_source(source: &str, formatted: Option<String>) -> (r: String)
    ensures
        formatted matches Some(f) ==> r@ == f@,
        formatted is None ==> r@ == source@,
{
    match formatted {
        Some(f) => f,
        None => source.to_string(),
    }
}

} // verus!
