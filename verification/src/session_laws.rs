//! Properties of the session's bookkeeping that hold across operations.

use vstd::prelude::*;
use crate::deps::dependents_of;
use crate::graph::EdgeView;
use crate::session::{
    dirty_after_run, dirty_of, output_changed, output_of, status_from, CellOutput, CellState, CellStatus,
    Session,
};
use crate::notebook::Cell;
use crate::session_view::shows_cell;

verus! {

/// A run that succeeds with the same value hash as the previous output
/// leaves every other cell's dirty flag as it was, and its own clean: an
/// unchanged output does not make dependents stale.
pub proof fn law_unchanged_output_marks_nothing(
    ds: Seq<(String, bool)>,
    es: Seq<EdgeView>,
    outs: Seq<CellOutput>,
    name: Seq<char>,
    o: CellOutput,
)
    requires
        o.success,
        output_of(outs, name) matches Some(prev) && prev.value_hash@ == o.value_hash@,
    ensures
        !output_changed(outs, name, o),
        dirty_after_run(ds, es, outs, name, o, name) == Some(false),
        forall|m: Seq<char>| m != name ==> #[trigger] dirty_after_run(ds, es, outs, name, o, m) == dirty_of(ds, m),
{
}

/// A run that succeeds with a new value hash (or a first output) makes
/// every direct dependent dirty.
pub proof fn law_changed_output_marks_dependents(
    ds: Seq<(String, bool)>,
    es: Seq<EdgeView>,
    outs: Seq<CellOutput>,
    name: Seq<char>,
    o: CellOutput,
)
    requires
        o.success,
        !(output_of(outs, name) matches Some(prev) && prev.value_hash@ == o.value_hash@),
    ensures
        output_changed(outs, name, o),
        forall|m: Seq<char>| dependents_of(es, name).contains(m) ==> #[trigger] dirty_after_run(ds, es, outs, name, o, m) == Some(true),
{
}

/// A failed run makes no other cell dirty and leaves its own cell clean.
pub proof fn law_failed_run_marks_nothing(
    ds: Seq<(String, bool)>,
    es: Seq<EdgeView>,
    outs: Seq<CellOutput>,
    name: Seq<char>,
    o: CellOutput,
)
    requires
        !o.success,
    ensures
        dirty_after_run(ds, es, outs, name, o, name) == Some(false),
        forall|m: Seq<char>| m != name ==> #[trigger] dirty_after_run(ds, es, outs, name, o, m) == dirty_of(ds, m),
{
}

/// Right after a run of a cell that does not depend on itself, the cell
/// shows `Success` when the run succeeded and `Error` when it failed.
pub proof fn law_status_after_run(
    ds: Seq<(String, bool)>,
    es: Seq<EdgeView>,
    outs: Seq<CellOutput>,
    name: Seq<char>,
    o: CellOutput,
)
    requires
        !dependents_of(es, name).contains(name),
    ensures
        status_from(Some(o), dirty_after_run(ds, es, outs, name, o, name)) == if o.success { CellStatus::Success } else { CellStatus::Error },
{
}

/// A cell that never ran shows `Pristine`, whatever its dirty flag.
pub proof fn law_never_run_is_pristine(d: Option<bool>)
    ensures
        status_from(None, d) == CellStatus::Pristine,
{
}

/// A cell that has an output and is flagged dirty shows `Dirty`, whether
/// its last run succeeded or failed: an edit makes any output stale.
pub proof fn law_dirty_output_shows_dirty(o: CellOutput)
    ensures
        status_from(Some(o), Some(true)) == CellStatus::Dirty,
{
}

/// The state shown for a cell is read from its own output and flag: no
/// output shows `Pristine`; an output with the dirty flag shows `Dirty`;
/// otherwise `Success` or `Error` as the output says.
pub proof fn law_shown_status(s: Session, c: Cell, st: CellState)
    requires
        shows_cell(s, c, st),
    ensures
        st.output is None ==> st.status == CellStatus::Pristine,
        st.output is Some && st.dirty ==> st.status == CellStatus::Dirty,
        st.output is Some && !st.dirty ==> st.status == if st.output.unwrap().success { CellStatus::Success } else { CellStatus::Error },
{
}

} // verus!
