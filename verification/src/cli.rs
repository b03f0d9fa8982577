//! What the command line shows: the tip of the day and the report of a
//! notebook's dependency graph.

use vstd::prelude::*;
use crate::diagnose::Severity;
use crate::graph::DependencyGraph;
use crate::notebook::{Helper, Notebook};
use crate::source_util::{decimal, decimal_vec};
use crate::text::{chars_of, join, join_vec, push_all, string_of, views};

verus! {

/// The number of tips.
pub open spec fn tip_count() -> nat {
    15
}

/// Tip `i` (`i < tip_count()`).
pub open spec fn tip(i: int) -> Seq<char> {
    if i == 0 {
        "labrs new hello          — scaffold a notebook (.rs + optional Cargo.toml)"@
    } else if i == 1 {
        "labrs edit               — open the UI without a file (file browser + New notebook)"@
    } else if i == 2 {
        "labrs edit notebook.rs   — jump straight into a notebook"@
    } else if i == 3 {
        "labrs edit --port 3000   — serve the UI on another port"@
    } else if i == 4 {
        "labrs edit --no-auto     — disable Auto-run cascade (manual dirty mode)"@
    } else if i == 5 {
        "labrs graph notebook.rs  — print the cell DAG, helpers, and diagnostics"@
    } else if i == 6 {
        "labrs run notebook.rs    — topo-run all cells from the CLI"@
    } else if i == 7 {
        "labrs run notebook.rs --no-fmt  — skip rustfmt before a CLI run"@
    } else if i == 8 {
        "labrs fmt notebook.rs    — format the notebook with rustfmt"@
    } else if i == 9 {
        "In the UI: Detach Shared to edit helpers/structures beside Notebook"@
    } else if i == 10 {
        "In Shared: uncheck Read-only to edit helpers, structures, and preamble"@
    } else if i == 11 {
        "Cell params are dependencies: fn report(val: &u16) depends on cell `val`"@
    } else if i == 12 {
        "Plain fns are helpers (not in the DAG); mark cells with #[labrs::cell]"@
    } else if i == 13 {
        "Click the labrs brand in the UI to return to the file browser"@
    } else {
        "Toggle Auto-run in the toolbar to cascade dependents when outputs change"@
    }
}

fn tip_text(i: usize) -> (r: &'static str)
    requires
        i < 15,
    ensures
        r@ == tip(i as int),
{
    match i {
        0 => "labrs new hello          — scaffold a notebook (.rs + optional Cargo.toml)",
        1 => "labrs edit               — open the UI without a file (file browser + New notebook)",
        2 => "labrs edit notebook.rs   — jump straight into a notebook",
        3 => "labrs edit --port 3000   — serve the UI on another port",
        4 => "labrs edit --no-auto     — disable Auto-run cascade (manual dirty mode)",
        5 => "labrs graph notebook.rs  — print the cell DAG, helpers, and diagnostics",
        6 => "labrs run notebook.rs    — topo-run all cells from the CLI",
        7 => "labrs run notebook.rs --no-fmt  — skip rustfmt before a CLI run",
        8 => "labrs fmt notebook.rs    — format the notebook with rustfmt",
        9 => "In the UI: Detach Shared to edit helpers/structures beside Notebook",
        10 => "In Shared: uncheck Read-only to edit helpers, structures, and preamble",
        11 => "Cell params are dependencies: fn report(val: &u16) depends on cell `val`",
        12 => "Plain fns are helpers (not in the DAG); mark cells with #[labrs::cell]",
        13 => "Click the labrs brand in the UI to return to the file browser",
        _ => "Toggle Auto-run in the toolbar to cascade dependents when outputs change",
    }
}

/// Nanoseconds since the Unix epoch by the system clock (`SystemTime::now`
/// and `duration_since`), or `None` before the epoch. Nothing is claimed of
/// the value.
#[verifier::external_body]
fn clock_nanos() -> (r: Option<u128>) {
    std::time::SystemTime::now().duration_since(std::time::UNIX_EPOCH).map(|d| d.as_nanos()).ok()
}

/// The tip shown for clock reading `nanos`: the reading, truncated to
/// `usize`, modulo the number of tips.
pub fn tip_for(nanos: u128) -> (r: &'static str)
    ensures
        r@ == tip(((nanos as usize) as nat % tip_count()) as int),
{
    let n = nanos as usize;
    tip_text(n % 15)
}

/// A tip chosen by the clock.
pub fn random_tip() -> (r: &'static str)
    ensures
        exists|i: int| 0 <= i < tip_count() && r@ == tip(i),
{
    let n = match clock_nanos() {
        Some(n) => n,
        None => 0,
    };
    let r = tip_for(n);
    assert(0 <= ((n as usize) as nat % tip_count()) < tip_count());
    r
}

fn push_str(v: &mut Vec<char>, s: &str)
    ensures
        final(v)@ == old(v)@ + s@,
{
    push_all(v, &chars_of(s));
}

/// The report of the helpers section: one line per helper, marked when it
/// carries `#[labrs::helper]`, then a blank line; nothing without helpers.
pub open spec fn helper_lines(hs: Seq<Helper>) -> Seq<char>
    decreases hs.len(),
{
    if hs.len() == 0 {
        seq![]
    } else {
        helper_lines(hs.drop_last()) + "  - "@ + hs.last().name@
            + (if hs.last().explicit { " #[labrs::helper]"@ } else { seq![] }) + "\n"@
    }
}

pub open spec fn edge_lines(es: Seq<crate::graph::DependencyEdge>) -> Seq<char>
    decreases es.len(),
{
    if es.len() == 0 {
        seq![]
    } else {
        edge_lines(es.drop_last()) + "  "@ + es.last().from@ + " -> "@ + es.last().to@ + " (param "@
            + es.last().param_name@ + ")\n"@
    }
}

pub open spec fn severity_name(s: Severity) -> Seq<char> {
    match s {
        Severity::Error => "Error"@,
        Severity::Warning => "Warning"@,
    }
}

pub open spec fn diagnostic_lines(ds: Seq<crate::diagnose::Diagnostic>) -> Seq<char>
    decreases ds.len(),
{
    if ds.len() == 0 {
        seq![]
    } else {
        let d = ds.last();
        let loc = match d.cell {
            Some(c) => c@,
            None => "-"@,
        };
        diagnostic_lines(ds.drop_last()) + "  ["@ + severity_name(d.severity) + "] ("@ + loc + ") "@
            + d.message@ + "\n"@
    }
}

/// What `labrs graph` prints for notebook `nb` (shown as `file`) and its
/// graph `g`: counts, helpers, edges, topological order and diagnostics.
pub open spec fn graph_report_text(file: Seq<char>, nb: Notebook, g: DependencyGraph) -> Seq<char> {
    "Notebook: "@ + file + "\n"@
        + "Cells: "@ + decimal(nb.cells@.len()) + "\n"@
        + "Helpers: "@ + decimal(nb.helpers@.len()) + "\n"@
        + "Definitions: "@ + decimal(nb.definitions@.len()) + "\n"@
        + "Markdown: "@ + decimal(nb.markdown@.len()) + "\n"@
        + "\n"@
        + (if nb.helpers@.len() == 0 { seq![] } else { "Helpers (not in DAG):\n"@ + helper_lines(nb.helpers@) + "\n"@ })
        + "Edges:\n"@
        + (if g.edges@.len() == 0 { "  (none)\n"@ } else { edge_lines(g.edges@) })
        + "\n"@
        + "Topological order: "@ + join(crate::graph::string_views(g.order@), " → "@) + "\n"@
        + "\n"@
        + (if g.diagnostics@.len() == 0 { "Diagnostics: ok\n"@ } else { "Diagnostics:\n"@ + diagnostic_lines(g.diagnostics@) })
}

/// The report that `labrs graph` prints.
pub fn graph_report(file: &str, nb: &Notebook, g: &DependencyGraph) -> (r: String)
    ensures
        r@ == graph_report_text(file@, *nb, *g),
{
    let mut v: Vec<char> = Vec::new();
    push_str(&mut v, "Notebook: ");
    push_str(&mut v, file);
    push_str(&mut v, "\n");
    push_str(&mut v, "Cells: ");
    push_all(&mut v, &decimal_vec(nb.cells.len()));
    push_str(&mut v, "\n");
    push_str(&mut v, "Helpers: ");
    push_all(&mut v, &decimal_vec(nb.helpers.len()));
    push_str(&mut v, "\n");
    push_str(&mut v, "Definitions: ");
    push_all(&mut v, &decimal_vec(nb.definitions.len()));
    push_str(&mut v, "\n");
    push_str(&mut v, "Markdown: ");
    push_all(&mut v, &decimal_vec(nb.markdown.len()));
    push_str(&mut v, "\n");
    push_str(&mut v, "\n");
    let ghost v0 = v@;
    if nb.helpers.len() != 0 {
        push_str(&mut v, "Helpers (not in DAG):\n");
        let ghost v1 = v@;
        let mut i: usize = 0;
        while i < nb.helpers.len()
            invariant
                i <= nb.helpers@.len(),
                v@ == v1 + helper_lines(nb.helpers@.take(i as int)),
            decreases nb.helpers@.len() - i,
        {
            assert(nb.helpers@.take(i + 1).drop_last() =~= nb.helpers@.take(i as int));
            let h = &nb.helpers[i];
            push_str(&mut v, "  - ");
            push_str(&mut v, h.name.as_str());
            if h.explicit {
                push_str(&mut v, " #[labrs::helper]");
            }
            push_str(&mut v, "\n");
            assert(v@ =~= v1 + helper_lines(nb.helpers@.take(i + 1)));
            i += 1;
        }
        assert(nb.helpers@.take(i as int) =~= nb.helpers@);
        push_str(&mut v, "\n");
    }
    push_str(&mut v, "Edges:\n");
    let ghost v2 = v@;
    if g.edges.len() == 0 {
        push_str(&mut v, "  (none)\n");
    } else {
        let mut i: usize = 0;
        while i < g.edges.len()
            invariant
                i <= g.edges@.len(),
                v@ == v2 + edge_lines(g.edges@.take(i as int)),
            decreases g.edges@.len() - i,
        {
            assert(g.edges@.take(i + 1).drop_last() =~= g.edges@.take(i as int));
            let e = &g.edges[i];
            push_str(&mut v, "  ");
            push_str(&mut v, e.from.as_str());
            push_str(&mut v, " -> ");
            push_str(&mut v, e.to.as_str());
            push_str(&mut v, " (param ");
            push_str(&mut v, e.param_name.as_str());
            push_str(&mut v, ")\n");
            assert(v@ =~= v2 + edge_lines(g.edges@.take(i + 1)));
            i += 1;
        }
        assert(g.edges@.take(i as int) =~= g.edges@);
    }
    push_str(&mut v, "\n");
    push_str(&mut v, "Topological order: ");
    let mut parts: Vec<Vec<char>> = Vec::new();
    let mut k: usize = 0;
    while k < g.order.len()
        invariant
            k <= g.order@.len(),
            views(parts@) == crate::graph::string_views(g.order@).take(k as int),
        decreases g.order@.len() - k,
    {
        let ghost p0 = views(parts@);
        parts.push(chars_of(g.order[k].as_str()));
        assert(views(parts@) =~= p0.push(g.order@[k as int]@));
        assert(crate::graph::string_views(g.order@).take(k + 1) =~= crate::graph::string_views(g.order@).take(k as int).push(g.order@[k as int]@));
        k += 1;
    }
    assert(crate::graph::string_views(g.order@).take(k as int) =~= crate::graph::string_views(g.order@));
    push_all(&mut v, &join_vec(&parts, &chars_of(" → ")));
    push_str(&mut v, "\n");
    push_str(&mut v, "\n");
    let ghost v3 = v@;
    if g.diagnostics.len() == 0 {
        push_str(&mut v, "Diagnostics: ok\n");
    } else {
        push_str(&mut v, "Diagnostics:\n");
        let ghost v4 = v@;
        let mut i: usize = 0;
        while i < g.diagnostics.len()
            invariant
                i <= g.diagnostics@.len(),
                v@ == v4 + diagnostic_lines(g.diagnostics@.take(i as int)),
            decreases g.diagnostics@.len() - i,
        {
            assert(g.diagnostics@.take(i + 1).drop_last() =~= g.diagnostics@.take(i as int));
            let d = &g.diagnostics[i];
            push_str(&mut v, "  [");
            match d.severity {
                Severity::Error => push_str(&mut v, "Error"),
                Severity::Warning => push_str(&mut v, "Warning"),
            }
            push_str(&mut v, "] (");
            match &d.cell {
                Some(c) => push_str(&mut v, c.as_str()),
                None => push_str(&mut v, "-"),
            }
            push_str(&mut v, ") ");
            push_str(&mut v, d.message.as_str());
            push_str(&mut v, "\n");
            assert(v@ =~= v4 + diagnostic_lines(g.diagnostics@.take(i + 1)));
            i += 1;
        }
        assert(g.diagnostics@.take(i as int) =~= g.diagnostics@);
    }
    string_of(&v)
}

} // verus!
