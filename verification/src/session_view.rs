//! What the UI is shown of a session: every cell with its status, the
//! names of the other items, the graph and the display order.

use vstd::prelude::*;
use crate::diagnose::Diagnostic;
use crate::graph::{diag_views, edge_views, string_views, DependencyEdge, DependencyGraph};
use crate::notebook::{Cell, Helper, MarkdownCell, OrderEntry, SharedDef};
use crate::session::{
    dirty, find_dirty, find_output, output_of, status_of, CellState, CellStatus, Session,
};

verus! {

/// `PathBuf::clone`: claimed to give back an equal path.
#[verifier::external_body]
fn clone_path(p: &std::path::PathBuf) -> (r: std::path::PathBuf)
    ensures
        r == *p,
{
    p.clone()
}

/// A session as the UI shows it.
pub struct SessionSnapshot {
    pub path: std::path::PathBuf,
    pub cells: Vec<CellState>,
    pub helpers: Vec<String>,
    pub definitions: Vec<String>,
    pub markdown: Vec<(String, String)>,
    pub graph: DependencyGraph,
    pub diagnostics: Vec<Diagnostic>,
    pub order: Vec<OrderEntry>,
    /// When true, running a cell auto-runs dependents whose upstream output changed.
    pub auto_react: bool,
}

fn copy_strings(v: &Vec<String>) -> (r: Vec<String>)
    ensures
        string_views(r@) == string_views(v@),
{
    let mut r: Vec<String> = Vec::new();
    let mut i: usize = 0;
    while i < v.len()
        invariant
            i <= v@.len(),
            string_views(r@) == string_views(v@).take(i as int),
        decreases v@.len() - i,
    {
        let ghost r0 = string_views(r@);
        r.push(v[i].clone());
        assert(string_views(r@) =~= r0.push(v@[i as int]@));
        assert(string_views(v@).take(i + 1) =~= string_views(v@).take(i as int).push(v@[i as int]@));
        i += 1;
    }
    assert(string_views(v@).take(i as int) =~= string_views(v@));
    r
}

fn copy_diagnostics(v: &Vec<Diagnostic>) -> (r: Vec<Diagnostic>)
    ensures
        diag_views(r@) == diag_views(v@),
{
    let mut r: Vec<Diagnostic> = Vec::new();
    let mut i: usize = 0;
    while i < v.len()
        invariant
            i <= v@.len(),
            diag_views(r@) == diag_views(v@).take(i as int),
        decreases v@.len() - i,
    {
        let ghost r0 = diag_views(r@);
        r.push(v[i].duplicate());
        assert(diag_views(r@) =~= r0.push(v@[i as int].view_of()));
        assert(diag_views(v@).take(i + 1) =~= diag_views(v@).take(i as int).push(v@[i as int].view_of()));
        i += 1;
    }
    assert(diag_views(v@).take(i as int) =~= diag_views(v@));
    r
}

impl OrderEntry {
    /// A copy of this entry.
    pub fn duplicate(&self) -> (r: OrderEntry)
        ensures
            r == *self,
    {
        match self {
            OrderEntry::Cell { id } => OrderEntry::Cell { id: id.clone() },
            OrderEntry::Helper { name } => OrderEntry::Helper { name: name.clone() },
            OrderEntry::Definition { name } => OrderEntry::Definition { name: name.clone() },
            OrderEntry::Markdown { id } => OrderEntry::Markdown { id: id.clone() },
        }
    }
}

/// The levels of a graph as plain values.
pub open spec fn level_views(ls: Seq<Vec<String>>) -> Seq<Seq<Seq<char>>> {
    Seq::new(ls.len(), |i: int| string_views(ls[i]@))
}

impl DependencyGraph {
    /// A copy of this graph.
    pub fn duplicate(&self) -> (r: DependencyGraph)
        ensures
            edge_views(r.edges@) == edge_views(self.edges@),
            level_views(r.levels@) == level_views(self.levels@),
            string_views(r.order@) == string_views(self.order@),
            diag_views(r.diagnostics@) == diag_views(self.diagnostics@),
    {
        let mut edges: Vec<DependencyEdge> = Vec::new();
        let mut i: usize = 0;
        while i < self.edges.len()
            invariant
                i <= self.edges@.len(),
                edge_views(edges@) == edge_views(self.edges@).take(i as int),
            decreases self.edges@.len() - i,
        {
            let e = &self.edges[i];
            let ghost r0 = edge_views(edges@);
            edges.push(DependencyEdge { from: e.from.clone(), to: e.to.clone(), param_name: e.param_name.clone() });
            assert(edge_views(edges@) =~= r0.push(edge_views(self.edges@)[i as int]));
            assert(edge_views(self.edges@).take(i + 1) =~= edge_views(self.edges@).take(i as int).push(edge_views(self.edges@)[i as int]));
            i += 1;
        }
        assert(edge_views(self.edges@).take(i as int) =~= edge_views(self.edges@));
        let mut levels: Vec<Vec<String>> = Vec::new();
        let mut j: usize = 0;
        while j < self.levels.len()
            invariant
                j <= self.levels@.len(),
                level_views(levels@) == level_views(self.levels@).take(j as int),
            decreases self.levels@.len() - j,
        {
            let ghost r0 = level_views(levels@);
            levels.push(copy_strings(&self.levels[j]));
            assert(level_views(levels@) =~= r0.push(string_views(self.levels@[j as int]@)));
            assert(level_views(self.levels@).take(j + 1) =~= level_views(self.levels@).take(j as int).push(string_views(self.levels@[j as int]@)));
            j += 1;
        }
        assert(level_views(self.levels@).take(j as int) =~= level_views(self.levels@));
        DependencyGraph {
            edges,
            levels,
            order: copy_strings(&self.order),
            diagnostics: copy_diagnostics(&self.diagnostics),
        }
    }
}

/// The state of cell `c` as shown: its status, dirty flag and last output.
pub open spec fn shows_cell(s: Session, c: Cell, st: CellState) -> bool {
    &&& st.name@ == c.name@
    &&& st.status == status_of(s.outputs@, s.dirty@, c.name@)
    &&& st.dirty == dirty(s.dirty@, c.name@)
    &&& st.output == output_of(s.outputs@, c.name@)
}

impl Session {
    /// The state of cell `c` as shown.
    pub fn cell_state(&self, c: &Cell) -> (r: CellState)
        ensures
            shows_cell(*self, *c, r),
    {
        let output = match find_output(&self.outputs, &c.name) {
            Some(i) => Some(self.outputs[i].duplicate()),
            None => None,
        };
        let is_dirty = match find_dirty(&self.dirty, &c.name) {
            Some(i) => self.dirty[i].1,
            None => false,
        };
        let status = match &output {
            None => CellStatus::Pristine,
            Some(o) => if is_dirty {
                CellStatus::Dirty
            } else if o.success {
                CellStatus::Success
            } else {
                CellStatus::Error
            },
        };
        CellState { name: c.name.clone(), status, dirty: is_dirty, output }
    }

    /// The session as the UI shows it.
    pub fn snapshot(&self) -> (r: SessionSnapshot)
        ensures
            r.path == self.path,
            r.cells@.len() == self.notebook.cells@.len(),
            forall|i: int| 0 <= i < r.cells@.len() ==> shows_cell(*self, self.notebook.cells@[i], #[trigger] r.cells@[i]),
            string_views(r.helpers@) == self.notebook.helpers@.map_values(|h: Helper| h.name@),
            string_views(r.definitions@) == self.notebook.definitions@.map_values(|d: SharedDef| d.name@),
            r.markdown@.len() == self.notebook.markdown@.len(),
            forall|i: int| 0 <= i < r.markdown@.len() ==> (#[trigger] r.markdown@[i]).0@ == self.notebook.markdown@[i].name@
                && r.markdown@[i].1@ == self.notebook.markdown@[i].content@,
            edge_views(r.graph.edges@) == edge_views(self.graph.edges@),
            level_views(r.graph.levels@) == level_views(self.graph.levels@),
            string_views(r.graph.order@) == string_views(self.graph.order@),
            diag_views(r.graph.diagnostics@) == diag_views(self.graph.diagnostics@),
            diag_views(r.diagnostics@) == diag_views(self.graph.diagnostics@),
            r.order@ == self.notebook.order@,
            r.auto_react == self.auto_react,
    {
        let nb = &self.notebook;
        let mut cells: Vec<CellState> = Vec::new();
        let mut i: usize = 0;
        while i < nb.cells.len()
            invariant
                i <= nb.cells@.len(),
                cells@.len() == i,
                forall|j: int| 0 <= j < i ==> shows_cell(*self, nb.cells@[j], #[trigger] cells@[j]),
            decreases nb.cells@.len() - i,
        {
            cells.push(self.cell_state(&nb.cells[i]));
            i += 1;
        }
        let mut helpers: Vec<String> = Vec::new();
        let mut k: usize = 0;
        while k < nb.helpers.len()
            invariant
                k <= nb.helpers@.len(),
                string_views(helpers@) == nb.helpers@.take(k as int).map_values(|h: Helper| h.name@),
            decreases nb.helpers@.len() - k,
        {
            let ghost r0 = string_views(helpers@);
            helpers.push(nb.helpers[k].name.clone());
            assert(string_views(helpers@) =~= r0.push(nb.helpers@[k as int].name@));
            assert(nb.helpers@.take(k + 1).map_values(|h: Helper| h.name@) =~= nb.helpers@.take(k as int).map_values(|h: Helper| h.name@).push(nb.helpers@[k as int].name@));
            k += 1;
        }
        assert(nb.helpers@.take(k as int) =~= nb.helpers@);
        let mut definitions: Vec<String> = Vec::new();
        let mut d: usize = 0;
        while d < nb.definitions.len()
            invariant
                d <= nb.definitions@.len(),
                string_views(definitions@) == nb.definitions@.take(d as int).map_values(|s: SharedDef| s.name@),
            decreases nb.definitions@.len() - d,
        {
            let ghost r0 = string_views(definitions@);
            definitions.push(nb.definitions[d].name.clone());
            assert(string_views(definitions@) =~= r0.push(nb.definitions@[d as int].name@));
            assert(nb.definitions@.take(d + 1).map_values(|s: SharedDef| s.name@) =~= nb.definitions@.take(d as int).map_values(|s: SharedDef| s.name@).push(nb.definitions@[d as int].name@));
            d += 1;
        }
        assert(nb.definitions@.take(d as int) =~= nb.definitions@);
        let mut markdown: Vec<(String, String)> = Vec::new();
        let mut m: usize = 0;
        while m < nb.markdown.len()
            invariant
                m <= nb.markdown@.len(),
                markdown@.len() == m,
                forall|j: int| 0 <= j < m ==> (#[trigger] markdown@[j]).0@ == nb.markdown@[j].name@
                    && markdown@[j].1@ == nb.markdown@[j].content@,
            decreases nb.markdown@.len() - m,
        {
            markdown.push((nb.markdown[m].name.clone(), nb.markdown[m].content.clone()));
            m += 1;
        }
        let mut order: Vec<OrderEntry> = Vec::new();
        let mut o: usize = 0;
        while o < nb.order.len()
            invariant
                o <= nb.order@.len(),
                order@ == nb.order@.take(o as int),
            decreases nb.order@.len() - o,
        {
            order.push(nb.order[o].duplicate());
            assert(order@ =~= nb.order@.take(o + 1));
            o += 1;
        }
        assert(nb.order@.take(o as int) =~= nb.order@);
        SessionSnapshot {
            path: clone_path(&self.path),
            cells,
            helpers,
            definitions,
            markdown,
            graph: self.graph.duplicate(),
            diagnostics: copy_diagnostics(&self.graph.diagnostics),
            order,
            auto_react: self.auto_react,
        }
    }
}

} // verus!
