//! The decisions around running cells: what a cell is handed, which cell
//! runs next, and what a whole-notebook run records. Compiling and running
//! the generated program is the caller's part.

use vstd::prelude::*;
use crate::deps::{reachable, transitive_dependents, order_key};
use crate::graph::{build_graph, edge_views, string_views, has_error, graph_diagnostics, DependencyGraph};
use crate::notebook::{cell_index, find_cell, lemma_cell_index, unique_names, Cell, Notebook, Param};
use crate::json::{clone_value, JsonValue};
use crate::session::{
    deps_succeeded, dirty, dirty_of, output_of, set_dirty, set_output, succeeded, CellOutput, Session,
};
use crate::text::{chars_of, push_all, string_of};

verus! {

/// The index of the first parameter whose cell has no successful output.
pub open spec fn unmet_param(outs: Seq<CellOutput>, ps: Seq<Param>) -> Option<int>
    decreases ps.len(),
{
    if ps.len() == 0 {
        None
    } else {
        match unmet_param(outs, ps.drop_last()) {
            Some(k) => Some(k),
            None => if succeeded(outs, ps.last().name@) {
                None
            } else {
                Some(ps.len() - 1)
            },
        }
    }
}

/// Why cell `name` cannot run while its parameter `p` is unmet.
pub open spec fn unmet_message(outs: Seq<CellOutput>, p: Seq<char>, name: Seq<char>) -> Seq<char> {
    if output_of(outs, p) is None {
        "dependency `"@ + p + "` has not been run yet (required by `"@ + name + "`)"@
    } else {
        "dependency `"@ + p + "` failed; fix it before running `"@ + name + "`"@
    }
}

/// Cell `n` is dirty, exists, and every parameter has a successful output.
pub open spec fn runnable(s: Session, n: Seq<char>) -> bool {
    &&& dirty(s.dirty@, n)
    &&& cell_index(s.notebook.cells@, n) matches Some(i)
    &&& deps_succeeded(s.outputs@, s.notebook.cells@[i])
}

/// The values of every output that succeeded, keyed by cell, in table order.
pub open spec fn successful_values(outs: Seq<CellOutput>) -> Seq<(Seq<char>, JsonValue)>
    decreases outs.len(),
{
    if outs.len() == 0 {
        seq![]
    } else if outs.last().success {
        successful_values(outs.drop_last()).push((outs.last().cell@, outs.last().value))
    } else {
        successful_values(outs.drop_last())
    }
}

proof fn lemma_unmet_none(outs: Seq<CellOutput>, ps: Seq<Param>)
    ensures
        unmet_param(outs, ps) is None <==> forall|k: int| 0 <= k < ps.len() ==> succeeded(outs, #[trigger] ps[k].name@),
        unmet_param(outs, ps) matches Some(k) ==> 0 <= k < ps.len() && !succeeded(outs, ps[k].name@),
    decreases ps.len(),
{
    if ps.len() > 0 {
        lemma_unmet_none(outs, ps.drop_last());
        assert forall|k: int| 0 <= k < ps.len() - 1 implies ps.drop_last()[k] == ps[k] by {}
        if unmet_param(outs, ps.drop_last()) is Some {
            let k = unmet_param(outs, ps.drop_last())->0;
            assert(ps.drop_last()[k] == ps[k]);
        }
    }
}

fn message_with(prefix: &str, p: &String, middle: &str, name: &str, suffix: &str) -> (r: String)
    ensures
        r@ == prefix@ + p@ + middle@ + name@ + suffix@,
{
    let mut v = chars_of(prefix);
    push_all(&mut v, &chars_of(p.as_str()));
    push_all(&mut v, &chars_of(middle));
    push_all(&mut v, &chars_of(name));
    push_all(&mut v, &chars_of(suffix));
    string_of(&v)
}

impl Session {
    /// The values handed to cell `name` for a run: one per parameter, taken
    /// from the parameter's cell output. Fails when the cell is unknown, or
    /// at the first parameter whose cell has not run or failed.
    pub fn dependency_values(&self, name: &str) -> (r: Result<Vec<(String, JsonValue)>, String>)
        ensures
            cell_index(self.notebook.cells@, name@) is None ==> (r matches Err(e) && e@ == "unknown cell `"@ + name@ + "`"@),
            cell_index(self.notebook.cells@, name@) matches Some(i) ==> {
                let ps = self.notebook.cells@[i].params@;
                match unmet_param(self.outputs@, ps) {
                    Some(k) => r matches Err(e) && e@ == unmet_message(self.outputs@, ps[k].name@, name@),
                    None => r matches Ok(v) && v@.len() == ps.len() && forall|k: int| 0 <= k < ps.len() ==> {
                        &&& (#[trigger] v@[k]).0@ == ps[k].name@
                        &&& output_of(self.outputs@, ps[k].name@) matches Some(o) && v@[k].1 == o.value
                    },
                }
            },
    {
        proof {
            lemma_cell_index(self.notebook.cells@, name@);
        }
        let i = match find_cell(&self.notebook.cells, name) {
            Some(i) => i,
            None => {
                let mut m = chars_of("unknown cell `");
                push_all(&mut m, &chars_of(name));
                push_all(&mut m, &chars_of("`"));
                return Err(string_of(&m));
            },
        };
        let c = &self.notebook.cells[i];
        let ghost ps = c.params@;
        proof {
            lemma_unmet_none(self.outputs@, ps);
        }
        let mut v: Vec<(String, JsonValue)> = Vec::new();
        let mut k: usize = 0;
        while k < c.params.len()
            invariant
                i < self.notebook.cells@.len(),
                cell_index(self.notebook.cells@, name@) == Some(i as int),
                *c == self.notebook.cells@[i as int],
                ps == c.params@,
                k <= ps.len(),
                unmet_param(self.outputs@, ps.take(k as int)) is None,
                v@.len() == k,
                forall|j: int| 0 <= j < k ==> {
                    &&& (#[trigger] v@[j]).0@ == ps[j].name@
                    &&& output_of(self.outputs@, ps[j].name@) matches Some(o) && v@[j].1 == o.value
                },
            decreases ps.len() - k,
        {
            assert(ps.take(k + 1).drop_last() =~= ps.take(k as int));
            let p = &c.params[k];
            match crate::session::find_output(&self.outputs, &p.name) {
                Some(o) => {
                    if !self.outputs[o].success {
                        assert(unmet_param(self.outputs@, ps.take(k + 1)) == Some(k as int));
                        proof {
                            lemma_take_unmet(self.outputs@, ps, k as int + 1);
                        }
                        return Err(message_with("dependency `", &p.name, "` failed; fix it before running `", name, "`"));
                    }
                    v.push((p.name.clone(), clone_value(&self.outputs[o].value)));
                },
                None => {
                    assert(unmet_param(self.outputs@, ps.take(k + 1)) == Some(k as int));
                    proof {
                        lemma_take_unmet(self.outputs@, ps, k as int + 1);
                    }
                    return Err(message_with("dependency `", &p.name, "` has not been run yet (required by `", name, "`)"));
                },
            }
            k += 1;
        }
        assert(ps.take(k as int) =~= ps);
        Ok(v)
    }
}

proof fn lemma_take_unmet(outs: Seq<CellOutput>, ps: Seq<Param>, n: int)
    requires
        0 <= n <= ps.len(),
        unmet_param(outs, ps.take(n)) is Some,
    ensures
        unmet_param(outs, ps) == unmet_param(outs, ps.take(n)),
    decreases ps.len() - n,
{
    if n < ps.len() {
        assert(ps.take(n + 1).drop_last() =~= ps.take(n));
        lemma_take_unmet(outs, ps, n + 1);
    } else {
        assert(ps.take(n) =~= ps);
    }
}

impl Session {
    /// Whether cell `n` should run now: it is dirty, it exists, and every
    /// parameter has a successful output.
    pub fn is_runnable(&self, n: &String) -> (b: bool)
        ensures
            b == runnable(*self, n@),
    {
        self.is_dirty(n.as_str()) && self.ready_to_run(n.as_str())
    }

    /// The first position at or after `from` in `names` whose cell should
    /// run now. Running the dirty cells of a notebook, or the cascade after
    /// a run, takes `names` in topological order, runs the cell found,
    /// records its output and asks again from the next position.
    pub fn next_to_run(&self, names: &Vec<String>, from: usize) -> (r: Option<usize>)
        ensures
            r matches Some(i) ==> from <= i < names@.len() && runnable(*self, names@[i as int]@)
                && forall|j: int| from <= j < i ==> !runnable(*self, #[trigger] names@[j]@),
            r is None ==> forall|j: int| from <= j < names@.len() ==> !runnable(*self, #[trigger] names@[j]@),
    {
        let mut i = from;
        while i < names.len()
            invariant
                from <= i || i >= names@.len(),
                forall|j: int| from <= j < i && j < names@.len() ==> !runnable(*self, #[trigger] names@[j]@),
            decreases names@.len() - i,
        {
            if self.is_runnable(&names[i]) {
                return Some(i);
            }
            i += 1;
        }
        None
    }

    /// The cells to run after cell `name` ran: its transitive dependents in
    /// topological order when automatic cascade is on and the run succeeded
    /// with a changed output; none otherwise.
    pub fn cascade_after(&self, name: &str, success: bool, changed: bool) -> (r: Vec<String>)
        ensures
            !(self.auto_react && success && changed) ==> r@.len() == 0,
            (self.auto_react && success && changed) ==> {
                &&& string_views(r@).no_duplicates()
                &&& forall|y: Seq<char>| #[trigger] string_views(r@).contains(y) <==> reachable(edge_views(self.graph.edges@), name@, y)
                &&& forall|i: int, j: int| 0 <= i < j < r@.len() ==> order_key(string_views(self.graph.order@), r@[i]@) <= order_key(string_views(self.graph.order@), r@[j]@)
            },
    {
        if self.auto_react && success && changed {
            transitive_dependents(&self.graph, name)
        } else {
            Vec::new()
        }
    }

    /// Mark cell `name` dirty (its run could not take place).
    pub fn mark_dirty(&mut self, name: &str)
        requires
            old(self).wf(),
        ensures
            final(self).wf(),
            final(self).path == old(self).path,
            final(self).notebook == old(self).notebook,
            final(self).graph == old(self).graph,
            final(self).outputs == old(self).outputs,
            final(self).auto_react == old(self).auto_react,
            forall|m: Seq<char>| #[trigger] dirty_of(final(self).dirty@, m) == if m == name@ { Some(true) } else { dirty_of(old(self).dirty@, m) },
    {
        let n = string_of(&chars_of(name));
        set_dirty(&mut self.dirty, &n, true);
    }

    /// A whole-notebook run may start only on a notebook without errors.
    pub fn check_runnable(&self) -> (r: Result<(), String>)
        ensures
            r is Ok <==> !has_error(crate::graph::diag_views(self.graph.diagnostics@)),
            r matches Err(e) ==> e@ == "cannot run: notebook has validation errors"@,
    {
        if self.graph.is_ok() {
            Ok(())
        } else {
            Err(string_of(&chars_of("cannot run: notebook has validation errors")))
        }
    }

    /// Bookkeeping after a whole-notebook run: each output is recorded (the
    /// last one for a cell wins) and its cell is clean.
    pub fn record_all(&mut self, outputs: &Vec<CellOutput>)
        requires
            old(self).wf(),
        ensures
            final(self).wf(),
            final(self).path == old(self).path,
            final(self).notebook == old(self).notebook,
            final(self).graph == old(self).graph,
            final(self).auto_react == old(self).auto_react,
            forall|m: Seq<char>| #[trigger] output_of(final(self).outputs@, m) == if output_of(outputs@, m) is Some { output_of(outputs@, m) } else { output_of(old(self).outputs@, m) },
            forall|m: Seq<char>| #[trigger] dirty_of(final(self).dirty@, m) == if output_of(outputs@, m) is Some { Some(false) } else { dirty_of(old(self).dirty@, m) },
    {
        let ghost all = outputs@;
        let ghost o0 = self.outputs@;
        let ghost d0 = self.dirty@;
        let mut k: usize = 0;
        while k < outputs.len()
            invariant
                k <= all.len(),
                all == outputs@,
                self.wf(),
                self.path == old(self).path,
                self.notebook == old(self).notebook,
                self.graph == old(self).graph,
                self.auto_react == old(self).auto_react,
                forall|m: Seq<char>| #[trigger] output_of(self.outputs@, m) == if output_of(all.take(k as int), m) is Some { output_of(all.take(k as int), m) } else { output_of(o0, m) },
                forall|m: Seq<char>| #[trigger] dirty_of(self.dirty@, m) == if output_of(all.take(k as int), m) is Some { Some(false) } else { dirty_of(d0, m) },
            decreases all.len() - k,
        {
            assert(all.take(k + 1).drop_last() =~= all.take(k as int));
            assert(all.take(k + 1).last() == all[k as int]);
            let c = outputs[k].cell.clone();
            set_output(&mut self.outputs, outputs[k].duplicate());
            set_dirty(&mut self.dirty, &c, false);
            k += 1;
        }
        assert(all.take(k as int) =~= all);
    }
    /// The value of every cell whose last run succeeded, keyed by cell.
    pub fn dep_values(&self) -> (r: Vec<(String, JsonValue)>)
        ensures
            r@.len() == successful_values(self.outputs@).len(),
            forall|k: int| 0 <= k < r@.len() ==> (#[trigger] r@[k]).0@ == successful_values(self.outputs@)[k].0
                && r@[k].1 == successful_values(self.outputs@)[k].1,
    {
        let outs = &self.outputs;
        let mut r: Vec<(String, JsonValue)> = Vec::new();
        let mut k: usize = 0;
        while k < outs.len()
            invariant
                k <= outs@.len(),
                r@.len() == successful_values(outs@.take(k as int)).len(),
                forall|j: int| 0 <= j < r@.len() ==> (#[trigger] r@[j]).0@ == successful_values(outs@.take(k as int))[j].0
                    && r@[j].1 == successful_values(outs@.take(k as int))[j].1,
            decreases outs@.len() - k,
        {
            assert(outs@.take(k + 1).drop_last() =~= outs@.take(k as int));
            if outs[k].success {
                r.push((outs[k].cell.clone(), clone_value(&outs[k].value)));
            }
            k += 1;
        }
        assert(outs@.take(k as int) =~= outs@);
        r
    }

    /// Take a freshly parsed notebook: its graph is built again and every
    /// new cell gets a clean dirty flag; outputs and other flags stay.
    pub fn reload_with(&mut self, notebook: Notebook)
        requires
            old(self).wf(),
            unique_names(notebook.cells@),
        ensures
            final(self).wf(),
            final(self).path == old(self).path,
            final(self).notebook == notebook,
            edge_views(final(self).graph.edges@) == crate::graph::graph_edges(notebook.cells@),
            string_views(final(self).graph.order@) == crate::graph::names_of(notebook.cells@, crate::graph::topo_order(notebook.cells@)),
            crate::graph::diag_views(final(self).graph.diagnostics@) == graph_diagnostics(notebook.cells@),
            final(self).outputs == old(self).outputs,
            final(self).auto_react == old(self).auto_react,
            forall|m: Seq<char>| #[trigger] dirty_of(final(self).dirty@, m) == if dirty_of(old(self).dirty@, m) is None && cell_index(notebook.cells@, m) is Some { Some(false) } else { dirty_of(old(self).dirty@, m) },
    {
        let graph = build_graph(&notebook);
        self.notebook = notebook;
        self.graph = graph;
        self.register_cells();
    }
}

} // verus!
