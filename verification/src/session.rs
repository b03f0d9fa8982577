//! The state of an interactive notebook session and the decisions taken on
//! it: which cells are dirty, when a cell may run, what a run changes, and
//! how each cell is shown. Running cells is left to the caller.

use vstd::prelude::*;
use crate::deps::{dependents, dependents_of, transitive_dependents, reachable, contains_string};
use crate::graph::{edge_views, string_views, DependencyGraph};
use crate::notebook::{cell_index, find_cell, lemma_cell_index, Cell, Notebook};
use crate::json::{clone_value, null_value, JsonValue};
use crate::text::{chars_of, string_of};

verus! {

#[derive(Debug, Clone, Copy, PartialEq, Eq, Structural)]
pub enum CellStatus {
    Pristine,
    Running,
    Success,
    Error,
    Dirty,
}

#[derive(Debug, Clone, Copy, PartialEq, Eq, Structural)]
pub enum AddKind {
    Cell,
    Helper,
    Markdown,
}

#[derive(Debug, Clone, Copy, PartialEq, Eq, Structural)]
pub enum MoveDirection {
    Up,
    Down,
}

/// What one run of a cell produced.
pub struct CellOutput {
    pub cell: String,
    pub value: JsonValue,
    pub stdout: String,
    pub stderr: String,
    pub success: bool,
    pub error: Option<String>,
    pub value_hash: String,
}

impl CellOutput {
    /// A copy of this output.
    pub fn duplicate(&self) -> (r: CellOutput)
        ensures
            r == *self,
    {
        CellOutput {
            cell: self.cell.clone(),
            value: clone_value(&self.value),
            stdout: self.stdout.clone(),
            stderr: self.stderr.clone(),
            success: self.success,
            error: match &self.error {
                Some(e) => Some(e.clone()),
                None => None,
            },
            value_hash: self.value_hash.clone(),
        }
    }

    /// The output recorded for a run that could not take place.
    pub fn failed(cell: &String, error: String) -> (r: CellOutput)
        ensures
            r.cell@ == cell@,
            !r.success,
            r.error matches Some(e) && e@ == error@,
            r.stdout@.len() == 0,
            r.stderr@.len() == 0,
            r.value@ == "null"@,
            r.value_hash@.len() == 0,
    {
        CellOutput {
            cell: cell.clone(),
            value: null_value(),
            stdout: String::new(),
            stderr: String::new(),
            success: false,
            error: Some(error),
            value_hash: String::new(),
        }
    }
}

/// The state of one cell as the UI shows it.
pub struct CellState {
    pub name: String,
    pub status: CellStatus,
    pub dirty: bool,
    pub output: Option<CellOutput>,
}

impl AddKind {
    pub open spec fn name_of(self) -> Seq<char> {
        match self {
            AddKind::Cell => "cell"@,
            AddKind::Helper => "helper"@,
            AddKind::Markdown => "markdown"@,
        }
    }

    /// The kind's name as used in the notebook source.
    pub fn as_str(self) -> (s: &'static str)
        ensures
            s@ == self.name_of(),
    {
        match self {
            AddKind::Cell => "cell",
            AddKind::Helper => "helper",
            AddKind::Markdown => "markdown",
        }
    }

    /// The kind named `s`, if any (`md` is `markdown` too).
    pub open spec fn named(s: Seq<char>) -> Option<AddKind> {
        if s == "cell"@ {
            Some(AddKind::Cell)
        } else if s == "helper"@ {
            Some(AddKind::Helper)
        } else if s == "markdown"@ || s == "md"@ {
            Some(AddKind::Markdown)
        } else {
            None
        }
    }

    /// The kind named `s` (`md` is `markdown` too).
    pub fn parse(s: &str) -> (r: Result<AddKind, String>)
        ensures
            AddKind::named(s@) matches Some(k) ==> r == Ok::<AddKind, String>(k),
            AddKind::named(s@) is None ==> (r matches Err(m) && m@ == "unknown kind `"@ + s@ + "`"@),
    {
        proof {
            reveal_strlit("cell");
            reveal_strlit("helper");
            reveal_strlit("markdown");
            reveal_strlit("md");
            assert("cell"@.len() == 4 && "helper"@.len() == 6 && "markdown"@.len() == 8 && "md"@.len() == 2);
        }
        let v = chars_of(s);
        if crate::source_util::eq_vec(&v, &chars_of("cell")) {
            Ok(AddKind::Cell)
        } else if crate::source_util::eq_vec(&v, &chars_of("helper")) {
            Ok(AddKind::Helper)
        } else if crate::source_util::eq_vec(&v, &chars_of("markdown")) || crate::source_util::eq_vec(&v, &chars_of("md")) {
            Ok(AddKind::Markdown)
        } else {
            let mut m = chars_of("unknown kind `");
            crate::text::push_all(&mut m, &v);
            crate::text::push_all(&mut m, &chars_of("`"));
            Err(string_of(&m))
        }
    }
}

// ---------------------------------------------------------------------------
// Keyed lookups
// ---------------------------------------------------------------------------

/// The output recorded for cell `n`.
pub open spec fn output_of(outs: Seq<CellOutput>, n: Seq<char>) -> Option<CellOutput>
    decreases outs.len(),
{
    if outs.len() == 0 {
        None
    } else if outs.last().cell@ == n {
        Some(outs.last())
    } else {
        output_of(outs.drop_last(), n)
    }
}

/// The dirty flag recorded for cell `n`.
pub open spec fn dirty_of(ds: Seq<(String, bool)>, n: Seq<char>) -> Option<bool>
    decreases ds.len(),
{
    if ds.len() == 0 {
        None
    } else if ds.last().0@ == n {
        Some(ds.last().1)
    } else {
        dirty_of(ds.drop_last(), n)
    }
}

/// Cell `n` is marked dirty.
pub open spec fn dirty(ds: Seq<(String, bool)>, n: Seq<char>) -> bool {
    dirty_of(ds, n) == Some(true)
}

/// Cell `n` has a successful output.
pub open spec fn succeeded(outs: Seq<CellOutput>, n: Seq<char>) -> bool {
    output_of(outs, n) matches Some(o) && o.success
}

/// Every parameter of `c` names a cell with a successful output.
pub open spec fn deps_succeeded(outs: Seq<CellOutput>, c: Cell) -> bool {
    forall|k: int| 0 <= k < c.params@.len() ==> succeeded(outs, #[trigger] c.params@[k].name@)
}

proof fn lemma_output_of(outs: Seq<CellOutput>, n: Seq<char>)
    ensures
        output_of(outs, n) matches Some(o) ==> exists|i: int| 0 <= i < outs.len() && outs[i] == o && o.cell@ == n,
        output_of(outs, n) is None ==> forall|i: int| 0 <= i < outs.len() ==> outs[i].cell@ != n,
    decreases outs.len(),
{
    if outs.len() > 0 {
        lemma_output_of(outs.drop_last(), n);
        assert forall|i: int| 0 <= i < outs.len() - 1 implies outs[i] == outs.drop_last()[i] by {}
        if output_of(outs, n) is Some && outs.last().cell@ != n {
            let o = output_of(outs.drop_last(), n)->0;
            let i = choose|i: int| 0 <= i < outs.drop_last().len() && outs.drop_last()[i] == o && o.cell@ == n;
            assert(outs[i] == o);
        }
        if output_of(outs, n) is Some && outs.last().cell@ == n {
            assert(outs[outs.len() - 1] == outs.last());
        }
    }
}

pub fn find_output(outs: &Vec<CellOutput>, n: &String) -> (r: Option<usize>)
    ensures
        r matches Some(i) ==> i < outs@.len() && output_of(outs@, n@) == Some(outs@[i as int]),
        r is None ==> output_of(outs@, n@) is None,
{
    let mut i = outs.len();
    assert(outs@.take(outs@.len() as int) =~= outs@);
    while i > 0
        invariant
            i <= outs@.len(),
            output_of(outs@, n@) == output_of(outs@.take(i as int), n@),
        decreases i,
    {
        assert(outs@.take(i as int).drop_last() =~= outs@.take(i - 1));
        if outs[i - 1].cell == *n {
            return Some(i - 1);
        }
        i -= 1;
    }
    None
}

pub fn find_dirty(ds: &Vec<(String, bool)>, n: &String) -> (r: Option<usize>)
    ensures
        r matches Some(i) ==> i < ds@.len() && dirty_of(ds@, n@) == Some(ds@[i as int].1) && ds@[i as int].0@ == n@,
        r is None ==> dirty_of(ds@, n@) is None,
{
    let mut i = ds.len();
    assert(ds@.take(ds@.len() as int) =~= ds@);
    while i > 0
        invariant
            i <= ds@.len(),
            dirty_of(ds@, n@) == dirty_of(ds@.take(i as int), n@),
        decreases i,
    {
        assert(ds@.take(i as int).drop_last() =~= ds@.take(i - 1));
        if ds[i - 1].0 == *n {
            return Some(i - 1);
        }
        i -= 1;
    }
    None
}

proof fn lemma_dirty_update(ds: Seq<(String, bool)>, i: int, v: bool, n: Seq<char>)
    requires
        0 <= i < ds.len(),
        ds[i].0@ == n,
        dirty_of(ds, n) == Some(ds[i].1),
        forall|a: int, b: int| 0 <= a < b < ds.len() ==> ds[a].0@ != ds[b].0@,
    ensures
        forall|m: Seq<char>| #[trigger] dirty_of(ds.update(i, (ds[i].0, v)), m) == if m == n { Some(v) } else { dirty_of(ds, m) },
    decreases ds.len(),
{
    let t = ds.update(i, (ds[i].0, v));
    assert forall|m: Seq<char>| #[trigger] dirty_of(t, m) == if m == n { Some(v) } else { dirty_of(ds, m) } by {
        lemma_dirty_update_at(ds, i, v, n, m);
    }
}

proof fn lemma_dirty_update_at(ds: Seq<(String, bool)>, i: int, v: bool, n: Seq<char>, m: Seq<char>)
    requires
        0 <= i < ds.len(),
        ds[i].0@ == n,
        forall|a: int, b: int| 0 <= a < b < ds.len() ==> ds[a].0@ != ds[b].0@,
    ensures
        dirty_of(ds.update(i, (ds[i].0, v)), m) == if m == n { Some(v) } else { dirty_of(ds, m) },
    decreases ds.len(),
{
    let t = ds.update(i, (ds[i].0, v));
    if i == ds.len() - 1 {
        assert(t.drop_last() =~= ds.drop_last());
        if m == n {
        } else {
        }
    } else {
        assert(t.drop_last() =~= ds.drop_last().update(i, (ds[i].0, v)));
        lemma_dirty_update_at(ds.drop_last(), i, v, n, m);
        assert(ds.last().0@ != n);
    }
}

proof fn lemma_dirty_absent(ds: Seq<(String, bool)>, n: Seq<char>)
    requires
        dirty_of(ds, n) is None,
    ensures
        forall|i: int| 0 <= i < ds.len() ==> ds[i].0@ != n,
    decreases ds.len(),
{
    if ds.len() > 0 {
        lemma_dirty_absent(ds.drop_last(), n);
        assert forall|i: int| 0 <= i < ds.len() implies ds[i].0@ != n by {
            if i < ds.len() - 1 {
                assert(ds[i] == ds.drop_last()[i]);
            }
        }
    }
}

/// Record `v` as the dirty flag of `n`.
pub fn set_dirty(ds: &mut Vec<(String, bool)>, n: &String, v: bool)
    requires
        forall|a: int, b: int| 0 <= a < b < old(ds)@.len() ==> old(ds)@[a].0@ != old(ds)@[b].0@,
    ensures
        forall|a: int, b: int| 0 <= a < b < final(ds)@.len() ==> final(ds)@[a].0@ != final(ds)@[b].0@,
        forall|m: Seq<char>| #[trigger] dirty_of(final(ds)@, m) == if m == n@ { Some(v) } else { dirty_of(old(ds)@, m) },
{
    match find_dirty(ds, n) {
        Some(i) => {
            proof {
                lemma_dirty_update(ds@, i as int, v, n@);
            }
            let key = ds[i].0.clone();
            ds.set(i, (key, v));
        },
        None => {
            proof {
                lemma_dirty_absent(ds@, n@);
            }
            let ghost d0 = ds@;
            ds.push((n.clone(), v));
            assert(ds@.drop_last() =~= d0);
        },
    }
}

proof fn lemma_output_update(outs: Seq<CellOutput>, i: int, o: CellOutput, m: Seq<char>)
    requires
        0 <= i < outs.len(),
        outs[i].cell@ == o.cell@,
        forall|a: int, b: int| 0 <= a < b < outs.len() ==> outs[a].cell@ != outs[b].cell@,
    ensures
        output_of(outs.update(i, o), m) == if m == o.cell@ { Some(o) } else { output_of(outs, m) },
    decreases outs.len(),
{
    let t = outs.update(i, o);
    if i == outs.len() - 1 {
        assert(t.drop_last() =~= outs.drop_last());
        if m == o.cell@ {
        } else {
        }
    } else {
        assert(t.drop_last() =~= outs.drop_last().update(i, o));
        lemma_output_update(outs.drop_last(), i, o, m);
        assert(outs.last().cell@ != o.cell@);
    }
}

/// Record `o` as the output of its cell.
pub fn set_output(outs: &mut Vec<CellOutput>, o: CellOutput)
    requires
        forall|a: int, b: int| 0 <= a < b < old(outs)@.len() ==> old(outs)@[a].cell@ != old(outs)@[b].cell@,
    ensures
        forall|a: int, b: int| 0 <= a < b < final(outs)@.len() ==> final(outs)@[a].cell@ != final(outs)@[b].cell@,
        forall|m: Seq<char>| #[trigger] output_of(final(outs)@, m) == if m == o.cell@ { Some(o) } else { output_of(old(outs)@, m) },
{
    match find_output(outs, &o.cell) {
        Some(i) => {
            proof {
                lemma_output_of(outs@, o.cell@);
                assert forall|m: Seq<char>| #[trigger] output_of(outs@.update(i as int, o), m) == if m == o.cell@ { Some(o) } else { output_of(outs@, m) } by {
                    lemma_output_update(outs@, i as int, o, m);
                }
            }
            outs.set(i, o);
        },
        None => {
            proof {
                lemma_output_of(outs@, o.cell@);
            }
            let ghost o0 = outs@;
            outs.push(o);
            assert(outs@.drop_last() =~= o0);
        },
    }
}

proof fn lemma_output_remove(outs: Seq<CellOutput>, i: int, m: Seq<char>)
    requires
        0 <= i < outs.len(),
        forall|a: int, b: int| 0 <= a < b < outs.len() ==> outs[a].cell@ != outs[b].cell@,
    ensures
        output_of(outs.remove(i), m) == if m == outs[i].cell@ { None } else { output_of(outs, m) },
    decreases outs.len(),
{
    let t = outs.remove(i);
    if i == outs.len() - 1 {
        assert(t =~= outs.drop_last());
        if m == outs[i].cell@ {
            lemma_output_of(outs.drop_last(), m);
            if output_of(outs.drop_last(), m) is Some {
                let o = output_of(outs.drop_last(), m)->0;
                let j = choose|j: int| 0 <= j < outs.drop_last().len() && outs.drop_last()[j] == o && o.cell@ == m;
                assert(outs[j].cell@ == outs[i].cell@);
            }
        }
    } else {
        assert(t.drop_last() =~= outs.drop_last().remove(i));
        assert(t.last() == outs.last());
        lemma_output_remove(outs.drop_last(), i, m);
    }
}

/// Forget the output of cell `n`.
pub fn remove_output(outs: &mut Vec<CellOutput>, n: &String)
    requires
        forall|a: int, b: int| 0 <= a < b < old(outs)@.len() ==> old(outs)@[a].cell@ != old(outs)@[b].cell@,
    ensures
        forall|a: int, b: int| 0 <= a < b < final(outs)@.len() ==> final(outs)@[a].cell@ != final(outs)@[b].cell@,
        forall|m: Seq<char>| #[trigger] output_of(final(outs)@, m) == if m == n@ { None } else { output_of(old(outs)@, m) },
{
    match find_output(outs, n) {
        Some(i) => {
            proof {
                lemma_output_of(outs@, n@);
                let o = outs@[i as int];
                assert(o.cell@ == n@) by {
                    let j = choose|j: int| 0 <= j < outs@.len() && outs@[j] == o && o.cell@ == n@;
                }
                assert forall|m: Seq<char>| #[trigger] output_of(outs@.remove(i as int), m) == if m == n@ { None } else { output_of(outs@, m) } by {
                    lemma_output_remove(outs@, i as int, m);
                }
                assert forall|a: int, b: int| 0 <= a < b < outs@.remove(i as int).len() implies outs@.remove(i as int)[a].cell@ != outs@.remove(i as int)[b].cell@ by {
                    let t = outs@.remove(i as int);
                    let a2 = if a < i { a } else { a + 1 };
                    let b2 = if b < i { b } else { b + 1 };
                    assert(t[a] == outs@[a2] && t[b] == outs@[b2]);
                }
            }
            outs.remove(i);
        },
        None => {},
    }
}

proof fn lemma_dirty_remove(ds: Seq<(String, bool)>, i: int, m: Seq<char>)
    requires
        0 <= i < ds.len(),
        forall|a: int, b: int| 0 <= a < b < ds.len() ==> ds[a].0@ != ds[b].0@,
    ensures
        dirty_of(ds.remove(i), m) == if m == ds[i].0@ { None } else { dirty_of(ds, m) },
    decreases ds.len(),
{
    let t = ds.remove(i);
    if i == ds.len() - 1 {
        assert(t =~= ds.drop_last());
        if m == ds[i].0@ {
            if dirty_of(ds.drop_last(), m) is Some {
                lemma_dirty_present(ds.drop_last(), m);
                let j = choose|j: int| 0 <= j < ds.drop_last().len() && ds.drop_last()[j].0@ == m;
                assert(ds[j].0@ == ds[i].0@);
            }
        }
    } else {
        assert(t.drop_last() =~= ds.drop_last().remove(i));
        assert(t.last() == ds.last());
        lemma_dirty_remove(ds.drop_last(), i, m);
    }
}

proof fn lemma_dirty_present(ds: Seq<(String, bool)>, m: Seq<char>)
    requires
        dirty_of(ds, m) is Some,
    ensures
        exists|j: int| 0 <= j < ds.len() && ds[j].0@ == m,
    decreases ds.len(),
{
    if ds.last().0@ == m {
        assert(ds[ds.len() - 1].0@ == m);
    } else {
        lemma_dirty_present(ds.drop_last(), m);
        let j = choose|j: int| 0 <= j < ds.drop_last().len() && ds.drop_last()[j].0@ == m;
        assert(ds[j].0@ == m);
    }
}

/// Forget the dirty flag of cell `n`.
pub fn remove_dirty(ds: &mut Vec<(String, bool)>, n: &String)
    requires
        forall|a: int, b: int| 0 <= a < b < old(ds)@.len() ==> old(ds)@[a].0@ != old(ds)@[b].0@,
    ensures
        forall|a: int, b: int| 0 <= a < b < final(ds)@.len() ==> final(ds)@[a].0@ != final(ds)@[b].0@,
        forall|m: Seq<char>| #[trigger] dirty_of(final(ds)@, m) == if m == n@ { None } else { dirty_of(old(ds)@, m) },
{
    match find_dirty(ds, n) {
        Some(i) => {
            proof {
                assert forall|m: Seq<char>| #[trigger] dirty_of(ds@.remove(i as int), m) == if m == n@ { None } else { dirty_of(ds@, m) } by {
                    lemma_dirty_remove(ds@, i as int, m);
                }
                assert forall|a: int, b: int| 0 <= a < b < ds@.remove(i as int).len() implies ds@.remove(i as int)[a].0@ != ds@.remove(i as int)[b].0@ by {
                    let t = ds@.remove(i as int);
                    let a2 = if a < i { a } else { a + 1 };
                    let b2 = if b < i { b } else { b + 1 };
                    assert(t[a] == ds@[a2] && t[b] == ds@[b2]);
                }
            }
            ds.remove(i);
        },
        None => {},
    }
}

/// The state of an interactive notebook session: the notebook, its graph,
/// the last output of each cell that ran and which cells are dirty.
pub struct Session {
    pub path: std::path::PathBuf,
    pub notebook: Notebook,
    pub graph: DependencyGraph,
    pub outputs: Vec<CellOutput>,
    pub dirty: Vec<(String, bool)>,
    /// Pluto-style automatic cascade (default: true).
    pub auto_react: bool,
}

/// What the UI shows for a cell with last output `out` and dirty flag `d`.
pub open spec fn status_from(out: Option<CellOutput>, d: Option<bool>) -> CellStatus {
    match out {
        None => CellStatus::Pristine,
        Some(o) => if d == Some(true) {
            CellStatus::Dirty
        } else if o.success {
            CellStatus::Success
        } else {
            CellStatus::Error
        },
    }
}

/// What the UI shows for cell `n`.
pub open spec fn status_of(outs: Seq<CellOutput>, ds: Seq<(String, bool)>, n: Seq<char>) -> CellStatus {
    status_from(output_of(outs, n), dirty_of(ds, n))
}

/// The output of a run of cell `n` changed what its dependents see: the run
/// failed, or its value hash differs from the previous output's.
pub open spec fn output_changed(outs: Seq<CellOutput>, n: Seq<char>, o: CellOutput) -> bool {
    !o.success || !(output_of(outs, n) matches Some(prev) && prev.value_hash@ == o.value_hash@)
}

/// The dirty flag of cell `m` after cell `name` ran with output `o`: the
/// direct dependents of `name` are dirty when the run succeeded with a
/// changed output, `name` itself is clean, other flags stay.
pub open spec fn dirty_after_run(ds: Seq<(String, bool)>, es: Seq<crate::graph::EdgeView>, outs: Seq<CellOutput>, name: Seq<char>, o: CellOutput, m: Seq<char>) -> Option<bool> {
    if o.success && output_changed(outs, name, o) && dependents_of(es, name).contains(m) {
        Some(true)
    } else if m == name {
        Some(false)
    } else {
        dirty_of(ds, m)
    }
}

impl Session {
    /// Keys of both tables are unique.
    pub open spec fn wf(&self) -> bool {
        &&& forall|a: int, b: int| 0 <= a < b < self.outputs@.len() ==> self.outputs@[a].cell@ != self.outputs@[b].cell@
        &&& forall|a: int, b: int| 0 <= a < b < self.dirty@.len() ==> self.dirty@[a].0@ != self.dirty@[b].0@
    }

    /// The session state over a freshly parsed notebook: nothing has run,
    /// no cell is dirty, automatic cascade is on.
    pub fn new(path: std::path::PathBuf, notebook: Notebook, graph: DependencyGraph) -> (s: Session)
        ensures
            s.wf(),
            s.path == path,
            s.notebook == notebook,
            s.graph == graph,
            s.outputs@.len() == 0,
            s.auto_react,
            forall|m: Seq<char>| #[trigger] dirty_of(s.dirty@, m) == if cell_index(notebook.cells@, m) is Some { Some(false) } else { None },
    {
        let mut s = Session { path, notebook, graph, outputs: Vec::new(), dirty: Vec::new(), auto_react: true };
        s.register_cells();
        proof {
            assert forall|m: Seq<char>| #[trigger] dirty_of(s.dirty@, m) == if cell_index(s.notebook.cells@, m) is Some { Some(false) } else { None } by {
                assert(dirty_of(Seq::<(String, bool)>::empty(), m) is None);
            }
        }
        s
    }

    pub fn set_auto_react(&mut self, enabled: bool)
        ensures
            final(self).auto_react == enabled,
            final(self).path == old(self).path,
            final(self).notebook == old(self).notebook,
            final(self).graph == old(self).graph,
            final(self).outputs == old(self).outputs,
            final(self).dirty == old(self).dirty,
    {
        self.auto_react = enabled;
    }

    /// Whether cell `name` is marked dirty.
    pub fn is_dirty(&self, name: &str) -> (b: bool)
        ensures
            b == dirty(self.dirty@, name@),
    {
        let n = string_of(&chars_of(name));
        match find_dirty(&self.dirty, &n) {
            Some(i) => self.dirty[i].1,
            None => false,
        }
    }

    /// The last output of cell `name`.
    pub fn output(&self, name: &str) -> (r: Option<&CellOutput>)
        ensures
            r matches Some(o) ==> output_of(self.outputs@, name@) == Some(*o),
            r is None ==> output_of(self.outputs@, name@) is None,
    {
        let n = string_of(&chars_of(name));
        match find_output(&self.outputs, &n) {
            Some(i) => Some(&self.outputs[i]),
            None => None,
        }
    }

    /// Give every cell of the notebook a dirty flag (false) unless it has one.
    pub fn register_cells(&mut self)
        requires
            old(self).wf(),
        ensures
            final(self).wf(),
            final(self).path == old(self).path,
            final(self).notebook == old(self).notebook,
            final(self).graph == old(self).graph,
            final(self).outputs == old(self).outputs,
            final(self).auto_react == old(self).auto_react,
            forall|m: Seq<char>| #[trigger] dirty_of(final(self).dirty@, m) == if dirty_of(old(self).dirty@, m) is None && cell_index(old(self).notebook.cells@, m) is Some { Some(false) } else { dirty_of(old(self).dirty@, m) },
    {
        let ghost d0 = self.dirty@;
        let mut i: usize = 0;
        while i < self.notebook.cells.len()
            invariant
                self.wf(),
                i <= self.notebook.cells@.len(),
                self.path == old(self).path,
                self.notebook == old(self).notebook,
                self.graph == old(self).graph,
                self.outputs == old(self).outputs,
                self.auto_react == old(self).auto_react,
                forall|m: Seq<char>| #[trigger] dirty_of(self.dirty@, m) == if dirty_of(d0, m) is None && cell_index(self.notebook.cells@.take(i as int), m) is Some { Some(false) } else { dirty_of(d0, m) },
            decreases self.notebook.cells@.len() - i,
        {
            let n = self.notebook.cells[i].name.clone();
            let ghost cs = self.notebook.cells@;
            proof {
                assert(cs.take(i + 1).drop_last() =~= cs.take(i as int));
                assert(cs.take(i + 1).last() == cs[i as int]);
            }
            if find_dirty(&self.dirty, &n).is_none() {
                set_dirty(&mut self.dirty, &n, false);
            }
            proof {
                assert forall|m: Seq<char>| #[trigger] dirty_of(self.dirty@, m) == if dirty_of(d0, m) is None && cell_index(cs.take(i + 1), m) is Some { Some(false) } else { dirty_of(d0, m) } by {
                    assert(cell_index(cs.take(i + 1), m) == match cell_index(cs.take(i as int), m) {
                        Some(j) => Some(j),
                        None => if cs[i as int].name@ == m { Some(i as int) } else { None },
                    });
                }
            }
            i += 1;
        }
        assert(self.notebook.cells@.take(i as int) =~= self.notebook.cells@);
    }

    /// Bookkeeping after cell `name` ran and produced `output`: the output is
    /// recorded, the cell is clean, and when the run succeeded with a value
    /// hash different from the previous one, every direct dependent is marked
    /// dirty. Returns whether the output changed.
    pub fn record_output(&mut self, name: &str, output: CellOutput) -> (changed: bool)
        requires
            old(self).wf(),
            output.cell@ == name@,
        ensures
            final(self).wf(),
            final(self).path == old(self).path,
            final(self).notebook == old(self).notebook,
            final(self).graph == old(self).graph,
            final(self).auto_react == old(self).auto_react,
            changed == output_changed(old(self).outputs@, name@, output),
            forall|m: Seq<char>| #[trigger] output_of(final(self).outputs@, m) == if m == name@ { Some(output) } else { output_of(old(self).outputs@, m) },
            forall|m: Seq<char>| #[trigger] dirty_of(final(self).dirty@, m) == dirty_after_run(old(self).dirty@, edge_views(old(self).graph.edges@), old(self).outputs@, name@, output, m),
    {
        let n = string_of(&chars_of(name));
        let old_hash: Option<String> = match find_output(&self.outputs, &n) {
            Some(i) => Some(self.outputs[i].value_hash.clone()),
            None => None,
        };
        let success = output.success;
        let new_hash = output.value_hash.clone();
        let ghost out = output;
        set_output(&mut self.outputs, output);
        set_dirty(&mut self.dirty, &n, false);
        let mut changed = true;
        if success {
            changed = match &old_hash {
                Some(h) => *h != new_hash,
                None => true,
            };
            if changed {
                let ds = dependents(&self.graph, name);
                let ghost dv = string_views(ds@);
                let ghost d1 = self.dirty@;
                let mut k: usize = 0;
                while k < ds.len()
                    invariant
                        k <= ds@.len(),
                        dv == string_views(ds@),
                        self.wf(),
                        self.path == old(self).path,
                        self.notebook == old(self).notebook,
                        self.graph == old(self).graph,
                        self.auto_react == old(self).auto_react,
                        forall|m: Seq<char>| #[trigger] output_of(self.outputs@, m) == if m == name@ { Some(out) } else { output_of(old(self).outputs@, m) },
                        forall|m: Seq<char>| #[trigger] dirty_of(self.dirty@, m) == if dv.take(k as int).contains(m) { Some(true) } else { dirty_of(d1, m) },
                    decreases ds@.len() - k,
                {
                    set_dirty(&mut self.dirty, &ds[k], true);
                    proof {
                        assert forall|m: Seq<char>| #[trigger] dirty_of(self.dirty@, m) == if dv.take(k + 1).contains(m) { Some(true) } else { dirty_of(d1, m) } by {
                            assert(dv.take(k + 1) =~= dv.take(k as int).push(ds@[k as int]@));
                            if dv.take(k as int).contains(m) {
                                let j = choose|j: int| 0 <= j < k && #[trigger] dv.take(k as int)[j] == m;
                                assert(dv.take(k + 1)[j] == m);
                            }
                            if m == ds@[k as int]@ {
                                assert(dv.take(k + 1)[k as int] == m);
                            }
                            if dv.take(k + 1).contains(m) && m != ds@[k as int]@ {
                                let j = choose|j: int| 0 <= j < k + 1 && #[trigger] dv.take(k + 1)[j] == m;
                                assert(dv.take(k as int)[j] == m);
                            }
                        }
                    }
                    k += 1;
                }
                assert(dv.take(k as int) =~= dv);
            }
        }
        changed
    }

    /// Cell `name` exists and every parameter names a cell with a
    /// successful output (so it may run now).
    pub fn ready_to_run(&self, name: &str) -> (b: bool)
        ensures
            b == (cell_index(self.notebook.cells@, name@) matches Some(i) && deps_succeeded(self.outputs@, self.notebook.cells@[i])),
    {
        proof {
            lemma_cell_index(self.notebook.cells@, name@);
        }
        let i = match find_cell(&self.notebook.cells, name) {
            Some(i) => i,
            None => return false,
        };
        let c = &self.notebook.cells[i];
        let mut k: usize = 0;
        while k < c.params.len()
            invariant
                i < self.notebook.cells@.len(),
                cell_index(self.notebook.cells@, name@) == Some(i as int),
                *c == self.notebook.cells@[i as int],
                k <= c.params@.len(),
                forall|j: int| 0 <= j < k ==> succeeded(self.outputs@, #[trigger] c.params@[j].name@),
            decreases c.params@.len() - k,
        {
            match find_output(&self.outputs, &c.params[k].name) {
                Some(o) => {
                    if !self.outputs[o].success {
                        assert(!succeeded(self.outputs@, c.params@[k as int].name@));
                        return false;
                    }
                },
                None => {
                    assert(!succeeded(self.outputs@, c.params@[k as int].name@));
                    return false;
                },
            }
            k += 1;
        }
        true
    }

    /// Mark every cell of the notebook dirty (the shared code they compile
    /// with changed).
    pub fn mark_all_dirty(&mut self)
        requires
            old(self).wf(),
        ensures
            final(self).wf(),
            final(self).path == old(self).path,
            final(self).notebook == old(self).notebook,
            final(self).graph == old(self).graph,
            final(self).outputs == old(self).outputs,
            final(self).auto_react == old(self).auto_react,
            forall|m: Seq<char>| #[trigger] dirty_of(final(self).dirty@, m) == if cell_index(old(self).notebook.cells@, m) is Some { Some(true) } else { dirty_of(old(self).dirty@, m) },
    {
        let ghost d0 = self.dirty@;
        let mut i: usize = 0;
        while i < self.notebook.cells.len()
            invariant
                self.wf(),
                i <= self.notebook.cells@.len(),
                self.path == old(self).path,
                self.notebook == old(self).notebook,
                self.graph == old(self).graph,
                self.outputs == old(self).outputs,
                self.auto_react == old(self).auto_react,
                forall|m: Seq<char>| #[trigger] dirty_of(self.dirty@, m) == if cell_index(self.notebook.cells@.take(i as int), m) is Some { Some(true) } else { dirty_of(d0, m) },
            decreases self.notebook.cells@.len() - i,
        {
            let n = self.notebook.cells[i].name.clone();
            let ghost cs = self.notebook.cells@;
            proof {
                assert(cs.take(i + 1).drop_last() =~= cs.take(i as int));
                assert(cs.take(i + 1).last() == cs[i as int]);
            }
            set_dirty(&mut self.dirty, &n, true);
            i += 1;
        }
        assert(self.notebook.cells@.take(i as int) =~= self.notebook.cells@);
    }

    /// After an edit of cell `name`: it is dirty if it had an output.
    pub fn mark_edited(&mut self, name: &str)
        requires
            old(self).wf(),
        ensures
            final(self).wf(),
            final(self).path == old(self).path,
            final(self).notebook == old(self).notebook,
            final(self).graph == old(self).graph,
            final(self).outputs == old(self).outputs,
            final(self).auto_react == old(self).auto_react,
            forall|m: Seq<char>| #[trigger] dirty_of(final(self).dirty@, m) == if m == name@ && output_of(old(self).outputs@, m) is Some { Some(true) } else { dirty_of(old(self).dirty@, m) },
    {
        let n = string_of(&chars_of(name));
        if find_output(&self.outputs, &n).is_some() {
            set_dirty(&mut self.dirty, &n, true);
        }
    }

    /// Bookkeeping when item `name` of `kind` is deleted: its output and
    /// flag are forgotten; a deleted cell's direct dependents become dirty.
    pub fn forget_item(&mut self, kind: AddKind, name: &str)
        requires
            old(self).wf(),
        ensures
            final(self).wf(),
            final(self).path == old(self).path,
            final(self).notebook == old(self).notebook,
            final(self).graph == old(self).graph,
            final(self).auto_react == old(self).auto_react,
            forall|m: Seq<char>| #[trigger] output_of(final(self).outputs@, m) == if m == name@ { None } else { output_of(old(self).outputs@, m) },
            forall|m: Seq<char>| #[trigger] dirty_of(final(self).dirty@, m) == if kind == AddKind::Cell && dependents_of(edge_views(old(self).graph.edges@), name@).contains(m) { Some(true) } else if m == name@ { None } else { dirty_of(old(self).dirty@, m) },
    {
        let n = string_of(&chars_of(name));
        remove_output(&mut self.outputs, &n);
        remove_dirty(&mut self.dirty, &n);
        let ghost d1 = self.dirty@;
        if kind == AddKind::Cell {
            let ds = dependents(&self.graph, name);
            let ghost dv = string_views(ds@);
            let mut k: usize = 0;
            while k < ds.len()
                invariant
                    k <= ds@.len(),
                    dv == string_views(ds@),
                    self.wf(),
                    self.path == old(self).path,
                    self.notebook == old(self).notebook,
                    self.graph == old(self).graph,
                    self.auto_react == old(self).auto_react,
                    forall|m: Seq<char>| #[trigger] output_of(self.outputs@, m) == if m == name@ { None } else { output_of(old(self).outputs@, m) },
                    forall|m: Seq<char>| #[trigger] dirty_of(self.dirty@, m) == if dv.take(k as int).contains(m) { Some(true) } else { dirty_of(d1, m) },
                decreases ds@.len() - k,
            {
                set_dirty(&mut self.dirty, &ds[k], true);
                proof {
                    assert forall|m: Seq<char>| #[trigger] dirty_of(self.dirty@, m) == if dv.take(k + 1).contains(m) { Some(true) } else { dirty_of(d1, m) } by {
                        assert(dv.take(k + 1) =~= dv.take(k as int).push(ds@[k as int]@));
                        if dv.take(k as int).contains(m) {
                            let j = choose|j: int| 0 <= j < k && #[trigger] dv.take(k as int)[j] == m;
                            assert(dv.take(k + 1)[j] == m);
                        }
                        if m == ds@[k as int]@ {
                            assert(dv.take(k + 1)[k as int] == m);
                        }
                        if dv.take(k + 1).contains(m) && m != ds@[k as int]@ {
                            let j = choose|j: int| 0 <= j < k + 1 && #[trigger] dv.take(k + 1)[j] == m;
                            assert(dv.take(k as int)[j] == m);
                        }
                    }
                }
                k += 1;
            }
            assert(dv.take(k as int) =~= dv);
        }
    }
}

} // verus!
