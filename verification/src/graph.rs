//! Dependency graph construction and validation.

use vstd::prelude::*;
use crate::diagnose::{DiagView, Diagnostic, Severity};
use crate::notebook::{cell_index, find_cell, lemma_cell_index, unique_names, Cell, Notebook, Param};
use crate::text::{chars_of, is_ws, is_whitespace, join, join_vec, push_all, string_of, views};
use crate::source_util::eq_vec;

verus! {

/// Errors of graph validation.
#[derive(Debug)]
pub enum GraphError {
    Cycle(String),
    Invalid,
}

#[derive(Debug, Clone)]
pub struct DependencyEdge {
    pub from: String,
    pub to: String,
    pub param_name: String,
}

#[derive(Debug)]
pub struct DependencyGraph {
    pub edges: Vec<DependencyEdge>,
    /// Topological levels (cells that can run in parallel share a level).
    pub levels: Vec<Vec<String>>,
    /// Full topological order.
    pub order: Vec<String>,
    pub diagnostics: Vec<Diagnostic>,
}

/// An edge as plain values: (from, to, parameter name).
pub type EdgeView = (Seq<char>, Seq<char>, Seq<char>);

impl DependencyEdge {
    pub open spec fn view_of(self) -> EdgeView {
        (self.from@, self.to@, self.param_name@)
    }
}

pub open spec fn edge_views(es: Seq<DependencyEdge>) -> Seq<EdgeView> {
    Seq::new(es.len(), |i: int| es[i].view_of())
}

pub open spec fn diag_views(ds: Seq<Diagnostic>) -> Seq<DiagView> {
    Seq::new(ds.len(), |i: int| ds[i].view_of())
}

pub open spec fn string_views(ss: Seq<String>) -> Seq<Seq<char>> {
    Seq::new(ss.len(), |i: int| ss[i]@)
}

// ---------------------------------------------------------------------------
// Edges and diagnostics
// ---------------------------------------------------------------------------

/// The edges contributed by the first `k` parameters of `c`: one for each
/// parameter named like a cell, from that cell to `c`.
pub open spec fn param_edges(cells: Seq<Cell>, c: Cell, k: nat) -> Seq<EdgeView>
    decreases k,
{
    if k == 0 || k > c.params.len() {
        seq![]
    } else {
        let p = c.params@[k - 1];
        param_edges(cells, c, (k - 1) as nat) + match cell_index(cells, p.name@) {
            Some(d) => seq![(cells[d].name@, c.name@, p.name@)],
            None => seq![],
        }
    }
}

/// The edges contributed by the first `j` cells.
pub open spec fn edges_upto(cells: Seq<Cell>, j: nat) -> Seq<EdgeView>
    decreases j,
{
    if j == 0 || j > cells.len() {
        seq![]
    } else {
        edges_upto(cells, (j - 1) as nat) + param_edges(
            cells,
            cells[j - 1],
            cells[j - 1].params.len() as nat,
        )
    }
}

/// Edge `A -> B` for every parameter `A` of cell `B` that names a cell,
/// in the order of the cells and of their parameters.
pub open spec fn graph_edges(cells: Seq<Cell>) -> Seq<EdgeView> {
    edges_upto(cells, cells.len() as nat)
}

/// `s` without any whitespace character.
pub open spec fn remove_ws(s: Seq<char>) -> Seq<char>
    decreases s.len(),
{
    if s.len() == 0 {
        seq![]
    } else if is_ws(s.last()) {
        remove_ws(s.drop_last())
    } else {
        remove_ws(s.drop_last()).push(s.last())
    }
}

pub open spec fn msg_unbound(p: Seq<char>) -> Seq<char> {
    "parameter `"@ + p
        + "` is not a cell. Use a plain `fn` for reusable logic, or add `#[labrs::cell] fn "@ + p
        + "() -> ...`."@
}

pub open spec fn msg_type(p: Seq<char>, ty: Seq<char>, dep: Seq<char>, ret: Seq<char>) -> Seq<
    char,
> {
    "parameter `"@ + p + "` has type `"@ + ty + "` but cell `"@ + dep + "` returns `"@ + ret + "`"@
}

pub open spec fn msg_prefer_ref(c: Seq<char>, inner: Seq<char>, p: Seq<char>) -> Seq<char> {
    "cell `"@ + c + "`: prefer `&"@ + inner + "` for dependency parameter `"@ + p + "`"@
}

pub open spec fn msg_cycle(list: Seq<char>) -> Seq<char> {
    "dependency cycle involving: "@ + list
}

/// The diagnostics for parameter `p` of cell `c`: an error when it names no
/// cell; otherwise an error when its type (whitespace ignored) differs from
/// the cell's return type, and a warning when it is taken by value (unless `()`).
pub open spec fn param_diags(cells: Seq<Cell>, c: Cell, p: Param) -> Seq<DiagView> {
    match cell_index(cells, p.name@) {
        None => seq![(Severity::Error, msg_unbound(p.name@), Some(c.name@))],
        Some(d) => {
            let dep = cells[d];
            (if remove_ws(dep.return_type@) != remove_ws(p.inner_ty@) {
                seq![
                    (Severity::Error, msg_type(p.name@, p.ty@, dep.name@, dep.return_type@), Some(
                        c.name@,
                    )),
                ]
            } else {
                seq![]
            }) + (if !p.is_ref && p.inner_ty@ != "()"@ {
                seq![
                    (Severity::Warning, msg_prefer_ref(c.name@, p.inner_ty@, p.name@), None::<
                        Seq<char>,
                    >),
                ]
            } else {
                seq![]
            })
        },
    }
}

pub open spec fn cell_diags(cells: Seq<Cell>, c: Cell, k: nat) -> Seq<DiagView>
    decreases k,
{
    if k == 0 || k > c.params.len() {
        seq![]
    } else {
        cell_diags(cells, c, (k - 1) as nat) + param_diags(cells, c, c.params@[k - 1])
    }
}

pub open spec fn diags_upto(cells: Seq<Cell>, j: nat) -> Seq<DiagView>
    decreases j,
{
    if j == 0 || j > cells.len() {
        seq![]
    } else {
        diags_upto(cells, (j - 1) as nat) + cell_diags(
            cells,
            cells[j - 1],
            cells[j - 1].params.len() as nat,
        )
    }
}

/// The parameter diagnostics of all cells, in order.
pub open spec fn param_diagnostics(cells: Seq<Cell>) -> Seq<DiagView> {
    diags_upto(cells, cells.len() as nat)
}

pub open spec fn has_error(ds: Seq<DiagView>) -> bool {
    exists|i: int| 0 <= i < ds.len() && ds[i].0 == Severity::Error
}

// ---------------------------------------------------------------------------
// Topological levels
// ---------------------------------------------------------------------------

/// Indices of the cells that the first `k` parameters of `c` name.
pub open spec fn dep_indices(cells: Seq<Cell>, c: Cell, k: nat) -> Seq<int>
    decreases k,
{
    if k == 0 || k > c.params.len() {
        seq![]
    } else {
        dep_indices(cells, c, (k - 1) as nat) + match cell_index(
            cells,
            c.params@[k - 1].name@,
        ) {
            Some(d) => seq![d],
            None => seq![],
        }
    }
}

/// Indices of the cells that cell `v` depends on.
pub open spec fn deps_of(cells: Seq<Cell>, v: int) -> Seq<int> {
    dep_indices(cells, cells[v], cells[v].params.len() as nat)
}

/// Cell `v` is not done and every cell it depends on is.
pub open spec fn ready(cells: Seq<Cell>, done: Set<int>, v: int) -> bool {
    &&& 0 <= v < cells.len()
    &&& !done.contains(v)
    &&& forall|i: int| 0 <= i < deps_of(cells, v).len() ==> done.contains(deps_of(cells, v)[i])
}

pub open spec fn frontier_upto(cells: Seq<Cell>, done: Set<int>, m: nat) -> Seq<int>
    decreases m,
{
    if m == 0 {
        seq![]
    } else {
        frontier_upto(cells, done, (m - 1) as nat) + if ready(cells, done, m - 1) {
            seq![m - 1]
        } else {
            seq![]
        }
    }
}

/// The ready cells, in notebook order.
pub open spec fn frontier(cells: Seq<Cell>, done: Set<int>) -> Seq<int> {
    frontier_upto(cells, done, cells.len() as nat)
}

/// The cells placed in the first `k` levels.
pub open spec fn done_after(cells: Seq<Cell>, k: nat) -> Set<int>
    decreases k,
{
    if k == 0 {
        Set::empty()
    } else {
        let prev = done_after(cells, (k - 1) as nat);
        prev + frontier(cells, prev).to_set()
    }
}

/// Level `k`: the cells whose dependencies all lie in earlier levels.
pub open spec fn level(cells: Seq<Cell>, k: nat) -> Seq<int> {
    frontier(cells, done_after(cells, k))
}

/// The nonempty levels from `k` on, at most `fuel` of them.
pub open spec fn levels_from(cells: Seq<Cell>, k: nat, fuel: nat) -> Seq<Seq<int>>
    decreases fuel,
{
    if fuel == 0 || level(cells, k).len() == 0 {
        seq![]
    } else {
        seq![level(cells, k)] + levels_from(cells, k + 1, (fuel - 1) as nat)
    }
}

/// The levels of the notebook (there are never more than there are cells).
pub open spec fn kahn_levels(cells: Seq<Cell>) -> Seq<Seq<int>> {
    levels_from(cells, 0, (cells.len() + 1) as nat)
}

pub open spec fn names_of(cells: Seq<Cell>, idx: Seq<int>) -> Seq<Seq<char>> {
    Seq::new(idx.len(), |i: int| cells[idx[i]].name@)
}

pub open spec fn flatten(ls: Seq<Seq<int>>) -> Seq<int>
    decreases ls.len(),
{
    if ls.len() == 0 {
        seq![]
    } else {
        flatten(ls.drop_last()) + ls.last()
    }
}

/// The topological order: the levels one after another.
pub open spec fn topo_order(cells: Seq<Cell>) -> Seq<int> {
    flatten(kahn_levels(cells))
}

/// Indices below `m` missing from `placed`, ascending.
pub open spec fn missing_upto(placed: Seq<int>, m: nat) -> Seq<int>
    decreases m,
{
    if m == 0 {
        seq![]
    } else {
        missing_upto(placed, (m - 1) as nat) + if placed.contains(m - 1) {
            seq![]
        } else {
            seq![m - 1]
        }
    }
}

/// All diagnostics: those of the parameters, then, when the order misses a
/// cell and no error was reported, an error naming the cells left out.
pub open spec fn graph_diagnostics(cells: Seq<Cell>) -> Seq<DiagView> {
    let ds = param_diagnostics(cells);
    let ord = topo_order(cells);
    if ord.len() != cells.len() && !has_error(ds) {
        ds.push(
            (
                Severity::Error,
                msg_cycle(join(names_of(cells, missing_upto(ord, cells.len() as nat)), ", "@)),
                None::<Seq<char>>,
            ),
        )
    } else {
        ds
    }
}

// ---------------------------------------------------------------------------
// Implementation
// ---------------------------------------------------------------------------

pub open spec fn idx_views(v: Seq<usize>) -> Seq<int> {
    Seq::new(v.len(), |i: int| v[i] as int)
}

/// `s` without whitespace characters.
fn normalize_ty(s: &[char]) -> (r: Vec<char>)
    ensures
        r@ == remove_ws(s@),
{
    let mut r: Vec<char> = Vec::new();
    let mut i: usize = 0;
    while i < s.len()
        invariant
            i <= s@.len(),
            r@ == remove_ws(s@.take(i as int)),
        decreases s@.len() - i,
    {
        assert(s@.take(i + 1).drop_last() =~= s@.take(i as int));
        if !is_whitespace(s[i]) {
            r.push(s[i]);
        }
        i += 1;
    }
    assert(s@.take(i as int) =~= s@);
    r
}

fn msg_unbound_string(p: &String) -> (r: String)
    ensures
        r@ == msg_unbound(p@),
{
    let pc = chars_of(p.as_str());
    let mut v = chars_of("parameter `");
    push_all(&mut v, &pc);
    let mid = chars_of(
        "` is not a cell. Use a plain `fn` for reusable logic, or add `#[labrs::cell] fn ",
    );
    push_all(&mut v, &mid);
    push_all(&mut v, &pc);
    let end = chars_of("() -> ...`.");
    push_all(&mut v, &end);
    string_of(&v)
}

fn msg_type_string(p: &String, ty: &String, dep: &String, ret: &String) -> (r: String)
    ensures
        r@ == msg_type(p@, ty@, dep@, ret@),
{
    let mut v = chars_of("parameter `");
    push_all(&mut v, &chars_of(p.as_str()));
    push_all(&mut v, &chars_of("` has type `"));
    push_all(&mut v, &chars_of(ty.as_str()));
    push_all(&mut v, &chars_of("` but cell `"));
    push_all(&mut v, &chars_of(dep.as_str()));
    push_all(&mut v, &chars_of("` returns `"));
    push_all(&mut v, &chars_of(ret.as_str()));
    push_all(&mut v, &chars_of("`"));
    string_of(&v)
}

fn msg_prefer_ref_string(c: &String, inner: &String, p: &String) -> (r: String)
    ensures
        r@ == msg_prefer_ref(c@, inner@, p@),
{
    let mut v = chars_of("cell `");
    push_all(&mut v, &chars_of(c.as_str()));
    push_all(&mut v, &chars_of("`: prefer `&"));
    push_all(&mut v, &chars_of(inner.as_str()));
    push_all(&mut v, &chars_of("` for dependency parameter `"));
    push_all(&mut v, &chars_of(p.as_str()));
    push_all(&mut v, &chars_of("`"));
    string_of(&v)
}

/// The edge, diagnostics and dependency index that parameter `p` of `c` adds.
fn visit_param(
    cells: &Vec<Cell>,
    c: &Cell,
    p: &Param,
    edges: &mut Vec<DependencyEdge>,
    diags: &mut Vec<Diagnostic>,
    deps: &mut Vec<usize>,
)
    ensures
        edge_views(final(edges)@) == edge_views(old(edges)@) + match cell_index(cells@, p.name@) {
            Some(d) => seq![(cells@[d].name@, c.name@, p.name@)],
            None => seq![],
        },
        diag_views(final(diags)@) == diag_views(old(diags)@) + param_diags(cells@, *c, *p),
        idx_views(final(deps)@) == idx_views(old(deps)@) + match cell_index(cells@, p.name@) {
            Some(d) => seq![d],
            None => seq![],
        },
        forall|i: int| 0 <= i < final(deps)@.len() ==> (final(deps)@[i] < cells@.len() || (i
            < old(deps)@.len() && final(deps)@[i] == old(deps)@[i])),
{
    proof {
        lemma_cell_index(cells@, p.name@);
    }
    let ghost e0 = edges@;
    let ghost d0 = diags@;
    let ghost x0 = deps@;
    match find_cell(cells, p.name.as_str()) {
        None => {
            let m = msg_unbound_string(&p.name);
            diags.push(Diagnostic::error_in(&c.name, m));
            assert(diag_views(diags@) =~= diag_views(d0) + param_diags(cells@, *c, *p));
            assert(edge_views(edges@) =~= edge_views(e0));
            assert(idx_views(deps@) =~= idx_views(x0));
        },
        Some(d) => {
            let dep = &cells[d];
            let ret_n = normalize_ty(&chars_of(dep.return_type.as_str()));
            let inner_n = normalize_ty(&chars_of(p.inner_ty.as_str()));
            if !eq_vec(&ret_n, &inner_n) {
                let m = msg_type_string(&p.name, &p.ty, &dep.name, &dep.return_type);
                diags.push(Diagnostic::error_in(&c.name, m));
            }
            let ghost d1 = diags@;
            let unit = chars_of("()");
            if !p.is_ref && !eq_vec(&chars_of(p.inner_ty.as_str()), &unit) {
                let m = msg_prefer_ref_string(&c.name, &p.inner_ty, &p.name);
                diags.push(Diagnostic::warning(m));
            }
            assert(diag_views(diags@) =~= diag_views(d0) + param_diags(cells@, *c, *p));
            edges.push(
                DependencyEdge {
                    from: dep.name.clone(),
                    to: c.name.clone(),
                    param_name: p.name.clone(),
                },
            );
            assert(edge_views(edges@) =~= edge_views(e0) + seq![
                (cells@[d as int].name@, c.name@, p.name@),
            ]);
            deps.push(d);
            assert(idx_views(deps@) =~= idx_views(x0) + seq![d as int]);
        },
    }
}

/// Edges, parameter diagnostics and dependency indices of all cells.
fn visit_cells(cells: &Vec<Cell>) -> (r: (Vec<DependencyEdge>, Vec<Diagnostic>, Vec<Vec<usize>>))
    ensures
        edge_views(r.0@) == graph_edges(cells@),
        diag_views(r.1@) == param_diagnostics(cells@),
        r.2@.len() == cells@.len(),
        forall|v: int| 0 <= v < cells@.len() ==> idx_views(#[trigger] r.2@[v]@) == deps_of(cells@, v),
        forall|v: int, i: int| 0 <= v < cells@.len() && 0 <= i < r.2@[v]@.len() ==> r.2@[v]@[i] < cells@.len(),
{
    let mut edges: Vec<DependencyEdge> = Vec::new();
    let mut diags: Vec<Diagnostic> = Vec::new();
    let mut all_deps: Vec<Vec<usize>> = Vec::new();
    let mut j: usize = 0;
    while j < cells.len()
        invariant
            j <= cells@.len(),
            edge_views(edges@) == edges_upto(cells@, j as nat),
            diag_views(diags@) == diags_upto(cells@, j as nat),
            all_deps@.len() == j,
            forall|v: int| 0 <= v < j ==> idx_views(#[trigger] all_deps@[v]@) == deps_of(cells@, v),
            forall|v: int, i: int| 0 <= v < j && 0 <= i < all_deps@[v]@.len() ==> all_deps@[v]@[i] < cells@.len(),
        decreases cells@.len() - j,
    {
        let c = &cells[j];
        let mut deps: Vec<usize> = Vec::new();
        let ghost e0 = edges@;
        let ghost d0 = diags@;
        let mut k: usize = 0;
        while k < c.params.len()
            invariant
                j < cells@.len(),
                *c == cells@[j as int],
                k <= c.params@.len(),
                edge_views(edges@) == edge_views(e0) + param_edges(cells@, *c, k as nat),
                diag_views(diags@) == diag_views(d0) + cell_diags(cells@, *c, k as nat),
                idx_views(deps@) == dep_indices(cells@, *c, k as nat),
                forall|i: int| 0 <= i < deps@.len() ==> deps@[i] < cells@.len(),
            decreases c.params@.len() - k,
        {
            let ghost ek = edges@;
            let ghost dk = diags@;
            visit_param(cells, c, &c.params[k], &mut edges, &mut diags, &mut deps);
            assert(edge_views(edges@) =~= edge_views(e0) + param_edges(cells@, *c, (k + 1) as nat));
            assert(diag_views(diags@) =~= diag_views(d0) + cell_diags(cells@, *c, (k + 1) as nat));
            k += 1;
        }
        assert(edge_views(edges@) =~= edges_upto(cells@, (j + 1) as nat));
        assert(diag_views(diags@) =~= diags_upto(cells@, (j + 1) as nat));
        let ghost a0 = all_deps@;
        all_deps.push(deps);
        assert forall|v: int| 0 <= v < j + 1 implies idx_views(#[trigger] all_deps@[v]@) == deps_of(cells@, v) by {
            if v < j {
                assert(all_deps@[v] == a0[v]);
            }
        }
        j += 1;
    }
    (edges, diags, all_deps)
}

pub proof fn lemma_frontier_range(cells: Seq<Cell>, d: Set<int>, m: nat)
    requires
        m <= cells.len(),
    ensures
        forall|i: int| 0 <= i < frontier_upto(cells, d, m).len() ==> 0 <= #[trigger] frontier_upto(cells, d, m)[i] < m,
        forall|v: int| #[trigger] frontier_upto(cells, d, m).contains(v) <==> (0 <= v < m && ready(cells, d, v)),
        forall|i: int, j: int| 0 <= i < j < frontier_upto(cells, d, m).len() ==> frontier_upto(cells, d, m)[i] < frontier_upto(cells, d, m)[j],
    decreases m,
{
    if m > 0 {
        lemma_frontier_range(cells, d, (m - 1) as nat);
        let prev = frontier_upto(cells, d, (m - 1) as nat);
        let cur = frontier_upto(cells, d, m);
        assert forall|v: int| #[trigger] cur.contains(v) <==> (0 <= v < m && ready(cells, d, v)) by {
            if cur.contains(v) {
                let i = choose|i: int| 0 <= i < cur.len() && #[trigger] cur[i] == v;
                if i < prev.len() {
                    assert(prev[i] == v);
                    assert(prev.contains(v));
                }
            }
            if 0 <= v < m && ready(cells, d, v) {
                if v < m - 1 {
                    assert(prev.contains(v));
                    let i = choose|i: int| 0 <= i < prev.len() && #[trigger] prev[i] == v;
                    assert(cur[i] == v);
                } else {
                    assert(cur[cur.len() - 1] == v);
                }
            }
        }
    }
}

/// The cells that are ready, given the done flags of `d`.
fn compute_frontier(cells: &Vec<Cell>, all_deps: &Vec<Vec<usize>>, done: &Vec<bool>, Ghost(d): Ghost<Set<int>>) -> (f: Vec<usize>)
    requires
        all_deps@.len() == cells@.len(),
        forall|v: int| 0 <= v < cells@.len() ==> idx_views(#[trigger] all_deps@[v]@) == deps_of(cells@, v),
        forall|v: int, i: int| 0 <= v < cells@.len() && 0 <= i < all_deps@[v]@.len() ==> all_deps@[v]@[i] < cells@.len(),
        done@.len() == cells@.len(),
        forall|v: int| 0 <= v < cells@.len() ==> done@[v] == d.contains(v),
    ensures
        idx_views(f@) == frontier(cells@, d),
{
    let n = cells.len();
    let mut f: Vec<usize> = Vec::new();
    let mut v: usize = 0;
    while v < n
        invariant
            n == cells@.len(),
            v <= n,
            all_deps@.len() == cells@.len(),
            forall|v: int| 0 <= v < cells@.len() ==> idx_views(#[trigger] all_deps@[v]@) == deps_of(cells@, v),
            forall|v: int, i: int| 0 <= v < cells@.len() && 0 <= i < all_deps@[v]@.len() ==> all_deps@[v]@[i] < cells@.len(),
            done@.len() == cells@.len(),
            forall|v: int| 0 <= v < cells@.len() ==> done@[v] == d.contains(v),
            idx_views(f@) == frontier_upto(cells@, d, v as nat),
        decreases n - v,
    {
        let ds = &all_deps[v];
        let mut ok = !done[v];
        let mut i: usize = 0;
        while ok && i < ds.len()
            invariant
                v < n,
                n == cells@.len(),
                *ds == all_deps@[v as int],
                idx_views(ds@) == deps_of(cells@, v as int),
                forall|i: int| 0 <= i < ds@.len() ==> ds@[i] < cells@.len(),
                done@.len() == cells@.len(),
                forall|v: int| 0 <= v < cells@.len() ==> done@[v] == d.contains(v),
                i <= ds@.len(),
                ok ==> !d.contains(v as int) && forall|k: int| 0 <= k < i ==> d.contains(deps_of(cells@, v as int)[k]),
                !ok ==> !ready(cells@, d, v as int),
            decreases ds@.len() - i,
        {
            if !done[ds[i]] {
                assert(deps_of(cells@, v as int)[i as int] == ds@[i as int] as int);
                ok = false;
            }
            i += 1;
        }
        let ghost f0 = f@;
        if ok {
            f.push(v);
            assert(idx_views(f@) =~= idx_views(f0) + seq![v as int]);
        }
        assert(ok == ready(cells@, d, v as int));
        v += 1;
    }
    f
}

pub proof fn lemma_flatten_push(ls: Seq<Seq<int>>, l: Seq<int>)
    ensures
        flatten(ls.push(l)) == flatten(ls) + l,
{
    assert(ls.push(l).drop_last() =~= ls);
}

/// Levels and order of the cells, and the done flags at the end.
fn kahn(cells: &Vec<Cell>, all_deps: &Vec<Vec<usize>>) -> (r: (Vec<Vec<String>>, Vec<String>, Vec<bool>))
    requires
        all_deps@.len() == cells@.len(),
        forall|v: int| 0 <= v < cells@.len() ==> idx_views(#[trigger] all_deps@[v]@) == deps_of(cells@, v),
        forall|v: int, i: int| 0 <= v < cells@.len() && 0 <= i < all_deps@[v]@.len() ==> all_deps@[v]@[i] < cells@.len(),
    ensures
        r.0@.len() == kahn_levels(cells@).len(),
        forall|i: int| 0 <= i < r.0@.len() ==> string_views(#[trigger] r.0@[i]@) == names_of(cells@, kahn_levels(cells@)[i]),
        string_views(r.1@) == names_of(cells@, topo_order(cells@)),
        r.2@.len() == cells@.len(),
        forall|v: int| 0 <= v < cells@.len() ==> r.2@[v] == topo_order(cells@).contains(v),
{
    let n = cells.len();
    let mut done: Vec<bool> = Vec::new();
    while done.len() < n
        invariant
            n == cells@.len(),
            done@.len() <= n,
            forall|v: int| 0 <= v < done@.len() ==> !done@[v],
        decreases n - done@.len(),
    {
        done.push(false);
    }
    let mut levels: Vec<Vec<String>> = Vec::new();
    let mut order: Vec<String> = Vec::new();
    let mut remaining = n;
    let ghost mut k: nat = 0;
    let ghost mut gl: Seq<Seq<int>> = seq![];
    loop
        invariant_except_break
            kahn_levels(cells@) == gl + levels_from(cells@, k, (remaining + 1) as nat),
        invariant
            n == cells@.len(),
            remaining <= n,
            all_deps@.len() == cells@.len(),
            forall|v: int| 0 <= v < cells@.len() ==> idx_views(#[trigger] all_deps@[v]@) == deps_of(cells@, v),
            forall|v: int, i: int| 0 <= v < cells@.len() && 0 <= i < all_deps@[v]@.len() ==> all_deps@[v]@[i] < cells@.len(),
            done@.len() == n,
            forall|v: int| 0 <= v < n ==> done@[v] == done_after(cells@, k).contains(v),
            levels@.len() == gl.len(),
            forall|i: int| 0 <= i < levels@.len() ==> string_views(#[trigger] levels@[i]@) == names_of(cells@, gl[i]),
            string_views(order@) == names_of(cells@, flatten(gl)),
            forall|v: int| #[trigger] flatten(gl).contains(v) <==> (0 <= v < n && done_after(cells@, k).contains(v)),
            forall|i: int| 0 <= i < flatten(gl).len() ==> 0 <= #[trigger] flatten(gl)[i] < n,
        ensures
            gl == kahn_levels(cells@),
            levels@.len() == gl.len(),
            forall|i: int| 0 <= i < levels@.len() ==> string_views(#[trigger] levels@[i]@) == names_of(cells@, gl[i]),
            string_views(order@) == names_of(cells@, flatten(gl)),
            done@.len() == n,
            forall|v: int| 0 <= v < n ==> done@[v] == flatten(gl).contains(v),
        decreases remaining,
    {
        let ghost dk = done_after(cells@, k);
        let front = compute_frontier(cells, all_deps, &done, Ghost(dk));
        proof {
            lemma_frontier_range(cells@, dk, n as nat);
        }
        if front.len() == 0 {
            assert(levels_from(cells@, k, (remaining + 1) as nat) =~= seq![]);
            assert(gl + seq![] =~= gl);
            break;
        }
        let ghost fr = idx_views(front@);
        let mut lvl: Vec<String> = Vec::new();
        let ghost o0 = order@;
        let mut i: usize = 0;
        while i < front.len()
            invariant
                n == cells@.len(),
                fr == idx_views(front@),
                forall|i: int| 0 <= i < fr.len() ==> 0 <= #[trigger] fr[i] < n,
                i <= front@.len(),
                string_views(lvl@) == names_of(cells@, fr.take(i as int)),
                string_views(order@) == string_views(o0) + names_of(cells@, fr.take(i as int)),
                done@.len() == n,
                forall|v: int| 0 <= v < n ==> #[trigger] done@[v] == (dk.contains(v) || fr.take(i as int).contains(v)),
            decreases front@.len() - i,
        {
            let ghost l0 = lvl@;
            let ghost p0 = order@;
            let ghost dn0 = done@;
            let f = front[i];
            assert(fr[i as int] == f as int);
            lvl.push(cells[f].name.clone());
            order.push(cells[f].name.clone());
            done.set(f, true);
            assert(fr.take(i + 1) =~= fr.take(i as int).push(f as int));
            assert(names_of(cells@, fr.take(i + 1)) =~= names_of(cells@, fr.take(i as int)).push(cells@[f as int].name@));
            assert(string_views(lvl@) =~= string_views(l0).push(cells@[f as int].name@));
            assert(string_views(order@) =~= string_views(p0).push(cells@[f as int].name@));
            assert(string_views(lvl@) =~= names_of(cells@, fr.take(i + 1)));
            assert(string_views(order@) =~= string_views(o0) + names_of(cells@, fr.take(i + 1)));
            assert forall|v: int| 0 <= v < n implies #[trigger] done@[v] == (dk.contains(v) || fr.take(i + 1).contains(v)) by {
                if v == f {
                    assert(fr.take(i + 1)[i as int] == v);
                    assert(fr.take(i + 1).contains(v));
                } else {
                    assert(done@[v] == dn0[v]);
                    if fr.take(i + 1).contains(v) {
                        let j = choose|j: int| 0 <= j < i + 1 && #[trigger] fr.take(i + 1)[j] == v;
                        assert(fr.take(i as int)[j] == v);
                    }
                    if fr.take(i as int).contains(v) {
                        let j = choose|j: int| 0 <= j < i && #[trigger] fr.take(i as int)[j] == v;
                        assert(fr.take(i + 1)[j] == v);
                    }
                }
            }
            i += 1;
        }
        assert(fr.take(i as int) =~= fr);
        proof {
            lemma_flatten_push(gl, fr);
            let nd = done_after(cells@, k + 1);
            assert(nd == dk + fr.to_set());
            assert forall|v: int| 0 <= v < n implies done@[v] == nd.contains(v) by {
                assert(fr.to_set().contains(v) == fr.contains(v));
            }
            assert(names_of(cells@, flatten(gl) + fr) =~= names_of(cells@, flatten(gl)) + names_of(cells@, fr));
            assert forall|v: int| #[trigger] (flatten(gl) + fr).contains(v) <==> (0 <= v < n && nd.contains(v)) by {
                assert(fr.to_set().contains(v) == fr.contains(v));
                if (flatten(gl) + fr).contains(v) {
                    let j = choose|j: int| 0 <= j < (flatten(gl) + fr).len() && #[trigger] (flatten(gl) + fr)[j] == v;
                    if j < flatten(gl).len() {
                        assert(flatten(gl)[j] == v);
                        assert(flatten(gl).contains(v));
                    } else {
                        assert(fr[j - flatten(gl).len()] == v);
                        assert(fr.contains(v));
                    }
                }
                if 0 <= v < n && nd.contains(v) {
                    if flatten(gl).contains(v) {
                        let j = choose|j: int| 0 <= j < flatten(gl).len() && #[trigger] flatten(gl)[j] == v;
                        assert((flatten(gl) + fr)[j] == v);
                    } else {
                        assert(fr.contains(v));
                        let j = choose|j: int| 0 <= j < fr.len() && #[trigger] fr[j] == v;
                        assert((flatten(gl) + fr)[flatten(gl).len() + j] == v);
                    }
                }
            }
            assert forall|i: int| 0 <= i < (flatten(gl) + fr).len() implies 0 <= #[trigger] (flatten(gl) + fr)[i] < n by {
                if i >= flatten(gl).len() {
                    assert((flatten(gl) + fr)[i] == fr[i - flatten(gl).len()]);
                }
            }
            assert(level(cells@, k) == fr);
            assert(levels_from(cells@, k, (remaining + 1) as nat) =~= seq![fr] + levels_from(cells@, k + 1, remaining as nat));
            assert(gl + levels_from(cells@, k, (remaining + 1) as nat) =~= gl.push(fr) + levels_from(cells@, k + 1, remaining as nat));
        }
        let ghost gl0 = gl;
        levels.push(lvl);
        proof {
            gl = gl.push(fr);
            k = k + 1;
            assert forall|i: int| 0 <= i < levels@.len() implies string_views(#[trigger] levels@[i]@) == names_of(cells@, gl[i]) by {
                if i < gl0.len() {
                    assert(gl[i] == gl0[i]);
                }
            }
        }
        if remaining == 0 {
            assert(levels_from(cells@, k, 0) =~= seq![]);
            assert(gl + seq![] =~= gl);
            break;
        }
        remaining -= 1;
    }
    (levels, order, done)
}

/// Whether any of `ds` is an error.
fn any_error(ds: &Vec<Diagnostic>) -> (b: bool)
    ensures
        b == has_error(diag_views(ds@)),
{
    let mut i: usize = 0;
    while i < ds.len()
        invariant
            i <= ds@.len(),
            forall|k: int| 0 <= k < i ==> ds@[k].severity != Severity::Error,
        decreases ds@.len() - i,
    {
        if ds[i].is_error() {
            assert(diag_views(ds@)[i as int].0 == Severity::Error);
            return true;
        }
        i += 1;
    }
    assert forall|k: int| 0 <= k < diag_views(ds@).len() implies diag_views(ds@)[k].0 != Severity::Error by {
        assert(ds@[k].severity != Severity::Error);
    }
    false
}

/// The message naming the cells that `done` leaves out.
fn cycle_message(cells: &Vec<Cell>, done: &Vec<bool>, Ghost(placed): Ghost<Seq<int>>) -> (m: String)
    requires
        done@.len() == cells@.len(),
        forall|v: int| 0 <= v < cells@.len() ==> done@[v] == placed.contains(v),
    ensures
        m@ == msg_cycle(join(names_of(cells@, missing_upto(placed, cells@.len() as nat)), ", "@)),
{
    let mut names: Vec<Vec<char>> = Vec::new();
    let mut v: usize = 0;
    while v < cells.len()
        invariant
            v <= cells@.len(),
            done@.len() == cells@.len(),
            forall|v: int| 0 <= v < cells@.len() ==> done@[v] == placed.contains(v),
            views(names@) == names_of(cells@, missing_upto(placed, v as nat)),
        decreases cells@.len() - v,
    {
        let ghost n0 = names@;
        if !done[v] {
            names.push(chars_of(cells[v].name.as_str()));
            assert(views(names@) =~= views(n0).push(cells@[v as int].name@));
        }
        assert(names_of(cells@, missing_upto(placed, (v + 1) as nat)) =~= names_of(cells@, missing_upto(placed, v as nat)) + if placed.contains(v as int) { seq![] } else { seq![cells@[v as int].name@] });
        v += 1;
    }
    let sep = chars_of(", ");
    let list = join_vec(&names, &sep);
    let mut msg = chars_of("dependency cycle involving: ");
    push_all(&mut msg, &list);
    string_of(&msg)
}

/// Build the dependency graph from cell parameter names.
///
/// Edge `A → B` when cell `B` has a parameter named `A`.
pub fn build_graph(notebook: &Notebook) -> (g: DependencyGraph)
    requires
        unique_names(notebook.cells@),
    ensures
        edge_views(g.edges@) == graph_edges(notebook.cells@),
        g.levels@.len() == kahn_levels(notebook.cells@).len(),
        forall|i: int| 0 <= i < g.levels@.len() ==> string_views(#[trigger] g.levels@[i]@) == names_of(notebook.cells@, kahn_levels(notebook.cells@)[i]),
        string_views(g.order@) == names_of(notebook.cells@, topo_order(notebook.cells@)),
        diag_views(g.diagnostics@) == graph_diagnostics(notebook.cells@),
{
    let cells = &notebook.cells;
    let (edges, mut diagnostics, all_deps) = visit_cells(cells);
    let (levels, order, done) = kahn(cells, &all_deps);
    let ghost placed = topo_order(cells@);
    assert(order@.len() == placed.len()) by {
        assert(string_views(order@).len() == order@.len());
    }
    if order.len() != cells.len() && !any_error(&diagnostics) {
        let m = cycle_message(cells, &done, Ghost(placed));
        let ghost d0 = diagnostics@;
        diagnostics.push(Diagnostic::error(m));
        assert(diag_views(diagnostics@) =~= diag_views(d0).push((Severity::Error, m@, None::<Seq<char>>)));
    }
    DependencyGraph { edges, levels, order, diagnostics }
}

impl DependencyGraph {
    /// No diagnostic is an error.
    pub fn is_ok(&self) -> (b: bool)
        ensures
            b == !has_error(diag_views(self.diagnostics@)),
    {
        !any_error(&self.diagnostics)
    }

    /// The error diagnostics, in order.
    pub fn errors(&self) -> (r: Vec<Diagnostic>)
        ensures
            diag_views(r@) == diag_views(self.diagnostics@).filter(|d: DiagView| d.0 == Severity::Error),
    {
        let mut r: Vec<Diagnostic> = Vec::new();
        let mut i: usize = 0;
        while i < self.diagnostics.len()
            invariant
                i <= self.diagnostics@.len(),
                diag_views(r@) == diag_views(self.diagnostics@).take(i as int).filter(|d: DiagView| d.0 == Severity::Error),
            decreases self.diagnostics@.len() - i,
        {
            let ghost r0 = r@;
            let ghost all = diag_views(self.diagnostics@);
            reveal_with_fuel(Seq::filter, 1);
            assert(all.take(i + 1).drop_last() =~= all.take(i as int));
            if self.diagnostics[i].is_error() {
                r.push(self.diagnostics[i].duplicate());
                assert(diag_views(r@) =~= diag_views(r0).push(all[i as int]));
            } else {
                assert(diag_views(r@) =~= diag_views(r0));
            }
            i += 1;
        }
        assert(diag_views(self.diagnostics@).take(i as int) =~= diag_views(self.diagnostics@));
        r
    }
}

} // verus!
