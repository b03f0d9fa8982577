//! Laws of the dependency graph: the order it computes is topological, holds
//! each cell at most once, holds every cell when the dependencies are
//! acyclic, leaves a cell out only when a cycle holds it back, and needs no
//! more levels than there are cells; edges come from parameter names, and
//! unbound or mistyped parameters are reported.

use vstd::prelude::*;
use vstd::set_lib::{lemma_int_range, lemma_len_subset, set_int_range};
use crate::graph::{
    deps_of, done_after, flatten, frontier, frontier_upto, kahn_levels, level, levels_from,
    lemma_flatten_push, lemma_frontier_range, ready, topo_order,
};
use crate::notebook::{cell_index, lemma_cell_index, Cell, unique_names};
use crate::graph::{remove_ws, msg_type, msg_prefer_ref, edges_upto, graph_edges, param_edges, dep_indices, names_of, EdgeView, cell_diags, diags_upto, param_diags, param_diagnostics, graph_diagnostics, has_error, msg_unbound};
use crate::diagnose::{DiagView, Severity};
use crate::deps::dependents_of;

verus! {

/// Every dependency of the cell at position `i` of `s` stands earlier in `s`.
pub open spec fn deps_placed_before(cells: Seq<Cell>, s: Seq<int>, i: int) -> bool {
    forall|x: int| 0 <= x < deps_of(cells, s[i]).len() ==> #[trigger] dep_placed_before(cells, s, i, x)
}

/// Dependency `x` of the cell at position `i` of `s` stands earlier in `s`.
pub open spec fn dep_placed_before(cells: Seq<Cell>, s: Seq<int>, i: int, x: int) -> bool {
    exists|j: int| 0 <= j < i && #[trigger] s[j] == deps_of(cells, s[i])[x]
}

/// The shape of `levels_from`: its entries are the consecutive nonempty
/// levels, and it stops early only at an empty level.
pub proof fn lemma_levels_from(cells: Seq<Cell>, k: nat, fuel: nat)
    ensures
        levels_from(cells, k, fuel).len() <= fuel,
        forall|i: int| 0 <= i < levels_from(cells, k, fuel).len() ==> #[trigger] levels_from(cells, k, fuel)[i] == level(cells, (k + i) as nat) && level(cells, (k + i) as nat).len() > 0,
        levels_from(cells, k, fuel).len() < fuel ==> level(cells, k + levels_from(cells, k, fuel).len()).len() == 0,
    decreases fuel,
{
    if fuel == 0 || level(cells, k).len() == 0 {
    } else {
        lemma_levels_from(cells, k + 1, (fuel - 1) as nat);
        let rest = levels_from(cells, k + 1, (fuel - 1) as nat);
        let all = levels_from(cells, k, fuel);
        assert(all == seq![level(cells, k)] + rest);
        assert forall|i: int| 0 <= i < all.len() implies #[trigger] all[i] == level(cells, (k + i) as nat) && level(cells, (k + i) as nat).len() > 0 by {
            if i > 0 {
                assert(all[i] == rest[i - 1]);
                assert((k + 1 + (i - 1)) as nat == (k + i) as nat);
            }
        }
        assert(k + 1 + rest.len() == k + all.len());
    }
}

/// What the first `m` levels hold, for `m` up to the number of levels: the
/// cells done after `m` rounds, each once, each after its dependencies.
pub proof fn lemma_levels_prefix(cells: Seq<Cell>, m: nat)
    requires
        m <= kahn_levels(cells).len(),
    ensures
        forall|v: int| #[trigger] flatten(kahn_levels(cells).take(m as int)).contains(v) <==> (0 <= v < cells.len() && done_after(cells, m).contains(v)),
        flatten(kahn_levels(cells).take(m as int)).no_duplicates(),
        forall|i: int| 0 <= i < flatten(kahn_levels(cells).take(m as int)).len() ==> #[trigger] deps_placed_before(cells, flatten(kahn_levels(cells).take(m as int)), i),
        forall|v: int| #[trigger] done_after(cells, m).contains(v) ==> 0 <= v < cells.len(),
    decreases m,
{
    let ls = kahn_levels(cells);
    lemma_levels_from(cells, 0, (cells.len() + 1) as nat);
    if m == 0 {
        assert(ls.take(0) =~= Seq::<Seq<int>>::empty());
        assert(flatten(ls.take(0)) =~= Seq::<int>::empty());
    } else {
        let pm = (m - 1) as nat;
        lemma_levels_prefix(cells, pm);
        let s = flatten(ls.take(pm as int));
        let d = done_after(cells, pm);
        let l = ls[pm as int];
        assert(l == level(cells, pm));
        assert(ls.take(m as int) =~= ls.take(pm as int).push(l));
        lemma_flatten_push(ls.take(pm as int), l);
        let t = flatten(ls.take(m as int));
        assert(t == s + l);
        lemma_frontier_range(cells, d, cells.len() as nat);
        assert(done_after(cells, m) == d + l.to_set());
        assert forall|v: int| #[trigger] t.contains(v) <==> (0 <= v < cells.len() && done_after(cells, m).contains(v)) by {
            assert(l.to_set().contains(v) == l.contains(v));
            if t.contains(v) {
                let j = choose|j: int| 0 <= j < t.len() && t[j] == v;
                if j < s.len() {
                    assert(s[j] == v);
                    assert(s.contains(v));
                } else {
                    assert(l[j - s.len()] == v);
                    assert(l.contains(v));
                }
            }
            if 0 <= v < cells.len() && done_after(cells, m).contains(v) {
                if d.contains(v) {
                    assert(s.contains(v));
                    let j = choose|j: int| 0 <= j < s.len() && s[j] == v;
                    assert(t[j] == v);
                } else {
                    assert(l.contains(v));
                    let j = choose|j: int| 0 <= j < l.len() && l[j] == v;
                    assert(t[s.len() + j] == v);
                }
            }
        }
        assert forall|v: int| #[trigger] done_after(cells, m).contains(v) implies 0 <= v < cells.len() by {
            assert(l.to_set().contains(v) == l.contains(v));
            if !d.contains(v) {
                assert(l.contains(v));
            }
        }
        assert forall|a: int, b: int| 0 <= a < t.len() && 0 <= b < t.len() && a != b implies t[a] != t[b] by {
            if a < s.len() && b < s.len() {
                assert(t[a] == s[a] && t[b] == s[b]);
            } else if a >= s.len() && b >= s.len() {
                assert(t[a] == l[a - s.len()] && t[b] == l[b - s.len()]);
            } else {
                let (i1, i2) = if a < s.len() { (a, b) } else { (b, a) };
                assert(t[i1] == s[i1]);
                assert(s.contains(t[i1]));
                assert(t[i2] == l[i2 - s.len()]);
                assert(l.contains(t[i2]));
                assert(ready(cells, d, t[i2]));
                assert(d.contains(t[i1]));
            }
        }
        assert forall|i: int| 0 <= i < t.len() implies #[trigger] deps_placed_before(cells, t, i) by {
          assert forall|x: int| 0 <= x < deps_of(cells, t[i]).len() implies #[trigger] dep_placed_before(cells, t, i, x) by {
            if i < s.len() {
                assert(t[i] == s[i]);
                assert(deps_placed_before(cells, s, i));
                assert(dep_placed_before(cells, s, i, x));
                let j = choose|j: int| 0 <= j < i && #[trigger] s[j] == deps_of(cells, s[i])[x];
                assert(t[j] == s[j]);
            } else {
                let v = t[i];
                assert(v == l[i - s.len()]);
                assert(l.contains(v));
                assert(ready(cells, d, v));
                let dep = deps_of(cells, v)[x];
                assert(d.contains(dep));
                assert(s.contains(dep));
                let j = choose|j: int| 0 <= j < s.len() && s[j] == dep;
                assert(t[j] == dep);
            }
          }
        }
    }
}

proof fn lemma_bounded_unique(s: Seq<int>, n: int)
    requires
        n >= 0,
        s.no_duplicates(),
        forall|i: int| 0 <= i < s.len() ==> 0 <= #[trigger] s[i] < n,
    ensures
        s.len() <= n,
        (forall|v: int| 0 <= v < n ==> s.contains(v)) ==> s.len() == n,
{
    s.unique_seq_to_set();
    lemma_int_range(0, n);
    let r = set_int_range(0, n);
    assert(s.to_set().subset_of(r)) by {
        assert forall|v: int| s.to_set().contains(v) implies r.contains(v) by {
            assert(s.contains(v));
            let i = choose|i: int| 0 <= i < s.len() && s[i] == v;
        }
    }
    lemma_len_subset(s.to_set(), r);
    if forall|v: int| 0 <= v < n ==> s.contains(v) {
        assert(s.to_set() =~= r);
    }
}

proof fn lemma_flatten_len(ls: Seq<Seq<int>>)
    requires
        forall|i: int| 0 <= i < ls.len() ==> (#[trigger] ls[i]).len() > 0,
    ensures
        flatten(ls).len() >= ls.len(),
    decreases ls.len(),
{
    if ls.len() > 0 {
        lemma_flatten_len(ls.drop_last());
        assert(ls[ls.len() - 1].len() > 0);
    }
}

/// The levels end because no cell is left ready, never because of the
/// bound: there are at most as many levels as cells.
pub proof fn law_levels_end_when_nothing_is_ready(cells: Seq<Cell>)
    ensures
        kahn_levels(cells).len() <= cells.len(),
        level(cells, kahn_levels(cells).len()).len() == 0,
{
    let ls = kahn_levels(cells);
    let fuel = (cells.len() + 1) as nat;
    lemma_levels_from(cells, 0, fuel);
    if ls.len() == fuel {
        lemma_levels_prefix(cells, ls.len());
        assert(ls.take(ls.len() as int) =~= ls);
        let f = flatten(ls);
        assert forall|i: int| 0 <= i < f.len() implies 0 <= #[trigger] f[i] < cells.len() by {
            assert(f.contains(f[i]));
        }
        lemma_bounded_unique(f, cells.len() as int);
        assert forall|i: int| 0 <= i < ls.len() implies (#[trigger] ls[i]).len() > 0 by {
            assert(ls[i] == level(cells, (0 + i) as nat));
        }
        lemma_flatten_len(ls);
    }
    assert((0 + ls.len()) as nat == ls.len());
}

/// In the topological order every cell occurs at most once, and after
/// every cell it depends on.
pub proof fn law_order_is_topological(cells: Seq<Cell>)
    ensures
        topo_order(cells).no_duplicates(),
        forall|i: int| 0 <= i < topo_order(cells).len() ==> 0 <= #[trigger] topo_order(cells)[i] < cells.len(),
        forall|i: int| 0 <= i < topo_order(cells).len() ==> #[trigger] deps_placed_before(cells, topo_order(cells), i),
{
    let ls = kahn_levels(cells);
    lemma_levels_prefix(cells, ls.len());
    assert(ls.take(ls.len() as int) =~= ls);
    let f = topo_order(cells);
    assert forall|i: int| 0 <= i < f.len() implies 0 <= #[trigger] f[i] < cells.len() by {
        assert(f.contains(f[i]));
    }
}

/// Some rank decreases along every dependency: the dependencies are acyclic.
pub open spec fn ranked(cells: Seq<Cell>, rank: spec_fn(int) -> nat) -> bool {
    forall|v: int, x: int| 0 <= v < cells.len() && 0 <= x < deps_of(cells, v).len() ==> #[trigger] rank(deps_of(cells, v)[x]) < rank(v)
}

proof fn lemma_ranked_done(cells: Seq<Cell>, d: Set<int>, rank: spec_fn(int) -> nat, r: nat)
    requires
        ranked(cells, rank),
        frontier(cells, d).len() == 0,
    ensures
        forall|v: int| 0 <= v < cells.len() && #[trigger] rank(v) < r ==> d.contains(v),
    decreases r,
{
    if r > 0 {
        lemma_ranked_done(cells, d, rank, (r - 1) as nat);
        lemma_frontier_range(cells, d, cells.len() as nat);
        assert forall|v: int| 0 <= v < cells.len() && #[trigger] rank(v) < r implies d.contains(v) by {
            if rank(v) == r - 1 && !d.contains(v) {
                assert forall|x: int| 0 <= x < deps_of(cells, v).len() implies d.contains(deps_of(cells, v)[x]) by {
                    assert(rank(deps_of(cells, v)[x]) < rank(v));
                    lemma_dep_range(cells, v, x);
                }
                assert(ready(cells, d, v));
                assert(frontier(cells, d).contains(v));
            }
        }
    }
}

proof fn lemma_dep_indices_range(cells: Seq<Cell>, c: Cell, k: nat)
    ensures
        forall|i: int| 0 <= i < dep_indices(cells, c, k).len() ==> 0 <= #[trigger] dep_indices(cells, c, k)[i] < cells.len(),
    decreases k,
{
    if k > 0 && k <= c.params.len() {
        lemma_dep_indices_range(cells, c, (k - 1) as nat);
        crate::notebook::lemma_cell_index(cells, c.params@[k - 1].name@);
        let prev = dep_indices(cells, c, (k - 1) as nat);
        let cur = dep_indices(cells, c, k);
        assert forall|i: int| 0 <= i < cur.len() implies 0 <= #[trigger] cur[i] < cells.len() by {
            if i < prev.len() {
                assert(cur[i] == prev[i]);
            }
        }
    }
}

proof fn lemma_dep_range(cells: Seq<Cell>, v: int, x: int)
    requires
        0 <= v < cells.len(),
        0 <= x < deps_of(cells, v).len(),
    ensures
        0 <= deps_of(cells, v)[x] < cells.len(),
{
    lemma_dep_indices_range(cells, cells[v], cells[v].params.len() as nat);
}

/// When the dependencies are acyclic, the topological order holds every
/// cell exactly once (and so no cycle is reported).
pub proof fn law_acyclic_notebook_orders_every_cell(cells: Seq<Cell>, rank: spec_fn(int) -> nat)
    requires
        ranked(cells, rank),
    ensures
        topo_order(cells).len() == cells.len(),
        forall|v: int| 0 <= v < cells.len() ==> topo_order(cells).contains(v),
{
    let ls = kahn_levels(cells);
    law_levels_end_when_nothing_is_ready(cells);
    lemma_levels_prefix(cells, ls.len());
    assert(ls.take(ls.len() as int) =~= ls);
    let d = done_after(cells, ls.len());
    assert(level(cells, ls.len()) == frontier(cells, d));
    assert forall|v: int| 0 <= v < cells.len() implies topo_order(cells).contains(v) by {
        lemma_ranked_done(cells, d, rank, rank(v) + 1);
    }
    law_order_is_topological(cells);
    lemma_bounded_unique(topo_order(cells), cells.len() as int);
}

/// Cell `a` depends on cell `b`.
pub open spec fn depends_on(cells: Seq<Cell>, a: int, b: int) -> bool {
    deps_of(cells, a).contains(b)
}

/// Each cell of `w` after the first is a dependency of the one before it.
pub open spec fn dep_chain(cells: Seq<Cell>, w: Seq<int>) -> bool {
    forall|k: int| 0 <= k < w.len() - 1 ==> #[trigger] depends_on(cells, w[k], w[k + 1])
}

/// A dependency of `v` outside `d`, where one exists.
spec fn blocker(cells: Seq<Cell>, d: Set<int>, v: int) -> int {
    deps_of(cells, v)[choose|x: int| 0 <= x < deps_of(cells, v).len() && !d.contains(deps_of(cells, v)[x])]
}

/// From `u`, `n` steps each to a dependency outside `d`.
spec fn blocked_walk(cells: Seq<Cell>, d: Set<int>, u: int, n: nat) -> Seq<int>
    decreases n,
{
    if n == 0 {
        seq![u]
    } else {
        let w = blocked_walk(cells, d, u, (n - 1) as nat);
        w.push(blocker(cells, d, w.last()))
    }
}

proof fn lemma_blocked_walk(cells: Seq<Cell>, d: Set<int>, u: int, n: nat)
    requires
        frontier(cells, d).len() == 0,
        0 <= u < cells.len(),
        !d.contains(u),
    ensures
        blocked_walk(cells, d, u, n).len() == n + 1,
        blocked_walk(cells, d, u, n)[0] == u,
        dep_chain(cells, blocked_walk(cells, d, u, n)),
        forall|k: int| 0 <= k < blocked_walk(cells, d, u, n).len() ==> 0 <= #[trigger] blocked_walk(cells, d, u, n)[k] < cells.len() && !d.contains(blocked_walk(cells, d, u, n)[k]),
    decreases n,
{
    if n > 0 {
        lemma_blocked_walk(cells, d, u, (n - 1) as nat);
        let w = blocked_walk(cells, d, u, (n - 1) as nat);
        let v = w.last();
        assert(0 <= v < cells.len() && !d.contains(v)) by {
            assert(v == w[w.len() - 1]);
        }
        lemma_frontier_range(cells, d, cells.len() as nat);
        assert(!frontier(cells, d).contains(v));
        assert(!ready(cells, d, v));
        let x = choose|x: int| 0 <= x < deps_of(cells, v).len() && !d.contains(deps_of(cells, v)[x]);
        let b = blocker(cells, d, v);
        lemma_dep_range(cells, v, x);
        assert(deps_of(cells, v)[x] == b);
        assert(deps_of(cells, v).contains(b));
        let w2 = blocked_walk(cells, d, u, n);
        assert(w2 == w.push(b));
        assert forall|k: int| 0 <= k < w2.len() - 1 implies #[trigger] depends_on(cells, w2[k], w2[k + 1]) by {
            if k < w.len() - 1 {
                assert(depends_on(cells, w[k], w[k + 1]));
            }
        }
        assert forall|k: int| 0 <= k < w2.len() implies 0 <= #[trigger] w2[k] < cells.len() && !d.contains(w2[k]) by {
            if k < w.len() {
                assert(w2[k] == w[k]);
            }
        }
    }
}

/// A cell that the topological order leaves out is held back by a cycle:
/// following its dependencies from it, through cells that are all left out
/// too, some cell comes round again.
pub proof fn law_left_out_cell_meets_a_cycle(cells: Seq<Cell>, u: int)
    requires
        0 <= u < cells.len(),
        !topo_order(cells).contains(u),
    ensures
        exists|w: Seq<int>, i: int, j: int|
            #![trigger w[i], w[j]]
            w.len() > 0 && w[0] == u && 0 <= i < j < w.len() && w[i] == w[j] && dep_chain(cells, w)
                && (forall|k: int| 0 <= k < w.len() ==> !topo_order(cells).contains(#[trigger] w[k])),
{
    let ls = kahn_levels(cells);
    law_levels_end_when_nothing_is_ready(cells);
    lemma_levels_prefix(cells, ls.len());
    assert(ls.take(ls.len() as int) =~= ls);
    let d = done_after(cells, ls.len());
    assert(level(cells, ls.len()) == frontier(cells, d));
    assert(!d.contains(u));
    let n = cells.len() as nat;
    lemma_blocked_walk(cells, d, u, n);
    let w = blocked_walk(cells, d, u, n);
    assert forall|k: int| 0 <= k < w.len() implies !topo_order(cells).contains(#[trigger] w[k]) by {
        assert(!d.contains(w[k]));
    }
    if w.no_duplicates() {
        lemma_bounded_unique(w, n as int);
        assert(false);
    }
    let (a, b) = choose|a: int, b: int| 0 <= a < w.len() && 0 <= b < w.len() && a != b && w[a] == w[b];
    let (i, j) = if a < b { (a, b) } else { (b, a) };
    assert(w[i] == w[j]);
}

proof fn lemma_param_edges_deps(cells: Seq<Cell>, c: Cell, k: nat)
    ensures
        param_edges(cells, c, k).len() == dep_indices(cells, c, k).len(),
        forall|t: int| 0 <= t < param_edges(cells, c, k).len() ==> (#[trigger] param_edges(cells, c, k)[t]).0 == cells[dep_indices(cells, c, k)[t]].name@ && param_edges(cells, c, k)[t].1 == c.name@,
    decreases k,
{
    if k > 0 && k <= c.params.len() {
        lemma_param_edges_deps(cells, c, (k - 1) as nat);
        let pe = param_edges(cells, c, (k - 1) as nat);
        let pd = dep_indices(cells, c, (k - 1) as nat);
        let ce = param_edges(cells, c, k);
        let cd = dep_indices(cells, c, k);
        assert forall|t: int| 0 <= t < ce.len() implies (#[trigger] ce[t]).0 == cells[cd[t]].name@ && ce[t].1 == c.name@ by {
            if t < pe.len() {
                assert(ce[t] == pe[t] && cd[t] == pd[t]);
            }
        }
    }
}

/// Edge `e` runs from a dependency of some cell below `j` to that cell.
pub open spec fn edge_of_dep(cells: Seq<Cell>, e: EdgeView, j: int) -> bool {
    exists|v: int, x: int| #![trigger deps_of(cells, v)[x]] 0 <= v < j && 0 <= x < deps_of(cells, v).len() && e.1 == cells[v].name@ && e.0 == cells[deps_of(cells, v)[x]].name@
}

proof fn lemma_edges_upto_deps(cells: Seq<Cell>, j: nat)
    requires
        j <= cells.len(),
    ensures
        forall|t: int| 0 <= t < edges_upto(cells, j).len() ==> edge_of_dep(cells, #[trigger] edges_upto(cells, j)[t], j as int),
    decreases j,
{
    if j > 0 {
        lemma_edges_upto_deps(cells, (j - 1) as nat);
        let c = cells[j - 1];
        lemma_param_edges_deps(cells, c, c.params.len() as nat);
        let prev = edges_upto(cells, (j - 1) as nat);
        let cur = edges_upto(cells, j);
        let pe = param_edges(cells, c, c.params.len() as nat);
        assert forall|t: int| 0 <= t < cur.len() implies edge_of_dep(cells, #[trigger] cur[t], j as int) by {
            if t < prev.len() {
                assert(cur[t] == prev[t]);
                assert(edge_of_dep(cells, prev[t], j - 1));
                let e = prev[t];
                let (v, x) = choose|v: int, x: int| #![trigger deps_of(cells, v)[x]] 0 <= v < j - 1 && 0 <= x < deps_of(cells, v).len() && e.1 == cells[v].name@ && e.0 == cells[deps_of(cells, v)[x]].name@;
                assert(0 <= v < j && 0 <= x < deps_of(cells, v).len() && e.1 == cells[v].name@ && e.0 == cells[deps_of(cells, v)[x]].name@);
            } else {
                let u = t - prev.len();
                assert(cur[t] == pe[u]);
                assert(deps_of(cells, j - 1) == dep_indices(cells, c, c.params.len() as nat));
                assert(0 <= j - 1 < j && 0 <= u < deps_of(cells, j - 1).len() && cur[t].1 == cells[j - 1].name@ && cur[t].0 == cells[deps_of(cells, j - 1)[u]].name@);
            }
        }
    }
}

/// For every edge `A -> B`, wherever `B` stands in the order, `A` stands
/// earlier.
pub proof fn law_edges_respected_by_order(cells: Seq<Cell>)
    requires
        unique_names(cells),
    ensures
        forall|t: int, i: int| 0 <= t < graph_edges(cells).len() && 0 <= i < names_of(cells, topo_order(cells)).len() && #[trigger] names_of(cells, topo_order(cells))[i] == #[trigger] graph_edges(cells)[t].1 ==> exists|j: int| 0 <= j < i && names_of(cells, topo_order(cells))[j] == graph_edges(cells)[t].0,
{
    let es = graph_edges(cells);
    let f = topo_order(cells);
    let nm = names_of(cells, f);
    lemma_edges_upto_deps(cells, cells.len() as nat);
    law_order_is_topological(cells);
    assert forall|t: int, i: int| 0 <= t < es.len() && 0 <= i < nm.len() && #[trigger] nm[i] == #[trigger] es[t].1 implies exists|j: int| 0 <= j < i && nm[j] == es[t].0 by {
        assert(edge_of_dep(cells, es[t], cells.len() as int));
        let e = es[t];
        let (v, x) = choose|v: int, x: int| #![trigger deps_of(cells, v)[x]] 0 <= v < cells.len() && 0 <= x < deps_of(cells, v).len() && e.1 == cells[v].name@ && e.0 == cells[deps_of(cells, v)[x]].name@;
        assert(0 <= f[i] < cells.len());
        assert(cells[f[i]].name@ == cells[v].name@);
        assert(f[i] == v);
        assert(deps_placed_before(cells, f, i));
        assert(dep_placed_before(cells, f, i, x));
        let j = choose|j: int| 0 <= j < i && #[trigger] f[j] == deps_of(cells, f[i])[x];
        assert(nm[j] == es[t].0);
    }
}


/// Every name in the topological order is the name of a cell.
pub proof fn law_order_names_cells(cells: Seq<Cell>)
    ensures
        forall|k: int| 0 <= k < names_of(cells, topo_order(cells)).len() ==> cell_index(cells, #[trigger] names_of(cells, topo_order(cells))[k]) is Some,
{
    law_order_is_topological(cells);
    let t = topo_order(cells);
    assert forall|k: int| 0 <= k < names_of(cells, t).len() implies cell_index(cells, #[trigger] names_of(cells, t)[k]) is Some by {
        let i = t[k];
        assert(0 <= i < cells.len());
        lemma_cell_index(cells, cells[i].name@);
    }
}


proof fn lemma_param_edges_shape(cells: Seq<Cell>, c: Cell, k: nat)
    requires
        k <= c.params@.len(),
    ensures
        forall|t: int| 0 <= t < param_edges(cells, c, k).len() ==> {
            let e = #[trigger] param_edges(cells, c, k)[t];
            &&& e.0 == e.2
            &&& e.1 == c.name@
            &&& cell_index(cells, e.0) is Some
            &&& exists|q: int| 0 <= q < k && q < c.params@.len() && #[trigger] c.params@[q].name@ == e.2
        },
        forall|q: int| 0 <= q < k && q < c.params@.len() && cell_index(cells, #[trigger] c.params@[q].name@) is Some
            ==> param_edges(cells, c, k).contains((c.params@[q].name@, c.name@, c.params@[q].name@)),
    decreases k,
{
    if k > 0 && k <= c.params.len() {
        lemma_param_edges_shape(cells, c, (k - 1) as nat);
        let prev = param_edges(cells, c, (k - 1) as nat);
        let cur = param_edges(cells, c, k);
        let p = c.params@[k - 1];
        lemma_cell_index(cells, p.name@);
        assert forall|t: int| 0 <= t < cur.len() implies ({
            let e = #[trigger] cur[t];
            &&& e.0 == e.2
            &&& e.1 == c.name@
            &&& cell_index(cells, e.0) is Some
            &&& exists|q: int| 0 <= q < k && q < c.params@.len() && #[trigger] c.params@[q].name@ == e.2
        }) by {
            if t < prev.len() {
                assert(cur[t] == prev[t]);
                let e = prev[t];
                let q = choose|q: int| 0 <= q < k - 1 && q < c.params@.len() && #[trigger] c.params@[q].name@ == e.2;
                assert(0 <= q < k && q < c.params@.len() && c.params@[q].name@ == e.2);
            } else {
                let d = cell_index(cells, p.name@)->0;
                assert(cur[t] == (cells[d].name@, c.name@, p.name@));
                assert(c.params@[k - 1].name@ == cur[t].2);
            }
        }
        assert forall|q: int| 0 <= q < k && q < c.params@.len() && cell_index(cells, #[trigger] c.params@[q].name@) is Some
            implies cur.contains((c.params@[q].name@, c.name@, c.params@[q].name@)) by {
            if q < k - 1 {
                let t = choose|t: int| 0 <= t < prev.len() && prev[t] == (c.params@[q].name@, c.name@, c.params@[q].name@);
                assert(cur[t] == prev[t]);
            } else {
                let d = cell_index(cells, p.name@)->0;
                assert(cur[prev.len() as int] == (cells[d].name@, c.name@, p.name@));
            }
        }
    }
}

proof fn lemma_edges_upto_shape(cells: Seq<Cell>, j: nat)
    requires
        j <= cells.len(),
    ensures
        forall|t: int| 0 <= t < edges_upto(cells, j).len() ==> {
            let e = #[trigger] edges_upto(cells, j)[t];
            &&& e.0 == e.2
            &&& cell_index(cells, e.0) is Some
            &&& exists|v: int, q: int| 0 <= v < j && 0 <= q < cells[v].params@.len() && cells[v].name@ == e.1 && #[trigger] cells[v].params@[q].name@ == e.2
        },
        forall|v: int, q: int| 0 <= v < j && 0 <= q < cells[v].params@.len() && cell_index(cells, #[trigger] cells[v].params@[q].name@) is Some
            ==> edges_upto(cells, j).contains((cells[v].params@[q].name@, cells[v].name@, cells[v].params@[q].name@)),
    decreases j,
{
    if j > 0 {
        lemma_edges_upto_shape(cells, (j - 1) as nat);
        let c = cells[j - 1];
        let n = c.params.len() as nat;
        lemma_param_edges_shape(cells, c, n);
        let prev = edges_upto(cells, (j - 1) as nat);
        let pe = param_edges(cells, c, n);
        let cur = edges_upto(cells, j);
        assert(cur == prev + pe);
        assert forall|t: int| 0 <= t < cur.len() implies ({
            let e = #[trigger] cur[t];
            &&& e.0 == e.2
            &&& cell_index(cells, e.0) is Some
            &&& exists|v: int, q: int| 0 <= v < j && 0 <= q < cells[v].params@.len() && cells[v].name@ == e.1 && #[trigger] cells[v].params@[q].name@ == e.2
        }) by {
            if t < prev.len() {
                assert(cur[t] == prev[t]);
                let e = prev[t];
                let (v, q) = choose|v: int, q: int| 0 <= v < j - 1 && 0 <= q < cells[v].params@.len() && cells[v].name@ == e.1 && #[trigger] cells[v].params@[q].name@ == e.2;
                assert(0 <= v < j && 0 <= q < cells[v].params@.len() && cells[v].name@ == e.1 && cells[v].params@[q].name@ == e.2);
            } else {
                let u = t - prev.len();
                assert(cur[t] == pe[u]);
                let e = pe[u];
                let q = choose|q: int| 0 <= q < n && q < c.params@.len() && #[trigger] c.params@[q].name@ == e.2;
                assert(0 <= j - 1 < j && 0 <= q < cells[j - 1].params@.len() && cells[j - 1].name@ == e.1 && cells[j - 1].params@[q].name@ == e.2);
            }
        }
        assert forall|v: int, q: int| 0 <= v < j && 0 <= q < cells[v].params@.len() && cell_index(cells, #[trigger] cells[v].params@[q].name@) is Some
            implies cur.contains((cells[v].params@[q].name@, cells[v].name@, cells[v].params@[q].name@)) by {
            let e = (cells[v].params@[q].name@, cells[v].name@, cells[v].params@[q].name@);
            if v < j - 1 {
                let t = choose|t: int| 0 <= t < prev.len() && prev[t] == e;
                assert(cur[t] == prev[t]);
            } else {
                assert(c.params@[q] == cells[v].params@[q]);
                let t = choose|t: int| 0 <= t < pe.len() && pe[t] == e;
                assert(cur[prev.len() + t] == pe[t]);
            }
        }
    }
}

/// Dependencies are inferred from parameter names: every edge `A -> B`
/// (through parameter `p`) has `A == p` naming a cell and `p` a parameter
/// of cell `B`; and every parameter of a cell that names a cell gives such
/// an edge. Plain functions, which are not cells, never appear in an edge.
pub proof fn law_edges_are_named_parameters(cells: Seq<Cell>)
    ensures
        forall|t: int| 0 <= t < graph_edges(cells).len() ==> {
            let e = #[trigger] graph_edges(cells)[t];
            &&& e.0 == e.2
            &&& cell_index(cells, e.0) is Some
            &&& exists|v: int, q: int| 0 <= v < cells.len() && 0 <= q < cells[v].params@.len() && cells[v].name@ == e.1 && #[trigger] cells[v].params@[q].name@ == e.2
        },
        forall|v: int, q: int| 0 <= v < cells.len() && 0 <= q < cells[v].params@.len() && cell_index(cells, #[trigger] cells[v].params@[q].name@) is Some
            ==> graph_edges(cells).contains((cells[v].params@[q].name@, cells[v].name@, cells[v].params@[q].name@)),
{
    lemma_edges_upto_shape(cells, cells.len() as nat);
}


proof fn lemma_cell_diags_unbound(cells: Seq<Cell>, c: Cell, k: nat)
    requires
        k <= c.params@.len(),
    ensures
        forall|q: int| 0 <= q < k && cell_index(cells, #[trigger] c.params@[q].name@) is None
            ==> cell_diags(cells, c, k).contains((Severity::Error, msg_unbound(c.params@[q].name@), Some(c.name@))),
    decreases k,
{
    if k > 0 {
        lemma_cell_diags_unbound(cells, c, (k - 1) as nat);
        let prev = cell_diags(cells, c, (k - 1) as nat);
        let pd = param_diags(cells, c, c.params@[k - 1]);
        let cur = cell_diags(cells, c, k);
        assert(cur == prev + pd);
        assert forall|q: int| 0 <= q < k && cell_index(cells, #[trigger] c.params@[q].name@) is None
            implies cur.contains((Severity::Error, msg_unbound(c.params@[q].name@), Some(c.name@))) by {
            let d = (Severity::Error, msg_unbound(c.params@[q].name@), Some(c.name@));
            if q < k - 1 {
                let t = choose|t: int| 0 <= t < prev.len() && prev[t] == d;
                assert(cur[t] == prev[t]);
            } else {
                assert(pd[0] == d);
                assert(cur[prev.len() as int] == pd[0]);
            }
        }
    }
}

proof fn lemma_diags_upto_unbound(cells: Seq<Cell>, j: nat)
    requires
        j <= cells.len(),
    ensures
        forall|v: int, q: int| 0 <= v < j && 0 <= q < cells[v].params@.len() && cell_index(cells, #[trigger] cells[v].params@[q].name@) is None
            ==> diags_upto(cells, j).contains((Severity::Error, msg_unbound(cells[v].params@[q].name@), Some(cells[v].name@))),
    decreases j,
{
    if j > 0 {
        lemma_diags_upto_unbound(cells, (j - 1) as nat);
        let c = cells[j - 1];
        lemma_cell_diags_unbound(cells, c, c.params.len() as nat);
        let prev = diags_upto(cells, (j - 1) as nat);
        let cd = cell_diags(cells, c, c.params.len() as nat);
        let cur = diags_upto(cells, j);
        assert(cur == prev + cd);
        assert forall|v: int, q: int| 0 <= v < j && 0 <= q < cells[v].params@.len() && cell_index(cells, #[trigger] cells[v].params@[q].name@) is None
            implies cur.contains((Severity::Error, msg_unbound(cells[v].params@[q].name@), Some(cells[v].name@))) by {
            let d = (Severity::Error, msg_unbound(cells[v].params@[q].name@), Some(cells[v].name@));
            if v < j - 1 {
                let t = choose|t: int| 0 <= t < prev.len() && prev[t] == d;
                assert(cur[t] == prev[t]);
            } else {
                assert(c.params@[q] == cells[v].params@[q]);
                let t = choose|t: int| 0 <= t < cd.len() && cd[t] == d;
                assert(cur[prev.len() + t] == cd[t]);
            }
        }
    }
}

proof fn lemma_cell_diags_include(cells: Seq<Cell>, c: Cell, k: nat)
    requires
        k <= c.params@.len(),
    ensures
        forall|q: int, d: DiagView| 0 <= q < k && #[trigger] param_diags(cells, c, c.params@[q]).contains(d)
            ==> cell_diags(cells, c, k).contains(d),
    decreases k,
{
    if k > 0 {
        lemma_cell_diags_include(cells, c, (k - 1) as nat);
        let prev = cell_diags(cells, c, (k - 1) as nat);
        let pd = param_diags(cells, c, c.params@[k - 1]);
        let cur = cell_diags(cells, c, k);
        assert(cur == prev + pd);
        assert forall|q: int, d: DiagView| 0 <= q < k && #[trigger] param_diags(cells, c, c.params@[q]).contains(d)
            implies cur.contains(d) by {
            if q < k - 1 {
                let t = choose|t: int| 0 <= t < prev.len() && prev[t] == d;
                assert(cur[t] == prev[t]);
            } else {
                let t = choose|t: int| 0 <= t < pd.len() && pd[t] == d;
                assert(cur[prev.len() + t] == pd[t]);
            }
        }
    }
}

proof fn lemma_diags_upto_include(cells: Seq<Cell>, j: nat)
    requires
        j <= cells.len(),
    ensures
        forall|v: int, d: DiagView| 0 <= v < j && #[trigger] cell_diags(cells, cells[v], cells[v].params.len() as nat).contains(d)
            ==> diags_upto(cells, j).contains(d),
    decreases j,
{
    if j > 0 {
        lemma_diags_upto_include(cells, (j - 1) as nat);
        let c = cells[j - 1];
        let prev = diags_upto(cells, (j - 1) as nat);
        let cd = cell_diags(cells, c, c.params.len() as nat);
        let cur = diags_upto(cells, j);
        assert(cur == prev + cd);
        assert forall|v: int, d: DiagView| 0 <= v < j && #[trigger] cell_diags(cells, cells[v], cells[v].params.len() as nat).contains(d)
            implies cur.contains(d) by {
            if v < j - 1 {
                let t = choose|t: int| 0 <= t < prev.len() && prev[t] == d;
                assert(cur[t] == prev[t]);
            } else {
                let t = choose|t: int| 0 <= t < cd.len() && cd[t] == d;
                assert(cur[prev.len() + t] == cd[t]);
            }
        }
    }
}

/// A parameter that names a cell whose return type differs (whitespace
/// ignored) from the parameter's type (behind its `&`, if any) gets an
/// error diagnostic that names both types, attached to the cell that takes
/// it, whether the parameter is taken by reference or by value; such a
/// notebook has an error.
pub proof fn law_type_mismatch_is_reported(cells: Seq<Cell>, v: int, q: int)
    requires
        0 <= v < cells.len(),
        0 <= q < cells[v].params@.len(),
        cell_index(cells, cells[v].params@[q].name@) is Some,
        remove_ws(cells[cell_index(cells, cells[v].params@[q].name@)->0].return_type@) != remove_ws(cells[v].params@[q].inner_ty@),
    ensures
        ({
            let p = cells[v].params@[q];
            let dep = cells[cell_index(cells, p.name@)->0];
            graph_diagnostics(cells).contains((Severity::Error, msg_type(p.name@, p.ty@, dep.name@, dep.return_type@), Some(cells[v].name@)))
        }),
        has_error(graph_diagnostics(cells)),
{
    let c = cells[v];
    let p = c.params@[q];
    let dep = cells[cell_index(cells, p.name@)->0];
    let d = (Severity::Error, msg_type(p.name@, p.ty@, dep.name@, dep.return_type@), Some(c.name@));
    let pd = param_diags(cells, c, p);
    assert(pd[0] == d);
    assert(pd.contains(d));
    lemma_cell_diags_include(cells, c, c.params.len() as nat);
    assert(cell_diags(cells, c, c.params.len() as nat).contains(d));
    lemma_diags_upto_include(cells, cells.len() as nat);
    let ds = param_diagnostics(cells);
    assert(ds.contains(d));
    let g = graph_diagnostics(cells);
    let t = choose|t: int| 0 <= t < ds.len() && ds[t] == d;
    if g.len() > ds.len() {
        assert(g[t] == ds[t]);
    }
    assert(g[t] == d);
}

/// A parameter that names a cell and is taken by value (its type not `()`)
/// gets a warning that suggests taking it by reference.
pub proof fn law_by_value_dependency_is_warned(cells: Seq<Cell>, v: int, q: int)
    requires
        0 <= v < cells.len(),
        0 <= q < cells[v].params@.len(),
        cell_index(cells, cells[v].params@[q].name@) is Some,
        !cells[v].params@[q].is_ref,
        cells[v].params@[q].inner_ty@ != "()"@,
    ensures
        ({
            let p = cells[v].params@[q];
            graph_diagnostics(cells).contains((Severity::Warning, msg_prefer_ref(cells[v].name@, p.inner_ty@, p.name@), None::<Seq<char>>))
        }),
{
    let c = cells[v];
    let p = c.params@[q];
    let d = (Severity::Warning, msg_prefer_ref(c.name@, p.inner_ty@, p.name@), None::<Seq<char>>);
    let pd = param_diags(cells, c, p);
    assert(pd[pd.len() - 1] == d);
    assert(pd.contains(d));
    lemma_cell_diags_include(cells, c, c.params.len() as nat);
    assert(cell_diags(cells, c, c.params.len() as nat).contains(d));
    lemma_diags_upto_include(cells, cells.len() as nat);
    let ds = param_diagnostics(cells);
    assert(ds.contains(d));
    let g = graph_diagnostics(cells);
    let t = choose|t: int| 0 <= t < ds.len() && ds[t] == d;
    if g.len() > ds.len() {
        assert(g[t] == ds[t]);
    }
    assert(g[t] == d);
}

/// A notebook whose order leaves a cell out always has an error: the
/// parameter errors, or else one naming the cells left out.
pub proof fn law_unordered_notebook_has_an_error(cells: Seq<Cell>)
    requires
        topo_order(cells).len() != cells.len(),
    ensures
        has_error(graph_diagnostics(cells)),
{
    let ds = param_diagnostics(cells);
    let g = graph_diagnostics(cells);
    if has_error(ds) {
        let t = choose|t: int| 0 <= t < ds.len() && ds[t].0 == Severity::Error;
        assert(g[t] == ds[t]);
    } else {
        assert(g[ds.len() as int].0 == Severity::Error);
    }
}

/// A cell with a parameter that names no cell (a mis-tagged cell, or a
/// helper's name) gets an error diagnostic that says so, attached to it.
pub proof fn law_unbound_parameter_is_reported(cells: Seq<Cell>)
    ensures
        forall|v: int, q: int| 0 <= v < cells.len() && 0 <= q < cells[v].params@.len() && cell_index(cells, #[trigger] cells[v].params@[q].name@) is None
            ==> graph_diagnostics(cells).contains((Severity::Error, msg_unbound(cells[v].params@[q].name@), Some(cells[v].name@))),
        forall|v: int, q: int| 0 <= v < cells.len() && 0 <= q < cells[v].params@.len() && cell_index(cells, #[trigger] cells[v].params@[q].name@) is None
            ==> has_error(graph_diagnostics(cells)),
{
    lemma_diags_upto_unbound(cells, cells.len() as nat);
    let ds = param_diagnostics(cells);
    let g = graph_diagnostics(cells);
    assert forall|v: int, q: int| 0 <= v < cells.len() && 0 <= q < cells[v].params@.len() && cell_index(cells, #[trigger] cells[v].params@[q].name@) is None
        implies g.contains((Severity::Error, msg_unbound(cells[v].params@[q].name@), Some(cells[v].name@))) && has_error(g) by {
        let d = (Severity::Error, msg_unbound(cells[v].params@[q].name@), Some(cells[v].name@));
        let t = choose|t: int| 0 <= t < ds.len() && ds[t] == d;
        if g.len() > ds.len() {
            assert(g[t] == ds[t]);
        }
        assert(g[t] == d);
    }
}


/// For each of the first `k` parameters of `v` named `c`, the name of `v`.
pub open spec fn param_takers(v: Cell, c: Seq<char>, k: nat) -> Seq<Seq<char>>
    decreases k,
{
    if k == 0 || k > v.params@.len() {
        seq![]
    } else if v.params@[k - 1].name@ == c {
        param_takers(v, c, (k - 1) as nat).push(v.name@)
    } else {
        param_takers(v, c, (k - 1) as nat)
    }
}

/// The cells among the first `j` that take `c` as a parameter, in order
/// (once per such parameter).
pub open spec fn takers_upto(cells: Seq<Cell>, c: Seq<char>, j: nat) -> Seq<Seq<char>>
    decreases j,
{
    if j == 0 || j > cells.len() {
        seq![]
    } else {
        takers_upto(cells, c, (j - 1) as nat) + param_takers(cells[j - 1], c, cells[j - 1].params@.len() as nat)
    }
}

proof fn lemma_dependents_concat(a: Seq<EdgeView>, b: Seq<EdgeView>, c: Seq<char>)
    ensures
        dependents_of(a + b, c) == dependents_of(a, c) + dependents_of(b, c),
    decreases b.len(),
{
    if b.len() == 0 {
        assert(a + b =~= a);
        assert(dependents_of(a, c) + dependents_of(b, c) =~= dependents_of(a, c));
    } else {
        assert((a + b).drop_last() =~= a + b.drop_last());
        assert((a + b).last() == b.last());
        lemma_dependents_concat(a, b.drop_last(), c);
        if b.last().0 == c {
            assert(dependents_of(a, c) + dependents_of(b.drop_last(), c).push(b.last().1)
                =~= (dependents_of(a, c) + dependents_of(b.drop_last(), c)).push(b.last().1));
        }
    }
}

proof fn lemma_param_dependents(cells: Seq<Cell>, v: Cell, c: Seq<char>, k: nat)
    requires
        cell_index(cells, c) is Some,
        k <= v.params@.len(),
    ensures
        dependents_of(param_edges(cells, v, k), c) == param_takers(v, c, k),
    decreases k,
{
    if k > 0 {
        lemma_param_dependents(cells, v, c, (k - 1) as nat);
        let p = v.params@[k - 1];
        let prev = param_edges(cells, v, (k - 1) as nat);
        lemma_cell_index(cells, p.name@);
        lemma_cell_index(cells, c);
        match cell_index(cells, p.name@) {
            Some(d) => {
                let tail = seq![(cells[d].name@, v.name@, p.name@)];
                lemma_dependents_concat(prev, tail, c);
                assert(tail.drop_last() =~= Seq::<EdgeView>::empty());
                assert(cells[d].name@ == p.name@);
                assert(tail.last() == (cells[d].name@, v.name@, p.name@));
                assert(dependents_of(tail.drop_last(), c) =~= Seq::<Seq<char>>::empty());
                assert(dependents_of(tail, c) =~= if p.name@ == c { seq![v.name@] } else { Seq::<Seq<char>>::empty() });
            },
            None => {
                assert(p.name@ != c);
                assert(prev + Seq::<EdgeView>::empty() =~= prev);
            },
        }
    }
}

proof fn lemma_upto_dependents(cells: Seq<Cell>, c: Seq<char>, j: nat)
    requires
        cell_index(cells, c) is Some,
        j <= cells.len(),
    ensures
        dependents_of(edges_upto(cells, j), c) == takers_upto(cells, c, j),
    decreases j,
{
    if j > 0 {
        lemma_upto_dependents(cells, c, (j - 1) as nat);
        let v = cells[j - 1];
        lemma_dependents_concat(edges_upto(cells, (j - 1) as nat), param_edges(cells, v, v.params@.len() as nat), c);
        lemma_param_dependents(cells, v, c, v.params@.len() as nat);
    }
}

proof fn lemma_no_edge_from(cells: Seq<Cell>, c: Seq<char>)
    requires
        cell_index(cells, c) is None,
    ensures
        dependents_of(graph_edges(cells), c).len() == 0,
{
    lemma_edges_upto_shape(cells, cells.len() as nat);
    lemma_no_dependents(graph_edges(cells), c);
}

proof fn lemma_no_dependents(es: Seq<EdgeView>, c: Seq<char>)
    requires
        forall|t: int| 0 <= t < es.len() ==> (#[trigger] es[t]).0 != c,
    ensures
        dependents_of(es, c).len() == 0,
    decreases es.len(),
{
    if es.len() > 0 {
        assert(es.last() == es[es.len() - 1]);
        lemma_no_dependents(es.drop_last(), c);
    }
}

/// The direct dependents of a cell, read off the graph's edges, are the
/// cells that take it as a parameter, in the order of the cells (once for
/// each such parameter); a name that is no cell has none.
pub proof fn law_dependents_take_the_cell(cells: Seq<Cell>, c: Seq<char>)
    ensures
        cell_index(cells, c) is Some ==> dependents_of(graph_edges(cells), c) == takers_upto(cells, c, cells.len() as nat),
        cell_index(cells, c) is None ==> dependents_of(graph_edges(cells), c).len() == 0,
{
    if cell_index(cells, c) is Some {
        lemma_upto_dependents(cells, c, cells.len() as nat);
    } else {
        lemma_no_edge_from(cells, c);
    }
}
} // verus!
