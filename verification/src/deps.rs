//! Queries over a built dependency graph: direct and transitive dependents.

use vstd::prelude::*;
use crate::graph::{edge_views, string_views, DependencyEdge, DependencyGraph, EdgeView};

verus! {

/// The `to` end of every edge leaving `c`, in edge order.
pub open spec fn dependents_of(es: Seq<EdgeView>, c: Seq<char>) -> Seq<Seq<char>>
    decreases es.len(),
{
    if es.len() == 0 {
        seq![]
    } else if es.last().0 == c {
        dependents_of(es.drop_last(), c).push(es.last().1)
    } else {
        dependents_of(es.drop_last(), c)
    }
}

/// Some edge goes from `a` to `b`.
pub open spec fn succ(es: Seq<EdgeView>, a: Seq<char>, b: Seq<char>) -> bool {
    exists|i: int| 0 <= i < es.len() && (#[trigger] es[i]).0 == a && es[i].1 == b
}

/// `p` is a walk of at least one edge.
pub open spec fn is_path(es: Seq<EdgeView>, p: Seq<Seq<char>>) -> bool {
    &&& p.len() >= 2
    &&& forall|i: int| 0 <= i < p.len() - 1 ==> succ(es, #[trigger] p[i], p[i + 1])
}

/// `b` can be reached from `a` along one or more edges.
pub open spec fn reachable(es: Seq<EdgeView>, a: Seq<char>, b: Seq<char>) -> bool {
    exists|p: Seq<Seq<char>>| is_path(es, p) && p[0] == a && p.last() == b
}

/// The first index of `x` in `order`.
pub open spec fn first_pos(order: Seq<Seq<char>>, x: Seq<char>) -> Option<nat>
    decreases order.len(),
{
    if order.len() == 0 {
        None
    } else {
        match first_pos(order.drop_last(), x) {
            Some(i) => Some(i),
            None => if order.last() == x {
                Some((order.len() - 1) as nat)
            } else {
                None
            },
        }
    }
}

/// Sort key: the position in `order`, or past the end when absent.
pub open spec fn order_key(order: Seq<Seq<char>>, x: Seq<char>) -> nat {
    match first_pos(order, x) {
        Some(i) => i,
        None => order.len(),
    }
}

/// Direct dependents of a cell (cells that take it as a parameter).
pub fn dependents(graph: &DependencyGraph, cell: &str) -> (r: Vec<String>)
    ensures
        string_views(r@) == dependents_of(edge_views(graph.edges@), cell@),
{
    let mut r: Vec<String> = Vec::new();
    let mut i: usize = 0;
    while i < graph.edges.len()
        invariant
            i <= graph.edges@.len(),
            string_views(r@) == dependents_of(edge_views(graph.edges@).take(i as int), cell@),
        decreases graph.edges@.len() - i,
    {
        let ghost r0 = r@;
        let ghost es = edge_views(graph.edges@);
        assert(es.take(i + 1).drop_last() =~= es.take(i as int));
        if crate::notebook::str_eq(graph.edges[i].from.as_str(), cell) {
            r.push(graph.edges[i].to.clone());
            assert(string_views(r@) =~= string_views(r0).push(es[i as int].1));
        }
        i += 1;
    }
    assert(edge_views(graph.edges@).take(i as int) =~= edge_views(graph.edges@));
    r
}

/// Number of `false` entries.
pub open spec fn count_false(s: Seq<bool>) -> nat
    decreases s.len(),
{
    if s.len() == 0 {
        0
    } else {
        count_false(s.drop_last()) + if s.last() { 0nat } else { 1nat }
    }
}

proof fn lemma_count_false_set(s: Seq<bool>, i: int)
    requires
        0 <= i < s.len(),
        !s[i],
    ensures
        count_false(s) >= 1,
        count_false(s.update(i, true)) == count_false(s) - 1,
    decreases s.len(),
{
    let t = s.update(i, true);
    if i == s.len() - 1 {
        assert(t.drop_last() =~= s.drop_last());
    } else {
        lemma_count_false_set(s.drop_last(), i);
        assert(t.drop_last() =~= s.drop_last().update(i, true));
    }
}

/// Whether `v` holds a string equal to `x`.
pub fn contains_string(v: &Vec<String>, x: &String) -> (b: bool)
    ensures
        b == string_views(v@).contains(x@),
{
    let mut i: usize = 0;
    while i < v.len()
        invariant
            i <= v@.len(),
            forall|k: int| 0 <= k < i ==> v@[k]@ != x@,
        decreases v@.len() - i,
    {
        if v[i] == *x {
            assert(string_views(v@)[i as int] == x@);
            return true;
        }
        i += 1;
    }
    assert forall|k: int| 0 <= k < string_views(v@).len() implies string_views(v@)[k] != x@ by {
        assert(v@[k]@ != x@);
    }
    false
}

/// The cells reachable from `cell` along one or more edges, no two equal.
fn reach(es: &Vec<DependencyEdge>, cell: &str) -> (seen: Vec<String>)
    ensures
        string_views(seen@).no_duplicates(),
        forall|y: Seq<char>| string_views(seen@).contains(y) <==> reachable(edge_views(es@), cell@, y),
{
    let ghost e = edge_views(es@);
    let m = es.len();
    let c = crate::text::string_of(&crate::text::chars_of(cell));
    let mut fired: Vec<bool> = Vec::new();
    while fired.len() < m
        invariant
            fired@.len() <= m,
            forall|i: int| 0 <= i < fired@.len() ==> !fired@[i],
            count_false(fired@) == fired@.len(),
        decreases m - fired@.len(),
    {
        let ghost f0 = fired@;
        fired.push(false);
        assert(fired@.drop_last() =~= f0);
    }
    let mut unfired: usize = m;
    let mut seen: Vec<String> = Vec::new();
    let mut queue: Vec<String> = Vec::new();
    queue.push(c);
    assert(string_views(queue@)[0] == cell@);
    loop
        invariant
            m == es@.len(),
            e == edge_views(es@),
            c@ == cell@,
            fired@.len() == m,
            unfired == count_false(fired@),
            string_views(seen@).no_duplicates(),
            forall|y: Seq<char>| #[trigger] string_views(seen@).contains(y) ==> reachable(e, cell@, y),
            forall|k: int| 0 <= k < queue@.len() ==> queue@[k]@ == cell@ || string_views(seen@).contains(#[trigger] queue@[k]@),
            forall|i: int| 0 <= i < m && #[trigger] fired@[i] ==> string_views(seen@).contains(e[i].1),
            forall|i: int| 0 <= i < m && !(#[trigger] fired@[i]) && (e[i].0 == cell@ || string_views(seen@).contains(e[i].0)) ==> string_views(queue@).contains(e[i].0),
        ensures
            queue@.len() == 0,
        decreases unfired, queue@.len(),
    {
        if queue.len() == 0 {
            break;
        }
        let ghost q0 = queue@;
        let a = queue.pop().unwrap();
        let ghost q1 = queue@;
        proof {
            assert(q0 =~= q1.push(a));
            assert forall|j: int| 0 <= j < m && !(#[trigger] fired@[j]) && (e[j].0 == cell@ || string_views(seen@).contains(e[j].0)) && e[j].0 != a@ implies string_views(queue@).contains(e[j].0) by {
                assert(string_views(q0).contains(e[j].0));
                let k = choose|k: int| 0 <= k < string_views(q0).len() && string_views(q0)[k] == e[j].0;
                assert(k < q1.len());
                assert(string_views(queue@)[k] == e[j].0);
            }
            assert(a@ == cell@ || string_views(seen@).contains(a@)) by {
                assert(q0[q0.len() - 1] == a);
            }
        }
        let ghost u0 = unfired;
        let mut i: usize = 0;
        while i < m
            invariant
                m == es@.len(),
                e == edge_views(es@),
                fired@.len() == m,
                unfired == count_false(fired@),
                unfired <= u0,
                unfired == u0 ==> queue@ == q1,
                queue@.len() >= q1.len(),
                forall|k: int| 0 <= k < q1.len() ==> queue@[k] == q1[k],
                a@ == cell@ || string_views(seen@).contains(a@),
                i <= m,
                string_views(seen@).no_duplicates(),
                forall|y: Seq<char>| #[trigger] string_views(seen@).contains(y) ==> reachable(e, cell@, y),
                forall|k: int| 0 <= k < queue@.len() ==> queue@[k]@ == cell@ || string_views(seen@).contains(#[trigger] queue@[k]@),
                forall|j: int| 0 <= j < m && #[trigger] fired@[j] ==> string_views(seen@).contains(e[j].1),
                forall|j: int| 0 <= j < i && e[j].0 == a@ ==> #[trigger] fired@[j],
                forall|j: int| 0 <= j < m && !(#[trigger] fired@[j]) && (e[j].0 == cell@ || string_views(seen@).contains(e[j].0)) && e[j].0 != a@ ==> string_views(queue@).contains(e[j].0),
                forall|j: int| 0 <= j < m && !(#[trigger] fired@[j]) && (e[j].0 == cell@ || string_views(seen@).contains(e[j].0)) && e[j].0 == a@ && j < i ==> string_views(queue@).contains(e[j].0),
            decreases m - i,
        {
            if !fired[i] && es[i].from == a {
                proof {
                    lemma_count_false_set(fired@, i as int);
                }
                fired.set(i, true);
                unfired -= 1;
                let to = &es[i].to;
                assert(e[i as int].1 == to@);
                if !contains_string(&seen, to) {
                    let ghost s0 = string_views(seen@);
                    let ghost qq = queue@;
                    proof {
                        // `to` is reachable: extend a path to `a`, or start one at `cell`.
                        assert(succ(e, a@, to@));
                        if a@ == cell@ {
                            let p = seq![cell@, to@];
                            assert(is_path(e, p));
                            assert(p[0] == cell@ && p.last() == to@);
                            assert(reachable(e, cell@, to@));
                        } else {
                            let p = choose|p: Seq<Seq<char>>| is_path(e, p) && p[0] == cell@ && p.last() == a@;
                            let p2 = p.push(to@);
                            assert forall|k: int| 0 <= k < p2.len() - 1 implies succ(e, #[trigger] p2[k], p2[k + 1]) by {
                                if k < p.len() - 1 {
                                    assert(p2[k] == p[k] && p2[k + 1] == p[k + 1]);
                                } else {
                                    assert(p2[k] == a@);
                                }
                            }
                            assert(is_path(e, p2) && p2[0] == cell@ && p2.last() == to@);
                            assert(reachable(e, cell@, to@));
                        }
                    }
                    seen.push(to.clone());
                    queue.push(to.clone());
                    proof {
                        assert(string_views(seen@) =~= s0.push(to@));
                        assert(string_views(queue@) =~= string_views(qq).push(to@));
                        assert forall|y: Seq<char>| #[trigger] string_views(seen@).contains(y) implies reachable(e, cell@, y) by {
                            if y != to@ {
                                let k = choose|k: int| 0 <= k < string_views(seen@).len() && string_views(seen@)[k] == y;
                                assert(s0[k] == y);
                                assert(s0.contains(y));
                            }
                        }
                        assert forall|z: Seq<char>| s0.contains(z) implies #[trigger] string_views(seen@).contains(z) by {
                            let k = choose|k: int| 0 <= k < s0.len() && s0[k] == z;
                            assert(string_views(seen@)[k] == z);
                        }
                        assert(string_views(seen@)[s0.len() as int] == to@);
                        assert forall|z: Seq<char>| string_views(qq).contains(z) implies #[trigger] string_views(queue@).contains(z) by {
                            let k = choose|k: int| 0 <= k < string_views(qq).len() && string_views(qq)[k] == z;
                            assert(string_views(queue@)[k] == z);
                        }
                        assert(string_views(queue@)[qq.len() as int] == to@);
                    }
                }
            }
            i += 1;
        }
        assert forall|j: int| 0 <= j < m && !(#[trigger] fired@[j]) && (e[j].0 == cell@ || string_views(seen@).contains(e[j].0)) implies string_views(queue@).contains(e[j].0) by {
            if e[j].0 == a@ {
            }
        }
    }
    proof {
        assert(string_views(queue@) =~= Seq::<Seq<char>>::empty());
        assert forall|y: Seq<char>| reachable(e, cell@, y) implies #[trigger] string_views(seen@).contains(y) by {
            let p = choose|p: Seq<Seq<char>>| is_path(e, p) && p[0] == cell@ && p.last() == y;
            lemma_path_in_closure(e, seen@, cell@, p, fired@);
            assert(p[p.len() - 1] == y);
        }
    }
    seen
}

proof fn lemma_path_in_closure(e: Seq<EdgeView>, seen: Seq<String>, c: Seq<char>, p: Seq<Seq<char>>, fired: Seq<bool>)
    requires
        fired.len() == e.len(),
        forall|i: int| 0 <= i < e.len() && #[trigger] fired[i] ==> string_views(seen).contains(e[i].1),
        forall|i: int| 0 <= i < e.len() && !(#[trigger] fired[i]) && (e[i].0 == c || string_views(seen).contains(e[i].0)) ==> false,
        is_path(e, p),
        p[0] == c,
    ensures
        forall|k: int| 1 <= k < p.len() ==> string_views(seen).contains(#[trigger] p[k]),
{
    assert forall|k: int| 1 <= k < p.len() implies string_views(seen).contains(#[trigger] p[k]) by {
        lemma_path_prefix_in_closure(e, seen, c, p, fired, k);
    }
}

proof fn lemma_path_prefix_in_closure(e: Seq<EdgeView>, seen: Seq<String>, c: Seq<char>, p: Seq<Seq<char>>, fired: Seq<bool>, k: int)
    requires
        fired.len() == e.len(),
        forall|i: int| 0 <= i < e.len() && #[trigger] fired[i] ==> string_views(seen).contains(e[i].1),
        forall|i: int| 0 <= i < e.len() && !(#[trigger] fired[i]) && (e[i].0 == c || string_views(seen).contains(e[i].0)) ==> false,
        is_path(e, p),
        p[0] == c,
        1 <= k < p.len(),
    ensures
        string_views(seen).contains(p[k]),
    decreases k,
{
    if k > 1 {
        lemma_path_prefix_in_closure(e, seen, c, p, fired, k - 1);
    }
    assert(succ(e, p[k - 1], p[k]));
    let i = choose|i: int| 0 <= i < e.len() && (#[trigger] e[i]).0 == p[k - 1] && e[i].1 == p[k];
    assert(fired[i]);
}

/// `y` first occurs in `ov` before index `pos`.
pub open spec fn placed_before(ov: Seq<Seq<char>>, y: Seq<char>, pos: int) -> bool {
    match first_pos(ov, y) {
        Some(k) => k < pos,
        None => false,
    }
}

pub proof fn lemma_first_pos(order: Seq<Seq<char>>, x: Seq<char>)
    ensures
        first_pos(order, x) matches Some(k) ==> k < order.len() && order[k as int] == x && forall|j: int| 0 <= j < k ==> order[j] != x,
        first_pos(order, x) is None <==> !order.contains(x),
        order_key(order, x) <= order.len(),
    decreases order.len(),
{
    if order.len() > 0 {
        let d = order.drop_last();
        lemma_first_pos(d, x);
        assert forall|j: int| 0 <= j < d.len() implies d[j] == order[j] by {}
        if first_pos(d, x) is None && order.last() != x {
            assert forall|j: int| 0 <= j < order.len() implies order[j] != x by {
                if j < d.len() {
                    assert(d[j] == order[j]);
                }
            }
        }
        if d.contains(x) {
            let j = choose|j: int| 0 <= j < d.len() && d[j] == x;
            assert(order[j] == x);
        }
        if order.last() == x {
            assert(order[order.len() - 1] == x);
        }
    }
}

/// All transitive dependents of `cell`, ordered by the graph's topological order.
///
/// The result holds every cell reachable from `cell` along one or more
/// edges, each once; those in the order come first, by their first position
/// there, and those missing from it come last.
pub fn transitive_dependents(graph: &DependencyGraph, cell: &str) -> (r: Vec<String>)
    ensures
        string_views(r@).no_duplicates(),
        forall|y: Seq<char>| #[trigger] string_views(r@).contains(y) <==> reachable(edge_views(graph.edges@), cell@, y),
        forall|i: int, j: int| 0 <= i < j < r@.len() ==> order_key(string_views(graph.order@), r@[i]@) <= order_key(string_views(graph.order@), r@[j]@),
{
    let seen = reach(&graph.edges, cell);
    let ghost sv = string_views(seen@);
    let ghost ov = string_views(graph.order@);
    let order = &graph.order;
    let mut res: Vec<String> = Vec::new();
    let mut pos: usize = 0;
    while pos < order.len()
        invariant
            pos <= order@.len(),
            sv == string_views(seen@),
            ov == string_views(order@),
            string_views(res@).no_duplicates(),
            forall|y: Seq<char>| #[trigger] string_views(res@).contains(y) <==> (sv.contains(y) && placed_before(ov, y, pos as int)),
            forall|i: int| 0 <= i < res@.len() ==> placed_before(ov, #[trigger] res@[i]@, pos as int),
            forall|i: int, j: int| 0 <= i < j < res@.len() ==> order_key(ov, res@[i]@) < order_key(ov, res@[j]@),
        decreases order@.len() - pos,
    {
        let x = &order[pos];
        proof {
            lemma_first_pos(ov, x@);
            assert(ov[pos as int] == x@);
        }
        if contains_string(&seen, x) && !contains_string(&res, x) {
            let ghost r0 = string_views(res@);
            let ghost rs0 = res@;
            proof {
                if placed_before(ov, x@, pos as int) {
                    assert(r0.contains(x@));
                }
                assert(first_pos(ov, x@) == Some(pos as nat));
            }
            res.push(x.clone());
            proof {
                assert(string_views(res@) =~= r0.push(x@));
                assert forall|y: Seq<char>| #[trigger] string_views(res@).contains(y) <==> (sv.contains(y) && placed_before(ov, y, pos + 1)) by {
                    lemma_first_pos(ov, y);
                    if string_views(res@).contains(y) && y != x@ {
                        let i = choose|i: int| 0 <= i < string_views(res@).len() && string_views(res@)[i] == y;
                        assert(r0[i] == y);
                        assert(r0.contains(y));
                    }
                    if sv.contains(y) && placed_before(ov, y, pos + 1) {
                        if placed_before(ov, y, pos as int) {
                            assert(r0.contains(y));
                            let i = choose|i: int| 0 <= i < r0.len() && r0[i] == y;
                            assert(string_views(res@)[i] == y);
                        } else {
                            assert(y == x@);
                            assert(string_views(res@)[r0.len() as int] == y);
                        }
                    }
                }
                assert forall|i: int| 0 <= i < res@.len() implies placed_before(ov, #[trigger] res@[i]@, pos + 1) by {
                    if i < rs0.len() {
                        assert(res@[i] == rs0[i]);
                    }
                }
                assert forall|i: int, j: int| 0 <= i < j < res@.len() implies order_key(ov, res@[i]@) < order_key(ov, res@[j]@) by {
                    if j < rs0.len() {
                        assert(res@[i] == rs0[i] && res@[j] == rs0[j]);
                    } else {
                        assert(res@[i] == rs0[i]);
                        assert(placed_before(ov, rs0[i]@, pos as int));
                    }
                }
            }
        } else {
            proof {
                assert forall|y: Seq<char>| #[trigger] string_views(res@).contains(y) <==> (sv.contains(y) && placed_before(ov, y, pos + 1)) by {
                    lemma_first_pos(ov, y);
                    if sv.contains(y) && first_pos(ov, y) == Some(pos as nat) {
                        assert(y == x@);
                    }
                }
            }
        }
        pos += 1;
    }
    proof {
        assert forall|y: Seq<char>| #[trigger] string_views(res@).contains(y) <==> (sv.contains(y) && (ov.contains(y) || exists|k: int| 0 <= k < 0 && sv[k] == y)) by {
            lemma_first_pos(ov, y);
        }
    }
    let mut t: usize = 0;
    while t < seen.len()
        invariant
            t <= seen@.len(),
            sv == string_views(seen@),
            sv.no_duplicates(),
            ov == string_views(order@),
            pos == order@.len(),
            string_views(res@).no_duplicates(),
            forall|y: Seq<char>| #[trigger] string_views(res@).contains(y) <==> (sv.contains(y) && (ov.contains(y) || exists|k: int| 0 <= k < t && sv[k] == y)),
            forall|i: int, j: int| 0 <= i < j < res@.len() ==> order_key(ov, res@[i]@) <= order_key(ov, res@[j]@),
        decreases seen@.len() - t,
    {
        let s = &seen[t];
        proof {
            lemma_first_pos(ov, s@);
        }
        let ghost r0 = string_views(res@);
        let ghost rs0 = res@;
        if !contains_string(order, s) {
            proof {
                assert(sv[t as int] == s@);
                if r0.contains(s@) {
                    assert(exists|k: int| 0 <= k < t && sv[k] == s@);
                    let k = choose|k: int| 0 <= k < t && sv[k] == s@;
                    assert(sv[k] == sv[t as int]);
                }
            }
            res.push(s.clone());
            proof {
                assert(string_views(res@) =~= r0.push(s@));
                assert forall|y: Seq<char>| #[trigger] string_views(res@).contains(y) <==> (sv.contains(y) && (ov.contains(y) || exists|k: int| 0 <= k < t + 1 && sv[k] == y)) by {
                    if string_views(res@).contains(y) && y != s@ {
                        let i = choose|i: int| 0 <= i < string_views(res@).len() && string_views(res@)[i] == y;
                        assert(r0[i] == y);
                        assert(r0.contains(y));
                        if !ov.contains(y) {
                            let k = choose|k: int| 0 <= k < t && sv[k] == y;
                            assert(0 <= k < t + 1 && sv[k] == y);
                        }
                    }
                    if y == s@ {
                        assert(string_views(res@)[r0.len() as int] == y);
                        assert(sv[t as int] == y);
                    }
                    if sv.contains(y) && (ov.contains(y) || exists|k: int| 0 <= k < t + 1 && sv[k] == y) && y != s@ {
                        if !ov.contains(y) {
                            let k = choose|k: int| 0 <= k < t + 1 && sv[k] == y;
                            assert(k != t);
                        }
                        assert(r0.contains(y));
                        let i = choose|i: int| 0 <= i < r0.len() && r0[i] == y;
                        assert(string_views(res@)[i] == y);
                    }
                }
                assert forall|i: int, j: int| 0 <= i < j < res@.len() implies order_key(ov, res@[i]@) <= order_key(ov, res@[j]@) by {
                    assert(res@[i] == rs0[i] || i == rs0.len());
                    lemma_first_pos(ov, res@[i]@);
                    if j < rs0.len() {
                        assert(res@[i] == rs0[i] && res@[j] == rs0[j]);
                    }
                }
            }
        } else {
            proof {
                assert forall|y: Seq<char>| #[trigger] string_views(res@).contains(y) <==> (sv.contains(y) && (ov.contains(y) || exists|k: int| 0 <= k < t + 1 && sv[k] == y)) by {
                    if sv.contains(y) && !ov.contains(y) && exists|k: int| 0 <= k < t + 1 && sv[k] == y {
                        let k = choose|k: int| 0 <= k < t + 1 && sv[k] == y;
                        if k == t {
                            assert(sv[t as int] == s@);
                        }
                        assert(exists|k: int| 0 <= k < t && sv[k] == y);
                    }
                }
            }
        }
        t += 1;
    }
    proof {
        assert forall|y: Seq<char>| #[trigger] string_views(res@).contains(y) <==> sv.contains(y) by {
            if sv.contains(y) && !ov.contains(y) {
                let k = choose|k: int| 0 <= k < sv.len() && sv[k] == y;
                assert(exists|k: int| 0 <= k < t && sv[k] == y);
            }
        }
    }
    res
}

} // verus!
