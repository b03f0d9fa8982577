//! What an edit of the notebook does to the session: which cells a helper
//! edit reaches, and the bookkeeping around edits.

use vstd::prelude::*;
use vstd::utf8::encode_utf8;
use crate::deps::{contains_string, reachable, transitive_dependents};
use crate::graph::{edge_views, string_views, EdgeView};
use crate::ident::{ident_in, ident_used_in};
use crate::notebook::{cell_index, find_cell, lemma_cell_index, Cell, Helper, MarkdownCell, OrderEntry, SharedDef};
use crate::session::{dirty_of, output_of, remove_output, set_dirty, AddKind, MoveDirection, Session};
use crate::source_util::{fresh_name, fresh_name_spec, stripped_source, strip_labrs_attrs, with_attr_source, with_labrs_attr};
use crate::text::{chars_of, contains, find, find_from_vec, matches_at, push_all, slice_chars, string_of, trim, trim_vec};
use crate::edit::{
    appended, err_message, inserted_after, prepended, replaced_block, replaced_fn, append_item,
    insert_after_item, prepend_item, replace_cell_source, replace_helper_source, replace_item_block,
    EditError,
};
use crate::json::{json_string, json_string_literal};

verus! {

/// Cell `c` names the identifier `h` in its source or its body.
pub open spec fn uses_ident(c: Cell, h: Seq<char>) -> bool {
    ident_in(encode_utf8(c.source@), encode_utf8(h)) || ident_in(encode_utf8(c.body@), encode_utf8(h))
}

/// Names of the cells that use `h`, in notebook order.
pub open spec fn users_of(cells: Seq<Cell>, h: Seq<char>) -> Seq<Seq<char>>
    decreases cells.len(),
{
    if cells.len() == 0 {
        seq![]
    } else if uses_ident(cells.last(), h) {
        users_of(cells.drop_last(), h).push(cells.last().name@)
    } else {
        users_of(cells.drop_last(), h)
    }
}

/// Names of all cells, in notebook order.
pub open spec fn cell_names(cells: Seq<Cell>) -> Seq<Seq<char>> {
    cells.map_values(|c: Cell| c.name@)
}

/// The cells an edit of helper `h` touches directly: those that use it, or
/// every cell when none does (the helper may still be reached indirectly).
pub open spec fn helper_roots(cells: Seq<Cell>, h: Seq<char>) -> Seq<Seq<char>> {
    if users_of(cells, h).len() == 0 {
        cell_names(cells)
    } else {
        users_of(cells, h)
    }
}

/// `y` is reachable from one of `rs`.
pub open spec fn reached_from_any(es: Seq<EdgeView>, rs: Seq<Seq<char>>, y: Seq<char>) -> bool
    decreases rs.len(),
{
    rs.len() > 0 && (reachable(es, rs.last(), y) || reached_from_any(es, rs.drop_last(), y))
}

/// `y` is one of `rs` or depends on one of them.
pub open spec fn affected_by(es: Seq<EdgeView>, rs: Seq<Seq<char>>, y: Seq<char>) -> bool {
    rs.contains(y) || reached_from_any(es, rs, y)
}

proof fn lemma_take_push_contains(s: Seq<Seq<char>>, k: int, y: Seq<char>)
    requires
        0 <= k < s.len(),
    ensures
        s.take(k + 1).contains(y) <==> (s.take(k).contains(y) || s[k] == y),
{
    assert(s.take(k + 1) =~= s.take(k).push(s[k]));
    if s.take(k).contains(y) {
        let j = choose|j: int| 0 <= j < s.take(k).len() && #[trigger] s.take(k)[j] == y;
        assert(s.take(k + 1)[j] == y);
    }
    if s[k] == y {
        assert(s.take(k + 1)[k] == y);
    }
    if s.take(k + 1).contains(y) && s[k] != y {
        let j = choose|j: int| 0 <= j < s.take(k + 1).len() && #[trigger] s.take(k + 1)[j] == y;
        assert(s.take(k)[j] == y);
    }
}

proof fn lemma_push_contains(s: Seq<Seq<char>>, x: Seq<char>, y: Seq<char>)
    ensures
        s.push(x).contains(y) <==> (s.contains(y) || x == y),
{
    lemma_append_contains(s, seq![x], y);
    assert(s.push(x) =~= s + seq![x]);
    if x == y {
        assert(seq![x][0] == y);
    }
}

proof fn lemma_append_contains(a: Seq<Seq<char>>, b: Seq<Seq<char>>, y: Seq<char>)
    ensures
        (a + b).contains(y) <==> (a.contains(y) || b.contains(y)),
{
    if a.contains(y) {
        let j = choose|j: int| 0 <= j < a.len() && #[trigger] a[j] == y;
        assert((a + b)[j] == y);
    }
    if b.contains(y) {
        let j = choose|j: int| 0 <= j < b.len() && #[trigger] b[j] == y;
        assert((a + b)[a.len() + j] == y);
    }
    if (a + b).contains(y) {
        let j = choose|j: int| 0 <= j < (a + b).len() && #[trigger] (a + b)[j] == y;
        if j < a.len() {
            assert(a[j] == y);
        } else {
            assert(b[j - a.len()] == y);
        }
    }
}

impl Session {
    /// Cells that reference `helper` by name, plus their transitive
    /// dependents, in topological order. When no cell names the helper,
    /// every cell counts as referencing it.
    pub fn cells_affected_by_helper(&self, helper: &str) -> (r: Vec<String>)
        ensures
            string_views(r@) == string_views(self.graph.order@).filter(
                |y: Seq<char>| affected_by(edge_views(self.graph.edges@), helper_roots(self.notebook.cells@, helper@), y),
            ),
    {
        let cells = &self.notebook.cells;
        let mut roots: Vec<String> = Vec::new();
        let mut i: usize = 0;
        while i < cells.len()
            invariant
                i <= cells@.len(),
                string_views(roots@) == users_of(cells@.take(i as int), helper@),
            decreases cells@.len() - i,
        {
            assert(cells@.take(i + 1).drop_last() =~= cells@.take(i as int));
            let c = &cells[i];
            if ident_used_in(c.source.as_str(), helper) || ident_used_in(c.body.as_str(), helper) {
                roots.push(c.name.clone());
            }
            i += 1;
        }
        assert(cells@.take(i as int) =~= cells@);
        if roots.len() == 0 {
            let mut j: usize = 0;
            while j < cells.len()
                invariant
                    j <= cells@.len(),
                    string_views(roots@) == cell_names(cells@.take(j as int)),
                decreases cells@.len() - j,
            {
                roots.push(cells[j].name.clone());
                assert(cell_names(cells@.take(j + 1)) =~= cell_names(cells@.take(j as int)).push(cells@[j as int].name@));
                j += 1;
            }
            assert(cells@.take(j as int) =~= cells@);
        }
        let ghost rv = string_views(roots@);
        let ghost es = edge_views(self.graph.edges@);
        assert(rv == helper_roots(cells@, helper@));
        let mut set: Vec<String> = Vec::new();
        let mut k: usize = 0;
        while k < roots.len()
            invariant
                k <= roots@.len(),
                rv == string_views(roots@),
                es == edge_views(self.graph.edges@),
                forall|y: Seq<char>| #[trigger] string_views(set@).contains(y) <==> affected_by(es, rv.take(k as int), y),
            decreases roots@.len() - k,
        {
            let ghost s0 = string_views(set@);
            set.push(roots[k].clone());
            let mut td = transitive_dependents(&self.graph, roots[k].as_str());
            let ghost tv = string_views(td@);
            let ghost s1 = string_views(set@);
            set.append(&mut td);
            proof {
                assert(s1 =~= s0.push(rv[k as int]));
                assert(string_views(set@) =~= s1 + tv);
                assert(rv.take(k as int + 1).drop_last() =~= rv.take(k as int));
                assert forall|y: Seq<char>| #[trigger] string_views(set@).contains(y) <==> affected_by(es, rv.take(k as int + 1), y) by {
                    lemma_append_contains(s1, tv, y);
                    lemma_push_contains(s0, rv[k as int], y);
                    lemma_take_push_contains(rv, k as int, y);
                }
            }
            k += 1;
        }
        assert(rv.take(k as int) =~= rv);
        let ghost pred = |y: Seq<char>| affected_by(es, rv, y);
        let order = &self.graph.order;
        let ghost ov = string_views(order@);
        let mut r: Vec<String> = Vec::new();
        let mut p: usize = 0;
        assert(ov.take(0).filter(pred) =~= Seq::<Seq<char>>::empty()) by {
            reveal(Seq::filter);
        }
        while p < order.len()
            invariant
                p <= order@.len(),
                ov == string_views(order@),
                pred == (|y: Seq<char>| affected_by(es, rv, y)),
                forall|y: Seq<char>| #[trigger] string_views(set@).contains(y) <==> affected_by(es, rv, y),
                string_views(r@) == ov.take(p as int).filter(pred),
            decreases order@.len() - p,
        {
            assert(ov.take(p + 1).drop_last() =~= ov.take(p as int));
            assert(ov.take(p + 1).last() == order@[p as int]@);
            assert(pred(order@[p as int]@) == affected_by(es, rv, order@[p as int]@));
            assert(string_views(set@).contains(order@[p as int]@) == affected_by(es, rv, order@[p as int]@));
            if contains_string(&set, &order[p]) {
                r.push(order[p].clone());
            }
            assert(string_views(r@) =~= ov.take(p + 1).filter(pred)) by {
                reveal(Seq::filter);
            }
            p += 1;
        }
        assert(ov.take(p as int) =~= ov);
        r
    }
}

// ---------------------------------------------------------------------------
// Helpers and markdown cells by name
// ---------------------------------------------------------------------------

/// The index of the first helper named `name`.
pub open spec fn helper_index(hs: Seq<Helper>, name: Seq<char>) -> Option<int>
    decreases hs.len(),
{
    if hs.len() == 0 {
        None
    } else {
        match helper_index(hs.drop_last(), name) {
            Some(i) => Some(i),
            None => if hs.last().name@ == name { Some(hs.len() - 1) } else { None },
        }
    }
}

/// The index of the first markdown cell named `name`.
pub open spec fn markdown_index(ms: Seq<MarkdownCell>, name: Seq<char>) -> Option<int>
    decreases ms.len(),
{
    if ms.len() == 0 {
        None
    } else {
        match markdown_index(ms.drop_last(), name) {
            Some(i) => Some(i),
            None => if ms.last().name@ == name { Some(ms.len() - 1) } else { None },
        }
    }
}

pub fn find_helper(hs: &Vec<Helper>, name: &str) -> (r: Option<usize>)
    ensures
        r matches Some(i) ==> helper_index(hs@, name@) == Some(i as int) && i < hs@.len(),
        r is None ==> helper_index(hs@, name@) is None,
{
    let mut i: usize = 0;
    while i < hs.len()
        invariant
            i <= hs@.len(),
            helper_index(hs@.take(i as int), name@) is None,
        decreases hs@.len() - i,
    {
        assert(hs@.take(i + 1).drop_last() =~= hs@.take(i as int));
        if crate::notebook::str_eq(hs[i].name.as_str(), name) {
            proof {
                lemma_helper_index_prefix(hs@, i as int + 1, name@);
            }
            return Some(i);
        }
        i += 1;
    }
    assert(hs@.take(i as int) =~= hs@);
    None
}

proof fn lemma_helper_index_prefix(hs: Seq<Helper>, n: int, name: Seq<char>)
    requires
        0 <= n <= hs.len(),
        helper_index(hs.take(n), name) is Some,
    ensures
        helper_index(hs, name) == helper_index(hs.take(n), name),
    decreases hs.len() - n,
{
    if n < hs.len() {
        assert(hs.take(n + 1).drop_last() =~= hs.take(n));
        lemma_helper_index_prefix(hs, n + 1, name);
    } else {
        assert(hs.take(n) =~= hs);
    }
}

pub fn find_markdown(ms: &Vec<MarkdownCell>, name: &str) -> (r: Option<usize>)
    ensures
        r matches Some(i) ==> markdown_index(ms@, name@) == Some(i as int) && i < ms@.len(),
        r is None ==> markdown_index(ms@, name@) is None,
{
    let mut i: usize = 0;
    while i < ms.len()
        invariant
            i <= ms@.len(),
            markdown_index(ms@.take(i as int), name@) is None,
        decreases ms@.len() - i,
    {
        assert(ms@.take(i + 1).drop_last() =~= ms@.take(i as int));
        if crate::notebook::str_eq(ms[i].name.as_str(), name) {
            proof {
                lemma_markdown_index_prefix(ms@, i as int + 1, name@);
            }
            return Some(i);
        }
        i += 1;
    }
    assert(ms@.take(i as int) =~= ms@);
    None
}

proof fn lemma_markdown_index_prefix(ms: Seq<MarkdownCell>, n: int, name: Seq<char>)
    requires
        0 <= n <= ms.len(),
        markdown_index(ms.take(n), name) is Some,
    ensures
        markdown_index(ms, name) == markdown_index(ms.take(n), name),
    decreases ms.len() - n,
{
    if n < ms.len() {
        assert(ms.take(n + 1).drop_last() =~= ms.take(n));
        lemma_markdown_index_prefix(ms, n + 1, name);
    } else {
        assert(ms.take(n) =~= ms);
    }
}

fn cat3(a: &str, b: &[char], c: &str) -> (r: String)
    ensures
        r@ == a@ + b@ + c@,
{
    let mut v = chars_of(a);
    push_all(&mut v, b);
    push_all(&mut v, &chars_of(c));
    string_of(&v)
}

// ---------------------------------------------------------------------------
// New blocks
// ---------------------------------------------------------------------------

/// `source`, trimmed, made into a public function `name` when it defines
/// one, or a stub cell function `name` when it does not.
pub open spec fn cellish_fn(source: Seq<char>, name: Seq<char>) -> Seq<char> {
    let s = trim(source);
    let f = "fn "@ + name;
    match find(s, f) {
        Some(i) => if contains(s, "pub fn "@ + name) {
            s
        } else {
            s.take(i as int) + ("pub fn "@ + name) + s.skip(i as int + f.len())
        },
        None => "pub fn "@ + name + "() -> i32 {\n    0\n}\n"@,
    }
}

/// Ensure a helper looks like a runnable cell function.
pub fn ensure_cellish_fn(source: &str, name: &str) -> (r: String)
    ensures
        r@ == cellish_fn(source@, name@),
{
    let s = trim_vec(&chars_of(source));
    let nm = chars_of(name);
    let mut f = chars_of("fn ");
    push_all(&mut f, &nm);
    let mut pf = chars_of("pub fn ");
    push_all(&mut pf, &nm);
    match find_from_vec(&s, &f, 0) {
        Some(i) => {
            if find_from_vec(&s, &pf, 0).is_some() {
                string_of(&s)
            } else {
                assert(s@.len() == s.len() && f@.len() == f.len());
                let mut out = slice_chars(&s, 0, i);
                push_all(&mut out, &pf);
                let tail = slice_chars(&s, i + f.len(), s.len());
                push_all(&mut out, &tail);
                assert(s@.subrange(0, i as int) =~= s@.take(i as int));
                assert(s@.subrange(i + f@.len(), s@.len() as int) =~= s@.skip(i as int + f@.len()));
                string_of(&out)
            }
        },
        None => cat3("pub fn ", &nm, "() -> i32 {\n    0\n}\n"),
    }
}

/// The base of the names given to new items of `kind`.
pub open spec fn name_base(kind: AddKind) -> Seq<char> {
    match kind {
        AddKind::Cell => "cell"@,
        AddKind::Helper => "helper"@,
        AddKind::Markdown => "md"@,
    }
}

/// The source of a new item of `kind` named `name`.
pub open spec fn new_block(kind: AddKind, name: Seq<char>) -> Seq<char> {
    match kind {
        AddKind::Cell => "#[labrs::cell]\npub fn "@ + name + "() -> i32 {\n    0\n}\n"@,
        AddKind::Helper => "fn "@ + name + "() {\n    // helper\n}\n"@,
        AddKind::Markdown => "#[labrs::markdown]\npub const "@ + name + ": &str = \"# New markdown\\n\\nEdit me.\";\n"@,
    }
}

/// A fresh name and the source of a new item of `kind`.
pub fn make_new_block(kind: AddKind, names: &[String]) -> (r: (String, String))
    ensures
        r.0@ == fresh_name_spec(names@, name_base(kind)),
        r.1@ == new_block(kind, r.0@),
{
    match kind {
        AddKind::Cell => {
            let name = fresh_name(names, "cell");
            let block = cat3("#[labrs::cell]\npub fn ", &chars_of(name.as_str()), "() -> i32 {\n    0\n}\n");
            (name, block)
        },
        AddKind::Helper => {
            let name = fresh_name(names, "helper");
            let block = cat3("fn ", &chars_of(name.as_str()), "() {\n    // helper\n}\n");
            (name, block)
        },
        AddKind::Markdown => {
            let name = fresh_name(names, "md");
            let block = cat3("#[labrs::markdown]\npub const ", &chars_of(name.as_str()), ": &str = \"# New markdown\\n\\nEdit me.\";\n");
            (name, block)
        },
    }
}

/// Where a new item goes: at the end, at the start, or after an item.
pub open spec fn placed_file(src: Seq<char>, after: Option<(AddKind, Seq<char>)>, block: Seq<char>) -> Result<Seq<char>, Seq<char>> {
    match after {
        None => Ok(appended(src, block)),
        Some((k, n)) => if n == "__start__"@ {
            Ok(prepended(src, block))
        } else {
            match inserted_after(src, k.name_of(), n, block) {
                Ok(t) => Ok(t),
                Err(e) => Err(err_message(e)),
            }
        },
    }
}

impl Session {
    /// Adding an item of `kind`: its fresh name (unused among cells,
    /// helpers and markdown cells when one is free) and the notebook source
    /// with it placed at the end, at the start (`__start__`), or after the
    /// given item.
    pub fn add_item_file(&self, kind: AddKind, after: &Option<(AddKind, String)>) -> (r: Result<(String, String), String>)
        ensures
            ({
                let name = fresh_name_spec(names_as_strings(self.notebook), name_base(kind));
                let placed = placed_file(self.notebook.source@, opt_view(*after), new_block(kind, name));
                match r {
                    Ok((n, t)) => n@ == name && placed == Ok::<Seq<char>, Seq<char>>(t@),
                    Err(e) => placed == Err::<Seq<char>, Seq<char>>(e@),
                }
            }),
    {
        let nb = &self.notebook;
        let mut names: Vec<String> = Vec::new();
        let mut i: usize = 0;
        while i < nb.cells.len()
            invariant
                i <= nb.cells@.len(),
                names@ == nb.cells@.take(i as int).map_values(|c: Cell| c.name),
            decreases nb.cells@.len() - i,
        {
            names.push(nb.cells[i].name.clone());
            assert(nb.cells@.take(i + 1).map_values(|c: Cell| c.name) =~= nb.cells@.take(i as int).map_values(|c: Cell| c.name).push(nb.cells@[i as int].name));
            i += 1;
        }
        let ghost n1 = names@;
        let mut j: usize = 0;
        while j < nb.helpers.len()
            invariant
                j <= nb.helpers@.len(),
                names@ == n1 + nb.helpers@.take(j as int).map_values(|h: Helper| h.name),
            decreases nb.helpers@.len() - j,
        {
            names.push(nb.helpers[j].name.clone());
            assert(nb.helpers@.take(j + 1).map_values(|h: Helper| h.name) =~= nb.helpers@.take(j as int).map_values(|h: Helper| h.name).push(nb.helpers@[j as int].name));
            j += 1;
        }
        let ghost n2 = names@;
        let mut k: usize = 0;
        while k < nb.markdown.len()
            invariant
                k <= nb.markdown@.len(),
                names@ == n2 + nb.markdown@.take(k as int).map_values(|m: MarkdownCell| m.name),
            decreases nb.markdown@.len() - k,
        {
            names.push(nb.markdown[k].name.clone());
            assert(nb.markdown@.take(k + 1).map_values(|m: MarkdownCell| m.name) =~= nb.markdown@.take(k as int).map_values(|m: MarkdownCell| m.name).push(nb.markdown@[k as int].name));
            k += 1;
        }
        assert(nb.cells@.take(i as int) =~= nb.cells@);
        assert(nb.helpers@.take(j as int) =~= nb.helpers@);
        assert(nb.markdown@.take(k as int) =~= nb.markdown@);
        assert(names@ =~= names_as_strings(self.notebook));
        let (name, block) = make_new_block(kind, names.as_slice());
        let src = nb.source.as_str();
        match after {
            None => Ok((name, append_item(src, block.as_str()))),
            Some((ak, an)) => {
                proof {
                    reveal_strlit("__start__");
                }
                if crate::notebook::str_eq(an.as_str(), "__start__") {
                    Ok((name, prepend_item(src, block.as_str())))
                } else {
                    match insert_after_item(src, ak.as_str(), an.as_str(), block.as_str()) {
                        Ok(t) => Ok((name, t)),
                        Err(e) => Err(e.message()),
                    }
                }
            },
        }
    }
}

/// An optional item reference as plain values.
pub open spec fn opt_view(a: Option<(AddKind, String)>) -> Option<(AddKind, Seq<char>)> {
    match a {
        Some((k, n)) => Some((k, n@)),
        None => None,
    }
}

/// The names of every cell, helper and markdown cell, in that order.
pub open spec fn names_as_strings(nb: crate::notebook::Notebook) -> Seq<String> {
    nb.cells@.map_values(|c: Cell| c.name) + nb.helpers@.map_values(|h: Helper| h.name)
        + nb.markdown@.map_values(|m: MarkdownCell| m.name)
}

/// A markdown const `name` holding the string literal `lit`.
pub open spec fn markdown_block(name: Seq<char>, lit: Seq<char>) -> Seq<char> {
    "#[labrs::markdown]\npub const "@ + name + ": &str = "@ + lit + ";\n"@
}

/// A cell `name` returning the string literal `lit`.
pub open spec fn string_cell_block(name: Seq<char>, lit: Seq<char>) -> Seq<char> {
    "#[labrs::cell]\npub fn "@ + name + "() -> String {\n    "@ + lit + ".to_string()\n}\n"@
}

/// The text of what item `name` of kind `from` becomes as kind `to`, or
/// why there is none: `None` when the kinds are equal, `Err` when `name`
/// is not an item of kind `from`.
pub open spec fn kind_change_block(nb: crate::notebook::Notebook, name: Seq<char>, from: AddKind, to: AddKind) -> Result<Option<Seq<char>>, Seq<char>> {
    let unknown_cell = "unknown cell `"@ + name + "`"@;
    let unknown_helper = "unknown helper `"@ + name + "`"@;
    let unknown_md = "unknown markdown `"@ + name + "`"@;
    if from == to {
        Ok(None)
    } else {
        match (from, to) {
            (AddKind::Cell, AddKind::Helper) => match cell_index(nb.cells@, name) {
                None => Err(unknown_cell),
                Some(i) => Ok(Some(stripped_source(nb.cells@[i].source@) + "\n"@)),
            },
            (AddKind::Helper, AddKind::Cell) => match helper_index(nb.helpers@, name) {
                None => Err(unknown_helper),
                Some(i) => Ok(Some(with_attr_source(cellish_fn(stripped_source(nb.helpers@[i].source@), name), "cell"@))),
            },
            (AddKind::Cell, AddKind::Markdown) => match cell_index(nb.cells@, name) {
                None => Err(unknown_cell),
                Some(i) => {
                    let content = match nb.cells@[i].docs {
                        Some(d) => d@,
                        None => "# "@ + name + "\n"@,
                    };
                    Ok(Some(markdown_block(name, json_string_literal(content))))
                },
            },
            (AddKind::Markdown, AddKind::Cell) => match markdown_index(nb.markdown@, name) {
                None => Err(unknown_md),
                Some(i) => Ok(Some(string_cell_block(name, json_string_literal(nb.markdown@[i].content@)))),
            },
            (AddKind::Helper, AddKind::Markdown) => Ok(Some(markdown_block(name, json_string_literal("# "@ + name + "\n"@)))),
            _ => Ok(Some("fn "@ + name + "() {\n    // helper\n}\n"@)),
        }
    }
}

/// The message given when a string could not be written as a literal.
fn literal_of(content: &str) -> (r: String)
    ensures
        r@ == json_string_literal(content@),
{
    match json_string(content) {
        Ok(t) => t,
        Err(_) => String::new(),
    }
}

impl Session {
    /// The text that item `name` becomes when its kind changes from `from`
    /// to `to` (see `kind_change_block`).
    pub fn change_kind_block(&self, name: &str, from: AddKind, to: AddKind) -> (r: Result<Option<String>, String>)
        ensures
            ({
                let spec_r = kind_change_block(self.notebook, name@, from, to);
                match r {
                    Ok(Some(t)) => spec_r == Ok::<Option<Seq<char>>, Seq<char>>(Some(t@)),
                    Ok(None) => spec_r == Ok::<Option<Seq<char>>, Seq<char>>(None),
                    Err(e) => spec_r == Err::<Option<Seq<char>>, Seq<char>>(e@),
                }
            }),
    {
        let nb = &self.notebook;
        let nm = chars_of(name);
        if from == to {
            return Ok(None);
        }
        proof {
            lemma_cell_index(nb.cells@, name@);
        }
        match (from, to) {
            (AddKind::Cell, AddKind::Helper) => match find_cell(&nb.cells, name) {
                None => Err(cat3("unknown cell `", &nm, "`")),
                Some(i) => {
                    let mut t = chars_of(strip_labrs_attrs(nb.cells[i].source.as_str()).as_str());
                    push_all(&mut t, &chars_of("\n"));
                    Ok(Some(string_of(&t)))
                },
            },
            (AddKind::Helper, AddKind::Cell) => match find_helper(&nb.helpers, name) {
                None => Err(cat3("unknown helper `", &nm, "`")),
                Some(i) => {
                    let bare = strip_labrs_attrs(nb.helpers[i].source.as_str());
                    Ok(Some(with_labrs_attr(ensure_cellish_fn(bare.as_str(), name).as_str(), "cell")))
                },
            },
            (AddKind::Cell, AddKind::Markdown) => match find_cell(&nb.cells, name) {
                None => Err(cat3("unknown cell `", &nm, "`")),
                Some(i) => {
                    let content = match &nb.cells[i].docs {
                        Some(d) => d.clone(),
                        None => cat3("# ", &nm, "\n"),
                    };
                    let lit = literal_of(content.as_str());
                    Ok(Some(md_block(&nm, &lit)))
                },
            },
            (AddKind::Markdown, AddKind::Cell) => match find_markdown(&nb.markdown, name) {
                None => Err(cat3("unknown markdown `", &nm, "`")),
                Some(i) => {
                    let lit = literal_of(nb.markdown[i].content.as_str());
                    let mut t = chars_of("#[labrs::cell]\npub fn ");
                    push_all(&mut t, &nm);
                    push_all(&mut t, &chars_of("() -> String {\n    "));
                    push_all(&mut t, &chars_of(lit.as_str()));
                    push_all(&mut t, &chars_of(".to_string()\n}\n"));
                    Ok(Some(string_of(&t)))
                },
            },
            (AddKind::Helper, AddKind::Markdown) => {
                let content = cat3("# ", &nm, "\n");
                let lit = literal_of(content.as_str());
                Ok(Some(md_block(&nm, &lit)))
            },
            _ => Ok(Some(cat3("fn ", &nm, "() {\n    // helper\n}\n"))),
        }
    }

    /// The notebook source after item `name` changes kind from `from` to
    /// `to`: `None` when the kinds are equal.
    pub fn change_kind_file(&self, name: &str, from: AddKind, to: AddKind) -> (r: Result<Option<String>, String>)
        ensures
            ({
                let spec_r = kind_change_block(self.notebook, name@, from, to);
                match spec_r {
                    Err(e) => r matches Err(x) && x@ == e,
                    Ok(None) => r is Ok && r->Ok_0 is None,
                    Ok(Some(b)) => match r {
                        Ok(Some(t)) => replaced_block(self.notebook.source@, from.name_of(), name@, b) == Ok::<Seq<char>, crate::edit::EditErr>(t@),
                        Ok(None) => false,
                        Err(e) => replaced_block(self.notebook.source@, from.name_of(), name@, b) matches Err(x) && e@ == err_message(x),
                    },
                }
            }),
    {
        let block = match self.change_kind_block(name, from, to) {
            Ok(Some(b)) => b,
            Ok(None) => return Ok(None),
            Err(e) => return Err(e),
        };
        match replace_item_block(self.notebook.source.as_str(), from.as_str(), name, block.as_str()) {
            Ok(t) => Ok(Some(t)),
            Err(e) => Err(e.message()),
        }
    }

    /// Bookkeeping when item `name` changed kind: its output is forgotten
    /// and every cell that still has an output becomes dirty.
    pub fn forget_after_kind_change(&mut self, name: &str)
        requires
            old(self).wf(),
        ensures
            final(self).wf(),
            final(self).path == old(self).path,
            final(self).notebook == old(self).notebook,
            final(self).graph == old(self).graph,
            final(self).auto_react == old(self).auto_react,
            forall|m: Seq<char>| #[trigger] output_of(final(self).outputs@, m) == if m == name@ { None } else { output_of(old(self).outputs@, m) },
            forall|m: Seq<char>| #[trigger] dirty_of(final(self).dirty@, m) == if m != name@ && cell_index(old(self).notebook.cells@, m) is Some && output_of(old(self).outputs@, m) is Some { Some(true) } else { dirty_of(old(self).dirty@, m) },
    {
        let n = string_of(&chars_of(name));
        remove_output(&mut self.outputs, &n);
        let ghost d0 = self.dirty@;
        let ghost o1 = self.outputs@;
        let mut i: usize = 0;
        while i < self.notebook.cells.len()
            invariant
                self.wf(),
                i <= self.notebook.cells@.len(),
                self.path == old(self).path,
                self.notebook == old(self).notebook,
                self.graph == old(self).graph,
                self.auto_react == old(self).auto_react,
                self.outputs@ == o1,
                forall|m: Seq<char>| #[trigger] output_of(o1, m) == if m == name@ { None } else { output_of(old(self).outputs@, m) },
                forall|m: Seq<char>| #[trigger] dirty_of(self.dirty@, m) == if cell_index(self.notebook.cells@.take(i as int), m) is Some && output_of(o1, m) is Some { Some(true) } else { dirty_of(d0, m) },
            decreases self.notebook.cells@.len() - i,
        {
            let c = self.notebook.cells[i].name.clone();
            let ghost cs = self.notebook.cells@;
            proof {
                assert(cs.take(i + 1).drop_last() =~= cs.take(i as int));
                assert(cs.take(i + 1).last() == cs[i as int]);
            }
            if crate::session::find_output(&self.outputs, &c).is_some() {
                set_dirty(&mut self.dirty, &c, true);
            }
            i += 1;
        }
        assert(self.notebook.cells@.take(i as int) =~= self.notebook.cells@);
    }
}

fn md_block(name: &[char], lit: &String) -> (r: String)
    ensures
        r@ == markdown_block(name@, lit@),
{
    let mut t = chars_of("#[labrs::markdown]\npub const ");
    push_all(&mut t, name);
    push_all(&mut t, &chars_of(": &str = "));
    push_all(&mut t, &chars_of(lit.as_str()));
    push_all(&mut t, &chars_of(";\n"));
    string_of(&t)
}

impl Session {
    /// The notebook source after cell `name` is rewritten as `formatted`
    /// (its source as written to disk, attribute included).
    pub fn edit_cell_file(&self, name: &str, formatted: &str) -> (r: Result<String, String>)
        ensures
            cell_index(self.notebook.cells@, name@) is None ==> (r matches Err(e) && e@ == "unknown cell `"@ + name@ + "`"@),
            cell_index(self.notebook.cells@, name@) matches Some(i) ==> match replaced_fn(self.notebook.source@, name@, self.notebook.cells@[i].source@, formatted@) {
                Ok(t) => r matches Ok(x) && x@ == t,
                Err(e) => r matches Err(x) && x@ == err_message(e),
            },
    {
        proof {
            lemma_cell_index(self.notebook.cells@, name@);
        }
        match find_cell(&self.notebook.cells, name) {
            None => Err(cat3("unknown cell `", &chars_of(name), "`")),
            Some(i) => match replace_cell_source(self.notebook.source.as_str(), &self.notebook.cells[i], formatted) {
                Ok(t) => Ok(t),
                Err(e) => Err(e.message()),
            },
        }
    }

    /// The notebook source after helper `name` is rewritten as `formatted`.
    pub fn edit_helper_file(&self, name: &str, formatted: &str) -> (r: Result<String, String>)
        ensures
            helper_index(self.notebook.helpers@, name@) is None ==> (r matches Err(e) && e@ == "unknown helper `"@ + name@ + "`"@),
            helper_index(self.notebook.helpers@, name@) matches Some(i) ==> match replaced_fn(self.notebook.source@, name@, self.notebook.helpers@[i].source@, formatted@) {
                Ok(t) => r matches Ok(x) && x@ == t,
                Err(e) => r matches Err(x) && x@ == err_message(e),
            },
    {
        match find_helper(&self.notebook.helpers, name) {
            None => Err(cat3("unknown helper `", &chars_of(name), "`")),
            Some(i) => match replace_helper_source(self.notebook.source.as_str(), name, self.notebook.helpers[i].source.as_str(), formatted) {
                Ok(t) => Ok(t),
                Err(e) => Err(e.message()),
            },
        }
    }

    /// The item that item `name` of `kind` trades places with when moved in
    /// `direction` among the cells, helpers and markdown cells (definitions
    /// do not move): `None` at either end.
    pub fn move_target(&self, kind: AddKind, name: &str, direction: MoveDirection) -> (r: Result<Option<(AddKind, String)>, String>)
        ensures
            ({
                let mv = movable(self.notebook.order@);
                match position_of(mv, kind, name@) {
                    None => r matches Err(e) && e@ == "item `"@ + name@ + "` not found in order"@,
                    Some(i) => match direction {
                        MoveDirection::Up => if i == 0 {
                            r matches Ok(x) && x is None
                        } else {
                            r matches Ok(Some((k, n))) && k == mv[i - 1].0 && n@ == mv[i - 1].1
                        },
                        MoveDirection::Down => if i + 1 >= mv.len() {
                            r matches Ok(x) && x is None
                        } else {
                            r matches Ok(Some((k, n))) && k == mv[i + 1].0 && n@ == mv[i + 1].1
                        },
                    },
                }
            }),
    {
        let order = &self.notebook.order;
        let ghost ov = order@;
        let mut mv: Vec<(AddKind, String)> = Vec::new();
        let mut i: usize = 0;
        while i < order.len()
            invariant
                i <= ov.len(),
                ov == order@,
                mv@.len() == movable(ov.take(i as int)).len(),
                forall|j: int| 0 <= j < mv@.len() ==> (#[trigger] mv@[j]).0 == movable(ov.take(i as int))[j].0
                    && mv@[j].1@ == movable(ov.take(i as int))[j].1,
            decreases ov.len() - i,
        {
            assert(ov.take(i + 1).drop_last() =~= ov.take(i as int));
            match &order[i] {
                OrderEntry::Cell { id } => mv.push((AddKind::Cell, id.clone())),
                OrderEntry::Helper { name } => mv.push((AddKind::Helper, name.clone())),
                OrderEntry::Markdown { id } => mv.push((AddKind::Markdown, id.clone())),
                OrderEntry::Definition { .. } => {},
            }
            i += 1;
        }
        assert(ov.take(i as int) =~= ov);
        let ghost ms = movable(ov);
        let mut idx: usize = 0;
        let mut found: Option<usize> = None;
        while idx < mv.len() && found.is_none()
            invariant
                idx <= mv@.len(),
                ms == movable(ov),
                mv@.len() == ms.len(),
                forall|j: int| 0 <= j < mv@.len() ==> (#[trigger] mv@[j]).0 == ms[j].0 && mv@[j].1@ == ms[j].1,
                found is None ==> position_of(ms.take(idx as int), kind, name@) is None,
                found matches Some(f) ==> position_of(ms, kind, name@) == Some(f as int) && f < mv@.len(),
            decreases mv@.len() - idx, (if found is None { 1int } else { 0int }),
        {
            assert(ms.take(idx + 1).drop_last() =~= ms.take(idx as int));
            if mv[idx].0 == kind && crate::notebook::str_eq(mv[idx].1.as_str(), name) {
                proof {
                    lemma_position_prefix(ms, idx as int + 1, kind, name@);
                }
                found = Some(idx);
            } else {
                idx += 1;
            }
        }
        let idx = match found {
            Some(f) => f,
            None => {
                assert(ms.take(idx as int) =~= ms);
                return Err(cat3("item `", &chars_of(name), "` not found in order"));
            },
        };
        let swap_with = match direction {
            MoveDirection::Up => {
                if idx == 0 {
                    return Ok(None);
                }
                idx - 1
            },
            MoveDirection::Down => {
                if idx + 1 >= mv.len() {
                    return Ok(None);
                }
                idx + 1
            },
        };
        Ok(Some((mv[swap_with].0, mv[swap_with].1.clone())))
    }
}

/// The cells, helpers and markdown cells of the display order, as kind and name.
pub open spec fn movable(order: Seq<OrderEntry>) -> Seq<(AddKind, Seq<char>)>
    decreases order.len(),
{
    if order.len() == 0 {
        seq![]
    } else {
        let rest = movable(order.drop_last());
        match order.last() {
            OrderEntry::Cell { id } => rest.push((AddKind::Cell, id@)),
            OrderEntry::Helper { name } => rest.push((AddKind::Helper, name@)),
            OrderEntry::Markdown { id } => rest.push((AddKind::Markdown, id@)),
            OrderEntry::Definition { .. } => rest,
        }
    }
}

/// The first position of `(kind, name)` in `mv`.
pub open spec fn position_of(mv: Seq<(AddKind, Seq<char>)>, kind: AddKind, name: Seq<char>) -> Option<int>
    decreases mv.len(),
{
    if mv.len() == 0 {
        None
    } else {
        match position_of(mv.drop_last(), kind, name) {
            Some(i) => Some(i),
            None => if mv.last() == (kind, name) { Some(mv.len() - 1) } else { None },
        }
    }
}

proof fn lemma_position_prefix(mv: Seq<(AddKind, Seq<char>)>, n: int, kind: AddKind, name: Seq<char>)
    requires
        0 <= n <= mv.len(),
        position_of(mv.take(n), kind, name) is Some,
    ensures
        position_of(mv, kind, name) == position_of(mv.take(n), kind, name),
        0 <= position_of(mv, kind, name)->0 < n,
    decreases mv.len() - n,
{
    lemma_position_range(mv.take(n), kind, name);
    if n < mv.len() {
        assert(mv.take(n + 1).drop_last() =~= mv.take(n));
        lemma_position_prefix(mv, n + 1, kind, name);
    } else {
        assert(mv.take(n) =~= mv);
    }
}

proof fn lemma_position_range(mv: Seq<(AddKind, Seq<char>)>, kind: AddKind, name: Seq<char>)
    ensures
        position_of(mv, kind, name) matches Some(i) ==> 0 <= i < mv.len() && mv[i] == (kind, name),
    decreases mv.len(),
{
    if mv.len() > 0 {
        lemma_position_range(mv.drop_last(), kind, name);
    }
}

/// The index of the first shared definition named `name`.
pub open spec fn definition_index(ds: Seq<SharedDef>, name: Seq<char>) -> Option<int>
    decreases ds.len(),
{
    if ds.len() == 0 {
        None
    } else {
        match definition_index(ds.drop_last(), name) {
            Some(i) => Some(i),
            None => if ds.last().name@ == name { Some(ds.len() - 1) } else { None },
        }
    }
}

pub fn find_definition(ds: &Vec<SharedDef>, name: &str) -> (r: Option<usize>)
    ensures
        r matches Some(i) ==> definition_index(ds@, name@) == Some(i as int) && i < ds@.len(),
        r is None ==> definition_index(ds@, name@) is None,
{
    let mut i: usize = 0;
    while i < ds.len()
        invariant
            i <= ds@.len(),
            definition_index(ds@.take(i as int), name@) is None,
        decreases ds@.len() - i,
    {
        assert(ds@.take(i + 1).drop_last() =~= ds@.take(i as int));
        if crate::notebook::str_eq(ds[i].name.as_str(), name) {
            proof {
                lemma_definition_index_prefix(ds@, i as int + 1, name@);
            }
            return Some(i);
        }
        i += 1;
    }
    assert(ds@.take(i as int) =~= ds@);
    None
}

proof fn lemma_definition_index_prefix(ds: Seq<SharedDef>, n: int, name: Seq<char>)
    requires
        0 <= n <= ds.len(),
        definition_index(ds.take(n), name) is Some,
    ensures
        definition_index(ds, name) == definition_index(ds.take(n), name),
    decreases ds.len() - n,
{
    if n < ds.len() {
        assert(ds.take(n + 1).drop_last() =~= ds.take(n));
        lemma_definition_index_prefix(ds, n + 1, name);
    } else {
        assert(ds.take(n) =~= ds);
    }
}

/// A definition that belongs to the preamble: a `use` or an item kept as is.
pub open spec fn in_preamble(d: SharedDef) -> bool {
    d.kind@ == "use"@ || d.kind@ == "item"@
}

fn is_preamble_def(d: &SharedDef) -> (b: bool)
    ensures
        b == in_preamble(*d),
{
    crate::notebook::str_eq(d.kind.as_str(), "use") || crate::notebook::str_eq(d.kind.as_str(), "item")
}

/// The sources of the preamble definitions, in order.
pub open spec fn preamble_sources(ds: Seq<SharedDef>) -> Seq<Seq<char>>
    decreases ds.len(),
{
    if ds.len() == 0 {
        seq![]
    } else if in_preamble(ds.last()) {
        preamble_sources(ds.drop_last()).push(ds.last().source@)
    } else {
        preamble_sources(ds.drop_last())
    }
}

/// The sources of the preamble definitions.
pub fn preamble_of(ds: &Vec<SharedDef>) -> (r: Vec<String>)
    ensures
        crate::graph::string_views(r@) == preamble_sources(ds@),
{
    let mut r: Vec<String> = Vec::new();
    let mut i: usize = 0;
    while i < ds.len()
        invariant
            i <= ds@.len(),
            crate::graph::string_views(r@) == preamble_sources(ds@.take(i as int)),
        decreases ds@.len() - i,
    {
        assert(ds@.take(i + 1).drop_last() =~= ds@.take(i as int));
        if is_preamble_def(&ds[i]) {
            let ghost r0 = crate::graph::string_views(r@);
            r.push(ds[i].source.clone());
            assert(crate::graph::string_views(r@) =~= r0.push(ds@[i as int].source@));
        }
        i += 1;
    }
    assert(ds@.take(i as int) =~= ds@);
    r
}

/// The preamble as one block: its sources joined by line feeds.
pub fn join_preamble(ds: &Vec<SharedDef>) -> (r: String)
    ensures
        r@ == crate::text::join(preamble_sources(ds@), "\n"@),
{
    let srcs = preamble_of(ds);
    let mut parts: Vec<Vec<char>> = Vec::new();
    let mut i: usize = 0;
    while i < srcs.len()
        invariant
            i <= srcs@.len(),
            crate::text::views(parts@) == crate::graph::string_views(srcs@).take(i as int),
        decreases srcs@.len() - i,
    {
        let ghost p0 = crate::text::views(parts@);
        parts.push(chars_of(srcs[i].as_str()));
        assert(crate::text::views(parts@) =~= p0.push(srcs@[i as int]@));
        assert(crate::graph::string_views(srcs@).take(i + 1) =~= crate::graph::string_views(srcs@).take(i as int).push(srcs@[i as int]@));
        i += 1;
    }
    assert(crate::graph::string_views(srcs@).take(i as int) =~= crate::graph::string_views(srcs@));
    string_of(&crate::text::join_vec(&parts, &chars_of("\n")))
}

impl Session {
    /// The notebook source after shared definition `name` is rewritten as
    /// `formatted`.
    pub fn edit_definition_file(&self, name: &str, formatted: &str) -> (r: Result<String, String>)
        ensures
            definition_index(self.notebook.definitions@, name@) is None ==> (r matches Err(e) && e@ == "unknown definition `"@ + name@ + "`"@),
            definition_index(self.notebook.definitions@, name@) matches Some(i) ==> {
                let d = self.notebook.definitions@[i];
                match crate::edit::replaced_definition(self.notebook.source@, name@, d.span, d.source@, formatted@) {
                    Ok(t) => r matches Ok(x) && x@ == t,
                    Err(e) => r matches Err(x) && x@ == err_message(e),
                }
            },
    {
        match find_definition(&self.notebook.definitions, name) {
            None => Err(cat3("unknown definition `", &chars_of(name), "`")),
            Some(i) => {
                let d = &self.notebook.definitions[i];
                match crate::edit::replace_definition_source(self.notebook.source.as_str(), name, d.span, d.source.as_str(), formatted) {
                    Ok(t) => Ok(t),
                    Err(e) => Err(e.message()),
                }
            },
        }
    }

    /// The notebook source after the preamble is rewritten as `formatted`.
    pub fn edit_preamble_file(&self, formatted: &str) -> (r: String)
        ensures
            r@ == crate::edit::replaced_preamble(self.notebook.source@, preamble_sources(self.notebook.definitions@), formatted@),
    {
        let olds = preamble_of(&self.notebook.definitions);
        crate::edit::replace_preamble_block(self.notebook.source.as_str(), &olds, formatted)
    }

    /// The source of definition `name` after a reload, or `fallback` when it
    /// is gone.
    pub fn definition_source_or(&self, name: &str, fallback: &str) -> (r: String)
        ensures
            definition_index(self.notebook.definitions@, name@) matches Some(i) ==> r@ == self.notebook.definitions@[i].source@,
            definition_index(self.notebook.definitions@, name@) is None ==> r@ == fallback@,
    {
        match find_definition(&self.notebook.definitions, name) {
            Some(i) => self.notebook.definitions[i].source.clone(),
            None => fallback.to_string(),
        }
    }
}

} // verus!
