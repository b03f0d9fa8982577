//! The Rust programs that run a notebook: the shared prelude of
//! definitions and helpers, each cell as a function, and a `main` that runs
//! either every cell in topological order or one cell with its parameters
//! read from standard input. Each run prints its cell's value and captured
//! output between `___LABRS_…___` marker lines.

use vstd::prelude::*;
use crate::graph::DependencyGraph;
use crate::notebook::{cell_index, find_cell, lemma_cell_index, Cell, Helper, Notebook, Param, SharedDef};
use crate::source_util::{stripped_source, strip_attr_chars};
use crate::text::{
    chars_of, contains, ends_with_char, find, find_from_vec, join, join_vec, push_all, slice_chars,
    string_of, trim, trim_vec, views,
};

verus! {

/// The first lines of every generated program.
pub open spec fn prelude_header() -> Seq<char> {
    "#![allow(dead_code, unused_imports, unused_variables, non_snake_case)]\nuse serde_json::Value;\n\n"@
}

/// What definition `d` adds to the prelude: nothing for a blank one or a
/// `use` of labrs itself, else its source closed by a blank line.
pub open spec fn def_piece(d: SharedDef) -> Seq<char> {
    if (d.kind@ == "use"@ && contains(d.source@, "labrs"@)) || trim(d.source@).len() == 0 {
        seq![]
    } else if ends_with_char(d.source@, '\n') {
        d.source@ + "\n"@
    } else {
        d.source@ + "\n"@ + "\n"@
    }
}

pub open spec fn defs_text(ds: Seq<SharedDef>) -> Seq<char>
    decreases ds.len(),
{
    if ds.len() == 0 { seq![] } else { defs_text(ds.drop_last()) + def_piece(ds.last()) }
}

/// What helper `h` adds to the prelude: its source without labrs
/// attributes, unless that is blank.
pub open spec fn helper_piece(h: Helper) -> Seq<char> {
    let c = stripped_source(h.source@);
    if trim(c).len() == 0 { seq![] } else { c + "\n\n"@ }
}

pub open spec fn helpers_text(hs: Seq<Helper>) -> Seq<char>
    decreases hs.len(),
{
    if hs.len() == 0 { seq![] } else { helpers_text(hs.drop_last()) + helper_piece(hs.last()) }
}

/// The code every cell program shares: definitions, then helpers.
pub open spec fn prelude_text(nb: Notebook) -> Seq<char> {
    prelude_header() + defs_text(nb.definitions@) + helpers_text(nb.helpers@)
}

/// `source` with its first `fn <from>` renamed `fn <to>`.
pub open spec fn renamed_fn(source: Seq<char>, from: Seq<char>, to: Seq<char>) -> Seq<char> {
    let f = "fn "@ + from;
    match find(source, f) {
        Some(i) => source.take(i as int) + "fn "@ + to + source.skip(i as int + f.len()),
        None => source,
    }
}

pub open spec fn param_decl(p: Param) -> Seq<char> {
    p.name@ + ": "@ + p.ty@
}

/// Cell `c` as a function named `__cell_<name>`, rebuilt from its
/// signature and body when its source is blank.
pub open spec fn cell_fn_text(c: Cell) -> Seq<char> {
    let cleaned = stripped_source(c.source@);
    let src = if trim(cleaned).len() == 0 {
        "pub fn "@ + c.name@ + "("@ + join(c.params@.map_values(|p: Param| param_decl(p)), ", "@) + ") -> "@
            + c.return_type@ + " {\n"@ + c.body@ + "\n}"@
    } else {
        cleaned
    };
    renamed_fn(src, c.name@, "__cell_"@ + c.name@)
}

/// How parameter `p` is passed: by reference when the cell takes one.
pub open spec fn arg_text(p: Param) -> Seq<char> {
    if p.is_ref { "&"@ + p.name@ } else { p.name@ }
}

/// The call of cell `c`'s function with its parameters' bindings.
pub open spec fn call_text(c: Cell) -> Seq<char> {
    "__cell_"@ + c.name@ + "("@ + join(c.params@.map_values(|p: Param| arg_text(p)), ", "@) + ")"@
}

pub open spec fn cells_fn_text(cs: Seq<Cell>) -> Seq<char>
    decreases cs.len(),
{
    if cs.len() == 0 { seq![] } else { cells_fn_text(cs.drop_last()) + cell_fn_text(cs.last()) + "\n\n"@ }
}

/// The blocks of `main` for the cells named in `order`.
pub open spec fn main_blocks(cs: Seq<Cell>, order: Seq<Seq<char>>) -> Seq<char>
    decreases order.len(),
{
    if order.len() == 0 {
        seq![]
    } else {
        let c = cs[cell_index(cs, order.last())->0];
        main_blocks(cs, order.drop_last()) + run_all_block(c.name@, call_text(c))
    }
}

/// The program that runs every cell of `nb` in `order`.
pub open spec fn run_all_text(nb: Notebook, order: Seq<Seq<char>>) -> Seq<char> {
    prelude_text(nb) + "use gag::BufferRedirect;\nuse std::io::Read;\n\n"@ + cells_fn_text(nb.cells@)
        + "fn main() {\n"@ + main_blocks(nb.cells@, order) + "}\n"@
}

pub open spec fn param_lines(ps: Seq<Param>) -> Seq<char>
    decreases ps.len(),
{
    if ps.len() == 0 { seq![] } else { param_lines(ps.drop_last()) + param_line(ps.last().name@, ps.last().inner_ty@) }
}

/// The program that runs cell `c` alone, its parameters read from stdin.
pub open spec fn single_text(nb: Notebook, c: Cell) -> Seq<char> {
    prelude_text(nb) + "use gag::BufferRedirect;\nuse std::io::{self, Read};\n\n"@ + cell_fn_text(c) + "\n\n"@
        + "fn main() {\n"@ + deps_read() + param_lines(c.params@) + single_tail(c.name@, call_text(c)) + "}\n"@
}

/// The statements of the run-all program's `main` for cell `n`, called as
/// `call`: run it with output captured, print its value and output between
/// markers, and bind its result under the cell's name.
pub open spec fn run_all_block(n: Seq<char>, call: Seq<char>) -> Seq<char> {
    "    let mut stdout_buf = BufferRedirect::stdout().unwrap();\n    let mut stderr_buf = BufferRedirect::stderr().unwrap();\n    let __result_"@ + n + " = (|| { "@ + call + " })();\n    let mut __stdout_"@ + n + " = String::new();\n    let mut __stderr_"@ + n + " = String::new();\n    stdout_buf.read_to_string(&mut __stdout_"@ + n + ").ok();\n    stderr_buf.read_to_string(&mut __stderr_"@ + n + ").ok();\n    drop(stdout_buf);\n    drop(stderr_buf);\n    let __value_"@ + n + " = serde_json::to_value(&__result_"@ + n + ").unwrap_or(serde_json::Value::Null);\n    println!(\"___LABRS_CELL_START___"@ + n + "___\");\n    println!(\"___LABRS_VALUE___{}\", serde_json::to_string(&__value_"@ + n + ").unwrap());\n    println!(\"___LABRS_STDOUT___{}\", serde_json::to_string(&__stdout_"@ + n + ").unwrap());\n    println!(\"___LABRS_STDERR___{}\", serde_json::to_string(&__stderr_"@ + n + ").unwrap());\n    println!(\"___LABRS_CELL_END___"@ + n + "___\");\n    let "@ + n + " = __result_"@ + n + ";\n    let _ = (&__stdout_"@ + n + ", &__stderr_"@ + n + ", &__value_"@ + n + ", &"@ + n + ");\n"@
}

fn run_all_block_vec(n: &[char], call: &[char]) -> (r: Vec<char>)
    ensures
        r@ == run_all_block(n@, call@),
{
    let mut v: Vec<char> = Vec::new();
    push_all(&mut v, &chars_of("    let mut stdout_buf = BufferRedirect::stdout().unwrap();\n    let mut stderr_buf = BufferRedirect::stderr().unwrap();\n    let __result_"));
    push_all(&mut v, n);
    push_all(&mut v, &chars_of(" = (|| { "));
    push_all(&mut v, call);
    push_all(&mut v, &chars_of(" })();\n    let mut __stdout_"));
    push_all(&mut v, n);
    push_all(&mut v, &chars_of(" = String::new();\n    let mut __stderr_"));
    push_all(&mut v, n);
    push_all(&mut v, &chars_of(" = String::new();\n    stdout_buf.read_to_string(&mut __stdout_"));
    push_all(&mut v, n);
    push_all(&mut v, &chars_of(").ok();\n    stderr_buf.read_to_string(&mut __stderr_"));
    push_all(&mut v, n);
    push_all(&mut v, &chars_of(").ok();\n    drop(stdout_buf);\n    drop(stderr_buf);\n    let __value_"));
    push_all(&mut v, n);
    push_all(&mut v, &chars_of(" = serde_json::to_value(&__result_"));
    push_all(&mut v, n);
    push_all(&mut v, &chars_of(").unwrap_or(serde_json::Value::Null);\n    println!(\"___LABRS_CELL_START___"));
    push_all(&mut v, n);
    push_all(&mut v, &chars_of("___\");\n    println!(\"___LABRS_VALUE___{}\", serde_json::to_string(&__value_"));
    push_all(&mut v, n);
    push_all(&mut v, &chars_of(").unwrap());\n    println!(\"___LABRS_STDOUT___{}\", serde_json::to_string(&__stdout_"));
    push_all(&mut v, n);
    push_all(&mut v, &chars_of(").unwrap());\n    println!(\"___LABRS_STDERR___{}\", serde_json::to_string(&__stderr_"));
    push_all(&mut v, n);
    push_all(&mut v, &chars_of(").unwrap());\n    println!(\"___LABRS_CELL_END___"));
    push_all(&mut v, n);
    push_all(&mut v, &chars_of("___\");\n    let "));
    push_all(&mut v, n);
    push_all(&mut v, &chars_of(" = __result_"));
    push_all(&mut v, n);
    push_all(&mut v, &chars_of(";\n    let _ = (&__stdout_"));
    push_all(&mut v, n);
    push_all(&mut v, &chars_of(", &__stderr_"));
    push_all(&mut v, n);
    push_all(&mut v, &chars_of(", &__value_"));
    push_all(&mut v, n);
    push_all(&mut v, &chars_of(", &"));
    push_all(&mut v, n);
    push_all(&mut v, &chars_of(");\n"));
    v
}

/// The statements of the single-cell program's `main` after the
/// parameters are read: run the cell and print its value and output.
pub open spec fn single_tail(n: Seq<char>, call: Seq<char>) -> Seq<char> {
    "    let mut stdout_buf = BufferRedirect::stdout().unwrap();\n    let mut stderr_buf = BufferRedirect::stderr().unwrap();\n    let __result = (|| { "@ + call + " })();\n    let mut __stdout = String::new();\n    let mut __stderr = String::new();\n    stdout_buf.read_to_string(&mut __stdout).ok();\n    stderr_buf.read_to_string(&mut __stderr).ok();\n    drop(stdout_buf);\n    drop(stderr_buf);\n    let __value = serde_json::to_value(&__result).unwrap_or(Value::Null);\n    println!(\"___LABRS_CELL_START___"@ + n + "___\");\n    println!(\"___LABRS_VALUE___{}\", serde_json::to_string(&__value).unwrap());\n    println!(\"___LABRS_STDOUT___{}\", serde_json::to_string(&__stdout).unwrap());\n    println!(\"___LABRS_STDERR___{}\", serde_json::to_string(&__stderr).unwrap());\n    println!(\"___LABRS_CELL_END___"@ + n + "___\");\n"@
}

fn single_tail_vec(n: &[char], call: &[char]) -> (r: Vec<char>)
    ensures
        r@ == single_tail(n@, call@),
{
    let mut v: Vec<char> = Vec::new();
    push_all(&mut v, &chars_of("    let mut stdout_buf = BufferRedirect::stdout().unwrap();\n    let mut stderr_buf = BufferRedirect::stderr().unwrap();\n    let __result = (|| { "));
    push_all(&mut v, call);
    push_all(&mut v, &chars_of(" })();\n    let mut __stdout = String::new();\n    let mut __stderr = String::new();\n    stdout_buf.read_to_string(&mut __stdout).ok();\n    stderr_buf.read_to_string(&mut __stderr).ok();\n    drop(stdout_buf);\n    drop(stderr_buf);\n    let __value = serde_json::to_value(&__result).unwrap_or(Value::Null);\n    println!(\"___LABRS_CELL_START___"));
    push_all(&mut v, n);
    push_all(&mut v, &chars_of("___\");\n    println!(\"___LABRS_VALUE___{}\", serde_json::to_string(&__value).unwrap());\n    println!(\"___LABRS_STDOUT___{}\", serde_json::to_string(&__stdout).unwrap());\n    println!(\"___LABRS_STDERR___{}\", serde_json::to_string(&__stderr).unwrap());\n    println!(\"___LABRS_CELL_END___"));
    push_all(&mut v, n);
    push_all(&mut v, &chars_of("___\");\n"));
    v
}

/// The statement that reads parameter `n` of type `t` from the JSON object
/// on standard input.
pub open spec fn param_line(n: Seq<char>, t: Seq<char>) -> Seq<char> {
    "    let "@ + n + ": "@ + t + " = serde_json::from_value(__deps.get(\""@ + n + "\").cloned().unwrap_or(Value::Null)).expect(\"deserialize "@ + n + "\");\n"@
}

fn param_line_vec(n: &[char], t: &[char]) -> (r: Vec<char>)
    ensures
        r@ == param_line(n@, t@),
{
    let mut v: Vec<char> = Vec::new();
    push_all(&mut v, &chars_of("    let "));
    push_all(&mut v, n);
    push_all(&mut v, &chars_of(": "));
    push_all(&mut v, t);
    push_all(&mut v, &chars_of(" = serde_json::from_value(__deps.get(\""));
    push_all(&mut v, n);
    push_all(&mut v, &chars_of("\").cloned().unwrap_or(Value::Null)).expect(\"deserialize "));
    push_all(&mut v, n);
    push_all(&mut v, &chars_of("\");\n"));
    v
}

/// The statements that read the JSON object of parameter values from
/// standard input.
pub open spec fn deps_read() -> Seq<char> {
    "    let __deps: serde_json::Map<String, Value> = {\n        let mut s = String::new();\n        io::Read::read_to_string(&mut io::stdin(), &mut s).unwrap();\n        if s.trim().is_empty() {\n            serde_json::Map::new()\n        } else {\n            serde_json::from_str::<serde_json::Map<String, Value>>(&s).unwrap_or_default()\n        }\n    };\n"@
}


fn deps_read_vec() -> (r: Vec<char>)
    ensures
        r@ == deps_read(),
{
    chars_of("    let __deps: serde_json::Map<String, Value> = {\n        let mut s = String::new();\n        io::Read::read_to_string(&mut io::stdin(), &mut s).unwrap();\n        if s.trim().is_empty() {\n            serde_json::Map::new()\n        } else {\n            serde_json::from_str::<serde_json::Map<String, Value>>(&s).unwrap_or_default()\n        }\n    };\n")
}

fn eq_chars(a: &[char], b: &[char]) -> (r: bool)
    ensures
        r == (a@ == b@),
{
    crate::source_util::eq_vec(a, b)
}

fn prelude_vec(nb: &Notebook) -> (r: Vec<char>)
    ensures
        r@ == prelude_text(*nb),
{
    let mut out = chars_of("#![allow(dead_code, unused_imports, unused_variables, non_snake_case)]\nuse serde_json::Value;\n\n");
    let ds = &nb.definitions;
    let mut i: usize = 0;
    while i < ds.len()
        invariant
            i <= ds@.len(),
            out@ == prelude_header() + defs_text(ds@.take(i as int)),
        decreases ds@.len() - i,
    {
        assert(ds@.take(i + 1).drop_last() =~= ds@.take(i as int));
        let d = &ds[i];
        let src = chars_of(d.source.as_str());
        let skip = (eq_chars(&chars_of(d.kind.as_str()), &chars_of("use")) && find_from_vec(&src, &chars_of("labrs"), 0).is_some())
            || trim_vec(&src).len() == 0;
        if !skip {
            push_all(&mut out, &src);
            if !(src.len() > 0 && src[src.len() - 1] == '\n') {
                push_all(&mut out, &chars_of("\n"));
            }
            push_all(&mut out, &chars_of("\n"));
        }
        assert(ds@.take(i + 1).last() == ds@[i as int]);
        assert(out@ =~= prelude_header() + defs_text(ds@.take(i + 1)));
        i += 1;
    }
    assert(ds@.take(i as int) =~= ds@);
    let ghost after_defs = out@;
    let hs = &nb.helpers;
    let mut j: usize = 0;
    while j < hs.len()
        invariant
            j <= hs@.len(),
            out@ == after_defs + helpers_text(hs@.take(j as int)),
        decreases hs@.len() - j,
    {
        assert(hs@.take(j + 1).drop_last() =~= hs@.take(j as int));
        let cleaned = strip_attr_chars(&chars_of(hs[j].source.as_str()));
        if trim_vec(&cleaned).len() != 0 {
            push_all(&mut out, &cleaned);
            push_all(&mut out, &chars_of("\n\n"));
        }
        assert(hs@.take(j + 1).last() == hs@[j as int]);
        assert(out@ =~= after_defs + helpers_text(hs@.take(j + 1)));
        j += 1;
    }
    assert(hs@.take(j as int) =~= hs@);
    out
}

/// The code shared by every generated program: definitions (but a `use` of
/// labrs) and helpers without their labrs attributes.
pub fn shared_prelude(notebook: &Notebook) -> (r: String)
    ensures
        r@ == prelude_text(*notebook),
{
    string_of(&prelude_vec(notebook))
}

/// Rename the function `from` to `to` in its signature (the first
/// occurrence of `fn <from>`).
pub fn rename_fn(source: &str, from: &str, to: &str) -> (r: String)
    ensures
        r@ == renamed_fn(source@, from@, to@),
{
    let s = chars_of(source);
    let mut f = chars_of("fn ");
    push_all(&mut f, &chars_of(from));
    match find_from_vec(&s, &f, 0) {
        Some(idx) => {
            assert(s@.len() == s.len() && f@.len() == f.len());
            let mut out = slice_chars(&s, 0, idx);
            push_all(&mut out, &chars_of("fn "));
            push_all(&mut out, &chars_of(to));
            push_all(&mut out, &slice_chars(&s, idx + f.len(), s.len()));
            assert(s@.subrange(0, idx as int) =~= s@.take(idx as int));
            assert(s@.subrange(idx + f@.len(), s@.len() as int) =~= s@.skip(idx as int + f@.len()));
            string_of(&out)
        },
        None => string_of(&s),
    }
}

fn joined_params(ps: &Vec<Param>, decl: bool) -> (r: Vec<char>)
    ensures
        decl ==> r@ == join(ps@.map_values(|p: Param| param_decl(p)), ", "@),
        !decl ==> r@ == join(ps@.map_values(|p: Param| arg_text(p)), ", "@),
{
    let mut parts: Vec<Vec<char>> = Vec::new();
    let mut i: usize = 0;
    while i < ps.len()
        invariant
            i <= ps@.len(),
            decl ==> views(parts@) == ps@.take(i as int).map_values(|p: Param| param_decl(p)),
            !decl ==> views(parts@) == ps@.take(i as int).map_values(|p: Param| arg_text(p)),
        decreases ps@.len() - i,
    {
        let p = &ps[i];
        let mut t: Vec<char> = Vec::new();
        if decl {
            push_all(&mut t, &chars_of(p.name.as_str()));
            push_all(&mut t, &chars_of(": "));
            push_all(&mut t, &chars_of(p.ty.as_str()));
        } else {
            if p.is_ref {
                push_all(&mut t, &chars_of("&"));
            }
            push_all(&mut t, &chars_of(p.name.as_str()));
        }
        let ghost v0 = views(parts@);
        parts.push(t);
        proof {
            assert(views(parts@) =~= v0.push(t@));
            assert(ps@.take(i + 1).map_values(|p: Param| param_decl(p)) =~= ps@.take(i as int).map_values(|p: Param| param_decl(p)).push(param_decl(ps@[i as int])));
            assert(ps@.take(i + 1).map_values(|p: Param| arg_text(p)) =~= ps@.take(i as int).map_values(|p: Param| arg_text(p)).push(arg_text(ps@[i as int])));
        }
        i += 1;
    }
    assert(ps@.take(i as int) =~= ps@);
    join_vec(&parts, &chars_of(", "))
}

fn cell_fn_vec(cell: &Cell) -> (r: Vec<char>)
    ensures
        r@ == cell_fn_text(*cell),
{
    let cleaned = strip_attr_chars(&chars_of(cell.source.as_str()));
    let nm = chars_of(cell.name.as_str());
    let src = if trim_vec(&cleaned).len() == 0 {
        let mut s = chars_of("pub fn ");
        push_all(&mut s, &nm);
        push_all(&mut s, &chars_of("("));
        push_all(&mut s, &joined_params(&cell.params, true));
        push_all(&mut s, &chars_of(") -> "));
        push_all(&mut s, &chars_of(cell.return_type.as_str()));
        push_all(&mut s, &chars_of(" {\n"));
        push_all(&mut s, &chars_of(cell.body.as_str()));
        push_all(&mut s, &chars_of("\n}"));
        s
    } else {
        cleaned
    };
    let mut to = chars_of("__cell_");
    push_all(&mut to, &nm);
    let r = rename_fn(string_of(&src).as_str(), cell.name.as_str(), string_of(&to).as_str());
    chars_of(r.as_str())
}

/// Cell `cell` as a function named `__cell_<name>`, so that its result can
/// be bound under the cell's own name.
pub fn cell_fn_source(cell: &Cell) -> (r: String)
    ensures
        r@ == cell_fn_text(*cell),
{
    string_of(&cell_fn_vec(cell))
}

fn call_vec(cell: &Cell) -> (r: Vec<char>)
    ensures
        r@ == call_text(*cell),
{
    let mut v = chars_of("__cell_");
    push_all(&mut v, &chars_of(cell.name.as_str()));
    push_all(&mut v, &chars_of("("));
    push_all(&mut v, &joined_params(&cell.params, false));
    push_all(&mut v, &chars_of(")"));
    v
}

/// The program that runs every cell of `notebook` in the graph's
/// topological order, each name of which is a cell.
pub fn generate_run_all(notebook: &Notebook, graph: &DependencyGraph) -> (r: String)
    requires
        forall|k: int| 0 <= k < graph.order@.len() ==> cell_index(notebook.cells@, #[trigger] graph.order@[k]@) is Some,
    ensures
        r@ == run_all_text(*notebook, crate::graph::string_views(graph.order@)),
{
    let order = &graph.order;
    let mut code = prelude_vec(notebook);
    push_all(&mut code, &chars_of("use gag::BufferRedirect;\nuse std::io::Read;\n\n"));
    let cs = &notebook.cells;
    let ghost c0 = code@;
    let mut i: usize = 0;
    while i < cs.len()
        invariant
            i <= cs@.len(),
            code@ == c0 + cells_fn_text(cs@.take(i as int)),
        decreases cs@.len() - i,
    {
        assert(cs@.take(i + 1).drop_last() =~= cs@.take(i as int));
        push_all(&mut code, &cell_fn_vec(&cs[i]));
        push_all(&mut code, &chars_of("\n\n"));
        i += 1;
    }
    assert(cs@.take(i as int) =~= cs@);
    push_all(&mut code, &chars_of("fn main() {\n"));
    let ghost c1 = code@;
    let ghost ov = crate::graph::string_views(order@);
    let mut k: usize = 0;
    while k < order.len()
        invariant
            k <= order@.len(),
            cs@ == notebook.cells@,
            ov == crate::graph::string_views(order@),
            forall|j: int| 0 <= j < order@.len() ==> cell_index(notebook.cells@, #[trigger] order@[j]@) is Some,
            code@ == c1 + main_blocks(notebook.cells@, ov.take(k as int)),
        decreases order@.len() - k,
    {
        assert(ov.take(k + 1).drop_last() =~= ov.take(k as int));
        assert(ov.take(k + 1).last() == order@[k as int]@);
        proof {
            lemma_cell_index(notebook.cells@, order@[k as int]@);
        }
        assert(cell_index(notebook.cells@, order@[k as int]@) is Some);
        let ci = find_cell(cs, order[k].as_str()).unwrap();
        let c = &cs[ci];
        push_all(&mut code, &run_all_block_vec(&chars_of(c.name.as_str()), &call_vec(c)));
        k += 1;
    }
    assert(ov.take(k as int) =~= ov);
    push_all(&mut code, &chars_of("}\n"));
    string_of(&code)
}

/// The program that runs `cell` alone: its parameters are read as a JSON
/// object from standard input.
pub fn generate_single_cell(notebook: &Notebook, cell: &Cell) -> (r: String)
    ensures
        r@ == single_text(*notebook, *cell),
{
    let mut code = prelude_vec(notebook);
    push_all(&mut code, &chars_of("use gag::BufferRedirect;\nuse std::io::{self, Read};\n\n"));
    push_all(&mut code, &cell_fn_vec(cell));
    push_all(&mut code, &chars_of("\n\n"));
    push_all(&mut code, &chars_of("fn main() {\n"));
    push_all(&mut code, &deps_read_vec());
    let ps = &cell.params;
    let ghost c0 = code@;
    let mut i: usize = 0;
    while i < ps.len()
        invariant
            i <= ps@.len(),
            code@ == c0 + param_lines(ps@.take(i as int)),
        decreases ps@.len() - i,
    {
        assert(ps@.take(i + 1).drop_last() =~= ps@.take(i as int));
        push_all(&mut code, &param_line_vec(&chars_of(ps[i].name.as_str()), &chars_of(ps[i].inner_ty.as_str())));
        i += 1;
    }
    assert(ps@.take(i as int) =~= ps@);
    push_all(&mut code, &single_tail_vec(&chars_of(cell.name.as_str()), &call_vec(cell)));
    push_all(&mut code, &chars_of("}\n"));
    string_of(&code)
}

} // verus!
