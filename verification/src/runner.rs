//! The side of running a notebook that is not the program itself: the
//! checks before a run, the names of the build directories, and reading
//! the marker protocol that the generated programs print.

use vstd::prelude::*;
use vstd::utf8::encode_utf8;
use vstd::string::StringSliceAdditionalSpecFns;
use crate::graph::{diag_views, DependencyGraph};
use crate::diagnose::{DiagView, Severity};
use crate::json::{clone_value, json_reads, json_text_of, null_value, read_json_value, value_json, JsonValue};
use crate::notebook::{cell_index, find_cell, lemma_cell_index, Notebook, Param};
use crate::session::CellOutput;
use crate::text::{chars_of, lines, push_all, slice_chars, split_lines, starts_with, starts_with_vec, string_of, views};

verus! {

// ---------------------------------------------------------------------------
// Hashes
// ---------------------------------------------------------------------------

/// The SHA-256 digest of `data`.
pub uninterp spec fn sha256_of(data: Seq<u8>) -> Seq<u8>;

/// `Sha256::digest` (sha2): the 32-byte SHA-256 digest of `data`. Claimed:
/// the digest depends on `data` alone (named `sha256_of`) and has 32 bytes.
#[verifier::external_body]
fn sha256(data: &[u8]) -> (r: Vec<u8>)
    ensures
        r@ == sha256_of(data@),
        r@.len() == 32,
{
    <sha2::Sha256 as sha2::Digest>::digest(data).to_vec()
}

/// The lowercase hexadecimal digit for `d < 16`.
pub open spec fn hex_digit(d: int) -> char {
    if d < 10 { (48 + d) as char } else { (87 + d) as char }
}

/// Two lowercase hexadecimal digits per byte, high nibble first.
pub open spec fn hex_of(bytes: Seq<u8>) -> Seq<char>
    decreases bytes.len(),
{
    if bytes.len() == 0 {
        seq![]
    } else {
        hex_of(bytes.drop_last()) + seq![hex_digit(bytes.last() as int / 16), hex_digit(bytes.last() as int % 16)]
    }
}

/// `hex::encode`: each byte as two lowercase hexadecimal digits, high
/// nibble first (the crate's `HEX_CHARS_LOWER` table).
#[verifier::external_body]
fn hex_encode(data: &[u8]) -> (r: String)
    ensures
        r@ == hex_of(data@),
{
    hex::encode(data)
}

/// The short hash of a text: the first 8 bytes of the SHA-256 digest of its
/// UTF-8 bytes, in hexadecimal.
pub open spec fn short_hash_of(s: Seq<char>) -> Seq<char> {
    hex_of(sha256_of(encode_utf8(s)).take(8))
}

/// The short hash of `s` (16 hexadecimal digits).
pub fn short_hash(s: &str) -> (r: String)
    ensures
        r@ == short_hash_of(s@),
{
    let d = sha256(s.as_bytes());
    let head = slice_u8(&d, 8);
    assert(head@ =~= d@.take(8));
    hex_encode(head.as_slice())
}

fn slice_u8(v: &Vec<u8>, n: usize) -> (r: Vec<u8>)
    requires
        n <= v@.len(),
    ensures
        r@ == v@.take(n as int),
{
    let mut r: Vec<u8> = Vec::new();
    let mut i: usize = 0;
    while i < n
        invariant
            n <= v@.len(),
            i <= n,
            r@ == v@.take(i as int),
        decreases n - i,
    {
        r.push(v[i]);
        assert(v@.take(i + 1) =~= v@.take(i as int).push(v@[i as int]));
        i += 1;
    }
    r
}

/// The hash of a value: the short hash of its JSON text.
pub fn hash_value(v: &JsonValue) -> (r: String)
    ensures
        r@ == short_hash_of(json_text_of(v@)),
{
    let t = match value_json(v) {
        Ok(t) => t,
        Err(_) => String::new(),
    };
    short_hash(t.as_str())
}

// ---------------------------------------------------------------------------
// Reading the marker protocol
// ---------------------------------------------------------------------------

/// The string a JSON text denotes, when it is a JSON string.
pub uninterp spec fn json_string_value(t: Seq<char>) -> Option<Seq<char>>;

/// `serde_json::from_str::<String>`: claimed to depend on the text alone
/// (named `json_string_value`).
#[verifier::external_body]
fn parse_json_string(t: &str) -> (r: Option<String>)
    ensures
        r matches Some(s) ==> json_string_value(t@) == Some(s@),
        r is None ==> json_string_value(t@) is None,
{
    serde_json::from_str::<String>(t).ok()
}

/// What has been read of the protocol so far: the cell being read, its
/// captured output, the text of its value (`null` until a readable value
/// line), and the cells done as (name, stdout, stderr, value text).
pub struct Scan {
    pub current: Option<Seq<char>>,
    pub out: Seq<char>,
    pub err: Seq<char>,
    pub value: Seq<char>,
    pub done: Seq<(Seq<char>, Seq<char>, Seq<char>, Seq<char>)>,
}

pub open spec fn string_or_empty(o: Option<Seq<char>>) -> Seq<char> {
    match o {
        Some(s) => s,
        None => seq![],
    }
}

/// `rest` without a trailing `___`.
pub open spec fn cell_marker_name(rest: Seq<char>) -> Seq<char> {
    let suffix = "___"@;
    if rest.len() >= suffix.len() && rest.skip(rest.len() - suffix.len()) == suffix {
        rest.take(rest.len() - suffix.len())
    } else {
        rest
    }
}

/// One line of the protocol read.
pub open spec fn scan_line(st: Scan, l: Seq<char>) -> Scan {
    let start = "___LABRS_CELL_START___"@;
    let value = "___LABRS_VALUE___"@;
    let stdout = "___LABRS_STDOUT___"@;
    let stderr = "___LABRS_STDERR___"@;
    let end = "___LABRS_CELL_END___"@;
    if starts_with(l, start) {
        Scan { current: Some(cell_marker_name(l.skip(start.len() as int))), out: seq![], err: seq![], value: "null"@, done: st.done }
    } else if starts_with(l, value) {
        let t = l.skip(value.len() as int);
        Scan { current: st.current, out: st.out, err: st.err, value: if json_reads(t) { t } else { "null"@ }, done: st.done }
    } else if starts_with(l, stdout) {
        Scan { current: st.current, out: string_or_empty(json_string_value(l.skip(stdout.len() as int))), err: st.err, value: st.value, done: st.done }
    } else if starts_with(l, stderr) {
        Scan { current: st.current, out: st.out, err: string_or_empty(json_string_value(l.skip(stderr.len() as int))), value: st.value, done: st.done }
    } else if starts_with(l, end) {
        match st.current {
            Some(n) => Scan { current: None, out: st.out, err: st.err, value: st.value, done: st.done.push((n, st.out, st.err, st.value)) },
            None => st,
        }
    } else {
        st
    }
}

pub open spec fn scan_lines(ls: Seq<Seq<char>>) -> Scan
    decreases ls.len(),
{
    if ls.len() == 0 {
        Scan { current: None, out: seq![], err: seq![], value: "null"@, done: seq![] }
    } else {
        scan_line(scan_lines(ls.drop_last()), ls.last())
    }
}

fn rest_after(l: &Vec<char>, p: &Vec<char>) -> (r: Vec<char>)
    requires
        starts_with(l@, p@),
    ensures
        r@ == l@.skip(p@.len() as int),
{
    let r = slice_chars(l, p.len(), l.len());
    assert(r@ =~= l@.skip(p@.len() as int));
    r
}

fn marker_name(rest: &Vec<char>) -> (r: Vec<char>)
    ensures
        r@ == cell_marker_name(rest@),
{
    let suffix = chars_of("___");
    if rest.len() >= suffix.len() {
        let tail = slice_chars(rest, rest.len() - suffix.len(), rest.len());
        assert(tail@ =~= rest@.skip(rest@.len() - suffix@.len()));
        if crate::source_util::eq_vec(&tail, &suffix) {
            let r = slice_chars(rest, 0, rest.len() - suffix.len());
            assert(r@ =~= rest@.take(rest@.len() - suffix@.len()));
            return r;
        }
    }
    slice_chars_all(rest)
}

fn slice_chars_all(v: &Vec<char>) -> (r: Vec<char>)
    ensures
        r@ == v@,
{
    let r = slice_chars(v, 0, v.len());
    assert(r@ =~= v@);
    r
}

/// The outputs printed by a generated program: one per cell whose start
/// and end markers were read, with the captured output and the value
/// printed between them (its hash the short hash of its JSON text). A
/// value that cannot be read is `null`.
pub fn parse_all_cells(stdout: &str) -> (r: Vec<CellOutput>)
    ensures
        r@.len() == scan_lines(lines(stdout@)).done.len(),
        forall|k: int| 0 <= k < r@.len() ==> {
            let d = scan_lines(lines(stdout@)).done[k];
            &&& (#[trigger] r@[k]).cell@ == d.0
            &&& r@[k].stdout@ == d.1
            &&& r@[k].stderr@ == d.2
            &&& r@[k].success
            &&& r@[k].error is None
            &&& r@[k].value@ == d.3
            &&& r@[k].value_hash@ == short_hash_of(json_text_of(d.3))
        },
{
    let ls = split_lines(&chars_of(stdout));
    let ghost lv = views(ls@);
    let p_start = chars_of("___LABRS_CELL_START___");
    let p_value = chars_of("___LABRS_VALUE___");
    let p_stdout = chars_of("___LABRS_STDOUT___");
    let p_stderr = chars_of("___LABRS_STDERR___");
    let p_end = chars_of("___LABRS_CELL_END___");
    let mut outputs: Vec<CellOutput> = Vec::new();
    let mut current: Option<Vec<char>> = None;
    let mut value = null_value();
    let mut cell_stdout: Vec<char> = Vec::new();
    let mut cell_stderr: Vec<char> = Vec::new();
    let mut i: usize = 0;
    while i < ls.len()
        invariant
            i <= ls@.len(),
            lv == views(ls@),
            lv == lines(stdout@),
            p_start@ == "___LABRS_CELL_START___"@,
            p_value@ == "___LABRS_VALUE___"@,
            p_stdout@ == "___LABRS_STDOUT___"@,
            p_stderr@ == "___LABRS_STDERR___"@,
            p_end@ == "___LABRS_CELL_END___"@,
            ({
                let st = scan_lines(lv.take(i as int));
                &&& (match current { Some(c) => st.current == Some(c@), None => st.current is None })
                &&& st.out == cell_stdout@
                &&& st.err == cell_stderr@
                &&& st.value == value@
                &&& outputs@.len() == st.done.len()
                &&& forall|k: int| 0 <= k < outputs@.len() ==> {
                    &&& (#[trigger] outputs@[k]).cell@ == st.done[k].0
                    &&& outputs@[k].stdout@ == st.done[k].1
                    &&& outputs@[k].stderr@ == st.done[k].2
                    &&& outputs@[k].success
                    &&& outputs@[k].error is None
                    &&& outputs@[k].value@ == st.done[k].3
                    &&& outputs@[k].value_hash@ == short_hash_of(json_text_of(st.done[k].3))
                }
            }),
        decreases ls@.len() - i,
    {
        assert(lv.take(i + 1).drop_last() =~= lv.take(i as int));
        assert(lv.take(i + 1).last() == ls@[i as int]@);
        let l = &ls[i];
        if starts_with_vec(l, &p_start) {
            let rest = rest_after(l, &p_start);
            current = Some(marker_name(&rest));
            value = null_value();
            cell_stdout = Vec::new();
            cell_stderr = Vec::new();
        } else if starts_with_vec(l, &p_value) {
            let rest = rest_after(l, &p_value);
            value = match read_json_value(string_of(&rest).as_str()) {
                Some(v) => v,
                None => null_value(),
            };
        } else if starts_with_vec(l, &p_stdout) {
            let rest = rest_after(l, &p_stdout);
            cell_stdout = match parse_json_string(string_of(&rest).as_str()) {
                Some(s) => chars_of(s.as_str()),
                None => Vec::new(),
            };
        } else if starts_with_vec(l, &p_stderr) {
            let rest = rest_after(l, &p_stderr);
            cell_stderr = match parse_json_string(string_of(&rest).as_str()) {
                Some(s) => chars_of(s.as_str()),
                None => Vec::new(),
            };
        } else if starts_with_vec(l, &p_end) {
            match current {
                Some(name) => {
                    let value_hash = hash_value(&value);
                    outputs.push(CellOutput {
                        cell: string_of(&name),
                        value: clone_value(&value),
                        stdout: string_of(&cell_stdout),
                        stderr: string_of(&cell_stderr),
                        success: true,
                        error: None,
                        value_hash,
                    });
                    current = None;
                },
                None => {},
            }
        }
        i += 1;
    }
    assert(lv.take(i as int) =~= lv);
    outputs
}

// ---------------------------------------------------------------------------
// Before a run
// ---------------------------------------------------------------------------

/// The first parameter of `ps` that is not among `given`.
pub open spec fn first_missing(ps: Seq<Param>, given: Seq<Seq<char>>) -> Option<int>
    decreases ps.len(),
{
    if ps.len() == 0 {
        None
    } else {
        match first_missing(ps.drop_last(), given) {
            Some(k) => Some(k),
            None => if given.contains(ps.last().name@) { None } else { Some(ps.len() - 1) },
        }
    }
}

proof fn lemma_first_missing_prefix(ps: Seq<Param>, given: Seq<Seq<char>>, n: int)
    requires
        0 <= n <= ps.len(),
        first_missing(ps.take(n), given) is Some,
    ensures
        first_missing(ps, given) == first_missing(ps.take(n), given),
    decreases ps.len() - n,
{
    if n < ps.len() {
        assert(ps.take(n + 1).drop_last() =~= ps.take(n));
        lemma_first_missing_prefix(ps, given, n + 1);
    } else {
        assert(ps.take(n) =~= ps);
    }
}

/// The program that runs cell `cell_name` alone, given the names of the
/// values at hand: fails when the cell is unknown, or at the first
/// parameter without a value.
pub fn single_cell_program(notebook: &Notebook, cell_name: &str, given: &Vec<String>) -> (r: Result<String, String>)
    ensures
        cell_index(notebook.cells@, cell_name@) is None ==> (r matches Err(e) && e@ == "unknown cell `"@ + cell_name@ + "`"@),
        cell_index(notebook.cells@, cell_name@) matches Some(i) ==> {
            let c = notebook.cells@[i];
            match first_missing(c.params@, crate::graph::string_views(given@)) {
                Some(k) => r matches Err(e) && e@ == "cell `"@ + cell_name@ + "` requires dependency `"@ + c.params@[k].name@ + "` to have been run first"@,
                None => r matches Ok(t) && t@ == crate::codegen::single_text(*notebook, c),
            }
        },
{
    proof {
        lemma_cell_index(notebook.cells@, cell_name@);
    }
    let i = match find_cell(&notebook.cells, cell_name) {
        Some(i) => i,
        None => {
            let mut m = chars_of("unknown cell `");
            push_all(&mut m, &chars_of(cell_name));
            push_all(&mut m, &chars_of("`"));
            return Err(string_of(&m));
        },
    };
    let c = &notebook.cells[i];
    let ghost gv = crate::graph::string_views(given@);
    let mut k: usize = 0;
    while k < c.params.len()
        invariant
            i < notebook.cells@.len(),
            cell_index(notebook.cells@, cell_name@) == Some(i as int),
            *c == notebook.cells@[i as int],
            gv == crate::graph::string_views(given@),
            k <= c.params@.len(),
            first_missing(c.params@.take(k as int), gv) is None,
        decreases c.params@.len() - k,
    {
        assert(c.params@.take(k + 1).drop_last() =~= c.params@.take(k as int));
        if !crate::deps::contains_string(given, &c.params[k].name) {
            proof {
                lemma_first_missing_prefix(c.params@, gv, k as int + 1);
            }
            let mut m = chars_of("cell `");
            push_all(&mut m, &chars_of(cell_name));
            push_all(&mut m, &chars_of("` requires dependency `"));
            push_all(&mut m, &chars_of(c.params[k].name.as_str()));
            push_all(&mut m, &chars_of("` to have been run first"));
            return Err(string_of(&m));
        }
        k += 1;
    }
    assert(c.params@.take(k as int) =~= c.params@);
    Ok(crate::codegen::generate_single_cell(notebook, c))
}

/// The pieces of `ms` joined with `sep` between neighbours.
fn join_strings(ms: &Vec<String>, sep: &str) -> (r: String)
    ensures
        r@ == crate::text::join(crate::graph::string_views(ms@), sep@),
{
    let mut parts: Vec<Vec<char>> = Vec::new();
    let mut i: usize = 0;
    while i < ms.len()
        invariant
            i <= ms@.len(),
            views(parts@) == crate::graph::string_views(ms@).take(i as int),
        decreases ms@.len() - i,
    {
        let ghost v0 = views(parts@);
        parts.push(chars_of(ms[i].as_str()));
        assert(views(parts@) =~= v0.push(ms@[i as int]@));
        assert(crate::graph::string_views(ms@).take(i + 1) =~= crate::graph::string_views(ms@).take(i as int).push(ms@[i as int]@));
        i += 1;
    }
    assert(crate::graph::string_views(ms@).take(i as int) =~= crate::graph::string_views(ms@));
    string_of(&crate::text::join_vec(&parts, &chars_of(sep)))
}

/// Why a notebook with errors cannot run: every error message, one per line.
pub fn validation_message(graph: &DependencyGraph) -> (r: String)
    ensures
        r@ == "notebook validation failed:\n  - "@ + crate::text::join(
            diag_views(graph.diagnostics@).filter(|d: DiagView| d.0 == Severity::Error).map_values(|d: DiagView| d.1),
            "\n  - "@,
        ),
{
    let errs = graph.errors();
    let mut msgs: Vec<String> = Vec::new();
    let mut i: usize = 0;
    while i < errs.len()
        invariant
            i <= errs@.len(),
            crate::graph::string_views(msgs@) == diag_views(errs@).take(i as int).map_values(|d: DiagView| d.1),
        decreases errs@.len() - i,
    {
        msgs.push(errs[i].message.clone());
        assert(diag_views(errs@).take(i + 1).map_values(|d: DiagView| d.1) =~= diag_views(errs@).take(i as int).map_values(|d: DiagView| d.1).push(errs@[i as int].message@));
        assert(crate::graph::string_views(msgs@) =~= crate::graph::string_views(msgs@).drop_last().push(errs@[i as int].message@));
        i += 1;
    }
    assert(diag_views(errs@).take(i as int) =~= diag_views(errs@));
    let mut m = chars_of("notebook validation failed:\n  - ");
    push_all(&mut m, &chars_of(join_strings(&msgs, "\n  - ").as_str()));
    string_of(&m)
}

// ---------------------------------------------------------------------------
// Build directories
// ---------------------------------------------------------------------------

/// How a notebook is run: whether it is formatted first, and where the
/// generated projects are kept (a fresh temporary directory when `None`).
pub struct ExecuteOptions {
    pub rustfmt: bool,
    pub cache_dir: Option<std::path::PathBuf>,
}

impl Default for ExecuteOptions {
    fn default() -> (r: ExecuteOptions)
        ensures
            !r.rustfmt,
            r.cache_dir is None,
    {
        ExecuteOptions { rustfmt: false, cache_dir: None }
    }
}

/// The directory, under the cache, of the project that runs every cell.
pub fn runner_dir_name(notebook_source: &str) -> (r: String)
    ensures
        r@ == "run_all_"@ + short_hash_of(notebook_source@),
{
    let mut v = chars_of("run_all_");
    push_all(&mut v, &chars_of(short_hash(notebook_source).as_str()));
    string_of(&v)
}

/// The directory, under the cache, of the project that runs cell `name`.
pub fn cell_dir_name(notebook_source: &str, name: &str) -> (r: String)
    ensures
        r@ == "cell_"@ + name@ + "_"@ + short_hash_of(notebook_source@ + ":"@ + name@),
{
    let mut key = chars_of(notebook_source);
    push_all(&mut key, &chars_of(":"));
    push_all(&mut key, &chars_of(name));
    let h = short_hash(string_of(&key).as_str());
    let mut v = chars_of("cell_");
    push_all(&mut v, &chars_of(name));
    push_all(&mut v, &chars_of("_"));
    push_all(&mut v, &chars_of(h.as_str()));
    string_of(&v)
}

/// The manifest of a generated project named `name`.
pub fn cargo_toml_text(name: &str) -> (r: String)
    ensures
        r@ == "[workspace]\n\n[package]\nname = \""@ + name@
            + "\"\nversion = \"0.1.0\"\nedition = \"2021\"\n\n[dependencies]\nserde = { version = \"1\", features = [\"derive\"] }\nserde_json = \"1\"\ngag = \"1\"\n"@,
{
    let mut v = chars_of("[workspace]\n\n[package]\nname = \"");
    push_all(&mut v, &chars_of(name));
    push_all(&mut v, &chars_of("\"\nversion = \"0.1.0\"\nedition = \"2021\"\n\n[dependencies]\nserde = { version = \"1\", features = [\"derive\"] }\nserde_json = \"1\"\ngag = \"1\"\n"));
    string_of(&v)
}

/// A freshly parsed notebook and its dependency graph.
pub fn reload_notebook(nb: Notebook) -> (r: (Notebook, DependencyGraph))
    requires
        crate::notebook::unique_names(nb.cells@),
    ensures
        r.0 == nb,
        crate::graph::edge_views(r.1.edges@) == crate::graph::graph_edges(nb.cells@),
        r.1.levels@.len() == crate::graph::kahn_levels(nb.cells@).len(),
        forall|i: int| 0 <= i < r.1.levels@.len() ==> crate::graph::string_views(#[trigger] r.1.levels@[i]@) == crate::graph::names_of(nb.cells@, crate::graph::kahn_levels(nb.cells@)[i]),
        crate::graph::string_views(r.1.order@) == crate::graph::names_of(nb.cells@, crate::graph::topo_order(nb.cells@)),
        diag_views(r.1.diagnostics@) == crate::graph::graph_diagnostics(nb.cells@),
{
    let g = crate::graph::build_graph(&nb);
    (nb, g)
}

/// The output recorded for a cell when the program that runs it failed:
/// what it printed, no value, and the error `execution failed:` followed by
/// its standard error.
pub fn runner_failed(cell: &str, stdout: String, stderr: String) -> (r: CellOutput)
    ensures
        r.cell@ == cell@,
        r.value@ == "null"@,
        r.stdout@ == stdout@,
        r.stderr@ == stderr@,
        !r.success,
        r.error matches Some(e) && e@ == "execution failed:\n"@ + stderr@,
        r.value_hash@ == short_hash_of(json_text_of("null"@)),
{
    let mut e = chars_of("execution failed:\n");
    push_all(&mut e, &chars_of(stderr.as_str()));
    let value = null_value();
    let value_hash = hash_value(&value);
    CellOutput {
        cell: string_of(&chars_of(cell)),
        value,
        stdout,
        stderr,
        success: false,
        error: Some(string_of(&e)),
        value_hash,
    }
}

/// The index of the first output of `cell` among `outs`.
pub open spec fn first_output_of(outs: Seq<CellOutput>, cell: Seq<char>) -> Option<int>
    decreases outs.len(),
{
    if outs.len() == 0 {
        None
    } else {
        match first_output_of(outs.drop_last(), cell) {
            Some(i) => Some(i),
            None => if outs.last().cell@ == cell { Some(outs.len() - 1) } else { None },
        }
    }
}

/// The output of `cell` from what a run printed: the first of the parsed
/// outputs that is `cell`'s, or, when there is none, a failure with what
/// the run printed and the error `could not parse cell output protocol`.
#[verifier::loop_isolation(false)]
pub fn select_output(parsed: Vec<CellOutput>, cell: &str, stdout: String, stderr: String) -> (r: CellOutput)
    ensures
        match first_output_of(parsed@, cell@) {
            Some(i) => r == parsed@[i],
            None => {
                &&& r.cell@ == cell@
                &&& r.value@ == "null"@
                &&& r.stdout@ == stdout@
                &&& r.stderr@ == stderr@
                &&& !r.success
                &&& r.error matches Some(e) && e@ == "could not parse cell output protocol"@
                &&& r.value_hash@ == short_hash_of(json_text_of("null"@))
            },
        },
{
    let ghost all = parsed@;
    let mut parsed = parsed;
    let mut i: usize = 0;
    let n = parsed.len();
    while i < n
        invariant
            n == all.len(),
            i <= n,
            parsed@ == all,
            first_output_of(all.take(i as int), cell@) is None,
        decreases n - i,
    {
        assert(all.take(i + 1).drop_last() =~= all.take(i as int));
        assert(all.take(i + 1).last() == all[i as int]);
        if crate::notebook::str_eq(parsed[i].cell.as_str(), cell) {
            proof {
                assert(first_output_of(all.take(i + 1), cell@) == Some(i as int));
                lemma_first_output_grows(all, cell@, i + 1);
            }
            return parsed.remove(i);
        }
        i += 1;
    }
    assert(all.take(i as int) =~= all);
    let value = null_value();
    let value_hash = hash_value(&value);
    CellOutput {
        cell: string_of(&chars_of(cell)),
        value,
        stdout,
        stderr,
        success: false,
        error: Some(string_of(&chars_of("could not parse cell output protocol"))),
        value_hash,
    }
}

proof fn lemma_first_output_grows(outs: Seq<CellOutput>, cell: Seq<char>, m: int)
    requires
        0 <= m <= outs.len(),
        first_output_of(outs.take(m), cell) is Some,
    ensures
        first_output_of(outs, cell) == first_output_of(outs.take(m), cell),
    decreases outs.len() - m,
{
    if m < outs.len() {
        assert(outs.take(m + 1).drop_last() =~= outs.take(m));
        lemma_first_output_grows(outs, cell, m + 1);
    } else {
        assert(outs.take(m) =~= outs);
    }
}

} // verus!
