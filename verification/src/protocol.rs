//! The messages between the notebook UI and the server, the details of
//! each item that the UI shows, and the small decisions taken on a message
//! before the session acts on it.

use vstd::prelude::*;
use crate::notebook::{Cell, Helper, MarkdownCell, Notebook, Param, SharedDef};
use crate::session::{AddKind, MoveDirection};
use crate::source_util::{stripped_source, strip_labrs_attrs};
use crate::text::{chars_of, push_all, string_of, trim, trim_start_char, trim_vec, trim_start_char_vec};

verus! {

/// A message from the UI.
#[derive(Debug)]
pub enum ClientMessage {
    GetState,
    EditCell { name: String, source: String },
    EditHelper { name: String, source: String },
    EditDefinition { name: String, source: String },
    EditPreamble { source: String },
    EditMarkdown { name: String, content: String },
    /// Append or insert after an existing item.
    AddItem {
        kind: String,
        /// Optional: insert after this item (`after_kind` + `after_name`).
        after_kind: Option<String>,
        after_name: Option<String>,
    },
    ChangeKind { name: String, from: String, to: String },
    DeleteItem { kind: String, name: String },
    MoveItem { kind: String, name: String, direction: String },
    RunCell { name: String },
    SetAuto { enabled: bool },
    RunAll,
    Reload,
}

#[derive(Debug)]
pub struct ParamDetail {
    pub name: String,
    pub ty: String,
}

#[derive(Debug)]
pub struct CellDetail {
    pub name: String,
    pub source: String,
    pub docs: Option<String>,
    pub return_type: String,
    pub params: Vec<ParamDetail>,
}

#[derive(Debug)]
pub struct HelperDetail {
    pub name: String,
    pub source: String,
    pub docs: Option<String>,
}

#[derive(Debug)]
pub struct MarkdownDetail {
    pub name: String,
    pub content: String,
    pub source: String,
}

#[derive(Debug)]
pub struct DefinitionDetail {
    pub name: String,
    pub kind: String,
    pub source: String,
}

fn copy_opt(o: &Option<String>) -> (r: Option<String>)
    ensures
        r == *o,
{
    match o {
        Some(s) => Some(s.clone()),
        None => None,
    }
}

/// What the UI shows of each cell: its source without labrs attributes,
/// docs, return type and parameters.
pub fn cell_details(nb: &Notebook) -> (r: Vec<CellDetail>)
    ensures
        r@.len() == nb.cells@.len(),
        forall|i: int| 0 <= i < r@.len() ==> {
            let c = nb.cells@[i];
            let d = #[trigger] r@[i];
            &&& d.name@ == c.name@
            &&& d.source@ == stripped_source(c.source@)
            &&& d.docs == c.docs
            &&& d.return_type@ == c.return_type@
            &&& d.params@.len() == c.params@.len()
            &&& forall|k: int| 0 <= k < d.params@.len() ==> (#[trigger] d.params@[k]).name@ == c.params@[k].name@ && d.params@[k].ty@ == c.params@[k].ty@
        },
{
    let mut r: Vec<CellDetail> = Vec::new();
    let mut i: usize = 0;
    while i < nb.cells.len()
        invariant
            i <= nb.cells@.len(),
            r@.len() == i,
            forall|j: int| 0 <= j < i ==> {
                let c = nb.cells@[j];
                let d = #[trigger] r@[j];
                &&& d.name@ == c.name@
                &&& d.source@ == stripped_source(c.source@)
                &&& d.docs == c.docs
                &&& d.return_type@ == c.return_type@
                &&& d.params@.len() == c.params@.len()
                &&& forall|k: int| 0 <= k < d.params@.len() ==> (#[trigger] d.params@[k]).name@ == c.params@[k].name@ && d.params@[k].ty@ == c.params@[k].ty@
            },
        decreases nb.cells@.len() - i,
    {
        let c = &nb.cells[i];
        let mut ps: Vec<ParamDetail> = Vec::new();
        let mut k: usize = 0;
        while k < c.params.len()
            invariant
                k <= c.params@.len(),
                ps@.len() == k,
                forall|j: int| 0 <= j < k ==> (#[trigger] ps@[j]).name@ == c.params@[j].name@ && ps@[j].ty@ == c.params@[j].ty@,
            decreases c.params@.len() - k,
        {
            ps.push(ParamDetail { name: c.params[k].name.clone(), ty: c.params[k].ty.clone() });
            k += 1;
        }
        r.push(CellDetail {
            name: c.name.clone(),
            source: strip_labrs_attrs(c.source.as_str()),
            docs: copy_opt(&c.docs),
            return_type: c.return_type.clone(),
            params: ps,
        });
        i += 1;
    }
    r
}

/// What the UI shows of each helper: its source without labrs attributes.
pub fn helper_details(nb: &Notebook) -> (r: Vec<HelperDetail>)
    ensures
        r@.len() == nb.helpers@.len(),
        forall|i: int| 0 <= i < r@.len() ==> {
            let h = nb.helpers@[i];
            let d = #[trigger] r@[i];
            d.name@ == h.name@ && d.source@ == stripped_source(h.source@) && d.docs == h.docs
        },
{
    let mut r: Vec<HelperDetail> = Vec::new();
    let mut i: usize = 0;
    while i < nb.helpers.len()
        invariant
            i <= nb.helpers@.len(),
            r@.len() == i,
            forall|j: int| 0 <= j < i ==> {
                let h = nb.helpers@[j];
                let d = #[trigger] r@[j];
                d.name@ == h.name@ && d.source@ == stripped_source(h.source@) && d.docs == h.docs
            },
        decreases nb.helpers@.len() - i,
    {
        let h = &nb.helpers[i];
        r.push(HelperDetail { name: h.name.clone(), source: strip_labrs_attrs(h.source.as_str()), docs: copy_opt(&h.docs) });
        i += 1;
    }
    r
}

/// What the UI shows of each markdown cell.
pub fn markdown_details(nb: &Notebook) -> (r: Vec<MarkdownDetail>)
    ensures
        r@.len() == nb.markdown@.len(),
        forall|i: int| 0 <= i < r@.len() ==> {
            let m = nb.markdown@[i];
            let d = #[trigger] r@[i];
            d.name@ == m.name@ && d.content@ == m.content@ && d.source@ == m.source@
        },
{
    let mut r: Vec<MarkdownDetail> = Vec::new();
    let mut i: usize = 0;
    while i < nb.markdown.len()
        invariant
            i <= nb.markdown@.len(),
            r@.len() == i,
            forall|j: int| 0 <= j < i ==> {
                let m = nb.markdown@[j];
                let d = #[trigger] r@[j];
                d.name@ == m.name@ && d.content@ == m.content@ && d.source@ == m.source@
            },
        decreases nb.markdown@.len() - i,
    {
        let m = &nb.markdown[i];
        r.push(MarkdownDetail { name: m.name.clone(), content: m.content.clone(), source: m.source.clone() });
        i += 1;
    }
    r
}

/// What the UI shows of each shared definition.
pub fn definition_details(nb: &Notebook) -> (r: Vec<DefinitionDetail>)
    ensures
        r@.len() == nb.definitions@.len(),
        forall|i: int| 0 <= i < r@.len() ==> {
            let s = nb.definitions@[i];
            let d = #[trigger] r@[i];
            d.name@ == s.name@ && d.kind@ == s.kind@ && d.source@ == s.source@
        },
{
    let mut r: Vec<DefinitionDetail> = Vec::new();
    let mut i: usize = 0;
    while i < nb.definitions.len()
        invariant
            i <= nb.definitions@.len(),
            r@.len() == i,
            forall|j: int| 0 <= j < i ==> {
                let s = nb.definitions@[j];
                let d = #[trigger] r@[j];
                d.name@ == s.name@ && d.kind@ == s.kind@ && d.source@ == s.source@
            },
        decreases nb.definitions@.len() - i,
    {
        let s = &nb.definitions[i];
        r.push(DefinitionDetail { name: s.name.clone(), kind: s.kind.clone(), source: s.source.clone() });
        i += 1;
    }
    r
}

pub open spec fn opt_str(o: Option<String>) -> Option<Seq<char>> {
    match o {
        Some(x) => Some(x@),
        None => None,
    }
}

/// Where an `AddItem` message puts the new item: `None` at the end, the
/// start (`__start__` as either part), or after the item named; the two
/// parts must be both given or both omitted.
pub open spec fn after_spec(ak: Option<Seq<char>>, an: Option<Seq<char>>) -> Result<Option<(AddKind, Seq<char>)>, Seq<char>> {
    if ak is None && an is None {
        Ok(None)
    } else if ak == Some("__start__"@) || an == Some("__start__"@) {
        Ok(Some((AddKind::Cell, "__start__"@)))
    } else {
        match (ak, an) {
            (Some(k), Some(n)) => match AddKind::named(k) {
                Some(kind) => Ok(Some((kind, n))),
                None => Err("unknown kind `"@ + k + "`"@),
            },
            _ => Err("after_kind and after_name must both be set or both omitted"@),
        }
    }
}

pub open spec fn after_view(r: Result<Option<(AddKind, String)>, String>) -> Result<Option<(AddKind, Seq<char>)>, Seq<char>> {
    match r {
        Ok(Some((k, n))) => Ok(Some((k, n@))),
        Ok(None) => Ok(None),
        Err(e) => Err(e@),
    }
}

pub fn parse_after(after_kind: &Option<String>, after_name: &Option<String>) -> (r: Result<Option<(AddKind, String)>, String>)
    ensures
        after_view(r) == after_spec(opt_str(*after_kind), opt_str(*after_name)),
{
    let start = string_of(&chars_of("__start__"));
    let k_start = match after_kind { Some(k) => crate::notebook::str_eq(k.as_str(), start.as_str()), None => false };
    let n_start = match after_name { Some(n) => crate::notebook::str_eq(n.as_str(), start.as_str()), None => false };
    match (after_kind, after_name) {
        (None, None) => Ok(None),
        _ => {
            if k_start || n_start {
                Ok(Some((AddKind::Cell, start)))
            } else {
                match (after_kind, after_name) {
                    (Some(k), Some(n)) => match AddKind::parse(k.as_str()) {
                        Ok(kind) => Ok(Some((kind, n.clone()))),
                        Err(e) => Err(e),
                    },
                    _ => Err(string_of(&chars_of("after_kind and after_name must both be set or both omitted"))),
                }
            }
        },
    }
}

/// The direction named `up` or `down`.
pub fn parse_direction(s: &str) -> (r: Result<MoveDirection, String>)
    ensures
        s@ == "up"@ ==> r == Ok::<MoveDirection, String>(MoveDirection::Up),
        s@ == "down"@ ==> r == Ok::<MoveDirection, String>(MoveDirection::Down),
        s@ != "up"@ && s@ != "down"@ ==> (r matches Err(e) && e@ == "unknown direction `"@ + s@ + "`"@),
{
    proof {
        reveal_strlit("up");
        reveal_strlit("down");
        assert("up"@.len() == 2 && "down"@.len() == 4);
    }
    if crate::notebook::str_eq(s, "up") {
        Ok(MoveDirection::Up)
    } else if crate::notebook::str_eq(s, "down") {
        Ok(MoveDirection::Down)
    } else {
        let mut m = chars_of("unknown direction `");
        push_all(&mut m, &chars_of(s));
        push_all(&mut m, &chars_of("`"));
        Err(string_of(&m))
    }
}

/// The source of a new notebook named `stem`: a helper, a markdown cell
/// and two cells.
pub open spec fn scaffold_text(stem: Seq<char>) -> Seq<char> {
    "//! # "@ + stem + "\n//!\n//! A labrs notebook. Cells are bindings; plain functions are helpers.\n\nuse labrs::prelude::*;\n\n/// Helper: reusable logic (not a notebook binding)\nfn double(val: u16) -> u16 {\n    2 * val\n}\n\n#[labrs::markdown]\npub const intro: &str = r#\"# Welcome to labrs\n\nCells are named bindings. Helpers are plain functions.\"#;\n\n/// Input value\n#[labrs::cell]\npub fn val() -> u16 {\n    4\n}\n\n/// Report using the helper and the `val` cell\n#[labrs::cell]\npub fn report(val: &u16) -> String {\n    let double_val = double(*val);\n    let msg = format!(\"Double of {val} is {double_val}\");\n    println!(\"{msg}\");\n    msg\n}\n"@
}

pub fn scaffold_notebook(stem: &str) -> (r: String)
    ensures
        r@ == scaffold_text(stem@),
{
    let mut v = chars_of("//! # ");
    push_all(&mut v, &chars_of(stem));
    push_all(&mut v, &chars_of("\n//!\n//! A labrs notebook. Cells are bindings; plain functions are helpers.\n\nuse labrs::prelude::*;\n\n/// Helper: reusable logic (not a notebook binding)\nfn double(val: u16) -> u16 {\n    2 * val\n}\n\n#[labrs::markdown]\npub const intro: &str = r#\"# Welcome to labrs\n\nCells are named bindings. Helpers are plain functions.\"#;\n\n/// Input value\n#[labrs::cell]\npub fn val() -> u16 {\n    4\n}\n\n/// Report using the helper and the `val` cell\n#[labrs::cell]\npub fn report(val: &u16) -> String {\n    let double_val = double(*val);\n    let msg = format!(\"Double of {val} is {double_val}\");\n    println!(\"{msg}\");\n    msg\n}\n"));
    string_of(&v)
}

/// `s` without any leading `./`.
pub open spec fn trim_dot_slash(s: Seq<char>) -> Seq<char>
    decreases s.len(),
{
    if s.len() >= 2 && s[0] == '.' && s[1] == '/' {
        trim_dot_slash(s.skip(2))
    } else {
        s
    }
}

/// `s` without trailing `c`s.
pub open spec fn trim_end_char(s: Seq<char>, c: char) -> Seq<char>
    decreases s.len(),
{
    if s.len() > 0 && s.last() == c {
        trim_end_char(s.drop_last(), c)
    } else {
        s
    }
}

/// Every `\` of `s` as `/`.
pub open spec fn backslash_to_slash(s: Seq<char>) -> Seq<char> {
    s.map_values(|c: char| if c == '\\' { '/' } else { c })
}

/// A path relative to the browsing root, in a normal form: trimmed,
/// without leading `./` or surrounding `/`, with `/` separators; empty for
/// the root itself.
pub open spec fn normalized_rel(path: Seq<char>) -> Seq<char> {
    let p = trim_end_char(trim_start_char(trim_dot_slash(trim(path)), '/'), '/');
    if p.len() == 0 || p == "."@ { seq![] } else { backslash_to_slash(p) }
}

pub fn normalize_rel(path: &str) -> (r: String)
    ensures
        r@ == normalized_rel(path@),
{
    let mut s = trim_vec(&chars_of(path));
    let ghost s0 = s@;
    let mut i: usize = 0;
    assert(s0.skip(0) =~= s0);
    while i < s.len() && s.len() - i >= 2 && s[i] == '.' && s[i + 1] == '/'
        invariant
            i <= s@.len(),
            s@ == s0,
            trim_dot_slash(s0) == trim_dot_slash(s0.skip(i as int)),
        decreases s@.len() - i,
    {
        assert(s0.skip(i as int).skip(2) =~= s0.skip(i + 2));
        i += 2;
    }
    let t = crate::text::slice_chars(&s, i, s.len());
    assert(t@ =~= s0.skip(i as int));
    let u = trim_start_char_vec(&t, '/');
    let mut n = u.len();
    assert(u@.take(n as int) =~= u@);
    while n > 0 && u[n - 1] == '/'
        invariant
            n <= u@.len(),
            trim_end_char(u@, '/') == trim_end_char(u@.take(n as int), '/'),
        decreases n,
    {
        assert(u@.take(n as int).drop_last() =~= u@.take(n - 1));
        n -= 1;
    }
    let p = crate::text::slice_chars(&u, 0, n);
    assert(p@ =~= u@.take(n as int));
    if p.len() == 0 || crate::source_util::eq_vec(&p, &chars_of(".")) {
        return string_of(&Vec::new());
    }
    let mut out: Vec<char> = Vec::new();
    let mut k: usize = 0;
    while k < p.len()
        invariant
            k <= p@.len(),
            out@ == backslash_to_slash(p@.take(k as int)),
        decreases p@.len() - k,
    {
        out.push(if p[k] == '\\' { '/' } else { p[k] });
        assert(backslash_to_slash(p@.take(k + 1)) =~= backslash_to_slash(p@.take(k as int)).push(if p@[k as int] == '\\' { '/' } else { p@[k as int] }));
        k += 1;
    }
    assert(p@.take(k as int) =~= p@);
    string_of(&out)
}

} // verus!
