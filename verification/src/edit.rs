//! Textual edits of a notebook's source: locating an item's span and
//! appending, inserting or replacing items.

use vstd::prelude::*;
use crate::text::{
    chars_of, ends_with_char, find, find_from, find_from_vec, find_vec, lemma_find_from, matches_at, matches_at_vec, push_all,
    slice_chars, starts_with, starts_with_vec, string_of, trim, trim_end, trim_end_vec,
    trim_start, trim_start_char, trim_start_char_vec, trim_start_vec, trim_vec,
};
use crate::notebook::Cell;
use crate::json::json_string_literal;

verus! {

/// Why an edit of the notebook source failed.
#[derive(Debug, Clone, PartialEq, Eq)]
pub enum EditError {
    /// `function `<name>` not found`
    FunctionNotFound(String),
    /// `markdown const `<name>` not found`
    MarkdownNotFound(String),
    /// `markdown const missing `;``
    MissingSemicolon,
    /// `unknown item kind `<kind>``
    UnknownKind(String),
    /// `could not locate item `<name>` in notebook source`
    ItemNotFound(String),
}

/// An edit error as plain values.
pub enum EditErr {
    FunctionNotFound(Seq<char>),
    MarkdownNotFound(Seq<char>),
    MissingSemicolon,
    UnknownKind(Seq<char>),
    ItemNotFound(Seq<char>),
}

impl EditError {
    pub open spec fn view_of(self) -> EditErr {
        match self {
            EditError::FunctionNotFound(n) => EditErr::FunctionNotFound(n@),
            EditError::MarkdownNotFound(n) => EditErr::MarkdownNotFound(n@),
            EditError::MissingSemicolon => EditErr::MissingSemicolon,
            EditError::UnknownKind(k) => EditErr::UnknownKind(k@),
            EditError::ItemNotFound(n) => EditErr::ItemNotFound(n@),
        }
    }
}

pub open spec fn err_message(e: EditErr) -> Seq<char> {
    match e {
        EditErr::FunctionNotFound(n) => "function `"@ + n + "` not found"@,
        EditErr::MarkdownNotFound(n) => "markdown const `"@ + n + "` not found"@,
        EditErr::MissingSemicolon => "markdown const missing `;`"@,
        EditErr::UnknownKind(k) => "unknown item kind `"@ + k + "`"@,
        EditErr::ItemNotFound(n) => "could not locate item `"@ + n + "` in notebook source"@,
    }
}

/// The result of an edit as plain values.
pub open spec fn result_view(r: Result<String, EditError>) -> Result<Seq<char>, EditErr> {
    match r {
        Ok(s) => Ok(s@),
        Err(e) => Err(e.view_of()),
    }
}

fn quoted(pre: &str, x: &[char], post: &str) -> (r: String)
    ensures
        r@ == pre@ + x@ + post@,
{
    let mut v = chars_of(pre);
    push_all(&mut v, x);
    push_all(&mut v, &chars_of(post));
    string_of(&v)
}

impl EditError {
    /// The error's message.
    pub fn message(&self) -> (m: String)
        ensures
            m@ == err_message(self.view_of()),
    {
        match self {
            EditError::FunctionNotFound(n) => quoted("function `", &chars_of(n.as_str()), "` not found"),
            EditError::MarkdownNotFound(n) => quoted("markdown const `", &chars_of(n.as_str()), "` not found"),
            EditError::MissingSemicolon => string_of(&chars_of("markdown const missing `;`")),
            EditError::UnknownKind(k) => quoted("unknown item kind `", &chars_of(k.as_str()), "`"),
            EditError::ItemNotFound(n) => quoted("could not locate item `", &chars_of(n.as_str()), "` in notebook source"),
        }
    }
}

// ---------------------------------------------------------------------------
// Specifications
// ---------------------------------------------------------------------------

/// `s`, with a `\n` added unless it already ends with one.
pub open spec fn ensure_newline(s: Seq<char>) -> Seq<char> {
    if ends_with_char(s, '\n') { s } else { s.push('\n') }
}

/// A character that can continue an identifier.
pub open spec fn ident_char(c: char) -> bool {
    ||| ('a' <= c && c <= 'z')
    ||| ('A' <= c && c <= 'Z')
    ||| ('0' <= c && c <= '9')
    ||| c == '_'
    ||| c > '\u{7f}'
}

/// `p` occurs in `s` at `i` and no identifier character follows it, so
/// that a name in `p` is not the start of a longer name.
pub open spec fn word_at(s: Seq<char>, p: Seq<char>, i: int) -> bool {
    matches_at(s, p, i) && (i + p.len() == s.len() || !ident_char(s[i + p.len()]))
}

/// The first index at or after `i` where `p` occurs as a word.
pub open spec fn find_word_from(s: Seq<char>, p: Seq<char>, i: nat) -> Option<nat>
    decreases s.len() + 1 - i,
{
    if i + p.len() > s.len() {
        None
    } else if word_at(s, p, i as int) {
        Some(i)
    } else {
        find_word_from(s, p, i + 1)
    }
}

/// The first pattern of `pats` (in list order) that occurs in `src`, at
/// its first occurrence: as a word when `whole`, as text otherwise.
pub open spec fn find_any_in(src: Seq<char>, pats: Seq<Seq<char>>, whole: bool) -> Option<nat>
    decreases pats.len(),
{
    if pats.len() == 0 {
        None
    } else {
        match (if whole { find_word_from(src, pats[0], 0) } else { find(src, pats[0]) }) {
            Some(i) => Some(i),
            None => find_any_in(src, pats.drop_first(), whole),
        }
    }
}

/// The first pattern of `pats` (in list order) that occurs in `src` as a
/// word, at its first such occurrence.
pub open spec fn find_any(src: Seq<char>, pats: Seq<Seq<char>>) -> Option<nat> {
    find_any_in(src, pats, true)
}

pub open spec fn fn_patterns(name: Seq<char>) -> Seq<Seq<char>> {
    seq!["pub fn "@ + name, "fn "@ + name, "pub(crate) fn "@ + name]
}

pub open spec fn const_patterns(name: Seq<char>) -> Seq<Seq<char>> {
    seq!["pub const "@ + name, "const "@ + name]
}

/// Scanning from `i` with brace depth `d`: the index just past the `}` that
/// brings the depth back to zero.
pub open spec fn close_brace(s: Seq<char>, i: nat, d: int) -> Option<nat>
    decreases s.len() - i,
{
    if i >= s.len() {
        None
    } else {
        let d2 = if s[i as int] == '{' { d + 1 } else if s[i as int] == '}' { d - 1 } else { d };
        if s[i as int] == '}' && d2 == 0 {
            Some(i + 1)
        } else {
            close_brace(s, i + 1, d2)
        }
    }
}

/// The span of function `name` found by whole name (`whole`) or by the
/// text `fn <name>` (otherwise): from its signature to its matching `}`.
pub open spec fn fn_span_in(src: Seq<char>, name: Seq<char>, whole: bool) -> Option<(nat, nat)> {
    match find_any_in(src, fn_patterns(name), whole) {
        None => None,
        Some(start) => match find_from(src, seq!['{'], start) {
            None => None,
            Some(brace) => match close_brace(src, brace, 0) {
                None => None,
                Some(end) => Some((start, end)),
            },
        },
    }
}

/// The span of function `name`, found by its whole name.
pub open spec fn fn_span(src: Seq<char>, name: Seq<char>) -> Option<(nat, nat)> {
    fn_span_in(src, name, true)
}

/// `i` moved back over spaces and tabs.
pub open spec fn skip_blanks_back(s: Seq<char>, i: nat) -> nat
    decreases i,
{
    if i > 0 && i <= s.len() && (s[i - 1] == ' ' || s[i - 1] == '\t') {
        skip_blanks_back(s, (i - 1) as nat)
    } else {
        i
    }
}

/// Start of the line that holds index `i - 1` (0 when there is no `\n` before `i`).
pub open spec fn line_start(s: Seq<char>, i: nat) -> nat
    decreases i,
{
    if i == 0 || i > s.len() {
        0
    } else if s[i - 1] == '\n' {
        i
    } else {
        line_start(s, (i - 1) as nat)
    }
}

/// A line that belongs to the item below it: an attribute or a doc comment.
pub open spec fn is_attached_line(l: Seq<char>) -> bool {
    let t = trim(l);
    starts_with(t, "#["@) || starts_with(t, "///"@) || starts_with(t, "//!"@)
}

/// `start` moved back over the attribute and doc-comment lines directly above it.
pub open spec fn extend_back(s: Seq<char>, start: nat) -> nat
    decreases start,
{
    let i1 = skip_blanks_back(s, start);
    let i2: nat = if i1 > 0 && i1 <= s.len() && s[i1 - 1] == '\n' { (i1 - 1) as nat } else { i1 };
    let ls = line_start(s, i2);
    if ls < start && i2 <= s.len() && is_attached_line(s.subrange(ls as int, i2 as int)) {
        extend_back(s, ls)
    } else {
        start
    }
}

/// The number of `#` in `s` from index `i` on, up to the first other character.
pub open spec fn hashes(s: Seq<char>, i: nat) -> nat
    decreases s.len() - i,
{
    if i < s.len() && s[i as int] == '#' { 1 + hashes(s, i + 1) } else { 0 }
}

/// A `"` followed by `n` `#` stands at `i`: the end of a raw string with
/// `n` hashes.
pub open spec fn closes_raw(s: Seq<char>, i: nat, n: nat) -> bool {
    &&& i + 1 + n <= s.len()
    &&& s[i as int] == '"'
    &&& forall|k: int| i + 1 <= k < i + 1 + n ==> s[k] == '#'
}

/// The first `;` at or after `i` that stands outside string literals, when
/// the scan starts in code (`st == -1`), inside a string (`st == -2`) or
/// inside a raw string with `st` hashes.
pub open spec fn code_semi(s: Seq<char>, i: nat, st: int) -> Option<nat>
    decreases s.len() + 1 - i,
{
    if i >= s.len() {
        None
    } else if st == -1 {
        if s[i as int] == ';' {
            Some(i)
        } else if s[i as int] == '"' {
            code_semi(s, i + 1, -2)
        } else if s[i as int] == 'r' && i + 1 + hashes(s, i + 1) < s.len() && s[(i + 1 + hashes(s, i + 1)) as int] == '"' {
            code_semi(s, i + 2 + hashes(s, i + 1), hashes(s, i + 1) as int)
        } else {
            code_semi(s, i + 1, -1)
        }
    } else if st == -2 {
        if s[i as int] == '\\' {
            code_semi(s, i + 2, -2)
        } else if s[i as int] == '"' {
            code_semi(s, i + 1, -1)
        } else {
            code_semi(s, i + 1, -2)
        }
    } else if st >= 0 && closes_raw(s, i, st as nat) {
        code_semi(s, i + 1 + st as nat, -1)
    } else {
        code_semi(s, i + 1, st)
    }
}

/// The full span of a notebook item: attributes and docs included.
pub open spec fn item_span(src: Seq<char>, kind: Seq<char>, name: Seq<char>) -> Result<(nat, nat), EditErr> {
    if kind == "cell"@ || kind == "helper"@ {
        match fn_span(src, name) {
            None => Err(EditErr::FunctionNotFound(name)),
            Some((start, end)) => Ok((extend_back(src, start), end)),
        }
    } else if kind == "markdown"@ {
        match find_any(src, const_patterns(name)) {
            None => Err(EditErr::MarkdownNotFound(name)),
            Some(sig) => match code_semi(src, sig, -1) {
                None => Err(EditErr::MissingSemicolon),
                Some(semi) => Ok((extend_back(src, sig), semi + 1)),
            },
        }
    } else {
        Err(EditErr::UnknownKind(kind))
    }
}

pub open spec fn appended(src: Seq<char>, item: Seq<char>) -> Seq<char> {
    trim_end(src) + "\n\n"@ + trim(item) + "\n"@
}

pub open spec fn prepended(src: Seq<char>, item: Seq<char>) -> Seq<char> {
    ensure_newline(trim(item) + "\n\n"@ + trim_start(src))
}

pub open spec fn inserted_after(src: Seq<char>, kind: Seq<char>, name: Seq<char>, item: Seq<char>) -> Result<Seq<char>, EditErr> {
    match item_span(src, kind, name) {
        Err(e) => Err(e),
        Ok((_start, end)) => Ok(ensure_newline(
            src.take(end as int) + "\n\n"@ + trim(item) + "\n\n"@ + trim_start_char(src.skip(end as int), '\n'),
        )),
    }
}

/// `head`, the trimmed block and a `\n`, then a blank line and `rest` when
/// there is any rest; ending with `\n`.
pub open spec fn splice_block(head: Seq<char>, block: Seq<char>, rest: Seq<char>) -> Seq<char> {
    ensure_newline(head + trim(block) + "\n"@ + if rest.len() > 0 { "\n"@ + rest } else { seq![] })
}

pub open spec fn replaced_block(src: Seq<char>, kind: Seq<char>, name: Seq<char>, block: Seq<char>) -> Result<Seq<char>, EditErr> {
    match item_span(src, kind, name) {
        Err(e) => Err(e),
        Ok((start, end)) => Ok(splice_block(src.take(start as int), block, trim_start_char(src.skip(end as int), '\n'))),
    }
}

/// A function's source replaced: its old text where that occurs, else the
/// function found by the text `fn <name>` (with the attribute and doc lines
/// above it).
pub open spec fn replaced_fn(src: Seq<char>, name: Seq<char>, old: Seq<char>, new: Seq<char>) -> Result<Seq<char>, EditErr> {
    if old.len() > 0 && find(src, old) is Some {
        let idx = find(src, old)->0;
        Ok(src.take(idx as int) + trim(new) + "\n"@ + src.skip((idx + old.len()) as int))
    } else {
        match fn_span_in(src, name, false) {
            Some((start, end)) => Ok(src.take(extend_back(src, start) as int) + trim(new) + "\n"@ + src.skip(end as int)),
            None => Err(EditErr::ItemNotFound(name)),
        }
    }
}

// ---------------------------------------------------------------------------
// Implementation
// ---------------------------------------------------------------------------

fn ensure_newline_vec(s: &mut Vec<char>)
    ensures
        final(s)@ == ensure_newline(old(s)@),
{
    if s.len() == 0 || s[s.len() - 1] != '\n' {
        s.push('\n');
    }
}

fn find_any_vec(src: &[char], pats: &Vec<Vec<char>>, whole: bool) -> (r: Option<usize>)
    ensures
        r matches Some(i) ==> find_any_in(src@, crate::text::views(pats@), whole) == Some(i as nat),
        r is None ==> find_any_in(src@, crate::text::views(pats@), whole) is None,
{
    let ghost ps = crate::text::views(pats@);
    let mut k: usize = 0;
    assert(ps.skip(0) =~= ps);
    while k < pats.len()
        invariant
            k <= pats@.len(),
            ps == crate::text::views(pats@),
            find_any_in(src@, ps, whole) == find_any_in(src@, ps.skip(k as int), whole),
        decreases pats@.len() - k,
    {
        assert(ps.skip(k as int)[0] == pats@[k as int]@);
        assert(ps.skip(k as int).drop_first() =~= ps.skip(k + 1));
        let found = if whole { find_word_vec(src, &pats[k]) } else { find_vec(src, &pats[k]) };
        match found {
            Some(i) => {
                return Some(i);
            },
            None => {},
        }
        k += 1;
    }
    assert(ps.skip(k as int).len() == 0);
    None
}

fn cat(a: &str, b: &[char]) -> (r: Vec<char>)
    ensures
        r@ == a@ + b@,
{
    let mut v = chars_of(a);
    push_all(&mut v, b);
    v
}

fn fn_patterns_vec(name: &[char]) -> (r: Vec<Vec<char>>)
    ensures
        crate::text::views(r@) == fn_patterns(name@),
{
    let r = vec![cat("pub fn ", name), cat("fn ", name), cat("pub(crate) fn ", name)];
    assert(crate::text::views(r@) =~= fn_patterns(name@));
    r
}

fn const_patterns_vec(name: &[char]) -> (r: Vec<Vec<char>>)
    ensures
        crate::text::views(r@) == const_patterns(name@),
{
    let r = vec![cat("pub const ", name), cat("const ", name)];
    assert(crate::text::views(r@) =~= const_patterns(name@));
    r
}

/// The index just past the `}` matching the `{` at `brace`.
fn close_brace_vec(s: &[char], brace: usize) -> (r: Option<usize>)
    requires
        brace < s@.len(),
        s@[brace as int] == '{',
    ensures
        r matches Some(e) ==> close_brace(s@, brace as nat, 0) == Some(e as nat),
        r is None ==> close_brace(s@, brace as nat, 0) is None,
{
    let mut depth: usize = 0;
    let mut i = brace;
    while i < s.len()
        invariant
            brace <= i <= s@.len(),
            (i == brace && depth == 0) || (i > brace && depth >= 1),
            depth <= i - brace,
            s@[brace as int] == '{',
            close_brace(s@, brace as nat, 0) == close_brace(s@, i as nat, depth as int),
        decreases s@.len() - i,
    {
        let c = s[i];
        if c == '{' {
            depth += 1;
        } else if c == '}' {
            depth -= 1;
            if depth == 0 {
                return Some(i + 1);
            }
        }
        i += 1;
    }
    None
}

/// The span of function `name` in `src`.
fn find_fn_span(src: &[char], name: &[char], whole: bool) -> (r: Option<(usize, usize)>)
    ensures
        r matches Some((a, b)) ==> fn_span_in(src@, name@, whole) == Some((a as nat, b as nat)),
        r is None ==> fn_span_in(src@, name@, whole) is None,
{
    let pats = fn_patterns_vec(name);
    let start = match find_any_vec(src, &pats, whole) {
        Some(s) => s,
        None => return None,
    };
    let open = vec!['{'];
    assert(open@ =~= seq!['{']);
    let brace = match find_from_vec(src, &open, start) {
        Some(b) => b,
        None => return None,
    };
    assert(src@.subrange(brace as int, brace + 1)[0] == '{');
    match close_brace_vec(src, brace) {
        Some(end) => Some((start, end)),
        None => None,
    }
}

fn skip_blanks_back_vec(s: &[char], i: usize) -> (r: usize)
    requires
        i <= s@.len(),
    ensures
        r == skip_blanks_back(s@, i as nat),
        r <= i,
{
    let mut j = i;
    while j > 0 && (s[j - 1] == ' ' || s[j - 1] == '\t')
        invariant
            j <= i <= s@.len(),
            skip_blanks_back(s@, i as nat) == skip_blanks_back(s@, j as nat),
        decreases j,
    {
        j -= 1;
    }
    j
}

fn line_start_vec(s: &[char], i: usize) -> (r: usize)
    requires
        i <= s@.len(),
    ensures
        r == line_start(s@, i as nat),
        r <= i,
{
    let mut j = i;
    while j > 0 && s[j - 1] != '\n'
        invariant
            j <= i <= s@.len(),
            line_start(s@, i as nat) == line_start(s@, j as nat),
        decreases j,
    {
        j -= 1;
    }
    j
}

fn is_attached_line_vec(l: &[char]) -> (b: bool)
    ensures
        b == is_attached_line(l@),
{
    let t = trim_vec(l);
    starts_with_vec(&t, &chars_of("#[")) || starts_with_vec(&t, &chars_of("///")) || starts_with_vec(&t, &chars_of("//!"))
}

/// `start` moved back over the attribute and doc lines directly above it.
fn extend_back_over_attrs(s: &[char], start: usize) -> (r: usize)
    requires
        start <= s@.len(),
    ensures
        r == extend_back(s@, start as nat),
        r <= start,
{
    let mut st = start;
    loop
        invariant
            st <= start <= s@.len(),
            extend_back(s@, start as nat) == extend_back(s@, st as nat),
        decreases st,
    {
        let i1 = skip_blanks_back_vec(s, st);
        let i2 = if i1 > 0 && s[i1 - 1] == '\n' { i1 - 1 } else { i1 };
        let ls = line_start_vec(s, i2);
        if ls < st && is_attached_line_vec(&slice_chars(s, ls, i2)) {
            st = ls;
        } else {
            return st;
        }
    }
}

/// The full span of a notebook item (attributes and docs included).
fn item_full_span(src: &[char], kind: &[char], name: &[char]) -> (r: Result<(usize, usize), EditError>)
    ensures
        match r {
            Ok((a, b)) => item_span(src@, kind@, name@) == Ok::<(nat, nat), EditErr>((a as nat, b as nat)) && a <= b <= src@.len(),
            Err(e) => item_span(src@, kind@, name@) == Err::<(nat, nat), EditErr>(e.view_of()),
        },
{
    let cell = chars_of("cell");
    let helper = chars_of("helper");
    let markdown = chars_of("markdown");
    if crate::source_util::eq_vec(kind, &cell) || crate::source_util::eq_vec(kind, &helper) {
        match find_fn_span(src, name, true) {
            None => Err(EditError::FunctionNotFound(string_of(name))),
            Some((start, end)) => {
                proof {
                    lemma_fn_span_bounds(src@, name@, true);
                }
                Ok((extend_back_over_attrs(src, start), end))
            },
        }
    } else if crate::source_util::eq_vec(kind, &markdown) {
        let pats = const_patterns_vec(name);
        match find_any_vec(src, &pats, true) {
            None => Err(EditError::MarkdownNotFound(string_of(name))),
            Some(sig) => {
                proof {
                    lemma_find_any_bounds(src@, const_patterns(name@), true);
                }
                match code_semi_vec(src, sig) {
                    None => Err(EditError::MissingSemicolon),
                    Some(p) => {
                        assert(src@.len() == src.len());
                        Ok((extend_back_over_attrs(src, sig), p + 1))
                    },
                }
            },
        }
    } else {
        Err(EditError::UnknownKind(string_of(kind)))
    }
}

proof fn lemma_find_word(s: Seq<char>, p: Seq<char>, i: nat)
    ensures
        find_word_from(s, p, i) matches Some(j) ==> i <= j && j + p.len() <= s.len(),
    decreases s.len() + 1 - i,
{
    if i + p.len() <= s.len() && !word_at(s, p, i as int) {
        lemma_find_word(s, p, i + 1);
    }
}

fn ident_char_exec(c: char) -> (b: bool)
    ensures
        b == ident_char(c),
{
    ('a' <= c && c <= 'z') || ('A' <= c && c <= 'Z') || ('0' <= c && c <= '9') || c == '_' || c > '\u{7f}'
}

/// The first index where `p` occurs in `s` as a word.
fn find_word_vec(s: &[char], p: &[char]) -> (r: Option<usize>)
    ensures
        r matches Some(i) ==> find_word_from(s@, p@, 0) == Some(i as nat),
        r is None ==> find_word_from(s@, p@, 0) is None,
{
    if p.len() > s.len() {
        return None;
    }
    let last = s.len() - p.len();
    let mut i: usize = 0;
    loop
        invariant
            last + p@.len() == s@.len(),
            s@.len() == s.len(),
            p@.len() == p.len(),
            i <= last,
            find_word_from(s@, p@, 0) == find_word_from(s@, p@, i as nat),
        decreases s@.len() + 1 - i,
    {
        if matches_at_vec(s, p, i) {
            let e = i + p.len();
            if e == s.len() || !ident_char_exec(s[e]) {
                return Some(i);
            }
        }
        if i == last {
            assert(find_word_from(s@, p@, (i + 1) as nat) is None);
            return None;
        }
        i += 1;
    }
}

fn hashes_vec(s: &[char], i: usize) -> (n: usize)
    requires
        i <= s@.len(),
    ensures
        n == hashes(s@, i as nat),
        i + n <= s@.len(),
{
    let mut j = i;
    while j < s.len() && s[j] == '#'
        invariant
            i <= j <= s@.len(),
            hashes(s@, i as nat) == (j - i) + hashes(s@, j as nat),
        decreases s@.len() - j,
    {
        j += 1;
    }
    j - i
}

fn closes_raw_vec(s: &[char], i: usize, n: usize) -> (b: bool)
    requires
        i < s@.len(),
    ensures
        b == closes_raw(s@, i as nat, n as nat),
{
    if s[i] != '"' || n > s.len() - i - 1 {
        return false;
    }
    let mut k: usize = 0;
    while k < n
        invariant
            i + 1 + n <= s@.len(),
            s@.len() == s.len(),
            k <= n,
            forall|m: int| i + 1 <= m < i + 1 + k ==> s@[m] == '#',
        decreases n - k,
    {
        if s[i + 1 + k] != '#' {
            return false;
        }
        k += 1;
    }
    true
}

proof fn lemma_code_semi(s: Seq<char>, i: nat, st: int)
    ensures
        code_semi(s, i, st) matches Some(p) ==> i <= p < s.len(),
    decreases s.len() + 1 - i,
{
    if i < s.len() {
        if st == -1 {
            if s[i as int] == ';' {
            } else if s[i as int] == '"' {
                lemma_code_semi(s, i + 1, -2);
            } else if s[i as int] == 'r' && i + 1 + hashes(s, i + 1) < s.len() && s[(i + 1 + hashes(s, i + 1)) as int] == '"' {
                lemma_code_semi(s, i + 2 + hashes(s, i + 1), hashes(s, i + 1) as int);
            } else {
                lemma_code_semi(s, i + 1, -1);
            }
        } else if st == -2 {
            if s[i as int] == '\\' {
                lemma_code_semi(s, i + 2, -2);
            } else if s[i as int] == '"' {
                lemma_code_semi(s, i + 1, -1);
            } else {
                lemma_code_semi(s, i + 1, -2);
            }
        } else if st >= 0 && closes_raw(s, i, st as nat) {
            lemma_code_semi(s, i + 1 + st as nat, -1);
        } else {
            lemma_code_semi(s, i + 1, st);
        }
    }
}

/// The scanning state of `code_semi` for a mode (code `0`, string `1`,
/// raw string `2`) and a number of hashes.
pub open spec fn scan_state(mode: u8, n: usize) -> int {
    if mode == 0 { -1 } else if mode == 1 { -2 } else { n as int }
}

/// The first `;` at or after `from` outside string literals.
fn code_semi_vec(s: &[char], from: usize) -> (r: Option<usize>)
    requires
        from <= s@.len(),
    ensures
        r matches Some(p) ==> code_semi(s@, from as nat, -1) == Some(p as nat) && from <= p < s@.len(),
        r is None ==> code_semi(s@, from as nat, -1) is None,
{
    proof {
        lemma_code_semi(s@, from as nat, -1);
    }
    let mut i = from;
    let mut mode: u8 = 0;
    let mut n: usize = 0;
    while i < s.len()
        invariant
            s@.len() == s.len(),
            i <= s@.len() + 1,
            mode <= 2,
            code_semi(s@, from as nat, -1) matches Some(p) ==> from <= p < s@.len(),
            code_semi(s@, from as nat, -1) == code_semi(s@, i as nat, scan_state(mode, n)),
        decreases s@.len() + 1 - i,
    {
        let c = s[i];
        let ghost i0 = i as nat;
        if mode == 0 {
            if c == ';' {
                assert(code_semi(s@, i0, -1) == Some(i0));
                return Some(i);
            } else if c == '"' {
                assert(code_semi(s@, i0, -1) == code_semi(s@, i0 + 1, -2));
                mode = 1;
                i += 1;
            } else if c == 'r' {
                let h = hashes_vec(s, i + 1);
                if i + 1 + h < s.len() && s[i + 1 + h] == '"' {
                    assert(code_semi(s@, i0, -1) == code_semi(s@, (i0 + 2 + h) as nat, h as int));
                    mode = 2;
                    n = h;
                    i = i + 2 + h;
                } else {
                    assert(code_semi(s@, i0, -1) == code_semi(s@, i0 + 1, -1));
                    i += 1;
                }
            } else {
                assert(code_semi(s@, i0, -1) == code_semi(s@, i0 + 1, -1));
                i += 1;
            }
        } else if mode == 1 {
            if c == '\\' {
                assert(code_semi(s@, i0, -2) == code_semi(s@, i0 + 2, -2));
                i += 1;
                if i < s.len() {
                    i += 1;
                } else {
                    assert(code_semi(s@, i0 + 2, -2) is None);
                }
            } else {
                if c == '"' {
                    assert(code_semi(s@, i0, -2) == code_semi(s@, i0 + 1, -1));
                    mode = 0;
                } else {
                    assert(code_semi(s@, i0, -2) == code_semi(s@, i0 + 1, -2));
                }
                i += 1;
            }
        } else if closes_raw_vec(s, i, n) {
            assert(code_semi(s@, i0, n as int) == code_semi(s@, (i0 + 1 + n) as nat, -1));
            i = i + 1 + n;
            mode = 0;
        } else {
            assert(code_semi(s@, i0, n as int) == code_semi(s@, i0 + 1, n as int));
            i += 1;
        }
    }
    None
}

proof fn lemma_find_any_bounds(src: Seq<char>, pats: Seq<Seq<char>>, whole: bool)
    ensures
        find_any_in(src, pats, whole) matches Some(i) ==> i <= src.len(),
    decreases pats.len(),
{
    if pats.len() > 0 {
        lemma_find_word(src, pats[0], 0);
        lemma_find_from(src, pats[0], 0);
        lemma_find_any_bounds(src, pats.drop_first(), whole);
    }
}

proof fn lemma_close_brace_bounds(s: Seq<char>, i: nat, d: int)
    ensures
        close_brace(s, i, d) matches Some(e) ==> i < e <= s.len(),
    decreases s.len() - i,
{
    if i < s.len() {
        let d2 = if s[i as int] == '{' { d + 1 } else if s[i as int] == '}' { d - 1 } else { d };
        lemma_close_brace_bounds(s, i + 1, d2);
    }
}

proof fn lemma_fn_span_bounds(src: Seq<char>, name: Seq<char>, whole: bool)
    ensures
        fn_span_in(src, name, whole) matches Some((a, b)) ==> a <= b <= src.len(),
{
    lemma_find_any_bounds(src, fn_patterns(name), whole);
    if let Some(start) = find_any_in(src, fn_patterns(name), whole) {
        lemma_find_from(src, seq!['{'], start);
        if let Some(brace) = find_from(src, seq!['{'], start) {
            lemma_close_brace_bounds(src, brace, 0);
        }
    }
}

/// Append `item` at the end of the notebook source.
pub fn append_item(notebook_source: &str, item: &str) -> (r: String)
    ensures
        r@ == appended(notebook_source@, item@),
{
    let mut out = trim_end_vec(&chars_of(notebook_source));
    push_all(&mut out, &chars_of("\n\n"));
    push_all(&mut out, &trim_vec(&chars_of(item)));
    push_all(&mut out, &chars_of("\n"));
    string_of(&out)
}

/// Put `item` at the start of the notebook source.
pub fn prepend_item(notebook_source: &str, item: &str) -> (r: String)
    ensures
        r@ == prepended(notebook_source@, item@),
{
    let mut out = trim_vec(&chars_of(item));
    push_all(&mut out, &chars_of("\n\n"));
    push_all(&mut out, &trim_start_vec(&chars_of(notebook_source)));
    ensure_newline_vec(&mut out);
    string_of(&out)
}

/// Insert `item` immediately after the named notebook item (`cell` / `helper` / `markdown`).
pub fn insert_after_item(notebook_source: &str, after_kind: &str, after_name: &str, item: &str) -> (r: Result<String, EditError>)
    ensures
        result_view(r) == inserted_after(notebook_source@, after_kind@, after_name@, item@),
{
    let src = chars_of(notebook_source);
    let (_start, end) = match item_full_span(&src, &chars_of(after_kind), &chars_of(after_name)) {
        Ok(span) => span,
        Err(e) => return Err(e),
    };
    let mut out = slice_chars(&src, 0, end);
    push_all(&mut out, &chars_of("\n\n"));
    push_all(&mut out, &trim_vec(&chars_of(item)));
    push_all(&mut out, &chars_of("\n\n"));
    let rest = trim_start_char_vec(&slice_chars(&src, end, src.len()), '\n');
    push_all(&mut out, &rest);
    ensure_newline_vec(&mut out);
    assert(src@.subrange(0, end as int) =~= src@.take(end as int));
    assert(src@.subrange(end as int, src@.len() as int) =~= src@.skip(end as int));
    Ok(string_of(&out))
}

fn splice_block_vec(head: &[char], block: &[char], rest: &[char]) -> (r: Vec<char>)
    ensures
        r@ == splice_block(head@, block@, rest@),
{
    let mut out = slice_chars(head, 0, head.len());
    assert(head@.subrange(0, head@.len() as int) =~= head@);
    push_all(&mut out, &trim_vec(block));
    push_all(&mut out, &chars_of("\n"));
    if rest.len() > 0 {
        push_all(&mut out, &chars_of("\n"));
        push_all(&mut out, rest);
    } else {
        assert(out@ + Seq::<char>::empty() =~= out@);
    }
    ensure_newline_vec(&mut out);
    out
}

/// Replace an entire item (cell/helper/markdown) with a new block.
pub fn replace_item_block(notebook_source: &str, kind: &str, name: &str, new_block: &str) -> (r: Result<String, EditError>)
    ensures
        result_view(r) == replaced_block(notebook_source@, kind@, name@, new_block@),
{
    let src = chars_of(notebook_source);
    let (start, end) = match item_full_span(&src, &chars_of(kind), &chars_of(name)) {
        Ok(span) => span,
        Err(e) => return Err(e),
    };
    let head = slice_chars(&src, 0, start);
    let rest = trim_start_char_vec(&slice_chars(&src, end, src.len()), '\n');
    assert(src@.subrange(0, start as int) =~= src@.take(start as int));
    assert(src@.subrange(end as int, src@.len() as int) =~= src@.skip(end as int));
    let out = splice_block_vec(&head, &chars_of(new_block), &rest);
    Ok(string_of(&out))
}

fn replace_named_fn(notebook_source: &str, name: &str, old_source: &str, new_fn_source: &str) -> (r: Result<String, EditError>)
    ensures
        result_view(r) == replaced_fn(notebook_source@, name@, old_source@, new_fn_source@),
{
    let src = chars_of(notebook_source);
    let old = chars_of(old_source);
    let new = trim_vec(&chars_of(new_fn_source));
    if old.len() > 0 {
        match find_vec(&src, &old) {
            Some(idx) => {
                proof {
                    lemma_find_from(src@, old@, 0);
                }
                let mut out = slice_chars(&src, 0, idx);
                push_all(&mut out, &new);
                push_all(&mut out, &chars_of("\n"));
                push_all(&mut out, &slice_chars(&src, idx + old.len(), src.len()));
                assert(src@.subrange(0, idx as int) =~= src@.take(idx as int));
                assert(src@.subrange(idx + old@.len(), src@.len() as int) =~= src@.skip(idx + old@.len()));
                return Ok(string_of(&out));
            },
            None => {},
        }
    }
    match find_fn_span(&src, &chars_of(name), false) {
        Some((start, end)) => {
            proof {
                lemma_fn_span_bounds(src@, name@, false);
            }
            let start = extend_back_over_attrs(&src, start);
            let mut out = slice_chars(&src, 0, start);
            push_all(&mut out, &new);
            push_all(&mut out, &chars_of("\n"));
            push_all(&mut out, &slice_chars(&src, end, src.len()));
            assert(src@.subrange(0, start as int) =~= src@.take(start as int));
            assert(src@.subrange(end as int, src@.len() as int) =~= src@.skip(end as int));
            Ok(string_of(&out))
        },
        None => Err(EditError::ItemNotFound(string_of(&chars_of(name)))),
    }
}

/// Replace the source of `cell` in the notebook source with `new_fn_source`.
pub fn replace_cell_source(notebook_source: &str, cell: &Cell, new_fn_source: &str) -> (r: Result<String, EditError>)
    ensures
        result_view(r) == replaced_fn(notebook_source@, cell.name@, cell.source@, new_fn_source@),
{
    replace_named_fn(notebook_source, cell.name.as_str(), cell.source.as_str(), new_fn_source)
}

/// Replace the source of helper `helper_name` (last known as `old_source`).
pub fn replace_helper_source(notebook_source: &str, helper_name: &str, old_source: &str, new_fn_source: &str) -> (r: Result<String, EditError>)
    ensures
        result_view(r) == replaced_fn(notebook_source@, helper_name@, old_source@, new_fn_source@),
{
    replace_named_fn(notebook_source, helper_name, old_source, new_fn_source)
}

/// The source with markdown const `name` rewritten to hold literal `lit`.
pub open spec fn replaced_markdown(src: Seq<char>, name: Seq<char>, lit: Seq<char>) -> Result<Seq<char>, EditErr> {
    let block = "#[labrs::markdown]\npub const "@ + name + ": &str = "@ + lit + ";\n"@;
    match find_any(src, const_patterns(name)) {
        None => Err(EditErr::MarkdownNotFound(name)),
        Some(sig) => match code_semi(src, sig, -1) {
            None => Err(EditErr::MissingSemicolon),
            Some(semi) => Ok(splice_block(
                src.take(extend_back(src, sig) as int),
                block,
                trim_start_char(src.skip((semi + 1) as int), '\n'),
            )),
        },
    }
}

/// Replace a markdown const by one holding the string literal `lit`
/// (keeps name and attribute).
pub fn replace_markdown_literal(notebook_source: &str, name: &str, lit: &str) -> (r: Result<String, EditError>)
    ensures
        result_view(r) == replaced_markdown(notebook_source@, name@, lit@),
{
    let src = chars_of(notebook_source);
    let nm = chars_of(name);
    let mut block = chars_of("#[labrs::markdown]\npub const ");
    push_all(&mut block, &nm);
    push_all(&mut block, &chars_of(": &str = "));
    push_all(&mut block, &chars_of(lit));
    push_all(&mut block, &chars_of(";\n"));
    let pats = const_patterns_vec(&nm);
    let sig = match find_any_vec(&src, &pats, true) {
        None => return Err(EditError::MarkdownNotFound(string_of(&nm))),
        Some(sig) => sig,
    };
    proof {
        lemma_find_any_bounds(src@, const_patterns(name@), true);
    }
    let semi = match code_semi_vec(&src, sig) {
        None => return Err(EditError::MissingSemicolon),
        Some(p) => p,
    };
    assert(src@.len() == src.len());
    let start = extend_back_over_attrs(&src, sig);
    let head = slice_chars(&src, 0, start);
    let rest = trim_start_char_vec(&slice_chars(&src, semi + 1, src.len()), '\n');
    assert(src@.subrange(0, start as int) =~= src@.take(start as int));
    assert(src@.subrange(semi + 1, src@.len() as int) =~= src@.skip(semi + 1));
    let out = splice_block_vec(&head, &block, &rest);
    Ok(string_of(&out))
}

/// Replace a markdown const's string contents (keeps name and attribute).
/// The literal is `new_content` as a JSON string.
pub fn replace_markdown_content(notebook_source: &str, name: &str, new_content: &str) -> (r: Result<String, EditError>)
    ensures
        result_view(r) == replaced_markdown(notebook_source@, name@, json_string_literal(new_content@)),
{
    let lit = match crate::json::json_string(new_content) {
        Ok(l) => l,
        Err(_) => string_of(&chars_of("\"\"")),
    };
    replace_markdown_literal(notebook_source, name, lit.as_str())
}

// ---------------------------------------------------------------------------
// Deleting, swapping, definitions, preamble
// ---------------------------------------------------------------------------

/// The source with item `name` of `kind` removed, with the line feeds that
/// followed it.
pub open spec fn deleted_block(src: Seq<char>, kind: Seq<char>, name: Seq<char>) -> Result<Seq<char>, EditErr> {
    match item_span(src, kind, name) {
        Err(e) => Err(e),
        Ok((start, end)) => Ok(ensure_newline(src.take(start as int) + trim_start_char(src.skip(end as int), '\n'))),
    }
}

/// Remove an entire item (cell/helper/markdown).
pub fn delete_item_block(notebook_source: &str, kind: &str, name: &str) -> (r: Result<String, EditError>)
    ensures
        result_view(r) == deleted_block(notebook_source@, kind@, name@),
{
    let src = chars_of(notebook_source);
    let (start, end) = match item_full_span(&src, &chars_of(kind), &chars_of(name)) {
        Ok(span) => span,
        Err(e) => return Err(e),
    };
    let mut out = slice_chars(&src, 0, start);
    let rest = trim_start_char_vec(&slice_chars(&src, end, src.len()), '\n');
    assert(src@.subrange(0, start as int) =~= src@.take(start as int));
    assert(src@.subrange(end as int, src@.len() as int) =~= src@.skip(end as int));
    push_all(&mut out, &rest);
    ensure_newline_vec(&mut out);
    Ok(string_of(&out))
}

/// The source with the spans `[s1, e1)` and `[s2, e2)` (the first before
/// the second) traded.
pub open spec fn traded(src: Seq<char>, s1: int, e1: int, s2: int, e2: int) -> Seq<char> {
    src.take(s1) + src.subrange(s2, e2) + src.subrange(e1, s2) + src.subrange(s1, e1) + src.skip(e2)
}

/// The source with two items traded in place; unchanged when their spans
/// overlap (an item traded with itself).
pub open spec fn swapped_blocks(src: Seq<char>, ka: Seq<char>, na: Seq<char>, kb: Seq<char>, nb: Seq<char>) -> Result<Seq<char>, EditErr> {
    match item_span(src, ka, na) {
        Err(e) => Err(e),
        Ok((s1, e1)) => match item_span(src, kb, nb) {
            Err(e) => Err(e),
            Ok((s2, e2)) => if e1 <= s2 {
                Ok(traded(src, s1 as int, e1 as int, s2 as int, e2 as int))
            } else if e2 <= s1 {
                Ok(traded(src, s2 as int, e2 as int, s1 as int, e1 as int))
            } else {
                Ok(src)
            },
        },
    }
}

fn traded_vec(src: &Vec<char>, s1: usize, e1: usize, s2: usize, e2: usize) -> (r: Vec<char>)
    requires
        s1 <= e1 <= s2 <= e2 <= src@.len(),
    ensures
        r@ == traded(src@, s1 as int, e1 as int, s2 as int, e2 as int),
{
    let mut out = slice_chars(src, 0, s1);
    push_all(&mut out, &slice_chars(src, s2, e2));
    push_all(&mut out, &slice_chars(src, e1, s2));
    push_all(&mut out, &slice_chars(src, s1, e1));
    push_all(&mut out, &slice_chars(src, e2, src.len()));
    assert(src@.subrange(0, s1 as int) =~= src@.take(s1 as int));
    assert(src@.subrange(e2 as int, src@.len() as int) =~= src@.skip(e2 as int));
    out
}

/// Trade two items (cells/helpers/markdown) in place.
pub fn swap_item_blocks(notebook_source: &str, kind_a: &str, name_a: &str, kind_b: &str, name_b: &str) -> (r: Result<String, EditError>)
    ensures
        result_view(r) == swapped_blocks(notebook_source@, kind_a@, name_a@, kind_b@, name_b@),
{
    let src = chars_of(notebook_source);
    let (s1, e1) = match item_full_span(&src, &chars_of(kind_a), &chars_of(name_a)) {
        Ok(span) => span,
        Err(e) => return Err(e),
    };
    let (s2, e2) = match item_full_span(&src, &chars_of(kind_b), &chars_of(name_b)) {
        Ok(span) => span,
        Err(e) => return Err(e),
    };
    if e1 <= s2 {
        Ok(string_of(&traded_vec(&src, s1, e1, s2, e2)))
    } else if e2 <= s1 {
        Ok(string_of(&traded_vec(&src, s2, e2, s1, e1)))
    } else {
        Ok(string_of(&src))
    }
}

/// The source with shared definition `name` rewritten: where its last known
/// source occurs, else over its recorded span.
pub open spec fn replaced_definition(src: Seq<char>, name: Seq<char>, span: (usize, usize), old: Seq<char>, new: Seq<char>) -> Result<Seq<char>, EditErr> {
    if old.len() > 0 && find(src, old) is Some {
        let idx = find(src, old)->0;
        Ok(src.take(idx as int) + trim(new) + "\n"@ + src.skip((idx + old.len()) as int))
    } else if span.0 < span.1 && span.1 <= src.len() {
        Ok(src.take(span.0 as int) + trim(new) + "\n"@ + src.skip(span.1 as int))
    } else {
        Err(EditErr::ItemNotFound(name))
    }
}

/// Replace shared definition `name` (last known as `old_source` at `span`).
pub fn replace_definition_source(notebook_source: &str, name: &str, span: (usize, usize), old_source: &str, new_source: &str) -> (r: Result<String, EditError>)
    ensures
        result_view(r) == replaced_definition(notebook_source@, name@, span, old_source@, new_source@),
{
    let src = chars_of(notebook_source);
    let old = chars_of(old_source);
    let new = trim_vec(&chars_of(new_source));
    if old.len() > 0 {
        match find_vec(&src, &old) {
            Some(idx) => {
                proof {
                    lemma_find_from(src@, old@, 0);
                }
                assert(src@.len() == src.len() && old@.len() == old.len());
                let mut out = slice_chars(&src, 0, idx);
                push_all(&mut out, &new);
                push_all(&mut out, &chars_of("\n"));
                push_all(&mut out, &slice_chars(&src, idx + old.len(), src.len()));
                assert(src@.subrange(0, idx as int) =~= src@.take(idx as int));
                assert(src@.subrange(idx + old@.len(), src@.len() as int) =~= src@.skip(idx + old@.len()));
                return Ok(string_of(&out));
            },
            None => {},
        }
    }
    let (a, b) = span;
    if a < b && b <= src.len() {
        let mut out = slice_chars(&src, 0, a);
        push_all(&mut out, &new);
        push_all(&mut out, &chars_of("\n"));
        push_all(&mut out, &slice_chars(&src, b, src.len()));
        assert(src@.subrange(0, a as int) =~= src@.take(a as int));
        assert(src@.subrange(b as int, src@.len() as int) =~= src@.skip(b as int));
        Ok(string_of(&out))
    } else {
        Err(EditError::ItemNotFound(string_of(&chars_of(name))))
    }
}

/// `src` without the first occurrence of each non-empty text of `olds`,
/// taken in order.
pub open spec fn without_sources(src: Seq<char>, olds: Seq<Seq<char>>) -> Seq<char>
    decreases olds.len(),
{
    if olds.len() == 0 {
        src
    } else {
        let s = without_sources(src, olds.drop_last());
        let o = olds.last();
        if o.len() > 0 && find(s, o) is Some {
            let idx = find(s, o)->0;
            s.take(idx as int) + s.skip((idx + o.len()) as int)
        } else {
            s
        }
    }
}

/// The source with every preamble item (`use` and other opaque items, last
/// known as `olds`) taken out and `new` put at the start.
pub open spec fn replaced_preamble(src: Seq<char>, olds: Seq<Seq<char>>, new: Seq<char>) -> Seq<char> {
    prepended(without_sources(src, olds), new)
}

/// Replace the preamble items (last known as `old_sources`) by one block.
pub fn replace_preamble_block(notebook_source: &str, old_sources: &Vec<String>, new_source: &str) -> (r: String)
    ensures
        r@ == replaced_preamble(notebook_source@, crate::graph::string_views(old_sources@), new_source@),
{
    let mut src = chars_of(notebook_source);
    let ghost olds = crate::graph::string_views(old_sources@);
    let mut k: usize = 0;
    while k < old_sources.len()
        invariant
            k <= old_sources@.len(),
            olds == crate::graph::string_views(old_sources@),
            src@ == without_sources(notebook_source@, olds.take(k as int)),
        decreases old_sources@.len() - k,
    {
        assert(olds.take(k + 1).drop_last() =~= olds.take(k as int));
        assert(olds.take(k + 1).last() == old_sources@[k as int]@);
        let o = chars_of(old_sources[k].as_str());
        if o.len() > 0 {
            match find_vec(&src, &o) {
                Some(idx) => {
                    proof {
                        lemma_find_from(src@, o@, 0);
                    }
                    assert(src@.len() == src.len() && o@.len() == o.len());
                    let mut out = slice_chars(&src, 0, idx);
                    push_all(&mut out, &slice_chars(&src, idx + o.len(), src.len()));
                    assert(src@.subrange(0, idx as int) =~= src@.take(idx as int));
                    assert(src@.subrange(idx + o@.len(), src@.len() as int) =~= src@.skip(idx + o@.len()));
                    src = out;
                },
                None => {},
            }
        }
        k += 1;
    }
    assert(olds.take(k as int) =~= olds);
    prepend_item(string_of(&src).as_str(), new_source)
}

} // verus!
