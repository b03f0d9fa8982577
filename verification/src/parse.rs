//! Reading a notebook file: which top-level items are cells, helpers,
//! markdown cells and shared definitions, what each cell takes and returns,
//! and where each item stands in the source.

use vstd::prelude::*;
use vstd::string::StringSliceAdditionalSpecFns;
use vstd::utf8::encode_utf8;
use crate::notebook::{unique_names, Cell, Helper, MarkdownCell, Notebook, OrderEntry, Param, SharedDef};
use crate::source_util::decimal_vec;
use crate::syntax::{
    attr_count, attr_count_of, attr_is_doc, attr_is_doc_of, attr_segments, attr_segments_of, attr_str, attr_str_of,
    const_str, const_str_of, const_tokens, const_tokens_of, has_item, input_count, input_count_of, input_elem,
    input_elem_of, input_ident, input_ident_of, input_is_receiver, input_is_receiver_of, input_pat, input_pat_of,
    input_type, input_type_of, is_const, is_fn, item_count, item_count_of, item_ident, item_ident_of, item_lines, item_plain, item_plain_of,
    item_lines_of, item_printed, item_printed_of, item_tag, item_tag_of, output_elem, output_elem_of, output_type,
    output_type_of, parse_tree, parses, path_display, plain_printed, plain_printed_of, stmt_count, stmt_count_of,
    ItemTag, OtherItem, SyntaxTree,
};
use crate::text::{
    chars_of, find, find_from_vec, join, join_vec, lemma_find_from, lemma_find_shift, matches_at, push_all,
    slice_chars, string_of, trim, trim_vec, views,
};

verus! {

/// The pieces of `b` each ending with a line feed, the last possibly not
/// (`str::split_inclusive('\n')` on the bytes).
pub open spec fn line_pieces(b: Seq<u8>) -> Seq<Seq<u8>>
    decreases b.len(),
{
    if b.len() == 0 {
        seq![]
    } else {
        let nl = first_newline(b, 0);
        proof {
            lemma_first_newline(b, 0);
        }
        if nl < b.len() {
            seq![b.take(nl + 1)] + line_pieces(b.skip(nl + 1))
        } else {
            seq![b]
        }
    }
}

/// The index of the first line feed in `b` at or after `i`, or `b.len()`.
pub open spec fn first_newline(b: Seq<u8>, i: int) -> int
    decreases b.len() - i,
{
    if i >= b.len() {
        b.len() as int
    } else if b[i] == 10 {
        i
    } else {
        first_newline(b, i + 1)
    }
}

/// The total length of the first `k` pieces.
pub open spec fn pieces_len(ps: Seq<Seq<u8>>, k: int) -> int
    decreases k,
{
    if k <= 0 { 0 } else { pieces_len(ps, k - 1) + ps[k - 1].len() }
}

/// The byte offset of 1-based `line` and column `column` (counted from 1,
/// clamped to the line's end), when the line exists.
pub open spec fn offset_of(b: Seq<u8>, line: int, column: int) -> Option<int> {
    let ps = line_pieces(b);
    if line == 0 || line > ps.len() {
        None
    } else {
        let col = if column >= 1 { column - 1 } else { 0 };
        let len = ps[line - 1].len() as int;
        Some(pieces_len(ps, line - 1) + if col < len { col } else { len })
    }
}

pub proof fn lemma_first_newline(b: Seq<u8>, i: int)
    requires
        0 <= i <= b.len(),
    ensures
        i <= first_newline(b, i) <= b.len(),
        first_newline(b, i) < b.len() ==> b[first_newline(b, i)] == 10,
        forall|j: int| i <= j < first_newline(b, i) ==> b[j] != 10,
    decreases b.len() - i,
{
    if i < b.len() && b[i] != 10 {
        lemma_first_newline(b, i + 1);
    }
}

proof fn lemma_pieces_total(b: Seq<u8>)
    ensures
        pieces_len(line_pieces(b), line_pieces(b).len() as int) == b.len(),
        forall|k: int| 0 <= k <= line_pieces(b).len() ==> 0 <= #[trigger] pieces_len(line_pieces(b), k) <= b.len(),
    decreases b.len(),
{
    if b.len() > 0 {
        lemma_first_newline(b, 0);
        let nl = first_newline(b, 0);
        if nl < b.len() {
            let rest = b.skip(nl + 1);
            lemma_pieces_total(rest);
            let ps = line_pieces(b);
            let rs = line_pieces(rest);
            assert(ps =~= seq![b.take(nl + 1)] + rs);
            assert forall|k: int| 0 <= k <= rs.len() implies #[trigger] pieces_len(ps, k + 1) == nl + 1 + pieces_len(rs, k) by {
                lemma_pieces_shift(ps, rs, b.take(nl + 1), k);
            }
            assert forall|k: int| 0 <= k <= ps.len() implies 0 <= #[trigger] pieces_len(ps, k) <= b.len() by {
                if k > 0 {
                    assert(pieces_len(ps, (k - 1) + 1) == nl + 1 + pieces_len(rs, k - 1));
                }
            }
            assert(pieces_len(ps, rs.len() as int + 1) == nl + 1 + pieces_len(rs, rs.len() as int));
        } else {
            let ps = line_pieces(b);
            assert(ps =~= seq![b]);
            assert(pieces_len(ps, 1) == pieces_len(ps, 0) + ps[0].len());
            assert forall|k: int| 0 <= k <= ps.len() implies 0 <= #[trigger] pieces_len(ps, k) <= b.len() by {
                if k == 1 {
                    assert(pieces_len(ps, 1) == b.len());
                }
            }
        }
    } else {
        let ps = line_pieces(b);
        assert forall|k: int| 0 <= k <= ps.len() implies 0 <= #[trigger] pieces_len(ps, k) <= b.len() by {}
    }
}

proof fn lemma_pieces_shift(ps: Seq<Seq<u8>>, rs: Seq<Seq<u8>>, head: Seq<u8>, k: int)
    requires
        ps == seq![head] + rs,
        0 <= k <= rs.len(),
    ensures
        pieces_len(ps, k + 1) == head.len() + pieces_len(rs, k),
    decreases k,
{
    assert(ps[0] == head);
    if k > 0 {
        lemma_pieces_shift(ps, rs, head, k - 1);
        assert(ps[k] == rs[k - 1]);
    }
    assert(pieces_len(ps, k + 1) == pieces_len(ps, k) + ps[k].len());
}

/// The byte offset of 1-based `line` and `column` in `source`: the column
/// counts from 1 and is clamped to the line's end; `None` when the line
/// does not exist.
pub fn byte_offset(source: &str, line: usize, column: usize) -> (r: Option<usize>)
    ensures
        r matches Some(o) ==> offset_of(source.spec_bytes(), line as int, column as int) == Some(o as int),
        r is None ==> offset_of(source.spec_bytes(), line as int, column as int) is None,
{
    if line == 0 {
        return None;
    }
    let b = source.as_bytes();
    let ghost bs = b@;
    assert(bs.len() == b.len());
    proof {
        lemma_pieces_total(bs);
    }
    let mut current_line: usize = 1;
    let mut offset: usize = 0;
    let mut start: usize = 0;
    let ghost ps = line_pieces(bs);
    assert(bs.skip(0) =~= bs);
    assert(ps.skip(0) =~= ps);
    while start < b.len()
        invariant
            bs == b@,
            bs == source.spec_bytes(),
            ps == line_pieces(bs),
            bs.len() == b.len(),
            1 <= current_line,
            (current_line - 1) <= ps.len(),
            line >= current_line,
            start == offset,
            offset == pieces_len(ps, current_line - 1),
            line_pieces(bs.skip(start as int)) == ps.skip(current_line - 1),
            forall|k: int| 0 <= k <= ps.len() ==> 0 <= #[trigger] pieces_len(ps, k) <= bs.len(),
            pieces_len(ps, ps.len() as int) == bs.len(),
        decreases bs.len() - start,
    {
        let ghost rest = bs.skip(start as int);
        proof {
            lemma_first_newline(rest, 0);
        }
        let mut e = start;
        while e < b.len() && b[e] != 10
            invariant
                start <= e <= b@.len(),
                bs == b@,
                rest == bs.skip(start as int),
                forall|j: int| start <= j < e ==> bs[j] != 10,
                first_newline(rest, 0) >= e - start,
            decreases b@.len() - e,
        {
            proof {
                lemma_first_newline_step(rest, e - start);
            }
            e += 1;
        }
        let piece_end = if e < b.len() { e + 1 } else { e };
        proof {
            lemma_first_newline_at(rest, (e - start) as int);
            assert(rest.len() > 0);
            let nl = first_newline(rest, 0);
            if nl < rest.len() {
                assert(line_pieces(rest) =~= seq![rest.take(nl + 1)] + line_pieces(rest.skip(nl + 1)));
                assert(rest.skip(nl + 1) =~= bs.skip(piece_end as int));
            } else {
                assert(line_pieces(rest) =~= seq![rest]);
                assert(bs.skip(piece_end as int) =~= Seq::<u8>::empty());
            }
            assert(ps[current_line - 1] == line_pieces(rest)[0]);
            assert(line_pieces(rest)[0].len() == piece_end - start);
            assert(ps.skip(current_line as int) =~= ps.skip(current_line - 1).skip(1));
        }
        let len = piece_end - start;
        if current_line == line {
            let col = if column >= 1 { column - 1 } else { 0 };
            let c = if col < len { col } else { len };
            return Some(offset + c);
        }
        offset = offset + len;
        start = piece_end;
        current_line = current_line + 1;
    }
    proof {
        assert(bs.skip(start as int) =~= Seq::<u8>::empty());
        assert(ps.skip(current_line - 1).len() == 0);
    }
    None
}

proof fn lemma_first_newline_step(b: Seq<u8>, j: int)
    requires
        0 <= j < b.len(),
        b[j] != 10,
        first_newline(b, 0) >= j,
        forall|k: int| 0 <= k < j ==> b[k] != 10,
    ensures
        first_newline(b, 0) >= j + 1,
{
    lemma_first_newline(b, 0);
    if first_newline(b, 0) == j {
        assert(b[j] == 10);
    }
}

proof fn lemma_first_newline_at(b: Seq<u8>, j: int)
    requires
        0 <= j <= b.len(),
        j == b.len() || b[j] == 10,
        forall|k: int| 0 <= k < j ==> b[k] != 10,
    ensures
        first_newline(b, 0) == j,
{
    lemma_first_newline(b, 0);
    let f = first_newline(b, 0);
    if f < j {
        assert(b[f] == 10);
    }
    if f > j {
        assert(b[j] != 10);
    }
}

// ---------------------------------------------------------------------------
// Text of types
// ---------------------------------------------------------------------------

/// `s` with every occurrence of `from` replaced by `to`, left to right
/// (`str::replace`).
pub open spec fn replaced(s: Seq<char>, from: Seq<char>, to: Seq<char>) -> Seq<char>
    decreases s.len(),
{
    if from.len() == 0 {
        s
    } else {
        match find(s, from) {
            Some(i) => if i + from.len() <= s.len() {
                s.take(i as int) + to + replaced(s.skip(i as int + from.len()), from, to)
            } else {
                s
            },
            None => s,
        }
    }
}

pub fn replace_all(s: &[char], from: &[char], to: &[char]) -> (r: Vec<char>)
    requires
        from@.len() > 0,
    ensures
        r@ == replaced(s@, from@, to@),
{
    let mut out: Vec<char> = Vec::new();
    let mut pos: usize = 0;
    assert(s@.skip(0) =~= s@);
    loop
        invariant_except_break
            replaced(s@, from@, to@) == out@ + replaced(s@.skip(pos as int), from@, to@),
        invariant
            pos <= s@.len(),
            from@.len() > 0,
        ensures
            out@ == replaced(s@, from@, to@),
        decreases s@.len() - pos,
    {
        let ghost t = s@.skip(pos as int);
        proof {
            lemma_find_shift(s@, from@, pos as nat, 0);
        }
        match find_from_vec(s, from, pos) {
            Some(i) => {
                assert(s@.len() == s.len() && from@.len() == from.len());
                assert(find(t, from@) == Some((i - pos) as nat));
                assert(t.take(i - pos) =~= s@.subrange(pos as int, i as int));
                assert(t.skip((i - pos) + from@.len()) =~= s@.skip(i + from@.len()));
                push_all(&mut out, &slice_chars(s, pos, i));
                push_all(&mut out, to);
                pos = i + from.len();
            },
            None => {
                assert(find(t, from@) is None);
                push_all(&mut out, &slice_chars(s, pos, s.len()));
                assert(s@.subrange(pos as int, s@.len() as int) =~= t);
                break;
            },
        }
    }
    out
}

/// A type's tokens written as in source: no spaces around `::`, `<`, `>`,
/// before `,` or after `&`.
pub open spec fn type_text(tokens: Seq<char>) -> Seq<char> {
    replaced(replaced(replaced(replaced(replaced(replaced(tokens, " :: "@, "::"@), " < "@, "<"@), " > "@, ">"@), " ,"@, ","@), " & "@, "&"@), "& "@, "&"@)
}

fn type_text_vec(tokens: &[char]) -> (r: Vec<char>)
    ensures
        r@ == type_text(tokens@),
{
    proof {
        reveal_strlit(" :: ");
        reveal_strlit(" < ");
        reveal_strlit(" > ");
        reveal_strlit(" ,");
        reveal_strlit(" & ");
        reveal_strlit("& ");
    }
    let a = replace_all(tokens, &chars_of(" :: "), &chars_of("::"));
    let b = replace_all(&a, &chars_of(" < "), &chars_of("<"));
    let c = replace_all(&b, &chars_of(" > "), &chars_of(">"));
    let d = replace_all(&c, &chars_of(" ,"), &chars_of(","));
    let e = replace_all(&d, &chars_of(" & "), &chars_of("&"));
    replace_all(&e, &chars_of("& "), &chars_of("&"))
}

/// The text of a type: its tokens written as in source.
fn type_to_string(t: &TypeInfo) -> (r: String)
    ensures
        r@ == type_text(t.tokens@),
{
    string_of(&type_text_vec(&chars_of(t.tokens.as_str())))
}

/// The text of the type a parameter refers to (`inner`), with whether it
/// is a reference.
pub open spec fn inner_text(t: TypeInfo) -> Seq<char> {
    match t.ref_elem {
        Some(e) => type_text(e@),
        None => type_text(t.tokens@),
    }
}

/// Whether a type is a reference, and the text of the referenced type (of
/// the type itself when it is none).
fn strip_ref(t: &TypeInfo) -> (r: (bool, String))
    ensures
        r.0 == (t.ref_elem is Some),
        r.1@ == inner_text(*t),
{
    match &t.ref_elem {
        Some(e) => (true, string_of(&type_text_vec(&chars_of(e.as_str())))),
        None => (false, type_to_string(t)),
    }
}

// ---------------------------------------------------------------------------
// Attributes
// ---------------------------------------------------------------------------

/// An attribute path that names `name`: `name`, `labrs::name` or
/// `labrs_macros::name`.
pub open spec fn labrs_path(segs: Seq<Seq<char>>, name: Seq<char>) -> bool {
    ||| (segs.len() == 1 && segs[0] == name)
    ||| (segs.len() == 2 && segs[1] == name && (segs[0] == "labrs"@ || segs[0] == "labrs_macros"@))
}

fn is_labrs_path(segs: &Vec<String>, name: &str) -> (r: bool)
    ensures
        r == labrs_path(crate::graph::string_views(segs@), name@),
{
    let n = chars_of(name);
    if segs.len() == 1 {
        crate::source_util::eq_vec(&chars_of(segs[0].as_str()), &n)
    } else if segs.len() == 2 {
        let first = chars_of(segs[0].as_str());
        crate::source_util::eq_vec(&chars_of(segs[1].as_str()), &n)
            && (crate::source_util::eq_vec(&first, &chars_of("labrs")) || crate::source_util::eq_vec(&first, &chars_of("labrs_macros")))
    } else {
        false
    }
}

/// One of `attrs` names `name` as a labrs attribute.
pub open spec fn has_attr(attrs: Seq<AttrInfo>, name: Seq<char>) -> bool {
    exists|i: int| 0 <= i < attrs.len() && labrs_path(crate::graph::string_views((#[trigger] attrs[i]).segments@), name)
}

/// Whether one of `attrs` is `#[name]`, `#[labrs::name]` or
/// `#[labrs_macros::name]` (with or without arguments).
fn has_labrs_attr(attrs: &Vec<AttrInfo>, name: &str) -> (r: bool)
    ensures
        r == has_attr(attrs@, name@),
{
    let mut i: usize = 0;
    while i < attrs.len()
        invariant
            i <= attrs@.len(),
            forall|k: int| 0 <= k < i ==> !labrs_path(crate::graph::string_views((#[trigger] attrs@[k]).segments@), name@),
        decreases attrs@.len() - i,
    {
        if is_labrs_path(&attrs[i].segments, name) {
            return true;
        }
        i += 1;
    }
    false
}

/// A doc line without its leading space.
pub open spec fn doc_line(v: Seq<char>) -> Seq<char> {
    if v.len() > 0 && v[0] == ' ' { v.drop_first() } else { v }
}

/// The lines of the `#[doc = "…"]` attributes among `attrs`, in order.
pub open spec fn doc_lines(attrs: Seq<AttrInfo>) -> Seq<Seq<char>>
    decreases attrs.len(),
{
    if attrs.len() == 0 {
        seq![]
    } else {
        let a = attrs.last();
        match a.str_value {
            Some(v) => if a.is_doc {
                doc_lines(attrs.drop_last()).push(doc_line(v@))
            } else {
                doc_lines(attrs.drop_last())
            },
            None => doc_lines(attrs.drop_last()),
        }
    }
}

/// The doc comment that `attrs` give: their doc lines joined with line
/// feeds, `None` when there is none.
pub open spec fn docs_of(attrs: Seq<AttrInfo>) -> Option<Seq<char>> {
    let ls = doc_lines(attrs);
    if ls.len() == 0 { None } else { Some(join(ls, "\n"@)) }
}

/// The characters of an optional string.
pub open spec fn opt_chars(o: Option<String>) -> Option<Seq<char>> {
    match o {
        Some(s) => Some(s@),
        None => None,
    }
}

/// The doc comment of an item: its `#[doc = "…"]` lines joined, each
/// without its leading space; `None` when there is none.
fn extract_docs(attrs: &Vec<AttrInfo>) -> (r: Option<String>)
    ensures
        opt_chars(r) == docs_of(attrs@),
{
    let mut lines: Vec<Vec<char>> = Vec::new();
    let mut i: usize = 0;
    while i < attrs.len()
        invariant
            i <= attrs@.len(),
            views(lines@) == doc_lines(attrs@.take(i as int)),
        decreases attrs@.len() - i,
    {
        proof {
            assert(attrs@.take(i + 1).drop_last() =~= attrs@.take(i as int));
            assert(attrs@.take(i + 1).last() == attrs@[i as int]);
        }
        let ghost before = views(lines@);
        if attrs[i].is_doc {
            match &attrs[i].str_value {
                Some(v) => {
                    let c = chars_of(v.as_str());
                    let line = if c.len() > 0 && c[0] == ' ' { slice_chars(&c, 1, c.len()) } else { c };
                    assert(line@ == doc_line(v@)) by {
                        if v@.len() > 0 && v@[0] == ' ' {
                            assert(v@.subrange(1, v@.len() as int) =~= v@.drop_first());
                        }
                    }
                    lines.push(line);
                    assert(views(lines@) =~= before.push(doc_line(v@)));
                },
                None => {},
            }
        }
        i += 1;
    }
    assert(attrs@.take(i as int) =~= attrs@);
    if lines.len() == 0 {
        None
    } else {
        let nl = chars_of("\n");
        let d = join_vec(&lines, &nl);
        Some(string_of(&d))
    }
}

// ---------------------------------------------------------------------------
// Items
// ---------------------------------------------------------------------------

/// The byte span `[start, end)` of the item whose start and end (line,
/// column) are `lc`, or `(0, 0)` when either falls outside the source.
pub open spec fn span_spec(b: Seq<u8>, lc: ((usize, usize), (usize, usize))) -> (usize, usize) {
    match (offset_of(b, lc.0.0 as int, lc.0.1 as int), offset_of(b, lc.1.0 as int, lc.1.1 as int)) {
        (Some(s), Some(e)) => (s as usize, e as usize),
        _ => (0, 0),
    }
}

/// The byte span of an item in `source` from its start and end (line,
/// column), or `(0, 0)` when they fall outside the source.
fn item_span(source: &str, lc: ((usize, usize), (usize, usize))) -> (r: (usize, usize))
    ensures
        r == span_spec(source.spec_bytes(), lc),
{
    let ((sl, sc), (el, ec)) = lc;
    match byte_offset(source, sl, sc) {
        Some(s) => match byte_offset(source, el, ec) {
            Some(e) => (s, e),
            None => (0, 0),
        },
        None => (0, 0),
    }
}

/// An item's printed text, trimmed.
fn item_source(printed: &str) -> (r: String)
    ensures
        r@ == trim(printed@),
{
    string_of(&trim_vec(&chars_of(printed)))
}

fn cat2(a: &str, b: &str) -> (r: String)
    ensures
        r@ == a@ + b@,
{
    let mut v = chars_of(a);
    push_all(&mut v, &chars_of(b));
    string_of(&v)
}

fn cat4(a: &str, b: &str, c: &str, d: &str) -> (r: String)
    ensures
        r@ == a@ + b@ + c@ + d@,
{
    let mut v = chars_of(a);
    push_all(&mut v, &chars_of(b));
    push_all(&mut v, &chars_of(c));
    push_all(&mut v, &chars_of(d));
    string_of(&v)
}

fn cat3(a: &str, b: &str, c: &str) -> (r: String)
    ensures
        r@ == a@ + b@ + c@,
{
    let mut v = chars_of(a);
    push_all(&mut v, &chars_of(b));
    push_all(&mut v, &chars_of(c));
    string_of(&v)
}

fn cat5(a: &str, b: &str, c: &str, d: &str, e: &str) -> (r: String)
    ensures
        r@ == a@ + b@ + c@ + d@ + e@,
{
    let mut v = chars_of(a);
    push_all(&mut v, &chars_of(b));
    push_all(&mut v, &chars_of(c));
    push_all(&mut v, &chars_of(d));
    push_all(&mut v, &chars_of(e));
    string_of(&v)
}

/// The index of the last `c` in `s`.
pub open spec fn rfind_char(s: Seq<char>, c: char) -> Option<int>
    decreases s.len(),
{
    if s.len() == 0 {
        None
    } else if s.last() == c {
        Some(s.len() - 1)
    } else {
        rfind_char(s.drop_last(), c)
    }
}

/// The body of a function with `stmt_count` statements, printed as `p`:
/// the text between the first `{` and the last `}`, trimmed; empty when it
/// has no statements.
pub open spec fn body_text(stmt_count: nat, p: Seq<char>) -> Seq<char> {
    if stmt_count == 0 {
        seq![]
    } else {
        match (find(p, "{"@), rfind_char(p, '}')) {
            (Some(a), Some(b)) => if a < b { trim(p.subrange(a + 1 as int, b)) } else { seq![] },
            _ => seq![],
        }
    }
}

/// The body of a function between its outer braces, trimmed; empty when
/// it has no statements.
fn fn_body(f: &FnInfo) -> (r: String)
    ensures
        r@ == body_text(f.stmt_count as nat, f.plain_printed@),
{
    if f.stmt_count == 0 {
        return string_of(&Vec::new());
    }
    let pretty = chars_of(f.plain_printed.as_str());
    let ghost p = pretty@;
    let open = find_from_vec(&pretty, &chars_of("{"), 0);
    let n = pretty.len();
    let mut close: Option<usize> = None;
    let mut k: usize = n;
    assert(p.take(n as int) =~= p);
    while close.is_none() && k > 0
        invariant
            p == pretty@,
            n == p.len(),
            k <= n,
            close is None ==> rfind_char(p, '}') == rfind_char(p.take(k as int), '}'),
            close matches Some(b) ==> rfind_char(p, '}') == Some(b as int) && b < n,
        decreases k,
    {
        assert(p.take(k as int).last() == p[k - 1]);
        assert(p.take(k as int).drop_last() =~= p.take(k - 1));
        if pretty[k - 1] == '}' {
            close = Some(k - 1);
        }
        k -= 1;
    }
    proof {
        if close is None {
            assert(p.take(0) =~= Seq::<char>::empty());
        }
    }
    match (open, close) {
        (Some(a), Some(b)) => {
            if a < b {
                string_of(&trim_vec(&slice_chars(&pretty, a + 1, b)))
            } else {
                string_of(&Vec::new())
            }
        },
        _ => string_of(&Vec::new()),
    }
}

// ---------------------------------------------------------------------------
// What the reading takes from the syntax tree
// ---------------------------------------------------------------------------

/// An attribute: the identifiers of its path, whether its path is the
/// identifier `doc`, and the string of a `name = "string"` attribute.
pub struct AttrInfo {
    pub segments: Vec<String>,
    pub is_doc: bool,
    pub str_value: Option<String>,
}

/// A type: its tokens as `TokenStream::to_string` writes them, and the
/// tokens of the referenced type when it is a reference.
pub struct TypeInfo {
    pub tokens: String,
    pub ref_elem: Option<String>,
}

/// A function parameter: `self`, or a typed pattern with its identifier
/// (when the pattern is one), its tokens and its type.
pub enum ArgInfo {
    Receiver,
    Typed { ident: Option<String>, pat_tokens: String, ty: TypeInfo },
}

/// A top-level function.
pub struct FnInfo {
    pub name: String,
    pub attrs: Vec<AttrInfo>,
    pub inputs: Vec<ArgInfo>,
    /// The return type; `None` when none is written.
    pub output: Option<TypeInfo>,
    /// The number of statements in the body.
    pub stmt_count: usize,
    /// The function printed without its attributes and visibility.
    pub plain_printed: String,
    /// The function printed.
    pub printed: String,
    /// Start and end (line, column) of the function in the source.
    pub lines: ((usize, usize), (usize, usize)),
}

/// A top-level constant.
pub struct ConstInfo {
    pub name: String,
    pub attrs: Vec<AttrInfo>,
    /// The string, when the expression is a string literal.
    pub str_value: Option<String>,
    /// The tokens of the expression.
    pub expr_tokens: String,
    /// The constant printed.
    pub printed: String,
    /// Start and end (line, column) of the constant in the source.
    pub lines: ((usize, usize), (usize, usize)),
}

/// `a` is attribute `j` of item `i` of the text.
pub open spec fn attr_matches(a: AttrInfo, text: Seq<char>, i: int, j: int) -> bool {
    &&& crate::graph::string_views(a.segments@) == attr_segments_of(text, i, j)
    &&& a.is_doc == attr_is_doc_of(text, i, j)
    &&& opt_chars(a.str_value) == attr_str_of(text, i, j)
}

/// `a` is parameter `k` of function `i` of the text.
pub open spec fn arg_matches(a: ArgInfo, text: Seq<char>, i: int, k: int) -> bool {
    if input_is_receiver_of(text, i, k) {
        a is Receiver
    } else {
        &&& a matches ArgInfo::Typed { ident, pat_tokens, ty }
        &&& opt_chars(ident) == input_ident_of(text, i, k)
        &&& pat_tokens@ == input_pat_of(text, i, k)
        &&& ty.tokens@ == input_type_of(text, i, k)
        &&& opt_chars(ty.ref_elem) == input_elem_of(text, i, k)
    }
}

/// `o` is the return type of function `i` of the text.
pub open spec fn output_matches(o: Option<TypeInfo>, text: Seq<char>, i: int) -> bool {
    match output_type_of(text, i) {
        None => o is None,
        Some(tk) => o matches Some(t) && t.tokens@ == tk && opt_chars(t.ref_elem) == output_elem_of(text, i),
    }
}

/// `f` is function `i` of the text.
pub open spec fn fn_matches(f: FnInfo, text: Seq<char>, i: int) -> bool {
    &&& f.name@ == item_ident_of(text, i)
    &&& f.attrs@.len() == attr_count_of(text, i)
    &&& forall|j: int| 0 <= j < f.attrs@.len() ==> attr_matches(#[trigger] f.attrs@[j], text, i, j)
    &&& f.inputs@.len() == input_count_of(text, i)
    &&& forall|k: int| 0 <= k < f.inputs@.len() ==> arg_matches(#[trigger] f.inputs@[k], text, i, k)
    &&& output_matches(f.output, text, i)
    &&& f.stmt_count == stmt_count_of(text, i)
    &&& f.plain_printed@ == plain_printed_of(text, i)
    &&& f.printed@ == item_printed_of(text, i)
    &&& f.lines == item_lines_of(text, i)
}

/// `c` is constant `i` of the text.
pub open spec fn const_matches(c: ConstInfo, text: Seq<char>, i: int) -> bool {
    &&& c.name@ == item_ident_of(text, i)
    &&& c.attrs@.len() == attr_count_of(text, i)
    &&& forall|j: int| 0 <= j < c.attrs@.len() ==> attr_matches(#[trigger] c.attrs@[j], text, i, j)
    &&& opt_chars(c.str_value) == const_str_of(text, i)
    &&& c.expr_tokens@ == const_tokens_of(text, i)
    &&& c.printed@ == item_printed_of(text, i)
    &&& c.lines == item_lines_of(text, i)
}

/// `kind` is the other item of kind `tag` with identifier `ident`.
pub open spec fn other_matches(kind: OtherItem, tag: ItemTag, ident: Seq<char>) -> bool {
    match tag {
        ItemTag::Struct => kind matches OtherItem::Struct(n) && n@ == ident,
        ItemTag::Enum => kind matches OtherItem::Enum(n) && n@ == ident,
        ItemTag::Type => kind matches OtherItem::Type(n) && n@ == ident,
        ItemTag::Trait => kind matches OtherItem::Trait(n) && n@ == ident,
        ItemTag::Impl => kind is Impl,
        ItemTag::Use => kind is Use,
        ItemTag::Mod => kind matches OtherItem::Mod(n) && n@ == ident,
        ItemTag::Static => kind matches OtherItem::Static(n) && n@ == ident,
        ItemTag::Other => kind is Other,
        _ => false,
    }
}

/// `it` is item `i` of the text.
pub open spec fn item_matches(it: ItemInfo, text: Seq<char>, i: int) -> bool {
    match item_tag_of(text, i) {
        ItemTag::Fn => it matches ItemInfo::Fn(f) && fn_matches(f, text, i),
        ItemTag::Const => it matches ItemInfo::Const(c) && const_matches(c, text, i),
        tag => {
            &&& it matches ItemInfo::Other { kind, printed, lines }
            &&& other_matches(kind, tag, item_ident_of(text, i))
            &&& printed@ == item_printed_of(text, i)
            &&& lines == item_lines_of(text, i)
        },
    }
}

/// `items` are the top-level items of the text, in order.
pub open spec fn items_of_text(items: Seq<ItemInfo>, text: Seq<char>) -> bool {
    &&& items.len() == item_count_of(text)
    &&& forall|i: int| 0 <= i < items.len() ==> item_matches(#[trigger] items[i], text, i)
}

fn attr_list(t: &SyntaxTree, i: usize) -> (r: Vec<AttrInfo>)
    requires
        has_item(*t, i as int),
    ensures
        r@.len() == attr_count_of(t@, i as int),
        forall|j: int| 0 <= j < r@.len() ==> attr_matches(#[trigger] r@[j], t@, i as int, j),
{
    let n = attr_count(t, i);
    let mut r: Vec<AttrInfo> = Vec::new();
    let mut j: usize = 0;
    while j < n
        invariant
            has_item(*t, i as int),
            n == attr_count_of(t@, i as int),
            j <= n,
            r@.len() == j,
            forall|m: int| 0 <= m < j ==> attr_matches(#[trigger] r@[m], t@, i as int, m),
        decreases n - j,
    {
        let segments = attr_segments(t, i, j);
        let is_doc = attr_is_doc(t, i, j);
        let str_value = attr_str(t, i, j);
        r.push(AttrInfo { segments, is_doc, str_value });
        j += 1;
    }
    r
}

fn fn_info(t: &SyntaxTree, i: usize) -> (r: FnInfo)
    requires
        is_fn(*t, i as int),
        item_plain_of(t@, i as int),
    ensures
        fn_matches(r, t@, i as int),
{
    let attrs = attr_list(t, i);
    let n = input_count(t, i);
    let mut inputs: Vec<ArgInfo> = Vec::new();
    let mut k: usize = 0;
    while k < n
        invariant
            is_fn(*t, i as int),
            n == input_count_of(t@, i as int),
            k <= n,
            inputs@.len() == k,
            forall|m: int| 0 <= m < k ==> arg_matches(#[trigger] inputs@[m], t@, i as int, m),
        decreases n - k,
    {
        let a = if input_is_receiver(t, i, k) {
            ArgInfo::Receiver
        } else {
            let ty = TypeInfo { tokens: input_type(t, i, k), ref_elem: input_elem(t, i, k) };
            ArgInfo::Typed { ident: input_ident(t, i, k), pat_tokens: input_pat(t, i, k), ty }
        };
        inputs.push(a);
        k += 1;
    }
    let output = match output_type(t, i) {
        Some(tokens) => Some(TypeInfo { tokens, ref_elem: output_elem(t, i) }),
        None => None,
    };
    FnInfo {
        name: item_ident(t, i),
        attrs,
        inputs,
        output,
        stmt_count: stmt_count(t, i),
        plain_printed: plain_printed(t, i),
        printed: item_printed(t, i),
        lines: item_lines(t, i),
    }
}

fn const_info(t: &SyntaxTree, i: usize) -> (r: ConstInfo)
    requires
        is_const(*t, i as int),
        item_plain_of(t@, i as int),
    ensures
        const_matches(r, t@, i as int),
{
    ConstInfo {
        name: item_ident(t, i),
        attrs: attr_list(t, i),
        str_value: const_str(t, i),
        expr_tokens: const_tokens(t, i),
        printed: item_printed(t, i),
        lines: item_lines(t, i),
    }
}

/// Why a notebook file could not be read.
#[derive(Debug, Clone, PartialEq, Eq)]
pub enum ReadError {
    /// The file is not Rust; the path as shown.
    Syntax(String),
    /// Two cells share this name.
    DuplicateCell(String),
    /// This cell takes `self`.
    SelfParameter(String),
    /// This cell has a parameter pattern (these tokens) that is not an identifier.
    ParameterPattern(String, String),
    /// This markdown cell holds an expression (these tokens) that is not a string literal.
    MarkdownNotString(String, String),
    /// The item starting at this line holds syntax that cannot be printed.
    Unprintable(usize),
}

impl ReadError {
    /// The error's message.
    pub fn message(&self) -> (m: String)
        ensures
            m@ == match self {
                ReadError::Syntax(p) => "failed to parse Rust syntax in "@ + p@,
                ReadError::DuplicateCell(n) => "duplicate cell name `"@ + n@ + "`"@,
                ReadError::SelfParameter(n) => "cell `"@ + n@ + "` cannot take `self`"@,
                ReadError::ParameterPattern(n, t) => "cell `"@ + n@ + "`: unsupported parameter pattern `"@ + t@ + "`"@,
                ReadError::MarkdownNotString(n, t) => "markdown cell `"@ + n@ + "` must be a string literal, got "@ + t@,
                ReadError::Unprintable(l) => "the item at line "@ + crate::source_util::decimal(*l as nat) + " uses syntax that cannot be printed"@,
            },
    {
        match self {
            ReadError::Syntax(p) => cat2("failed to parse Rust syntax in ", p.as_str()),
            ReadError::DuplicateCell(n) => cat3("duplicate cell name `", n.as_str(), "`"),
            ReadError::SelfParameter(n) => cat3("cell `", n.as_str(), "` cannot take `self`"),
            ReadError::ParameterPattern(n, t) => cat5("cell `", n.as_str(), "`: unsupported parameter pattern `", t.as_str(), "`"),
            ReadError::MarkdownNotString(n, t) => cat4("markdown cell `", n.as_str(), "` must be a string literal, got ", t.as_str()),
            ReadError::Unprintable(l) => {
                let mut v = chars_of("the item at line ");
                push_all(&mut v, &decimal_vec(*l));
                push_all(&mut v, &chars_of(" uses syntax that cannot be printed"));
                string_of(&v)
            },
        }
    }
}

/// A parameter that a cell cannot take: `self`, or a pattern that is not
/// an identifier.
pub open spec fn bad_arg(a: ArgInfo) -> bool {
    match a {
        ArgInfo::Receiver => true,
        ArgInfo::Typed { ident, .. } => ident is None,
    }
}

/// The index of the first parameter at or after `k` that a cell cannot take.
pub open spec fn first_bad_arg(args: Seq<ArgInfo>, k: int) -> Option<int>
    decreases args.len() - k,
{
    if k >= args.len() {
        None
    } else if bad_arg(args[k]) {
        Some(k)
    } else {
        first_bad_arg(args, k + 1)
    }
}

/// `e` is the refusal of function `f` as a cell for its parameter `k`.
pub open spec fn cell_refused(e: ReadError, f: FnInfo, k: int) -> bool {
    match f.inputs@[k] {
        ArgInfo::Receiver => e matches ReadError::SelfParameter(n) && n@ == f.name@,
        ArgInfo::Typed { pat_tokens, .. } => e matches ReadError::ParameterPattern(n, t) && n@ == f.name@ && t@ == pat_tokens@,
    }
}

/// `p` is the parameter read from `a`: its identifier, the text of its
/// type, whether the type is a reference and the text of the referenced type.
pub open spec fn param_from(p: Param, a: ArgInfo) -> bool {
    match a {
        ArgInfo::Typed { ident: Some(n), ty, .. } => {
            &&& p.name@ == n@
            &&& p.ty@ == type_text(ty.tokens@)
            &&& p.is_ref == (ty.ref_elem is Some)
            &&& p.inner_ty@ == inner_text(ty)
        },
        _ => false,
    }
}

/// The text of a return type: `()` when none is written.
pub open spec fn return_text(o: Option<TypeInfo>) -> Seq<char> {
    match o {
        None => "()"@,
        Some(t) => type_text(t.tokens@),
    }
}

/// `c` is the cell read from function `f` of the source with bytes `b`.
pub open spec fn cell_from(c: Cell, b: Seq<u8>, f: FnInfo) -> bool {
    &&& c.id@ == f.name@
    &&& c.name@ == f.name@
    &&& opt_chars(c.docs) == docs_of(f.attrs@)
    &&& c.source@ == trim(f.printed@)
    &&& c.body@ == body_text(f.stmt_count as nat, f.plain_printed@)
    &&& c.return_type@ == return_text(f.output)
    &&& c.span == span_spec(b, f.lines)
    &&& c.params@.len() == f.inputs@.len()
    &&& forall|j: int| 0 <= j < c.params@.len() ==> param_from(#[trigger] c.params@[j], f.inputs@[j])
}

/// What reading function `f` as a cell gives: the refusal for its first
/// parameter that a cell cannot take, else the cell.
pub open spec fn cell_read(r: Result<Cell, ReadError>, b: Seq<u8>, f: FnInfo) -> bool {
    match first_bad_arg(f.inputs@, 0) {
        Some(k) => r matches Err(e) && cell_refused(e, f, k),
        None => r matches Ok(c) && cell_from(c, b, f),
    }
}

/// A cell from its function: name, docs, printed source, body, parameters
/// (by identifier; `self` and other patterns are refused) and return type
/// (`()` when none is written).
fn parse_cell(source: &str, f: &FnInfo) -> (r: Result<Cell, ReadError>)
    ensures
        cell_read(r, source.spec_bytes(), *f),
{
    let inputs = &f.inputs;
    let mut params: Vec<Param> = Vec::new();
    let mut i: usize = 0;
    while i < inputs.len()
        invariant
            inputs@ == f.inputs@,
            i <= inputs@.len(),
            params@.len() == i,
            first_bad_arg(inputs@, 0) == first_bad_arg(inputs@, i as int),
            forall|j: int| 0 <= j < i ==> param_from(#[trigger] params@[j], inputs@[j]),
        decreases inputs@.len() - i,
    {
        match &inputs[i] {
            ArgInfo::Receiver => {
                assert(first_bad_arg(inputs@, i as int) == Some(i as int));
                return Err(ReadError::SelfParameter(f.name.clone()));
            },
            ArgInfo::Typed { ident, pat_tokens, ty } => {
                let pname = match ident {
                    Some(n) => n.clone(),
                    None => {
                        assert(first_bad_arg(inputs@, i as int) == Some(i as int));
                        return Err(ReadError::ParameterPattern(f.name.clone(), pat_tokens.clone()));
                    },
                };
                let ty_text = type_to_string(ty);
                let (is_ref, inner_ty) = strip_ref(ty);
                let ghost before = params@;
                params.push(Param { name: pname, ty: ty_text, inner_ty, is_ref });
                assert(params@[i as int] == before.push(params@[i as int]).last());
                assert forall|j: int| 0 <= j < i + 1 implies param_from(#[trigger] params@[j], inputs@[j]) by {
                    if j < i {
                        assert(params@[j] == before[j]);
                    }
                }
            },
        }
        i += 1;
    }
    let return_type = match &f.output {
        None => string_of(&chars_of("()")),
        Some(t) => type_to_string(t),
    };
    Ok(Cell {
        id: f.name.clone(),
        name: f.name.clone(),
        docs: extract_docs(&f.attrs),
        source: item_source(f.printed.as_str()),
        body: fn_body(f),
        params,
        return_type,
        span: item_span(source, f.lines),
    })
}

/// `m` is the markdown cell read from constant `c` holding the string `v`.
pub open spec fn markdown_from(m: MarkdownCell, b: Seq<u8>, c: ConstInfo, v: Seq<char>) -> bool {
    &&& m.id@ == c.name@
    &&& m.name@ == c.name@
    &&& m.content@ == v
    &&& m.source@ == trim(c.printed@)
    &&& m.span == span_spec(b, c.lines)
}

/// A markdown cell from its constant, which must hold a string literal.
fn parse_markdown(source: &str, c: &ConstInfo) -> (r: Result<MarkdownCell, ReadError>)
    ensures
        match c.str_value {
            None => r matches Err(e) && e matches ReadError::MarkdownNotString(n, t) && n@ == c.name@ && t@ == c.expr_tokens@,
            Some(v) => r matches Ok(m) && markdown_from(m, source.spec_bytes(), *c, v@),
        },
{
    let content = match &c.str_value {
        Some(v) => v.clone(),
        None => {
            return Err(ReadError::MarkdownNotString(c.name.clone(), c.expr_tokens.clone()));
        },
    };
    Ok(MarkdownCell {
        id: c.name.clone(),
        name: c.name.clone(),
        content,
        source: item_source(c.printed.as_str()),
        span: item_span(source, c.lines),
    })
}

/// The names of the entries of `order` of one kind.
pub open spec fn order_cells(order: Seq<OrderEntry>) -> Seq<Seq<char>>
    decreases order.len(),
{
    if order.len() == 0 {
        seq![]
    } else {
        match order.last() {
            OrderEntry::Cell { id } => order_cells(order.drop_last()).push(id@),
            _ => order_cells(order.drop_last()),
        }
    }
}

pub open spec fn order_helpers(order: Seq<OrderEntry>) -> Seq<Seq<char>>
    decreases order.len(),
{
    if order.len() == 0 {
        seq![]
    } else {
        match order.last() {
            OrderEntry::Helper { name } => order_helpers(order.drop_last()).push(name@),
            _ => order_helpers(order.drop_last()),
        }
    }
}

pub open spec fn order_definitions(order: Seq<OrderEntry>) -> Seq<Seq<char>>
    decreases order.len(),
{
    if order.len() == 0 {
        seq![]
    } else {
        match order.last() {
            OrderEntry::Definition { name } => order_definitions(order.drop_last()).push(name@),
            _ => order_definitions(order.drop_last()),
        }
    }
}

pub open spec fn order_markdown(order: Seq<OrderEntry>) -> Seq<Seq<char>>
    decreases order.len(),
{
    if order.len() == 0 {
        seq![]
    } else {
        match order.last() {
            OrderEntry::Markdown { id } => order_markdown(order.drop_last()).push(id@),
            _ => order_markdown(order.drop_last()),
        }
    }
}

/// What a successfully read notebook is: its path and source as given, cells
/// with distinct names, and a display order that lists the cells, helpers,
/// definitions and markdown cells in the order they were read.
pub open spec fn read_notebook(nb: Notebook, path: std::path::PathBuf, source: Seq<char>) -> bool {
    &&& nb.path == path
    &&& nb.source@ == source
    &&& unique_names(nb.cells@)
    &&& forall|i: int| 0 <= i < nb.cells@.len() ==> (#[trigger] nb.cells@[i]).id@ == nb.cells@[i].name@
    &&& forall|i: int| 0 <= i < nb.markdown@.len() ==> (#[trigger] nb.markdown@[i]).id@ == nb.markdown@[i].name@
    &&& order_cells(nb.order@) == nb.cells@.map_values(|c: Cell| c.name@)
    &&& order_helpers(nb.order@) == nb.helpers@.map_values(|h: Helper| h.name@)
    &&& order_definitions(nb.order@) == nb.definitions@.map_values(|d: SharedDef| d.name@)
    &&& order_markdown(nb.order@) == nb.markdown@.map_values(|m: MarkdownCell| m.name@)
}

/// The state of a notebook being read.
struct Reading {
    cells: Vec<Cell>,
    helpers: Vec<Helper>,
    definitions: Vec<SharedDef>,
    markdown: Vec<MarkdownCell>,
    order: Vec<OrderEntry>,
}

impl Reading {
    spec fn consistent(&self) -> bool {
        &&& forall|i: int| 0 <= i < self.cells@.len() ==> (#[trigger] self.cells@[i]).id@ == self.cells@[i].name@
        &&& forall|i: int| 0 <= i < self.markdown@.len() ==> (#[trigger] self.markdown@[i]).id@ == self.markdown@[i].name@
        &&& order_cells(self.order@) == self.cells@.map_values(|c: Cell| c.name@)
        &&& order_helpers(self.order@) == self.helpers@.map_values(|h: Helper| h.name@)
        &&& order_definitions(self.order@) == self.definitions@.map_values(|d: SharedDef| d.name@)
        &&& order_markdown(self.order@) == self.markdown@.map_values(|m: MarkdownCell| m.name@)
    }

    /// `self` is `old` with the order entry `e` appended, the entry being
    /// for a cell (`0`), helper (`1`), definition (`2`) or markdown cell
    /// (`3`) named `name`.
    spec fn appended_entry(self, old: Reading, kind: int, name: Seq<char>) -> bool {
        &&& self.order@.len() == old.order@.len() + 1
        &&& self.order@.drop_last() == old.order@
        &&& match self.order@.last() {
            OrderEntry::Cell { id } => kind == 0 && id@ == name,
            OrderEntry::Helper { name: n } => kind == 1 && n@ == name,
            OrderEntry::Definition { name: n } => kind == 2 && n@ == name,
            OrderEntry::Markdown { id } => kind == 3 && id@ == name,
        }
    }

    /// Append cell `c`, and its entry to the order.
    fn push_cell(&mut self, c: Cell)
        requires
            old(self).consistent(),
            c.id@ == c.name@,
        ensures
            final(self).consistent(),
            final(self).cells@ == old(self).cells@.push(c),
            final(self).helpers@ == old(self).helpers@,
            final(self).definitions@ == old(self).definitions@,
            final(self).markdown@ == old(self).markdown@,
            final(self).appended_entry(*old(self), 0, c.name@),
    {
        let ghost o0 = self.order@;
        let ghost c0 = self.cells@;
        self.order.push(OrderEntry::Cell { id: c.id.clone() });
        self.cells.push(c);
        proof {
            assert(self.order@.drop_last() =~= o0);
            assert(self.cells@.map_values(|c: Cell| c.name@) =~= c0.map_values(|c: Cell| c.name@).push(c.name@));
        }
    }

    /// Append helper `h`, and its entry to the order.
    fn push_helper(&mut self, h: Helper)
        requires
            old(self).consistent(),
        ensures
            final(self).consistent(),
            final(self).cells@ == old(self).cells@,
            final(self).helpers@ == old(self).helpers@.push(h),
            final(self).definitions@ == old(self).definitions@,
            final(self).markdown@ == old(self).markdown@,
            final(self).appended_entry(*old(self), 1, h.name@),
    {
        let ghost o0 = self.order@;
        let ghost h0 = self.helpers@;
        self.order.push(OrderEntry::Helper { name: h.name.clone() });
        self.helpers.push(h);
        proof {
            assert(self.order@.drop_last() =~= o0);
            assert(self.helpers@.map_values(|h: Helper| h.name@) =~= h0.map_values(|h: Helper| h.name@).push(h.name@));
        }
    }

    /// Append definition `d`, and its entry to the order.
    fn push_definition(&mut self, d: SharedDef)
        requires
            old(self).consistent(),
        ensures
            final(self).consistent(),
            final(self).cells@ == old(self).cells@,
            final(self).helpers@ == old(self).helpers@,
            final(self).definitions@ == old(self).definitions@.push(d),
            final(self).markdown@ == old(self).markdown@,
            final(self).appended_entry(*old(self), 2, d.name@),
    {
        let ghost o0 = self.order@;
        let ghost d0 = self.definitions@;
        self.order.push(OrderEntry::Definition { name: d.name.clone() });
        self.definitions.push(d);
        proof {
            assert(self.order@.drop_last() =~= o0);
            assert(self.definitions@.map_values(|d: SharedDef| d.name@) =~= d0.map_values(|d: SharedDef| d.name@).push(d.name@));
        }
    }

    /// Append markdown cell `m`, and its entry to the order.
    fn push_markdown(&mut self, m: MarkdownCell)
        requires
            old(self).consistent(),
            m.id@ == m.name@,
        ensures
            final(self).consistent(),
            final(self).cells@ == old(self).cells@,
            final(self).helpers@ == old(self).helpers@,
            final(self).definitions@ == old(self).definitions@,
            final(self).markdown@ == old(self).markdown@.push(m),
            final(self).appended_entry(*old(self), 3, m.name@),
    {
        let ghost o0 = self.order@;
        let ghost m0 = self.markdown@;
        self.order.push(OrderEntry::Markdown { id: m.id.clone() });
        self.markdown.push(m);
        proof {
            assert(self.order@.drop_last() =~= o0);
            assert(self.markdown@.map_values(|m: MarkdownCell| m.name@) =~= m0.map_values(|m: MarkdownCell| m.name@).push(m.name@));
        }
    }

    /// Append a shared definition of `kind` named `name`, printed as
    /// `printed`, standing at `lc` in `source` (its span `(0, 0)` unless
    /// `with_span`).
    fn push_def_item(&mut self, source: &str, kind: &str, name: String, printed: &str, lc: ((usize, usize), (usize, usize)), with_span: bool)
        requires
            old(self).consistent(),
        ensures
            final(self).consistent(),
            final(self).cells@ == old(self).cells@,
            final(self).helpers@ == old(self).helpers@,
            final(self).markdown@ == old(self).markdown@,
            final(self).definitions@.len() == old(self).definitions@.len() + 1,
            final(self).definitions@.drop_last() == old(self).definitions@,
            final(self).definitions@.last().name@ == name@,
            final(self).definitions@.last().kind@ == kind@,
            final(self).definitions@.last().source@ == trim(printed@),
            final(self).definitions@.last().span == (if with_span { span_spec(source.spec_bytes(), lc) } else { (0usize, 0usize) }),
            final(self).appended_entry(*old(self), 2, name@),
    {
        let span = if with_span { item_span(source, lc) } else { (0, 0) };
        let d = SharedDef { name, kind: string_of(&chars_of(kind)), source: item_source(printed), span };
        let ghost d0 = self.definitions@;
        self.push_definition(d);
        assert(self.definitions@.drop_last() =~= d0);
    }
}

/// `prefix` followed by the number of definitions read so far.
fn numbered_name(prefix: &str, n: usize) -> (r: String)
    ensures
        r@ == prefix@ + crate::source_util::decimal(n as nat),
{
    let mut v = chars_of(prefix);
    push_all(&mut v, &decimal_vec(n));
    string_of(&v)
}

/// `h` is the helper read from function `f` of the source with bytes `b`.
pub open spec fn helper_from(h: Helper, b: Seq<u8>, f: FnInfo) -> bool {
    &&& h.name@ == f.name@
    &&& opt_chars(h.docs) == docs_of(f.attrs@)
    &&& h.source@ == trim(f.printed@)
    &&& h.explicit == has_attr(f.attrs@, "helper"@)
    &&& h.span == span_spec(b, f.lines)
}

/// Read a helper or a cell from function `f`: a function with a `cell`
/// attribute is read as a cell (and refused as `parse_cell` refuses it,
/// leaving `rd` as it was), any other as a helper.
fn classify_fn(source: &str, f: FnInfo, rd: &mut Reading) -> (r: Result<(), ReadError>)
    requires
        old(rd).consistent(),
    ensures
        final(rd).consistent(),
        has_attr(f.attrs@, "cell"@) ==> match first_bad_arg(f.inputs@, 0) {
            Some(k) => r matches Err(e) && cell_refused(e, f, k) && *final(rd) == *old(rd),
            None => {
                &&& r is Ok
                &&& final(rd).cells@.len() == old(rd).cells@.len() + 1
                &&& final(rd).cells@.drop_last() == old(rd).cells@
                &&& cell_from(final(rd).cells@.last(), source.spec_bytes(), f)
                &&& final(rd).helpers@ == old(rd).helpers@
                &&& final(rd).definitions@ == old(rd).definitions@
                &&& final(rd).markdown@ == old(rd).markdown@
                &&& final(rd).appended_entry(*old(rd), 0, f.name@)
            },
        },
        !has_attr(f.attrs@, "cell"@) ==> {
            &&& r is Ok
            &&& final(rd).cells@ == old(rd).cells@
            &&& final(rd).helpers@.len() == old(rd).helpers@.len() + 1
            &&& final(rd).helpers@.drop_last() == old(rd).helpers@
            &&& helper_from(final(rd).helpers@.last(), source.spec_bytes(), f)
            &&& final(rd).definitions@ == old(rd).definitions@
            &&& final(rd).markdown@ == old(rd).markdown@
            &&& final(rd).appended_entry(*old(rd), 1, f.name@)
        },
{
    let is_cell = has_labrs_attr(&f.attrs, "cell");
    let is_helper = has_labrs_attr(&f.attrs, "helper");
    if is_cell {
        let cell = match parse_cell(source, &f) {
            Ok(c) => c,
            Err(e) => return Err(e),
        };
        let ghost c0 = rd.cells@;
        rd.push_cell(cell);
        assert(rd.cells@.drop_last() =~= c0);
    } else {
        let h = Helper {
            name: f.name.clone(),
            docs: extract_docs(&f.attrs),
            source: item_source(f.printed.as_str()),
            explicit: is_helper,
            span: item_span(source, f.lines),
        };
        let ghost h0 = rd.helpers@;
        rd.push_helper(h);
        assert(rd.helpers@.drop_last() =~= h0);
    }
    Ok(())
}

/// The first name that occurs twice among `cells`.
pub open spec fn first_duplicate(cells: Seq<Cell>) -> Option<Seq<char>>
    decreases cells.len(),
{
    if cells.len() == 0 {
        None
    } else {
        match first_duplicate(cells.drop_last()) {
            Some(n) => Some(n),
            None => if exists|i: int| 0 <= i < cells.len() - 1 && #[trigger] cells[i].name@ == cells.last().name@ {
                Some(cells.last().name@)
            } else {
                None
            },
        }
    }
}

proof fn lemma_first_duplicate_none(cells: Seq<Cell>)
    requires
        first_duplicate(cells) is None,
    ensures
        unique_names(cells),
    decreases cells.len(),
{
    if cells.len() > 0 {
        lemma_first_duplicate_none(cells.drop_last());
        assert forall|i: int, j: int| 0 <= i < j < cells.len() implies cells[i].name@ != cells[j].name@ by {
            if j < cells.len() - 1 {
                assert(cells.drop_last()[i] == cells[i] && cells.drop_last()[j] == cells[j]);
            } else if cells[i].name@ == cells[j].name@ {
                assert(cells[i].name@ == cells.last().name@);
            }
        }
    }
}

proof fn lemma_first_duplicate_grows(cells: Seq<Cell>, m: int)
    requires
        0 <= m <= cells.len(),
        first_duplicate(cells.take(m)) is Some,
    ensures
        first_duplicate(cells) == first_duplicate(cells.take(m)),
    decreases cells.len() - m,
{
    if m < cells.len() {
        assert(cells.take(m + 1).drop_last() =~= cells.take(m));
        lemma_first_duplicate_grows(cells, m + 1);
    } else {
        assert(cells.take(m) =~= cells);
    }
}

/// A top-level item: a function, a constant, or another item with its
/// kind, its printed text and its start and end (line, column).
pub enum ItemInfo {
    Fn(FnInfo),
    Const(ConstInfo),
    Other { kind: OtherItem, printed: String, lines: ((usize, usize), (usize, usize)) },
}

fn item_info(t: &SyntaxTree, i: usize) -> (r: ItemInfo)
    requires
        has_item(*t, i as int),
        item_plain_of(t@, i as int),
    ensures
        item_matches(r, t@, i as int),
{
    let tag = item_tag(t, i);
    match tag {
        ItemTag::Fn => ItemInfo::Fn(fn_info(t, i)),
        ItemTag::Const => ItemInfo::Const(const_info(t, i)),
        _ => {
            let kind = match tag {
                ItemTag::Struct => OtherItem::Struct(item_ident(t, i)),
                ItemTag::Enum => OtherItem::Enum(item_ident(t, i)),
                ItemTag::Type => OtherItem::Type(item_ident(t, i)),
                ItemTag::Trait => OtherItem::Trait(item_ident(t, i)),
                ItemTag::Impl => OtherItem::Impl,
                ItemTag::Use => OtherItem::Use,
                ItemTag::Mod => OtherItem::Mod(item_ident(t, i)),
                ItemTag::Static => OtherItem::Static(item_ident(t, i)),
                _ => OtherItem::Other,
            };
            ItemInfo::Other { kind, printed: item_printed(t, i), lines: item_lines(t, i) }
        },
    }
}

/// An item that makes the reading fail: a cell with a parameter that a
/// cell cannot take, or a markdown constant that holds no string literal.
pub open spec fn item_refused(it: ItemInfo) -> bool {
    match it {
        ItemInfo::Fn(f) => has_attr(f.attrs@, "cell"@) && first_bad_arg(f.inputs@, 0) is Some,
        ItemInfo::Const(c) => has_attr(c.attrs@, "markdown"@) && c.str_value is None,
        ItemInfo::Other { .. } => false,
    }
}

/// `e` is the error for the refused item `it`.
pub open spec fn item_error(e: ReadError, it: ItemInfo) -> bool {
    match it {
        ItemInfo::Fn(f) => match first_bad_arg(f.inputs@, 0) {
            Some(k) => cell_refused(e, f, k),
            None => false,
        },
        ItemInfo::Const(c) => e matches ReadError::MarkdownNotString(n, t) && n@ == c.name@ && t@ == c.expr_tokens@,
        ItemInfo::Other { .. } => false,
    }
}

/// The index of the first refused item at or after `k`.
pub open spec fn first_refused(items: Seq<ItemInfo>, k: int) -> Option<int>
    decreases items.len() - k,
{
    if k >= items.len() {
        None
    } else if item_refused(items[k]) {
        Some(k)
    } else {
        first_refused(items, k + 1)
    }
}

/// The last entry of `order` is for a cell (`0`), helper (`1`), definition
/// (`2`) or markdown cell (`3`) named `name`.
pub open spec fn last_entry_is(order: Seq<OrderEntry>, kind: int, name: Seq<char>) -> bool {
    order.len() > 0 && match order.last() {
        OrderEntry::Cell { id } => kind == 0 && id@ == name,
        OrderEntry::Helper { name: n } => kind == 1 && n@ == name,
        OrderEntry::Definition { name: n } => kind == 2 && n@ == name,
        OrderEntry::Markdown { id } => kind == 3 && id@ == name,
    }
}

/// `d` is the shared definition of `kind` named `name`, printed as
/// `printed` and standing at `lc` (span `(0, 0)` unless `with_span`).
pub open spec fn def_from(d: SharedDef, b: Seq<u8>, kind: Seq<char>, name: Seq<char>, printed: Seq<char>, lc: ((usize, usize), (usize, usize)), with_span: bool) -> bool {
    &&& d.name@ == name
    &&& d.kind@ == kind
    &&& d.source@ == trim(printed)
    &&& d.span == (if with_span { span_spec(b, lc) } else { (0usize, 0usize) })
}

/// The kind and name of the definition read from an item of kind `k`,
/// when `count` definitions were read before it.
pub open spec fn other_def(k: OtherItem, count: nat) -> (Seq<char>, Seq<char>) {
    match k {
        OtherItem::Struct(n) => ("struct"@, n@),
        OtherItem::Enum(n) => ("enum"@, n@),
        OtherItem::Type(n) => ("type"@, n@),
        OtherItem::Trait(n) => ("trait"@, n@),
        OtherItem::Impl => ("impl"@, "impl_"@ + crate::source_util::decimal(count)),
        OtherItem::Use => ("use"@, "use_"@ + crate::source_util::decimal(count)),
        OtherItem::Mod(n) => ("mod"@, n@),
        OtherItem::Static(n) => ("static"@, n@),
        OtherItem::Other => ("item"@, "item_"@ + crate::source_util::decimal(count)),
    }
}

/// What the reading has gathered: cells, helpers, definitions, markdown
/// cells and the display order.
pub type ReadState = (Seq<Cell>, Seq<Helper>, Seq<SharedDef>, Seq<MarkdownCell>, Seq<OrderEntry>);

/// Reading `items` (none refused) from the source with bytes `b` gathers
/// `st`: each function a cell (with a `cell` attribute) or a helper, each
/// constant a markdown cell (with a `markdown` attribute) or a definition,
/// each other item a definition, each with its entry in the order.
pub open spec fn reads(b: Seq<u8>, items: Seq<ItemInfo>, st: ReadState) -> bool
    decreases items.len(),
{
    let (cells, helpers, defs, md, order) = st;
    if items.len() == 0 {
        cells.len() == 0 && helpers.len() == 0 && defs.len() == 0 && md.len() == 0 && order.len() == 0
    } else {
        let rest = items.drop_last();
        match items.last() {
            ItemInfo::Fn(f) => if has_attr(f.attrs@, "cell"@) {
                &&& cells.len() > 0
                &&& cell_from(cells.last(), b, f)
                &&& last_entry_is(order, 0, f.name@)
                &&& reads(b, rest, (cells.drop_last(), helpers, defs, md, order.drop_last()))
            } else {
                &&& helpers.len() > 0
                &&& helper_from(helpers.last(), b, f)
                &&& last_entry_is(order, 1, f.name@)
                &&& reads(b, rest, (cells, helpers.drop_last(), defs, md, order.drop_last()))
            },
            ItemInfo::Const(c) => if has_attr(c.attrs@, "markdown"@) {
                &&& md.len() > 0
                &&& c.str_value is Some
                &&& markdown_from(md.last(), b, c, c.str_value->Some_0@)
                &&& last_entry_is(order, 3, c.name@)
                &&& reads(b, rest, (cells, helpers, defs, md.drop_last(), order.drop_last()))
            } else {
                &&& defs.len() > 0
                &&& def_from(defs.last(), b, "const"@, c.name@, c.printed@, c.lines, true)
                &&& last_entry_is(order, 2, c.name@)
                &&& reads(b, rest, (cells, helpers, defs.drop_last(), md, order.drop_last()))
            },
            ItemInfo::Other { kind, printed, lines } => {
                let kn = other_def(kind, (defs.len() - 1) as nat);
                &&& defs.len() > 0
                &&& def_from(defs.last(), b, kn.0, kn.1, printed@, lines, !(kind is Other))
                &&& last_entry_is(order, 2, kn.1)
                &&& reads(b, rest, (cells, helpers, defs.drop_last(), md, order.drop_last()))
            },
        }
    }
}

/// What `rd` has gathered.
spec fn state_of(rd: Reading) -> ReadState {
    (rd.cells@, rd.helpers@, rd.definitions@, rd.markdown@, rd.order@)
}

/// What reading `items` of the text `source` gives: the error of the
/// first refused item; otherwise the notebook of what `reads` gathers, or,
/// when two of its cells share a name, the first such name.
pub open spec fn read_outcome(r: Result<Notebook, ReadError>, source: Seq<char>, items: Seq<ItemInfo>) -> bool {
    match first_refused(items, 0) {
        Some(k) => r matches Err(e) && item_error(e, items[k]),
        None => exists|st: ReadState| #[trigger] reads(encode_utf8(source), items, st) && match r {
            Ok(nb) => (nb.cells@, nb.helpers@, nb.definitions@, nb.markdown@, nb.order@) == st && first_duplicate(st.0) is None,
            Err(e) => e matches ReadError::DuplicateCell(n) && first_duplicate(st.0) == Some(n@),
        },
    }
}

/// Reading never fails for want of syntax: that error is the parser's.
proof fn lemma_read_outcome_not_syntax(r: Result<Notebook, ReadError>, source: Seq<char>, items: Seq<ItemInfo>)
    requires
        read_outcome(r, source, items),
    ensures
        !(r matches Err(ReadError::Syntax(_))),
{
    if let Some(k) = first_refused(items, 0) {
        match items[k] {
            ItemInfo::Fn(f) => {
                if let Some(q) = first_bad_arg(f.inputs@, 0) {
                    assert(cell_refused(r->Err_0, f, q));
                }
            },
            _ => {},
        }
    }
}

/// Read a notebook from its items, as the syntax tree of `source` gives
/// them. Fails on the first refused item with its error; otherwise, when
/// two cells share a name, with the first such name; otherwise gives the
/// notebook of everything read.
#[verifier::loop_isolation(false)]
pub fn read_items(path: std::path::PathBuf, source: String, items: Vec<ItemInfo>) -> (r: Result<Notebook, ReadError>)
    ensures
        read_outcome(r, source@, items@),
        r matches Ok(nb) ==> read_notebook(nb, path, source@),
{
    let mut rd = Reading { cells: Vec::new(), helpers: Vec::new(), definitions: Vec::new(), markdown: Vec::new(), order: Vec::new() };
    assert(rd.cells@.map_values(|c: Cell| c.name@) =~= Seq::<Seq<char>>::empty());
    assert(rd.helpers@.map_values(|h: Helper| h.name@) =~= Seq::<Seq<char>>::empty());
    assert(rd.definitions@.map_values(|d: SharedDef| d.name@) =~= Seq::<Seq<char>>::empty());
    assert(rd.markdown@.map_values(|m: MarkdownCell| m.name@) =~= Seq::<Seq<char>>::empty());
    let src = source.as_str();
    let ghost b = encode_utf8(source@);
    let ghost all = items@;
    let mut items = items;
    let ghost mut done: int = 0;
    assert(all.take(0) =~= Seq::<ItemInfo>::empty());
    assert(all.skip(0) =~= all);
    while items.len() > 0
        invariant
            rd.consistent(),
            src@ == source@,
            b == src.spec_bytes(),
            0 <= done <= all.len(),
            items@ == all.skip(done),
            first_refused(all, 0) == first_refused(all, done),
            reads(b, all.take(done), state_of(rd)),
        decreases items@.len(),
    {
        let ghost st0 = state_of(rd);
        let ghost r0 = rd;
        let item = items.remove(0);
        assert(item == all[done]);
        assert(all.take(done + 1).drop_last() =~= all.take(done));
        assert(all.take(done + 1).last() == all[done]);
        assert(all.skip(done).remove(0) =~= all.skip(done + 1));
        match item {
            ItemInfo::Fn(f) => {
                let ghost fv = f;
                match classify_fn(src, f, &mut rd) {
                    Ok(()) => {
                        proof {
                            if has_attr(fv.attrs@, "cell"@) {
                                assert(state_of(rd).0.drop_last() =~= st0.0);
                            } else {
                                assert(state_of(rd).1.drop_last() =~= st0.1);
                            }
                            assert(state_of(rd).4.drop_last() =~= st0.4);
                        }
                    },
                    Err(e) => {
                        assert(all[done] == ItemInfo::Fn(fv));
                        assert(has_attr(fv.attrs@, "cell"@));
                        assert(first_bad_arg(fv.inputs@, 0) is Some);
                        assert(item_error(e, all[done]));
                        assert(first_refused(all, done) == Some(done));
                        return Err(e);
                    },
                }
            },
            ItemInfo::Const(c) => {
                let ghost cv = c;
                if has_labrs_attr(&c.attrs, "markdown") {
                    let md = match parse_markdown(src, &c) {
                        Ok(m) => m,
                        Err(e) => {
                            assert(all[done] == ItemInfo::Const(cv));
                            assert(item_error(e, all[done]));
                            assert(first_refused(all, done) == Some(done));
                            return Err(e);
                        },
                    };
                    rd.push_markdown(md);
                    assert(state_of(rd).3.drop_last() =~= st0.3);
                } else {
                    rd.push_def_item(src, "const", c.name.clone(), c.printed.as_str(), c.lines, true);
                }
                assert(state_of(rd).4.drop_last() =~= st0.4);
            },
            ItemInfo::Other { kind, printed, lines } => {
                let ghost k0 = kind;
                let count = rd.definitions.len();
                let pr = printed.as_str();
                match kind {
                    OtherItem::Struct(n) => rd.push_def_item(src, "struct", n, pr, lines, true),
                    OtherItem::Enum(n) => rd.push_def_item(src, "enum", n, pr, lines, true),
                    OtherItem::Type(n) => rd.push_def_item(src, "type", n, pr, lines, true),
                    OtherItem::Trait(n) => rd.push_def_item(src, "trait", n, pr, lines, true),
                    OtherItem::Impl => {
                        let n = numbered_name("impl_", count);
                        rd.push_def_item(src, "impl", n, pr, lines, true);
                    },
                    OtherItem::Use => {
                        let n = numbered_name("use_", count);
                        rd.push_def_item(src, "use", n, pr, lines, true);
                    },
                    OtherItem::Mod(n) => rd.push_def_item(src, "mod", n, pr, lines, true),
                    OtherItem::Static(n) => rd.push_def_item(src, "static", n, pr, lines, true),
                    OtherItem::Other => {
                        let n = numbered_name("item_", count);
                        rd.push_def_item(src, "item", n, pr, lines, false);
                    },
                }
                assert(count as nat == (state_of(rd).2.len() - 1) as nat);
                assert(state_of(rd).4.drop_last() =~= st0.4);
            },
        }
        proof {
            done = done + 1;
        }
    }
    assert(all.take(done) =~= all);
    assert(reads(b, all, state_of(rd)));
    let cells = &rd.cells;
    let mut k: usize = 0;
    while k < cells.len()
        invariant
            k <= cells@.len(),
            cells@ == rd.cells@,
            reads(b, all, state_of(rd)),
            first_duplicate(cells@.take(k as int)) is None,
        decreases cells@.len() - k,
    {
        assert(cells@.take(k + 1).drop_last() =~= cells@.take(k as int));
        let mut j: usize = 0;
        while j < k
            invariant
                j <= k < cells@.len(),
                cells@ == rd.cells@,
                reads(b, all, state_of(rd)),
                first_duplicate(cells@.take(k as int)) is None,
                forall|m: int| 0 <= m < j ==> cells@[m].name@ != cells@[k as int].name@,
            decreases k - j,
        {
            if crate::notebook::str_eq(cells[j].name.as_str(), cells[k].name.as_str()) {
                proof {
                    let t = cells@.take(k + 1);
                    assert(t[j as int] == cells@[j as int]);
                    assert(t.last() == cells@[k as int]);
                    assert(t.drop_last() =~= cells@.take(k as int));
                    assert(0 <= j < t.len() - 1 && t[j as int].name@ == t.last().name@);
                    assert(first_duplicate(t) == Some(cells@[k as int].name@));
                    lemma_first_duplicate_grows(cells@, k + 1);
                    assert(reads(b, all, state_of(rd)));
                }
                return Err(ReadError::DuplicateCell(cells[k].name.clone()));
            }
            j += 1;
        }
        assert forall|i: int| 0 <= i < cells@.take(k + 1).len() - 1 implies #[trigger] cells@.take(k + 1)[i].name@ != cells@.take(k + 1).last().name@ by {
            assert(cells@.take(k + 1)[i] == cells@[i]);
        }
        k += 1;
    }
    assert(cells@.take(k as int) =~= cells@);
    proof {
        lemma_first_duplicate_none(rd.cells@);
        assert(reads(b, all, state_of(rd)));
    }
    Ok(Notebook {
        path,
        source,
        cells: rd.cells,
        helpers: rd.helpers,
        definitions: rd.definitions,
        markdown: rd.markdown,
        order: rd.order,
    })
}

/// The first item at or after `k` that is not plain (see `item_plain_of`).
pub open spec fn first_unplain(text: Seq<char>, k: int) -> Option<int>
    decreases item_count_of(text) - k,
{
    if k >= item_count_of(text) {
        None
    } else if !item_plain_of(text, k) {
        Some(k)
    } else {
        first_unplain(text, k + 1)
    }
}

/// Parse notebook source from an in-memory string. Fails when the text is
/// not Rust, when an item holds syntax that cannot be printed, when a
/// cell's parameter is `self` or not a plain identifier, when a markdown
/// cell does not hold a string literal, and when two cells share a name;
/// otherwise reads the text's top-level items in order (see `read_items`).
pub fn parse_notebook_source(path: std::path::PathBuf, source: String) -> (r: Result<Notebook, ReadError>)
    ensures
        !parses(source@) <==> r matches Err(ReadError::Syntax(_)),
        parses(source@) ==> match first_unplain(source@, 0) {
            Some(i) => r matches Err(ReadError::Unprintable(l)) && l == item_lines_of(source@, i).0.0,
            None => exists|items: Seq<ItemInfo>| #[trigger] items_of_text(items, source@) && read_outcome(r, source@, items),
        },
        r matches Ok(nb) ==> read_notebook(nb, path, source@),
{
    let t = match parse_tree(source.as_str()) {
        Some(t) => t,
        None => {
            return Err(ReadError::Syntax(path_display(&path)));
        },
    };
    let n = item_count(&t);
    let mut items: Vec<ItemInfo> = Vec::new();
    let mut i: usize = 0;
    while i < n
        invariant
            n == item_count_of(t@),
            t@ == source@,
            parses(source@),
            i <= n,
            items@.len() == i,
            first_unplain(t@, 0) == first_unplain(t@, i as int),
            forall|j: int| 0 <= j < i ==> item_matches(#[trigger] items@[j], t@, j),
        decreases n - i,
    {
        if !item_plain(&t, i) {
            assert(first_unplain(t@, i as int) == Some(i as int));
            let lines = item_lines(&t, i);
            return Err(ReadError::Unprintable(lines.0.0));
        }
        items.push(item_info(&t, i));
        i += 1;
    }
    let ghost iv = items@;
    assert(items_of_text(iv, source@));
    let r = read_items(path, source, items);
    proof {
        lemma_read_outcome_not_syntax(r, source@, iv);
    }
    r
}


} // verus!
