//! Translation between the source shown in the editor and the source kept on
//! disk: the `#[labrs::…]` attribute lines exist only on disk.

use vstd::prelude::*;
use crate::text::{
    chars_of, join, join_vec, lines, push_all, split_lines, starts_with, starts_with_vec, string_of,
    trim, trim_vec, views,
};

verus! {

// ---------------------------------------------------------------------------
// Specifications
// ---------------------------------------------------------------------------

/// A line that holds only a labrs attribute (after trimming).
pub open spec fn is_attr_line(l: Seq<char>) -> bool {
    let t = trim(l);
    ||| starts_with(t, "#[labrs::"@)
    ||| starts_with(t, "#[labrs_macros::"@)
    ||| t == "#[cell]"@
    ||| t == "#[helper]"@
    ||| t == "#[markdown]"@
}

/// The lines of `ls` that are not attribute lines, in order.
pub open spec fn non_attr_lines(ls: Seq<Seq<char>>) -> Seq<Seq<char>>
    decreases ls.len(),
{
    if ls.len() == 0 {
        seq![]
    } else if is_attr_line(ls.last()) {
        non_attr_lines(ls.drop_last())
    } else {
        non_attr_lines(ls.drop_last()).push(ls.last())
    }
}

/// The editor form of `source`: its attribute lines dropped, the other
/// lines joined with `\n`, the result trimmed.
pub open spec fn stripped_source(source: Seq<char>) -> Seq<char> {
    trim(join(non_attr_lines(lines(source)), seq!['\n']))
}

/// A line that may stand before the attribute: blank or a doc comment.
pub open spec fn is_preamble_line(l: Seq<char>) -> bool {
    let t = trim(l);
    t.len() == 0 || starts_with(t, "///"@) || starts_with(t, "//!"@)
}

/// Number of leading lines of `ls` that are blank or doc comments.
pub open spec fn preamble_len(ls: Seq<Seq<char>>) -> nat
    decreases ls.len(),
{
    if ls.len() > 0 && is_preamble_line(ls[0]) {
        1 + preamble_len(ls.drop_first())
    } else {
        0
    }
}

/// The attribute line `#[labrs::<attr>]`.
pub open spec fn attr_marker(attr: Seq<char>) -> Seq<char> {
    "#[labrs::"@ + attr + "]"@
}

/// The disk form of `source`: the editor form with the attribute line put
/// after the leading blank and doc-comment lines, then a final `\n`.
pub open spec fn with_attr_source(source: Seq<char>, attr: Seq<char>) -> Seq<char> {
    let ls = lines(stripped_source(source));
    join(ls.insert(preamble_len(ls) as int, attr_marker(attr)), seq!['\n']).push('\n')
}

/// The decimal digit for `d < 10`.
pub open spec fn digit(d: nat) -> char {
    if d == 0 { '0' }
    else if d == 1 { '1' }
    else if d == 2 { '2' }
    else if d == 3 { '3' }
    else if d == 4 { '4' }
    else if d == 5 { '5' }
    else if d == 6 { '6' }
    else if d == 7 { '7' }
    else if d == 8 { '8' }
    else { '9' }
}

/// The decimal notation of `n`.
pub open spec fn decimal(n: nat) -> Seq<char>
    decreases n,
{
    if n < 10 {
        seq![digit(n)]
    } else {
        decimal(n / 10).push(digit(n % 10))
    }
}

/// `n` is one of the names in `existing`.
pub open spec fn name_taken(existing: Seq<String>, n: Seq<char>) -> bool {
    exists|i: int| 0 <= i < existing.len() && existing[i]@ == n
}

/// The candidate `<prefix>_<i>`.
pub open spec fn numbered(prefix: Seq<char>, i: nat) -> Seq<char> {
    prefix + "_"@ + decimal(i)
}

/// The least `i` in `from..10000` whose candidate is free.
pub open spec fn first_free(existing: Seq<String>, prefix: Seq<char>, from: nat) -> Option<nat>
    decreases 10000 - from,
{
    if from >= 10000 {
        None
    } else if !name_taken(existing, numbered(prefix, from)) {
        Some(from)
    } else {
        first_free(existing, prefix, from + 1)
    }
}

/// The length of the longest of `existing`.
pub open spec fn longest(existing: Seq<String>) -> nat
    decreases existing.len(),
{
    if existing.len() == 0 {
        0
    } else {
        let m = longest(existing.drop_last());
        if existing.last()@.len() > m { existing.last()@.len() } else { m }
    }
}

/// `n` underscores.
pub open spec fn underscores(n: nat) -> Seq<char> {
    Seq::new(n, |i: int| '_')
}

/// The name taken when `prefix` and all its numbered candidates are
/// taken: `prefix_new`, or, should that be taken too, `prefix_new`
/// followed by underscores until it is longer than every name.
pub open spec fn last_resort(existing: Seq<String>, prefix: Seq<char>) -> Seq<char> {
    let b = prefix + "_new"@;
    if !name_taken(existing, b) { b } else { b + underscores(longest(existing) + 1) }
}

/// The name `fresh_name` picks.
pub open spec fn fresh_name_spec(existing: Seq<String>, prefix: Seq<char>) -> Seq<char> {
    if !name_taken(existing, prefix) {
        prefix
    } else {
        match first_free(existing, prefix, 2) {
            Some(i) => numbered(prefix, i),
            None => last_resort(existing, prefix),
        }
    }
}

// ---------------------------------------------------------------------------
// Implementation
// ---------------------------------------------------------------------------

fn is_attr_line_vec(l: &[char]) -> (b: bool)
    ensures
        b == is_attr_line(l@),
{
    let t = trim_vec(l);
    let p1 = chars_of("#[labrs::");
    let p2 = chars_of("#[labrs_macros::");
    let c1 = chars_of("#[cell]");
    let c2 = chars_of("#[helper]");
    let c3 = chars_of("#[markdown]");
    starts_with_vec(&t, &p1) || starts_with_vec(&t, &p2) || eq_vec(&t, &c1) || eq_vec(&t, &c2)
        || eq_vec(&t, &c3)
}

/// Remove `#[labrs::…]` / `#[labrs_macros::…]` lines from source shown in the editor.
pub fn strip_labrs_attrs(source: &str) -> (r: String)
    ensures
        r@ == stripped_source(source@),
{
    let s = chars_of(source);
    let r = strip_attr_chars(&s);
    string_of(&r)
}

/// `strip_labrs_attrs` over characters.
pub fn strip_attr_chars(s: &[char]) -> (r: Vec<char>)
    ensures
        r@ == stripped_source(s@),
{
    let ls = split_lines(s);
    let mut kept: Vec<Vec<char>> = Vec::new();
    let mut i: usize = 0;
    while i < ls.len()
        invariant
            i <= ls@.len(),
            views(kept@) == non_attr_lines(views(ls@).take(i as int)),
        decreases ls@.len() - i,
    {
        let ghost before = kept@;
        let attr = is_attr_line_vec(&ls[i]);
        proof {
            assert(views(ls@).take(i + 1).drop_last() =~= views(ls@).take(i as int));
            assert(views(ls@).take(i + 1).last() == ls@[i as int]@);
        }
        if !attr {
            kept.push(ls[i].clone());
            assert(views(kept@) =~= views(before).push(ls@[i as int]@));
        }
        i += 1;
    }
    assert(views(ls@).take(i as int) =~= views(ls@));
    let nl = vec!['\n'];
    assert(nl@ =~= seq!['\n']);
    let joined = join_vec(&kept, &nl);
    trim_vec(&joined)
}

/// Character-wise equality.
pub fn eq_vec(a: &[char], b: &[char]) -> (r: bool)
    ensures
        r == (a@ == b@),
{
    if a.len() != b.len() {
        return false;
    }
    let r = starts_with_vec(a, b);
    assert(a@.take(b@.len() as int) =~= a@);
    r
}

fn is_preamble_line_vec(l: &[char]) -> (b: bool)
    ensures
        b == is_preamble_line(l@),
{
    let t = trim_vec(l);
    let d1 = chars_of("///");
    let d2 = chars_of("//!");
    t.len() == 0 || starts_with_vec(&t, &d1) || starts_with_vec(&t, &d2)
}

proof fn lemma_preamble_len_step(ls: Seq<Seq<char>>, k: int)
    requires
        0 <= k < ls.len(),
        is_preamble_line(ls[k]),
    ensures
        preamble_len(ls.skip(k)) == 1 + preamble_len(ls.skip(k + 1)),
{
    assert(ls.skip(k).drop_first() =~= ls.skip(k + 1));
}

/// Ensure a `#[labrs::{attr}]` line is present before the item (for writing to disk).
pub fn with_labrs_attr(source: &str, attr: &str) -> (r: String)
    ensures
        r@ == with_attr_source(source@, attr@),
{
    let s = chars_of(source);
    let a = chars_of(attr);
    let stripped = strip_attr_chars(&s);
    let ls = split_lines(&stripped);
    let mut marker = chars_of("#[labrs::");
    push_all(&mut marker, &a);
    let close = chars_of("]");
    push_all(&mut marker, &close);
    let mut insert_at: usize = 0;
    assert(views(ls@).skip(0) =~= views(ls@));
    while insert_at < ls.len() && is_preamble_line_vec(&ls[insert_at])
        invariant
            insert_at <= ls@.len(),
            preamble_len(views(ls@)) == insert_at + preamble_len(views(ls@).skip(insert_at as int)),
        decreases ls@.len() - insert_at,
    {
        proof {
            lemma_preamble_len_step(views(ls@), insert_at as int);
        }
        insert_at += 1;
    }
    proof {
        if insert_at < ls@.len() {
            assert(!is_preamble_line(views(ls@).skip(insert_at as int)[0]));
        } else {
            assert(views(ls@).skip(insert_at as int).len() == 0);
        }
    }
    let mut out_lines = ls;
    let ghost before = out_lines@;
    out_lines.insert(insert_at, marker);
    assert(views(out_lines@) =~= views(before).insert(insert_at as int, marker@));
    let nl = vec!['\n'];
    assert(nl@ =~= seq!['\n']);
    assert(marker@ == attr_marker(attr@));
    let mut out = join_vec(&out_lines, &nl);
    out.push('\n');
    string_of(&out)
}

fn digit_char(d: usize) -> (c: char)
    requires
        d < 10,
    ensures
        c == digit(d as nat),
{
    if d == 0 { '0' }
    else if d == 1 { '1' }
    else if d == 2 { '2' }
    else if d == 3 { '3' }
    else if d == 4 { '4' }
    else if d == 5 { '5' }
    else if d == 6 { '6' }
    else if d == 7 { '7' }
    else if d == 8 { '8' }
    else { '9' }
}

/// The decimal notation of `n`.
pub fn decimal_vec(n: usize) -> (r: Vec<char>)
    ensures
        r@ == decimal(n as nat),
    decreases n,
{
    if n < 10 {
        vec![digit_char(n)]
    } else {
        let mut r = decimal_vec(n / 10);
        r.push(digit_char(n % 10));
        r
    }
}

fn taken(existing: &[String], n: &String) -> (b: bool)
    ensures
        b == name_taken(existing@, n@),
{
    let mut i: usize = 0;
    while i < existing.len()
        invariant
            i <= existing@.len(),
            forall|k: int| 0 <= k < i ==> existing@[k]@ != n@,
        decreases existing@.len() - i,
    {
        if existing[i] == *n {
            return true;
        }
        i += 1;
    }
    false
}

/// Pick an unused name like `prefix`, `prefix_2`, …
pub fn fresh_name(existing: &[String], prefix: &str) -> (r: String)
    ensures
        r@ == fresh_name_spec(existing@, prefix@),
{
    let p = chars_of(prefix);
    let ps = string_of(&p);
    if !taken(existing, &ps) {
        return ps;
    }
    let underscore = chars_of("_");
    let mut i: usize = 2;
    while i < 10000
        invariant
            2 <= i <= 10000,
            name_taken(existing@, prefix@),
            p@ == prefix@,
            underscore@ == "_"@,
            first_free(existing@, prefix@, 2) == first_free(existing@, prefix@, i as nat),
        decreases 10000 - i,
    {
        let mut cand = p.clone();
        push_all(&mut cand, &underscore);
        let d = decimal_vec(i);
        push_all(&mut cand, &d);
        let cs = string_of(&cand);
        if !taken(existing, &cs) {
            assert(cs@ == numbered(prefix@, i as nat));
            return cs;
        }
        i += 1;
    }
    let mut r = p.clone();
    let suffix = chars_of("_new");
    push_all(&mut r, &suffix);
    let b = string_of(&r);
    if !taken(existing, &b) {
        return b;
    }
    let m = longest_len(existing);
    let ghost b0 = r@;
    r.push('_');
    assert(r@ =~= b0 + underscores(1));
    let mut k: usize = m;
    while k > 0
        invariant
            k <= m,
            m == longest(existing@),
            b0 == prefix@ + "_new"@,
            r@ == b0 + underscores((m - k + 1) as nat),
        decreases k,
    {
        let ghost before = r@;
        r.push('_');
        assert(underscores((m - k + 2) as nat) =~= underscores((m - k + 1) as nat).push('_'));
        k -= 1;
    }
    string_of(&r)
}

fn longest_len(existing: &[String]) -> (m: usize)
    ensures
        m == longest(existing@),
{
    let mut m: usize = 0;
    let mut i: usize = 0;
    while i < existing.len()
        invariant
            i <= existing@.len(),
            m == longest(existing@.take(i as int)),
        decreases existing@.len() - i,
    {
        assert(existing@.take(i + 1).drop_last() =~= existing@.take(i as int));
        let l = chars_of(existing[i].as_str()).len();
        if l > m {
            m = l;
        }
        i += 1;
    }
    assert(existing@.take(i as int) =~= existing@);
    m
}


proof fn lemma_first_free(existing: Seq<String>, prefix: Seq<char>, from: nat)
    ensures
        first_free(existing, prefix, from) matches Some(i) ==> from <= i < 10000 && !name_taken(existing, numbered(prefix, i)),
        (exists|i: nat| from <= i < 10000 && !name_taken(existing, #[trigger] numbered(prefix, i))) ==> first_free(existing, prefix, from) is Some,
    decreases 10000 - from,
{
    if from < 10000 && name_taken(existing, numbered(prefix, from)) {
        lemma_first_free(existing, prefix, from + 1);
        if exists|i: nat| from <= i < 10000 && !name_taken(existing, #[trigger] numbered(prefix, i)) {
            let i = choose|i: nat| from <= i < 10000 && !name_taken(existing, #[trigger] numbered(prefix, i));
            assert(i != from);
            assert(from + 1 <= i < 10000 && !name_taken(existing, numbered(prefix, i)));
        }
    }
}

proof fn lemma_longest(existing: Seq<String>)
    ensures
        forall|i: int| 0 <= i < existing.len() ==> (#[trigger] existing[i])@.len() <= longest(existing),
    decreases existing.len(),
{
    if existing.len() > 0 {
        lemma_longest(existing.drop_last());
        assert forall|i: int| 0 <= i < existing.len() implies (#[trigger] existing[i])@.len() <= longest(existing) by {
            if i < existing.len() - 1 {
                assert(existing[i] == existing.drop_last()[i]);
            }
        }
    }
}

/// `fresh_name` picks a name that none of `existing` has.
pub proof fn law_fresh_name_is_unused(existing: Seq<String>, prefix: Seq<char>)
    ensures
        !name_taken(existing, fresh_name_spec(existing, prefix)),
{
    lemma_first_free(existing, prefix, 2);
    lemma_longest(existing);
    let b = prefix + "_new"@;
    let c = b + underscores(longest(existing) + 1);
    assert(!name_taken(existing, c)) by {
        assert forall|i: int| 0 <= i < existing.len() implies existing[i]@ != c by {
            assert(existing[i]@.len() <= longest(existing));
        }
    }
}

} // verus!
