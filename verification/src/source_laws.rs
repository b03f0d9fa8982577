//! What the translation between editor and disk forms keeps: the disk form
//! holds the attribute line after the leading doc and blank lines, and the
//! other lines as the editor form has them; stripping it gives the editor
//! form back.

use vstd::prelude::*;
use crate::source_util::{attr_marker, is_attr_line, non_attr_lines, preamble_len, stripped_source, with_attr_source};
use crate::text::{find, find_char, find_from, is_ws, join, lines, matches_at, starts_with, strip_cr, trim, trim_end, trim_start};

verus! {

/// `s` holds no carriage return.
pub open spec fn no_cr(s: Seq<char>) -> bool {
    forall|i: int| 0 <= i < s.len() ==> s[i] != '\r'
}

/// `s` holds no line feed.
pub open spec fn no_lf(s: Seq<char>) -> bool {
    forall|i: int| 0 <= i < s.len() ==> s[i] != '\n'
}

proof fn lemma_find_lf_from(s: Seq<char>, n: int, i: int)
    requires
        0 <= i <= n < s.len(),
        s[n] == '\n',
        forall|k: int| i <= k < n ==> s[k] != '\n',
    ensures
        find_from(s, seq!['\n'], i as nat) == Some(n as nat),
    decreases n - i,
{
    if i < n {
        assert(!matches_at(s, seq!['\n'], i)) by {
            if matches_at(s, seq!['\n'], i) {
                assert(s.subrange(i, i + 1)[0] == s[i]);
            }
        }
        lemma_find_lf_from(s, n, i + 1);
    } else {
        assert(s.subrange(i, i + 1) =~= seq!['\n']);
    }
}

proof fn lemma_no_lf_find(s: Seq<char>, i: int)
    requires
        0 <= i <= s.len(),
        forall|k: int| i <= k < s.len() ==> s[k] != '\n',
    ensures
        find_from(s, seq!['\n'], i as nat) is None,
    decreases s.len() - i,
{
    if i < s.len() {
        assert(!matches_at(s, seq!['\n'], i)) by {
            if matches_at(s, seq!['\n'], i) {
                assert(s.subrange(i, i + 1)[0] == s[i]);
            }
        }
        lemma_no_lf_find(s, i + 1);
    }
}

proof fn lemma_join_front(ls: Seq<Seq<char>>, sep: Seq<char>)
    requires
        ls.len() >= 2,
    ensures
        join(ls, sep) == ls[0] + sep + join(ls.skip(1), sep),
    decreases ls.len(),
{
    if ls.len() == 2 {
        assert(ls.skip(1) =~= seq![ls[1]]);
        assert(ls.drop_last() =~= seq![ls[0]]);
        assert(join(ls.drop_last(), sep) == ls[0]);
        assert(join(ls.skip(1), sep) == ls[1]);
        assert(join(ls, sep) =~= ls[0] + sep + join(ls.skip(1), sep));
    } else {
        lemma_join_front(ls.drop_last(), sep);
        assert(ls.drop_last()[0] == ls[0]);
        assert(ls.drop_last().skip(1) =~= ls.skip(1).drop_last());
        assert(ls.skip(1).last() == ls.last());
        assert(join(ls.skip(1), sep) == join(ls.skip(1).drop_last(), sep) + sep + ls.skip(1).last());
        assert(join(ls, sep) =~= ls[0] + sep + join(ls.skip(1), sep));
    }
}

/// The lines of `join(ls, "\n")` followed by a line feed are `ls` again,
/// when no piece holds a line feed or a carriage return.
pub proof fn lemma_lines_of_joined(ls: Seq<Seq<char>>)
    requires
        ls.len() > 0,
        forall|i: int| 0 <= i < ls.len() ==> no_lf(#[trigger] ls[i]) && no_cr(ls[i]),
    ensures
        lines(join(ls, seq!['\n']).push('\n')) == ls,
    decreases ls.len(),
{
    let x = join(ls, seq!['\n']).push('\n');
    let h = ls[0];
    assert(no_lf(ls[0]) && no_cr(ls[0]));
    let t = if ls.len() == 1 { seq!['\n'] } else { seq!['\n'] + join(ls.skip(1), seq!['\n']).push('\n') };
    if ls.len() == 1 {
        assert(x =~= h + t);
    } else {
        lemma_join_front(ls, seq!['\n']);
        let rest = ls.skip(1);
        assert forall|i: int| 0 <= i < rest.len() implies no_lf(#[trigger] rest[i]) && no_cr(rest[i]) by {
            assert(rest[i] == ls[i + 1]);
        }
        lemma_lines_of_joined(rest);
        assert(x =~= h + t);
    }
    assert(x == h + t);
    let n = h.len() as int;
    assert(x[n] == '\n');
    assert forall|k: int| 0 <= k < n implies x[k] != '\n' by {
        assert(x[k] == h[k]);
    }
    lemma_find_lf_from(x, n, 0);
    assert(find_char(x, '\n') == Some(n as nat));
    assert(x.take(n) =~= h);
    if h.len() > 0 {
        assert(h.last() != '\r');
    }
    assert(strip_cr(h) == h);
    if ls.len() == 1 {
        assert(x.skip(n + 1) =~= Seq::<char>::empty());
        assert(lines(Seq::<char>::empty()) =~= Seq::<Seq<char>>::empty());
        assert(lines(x) =~= seq![h]);
        assert(ls =~= seq![h]);
    } else {
        assert(x.skip(n + 1) =~= join(ls.skip(1), seq!['\n']).push('\n'));
        assert(lines(x) =~= seq![h] + ls.skip(1));
        assert(ls =~= seq![h] + ls.skip(1));
    }
}

/// Every line of `s` is free of line feeds, and of carriage returns when
/// `s` is.
pub proof fn lemma_lines_pieces(s: Seq<char>)
    ensures
        forall|i: int| 0 <= i < lines(s).len() ==> no_lf(#[trigger] lines(s)[i]),
        no_cr(s) ==> forall|i: int| 0 <= i < lines(s).len() ==> no_cr(#[trigger] lines(s)[i]),
    decreases s.len(),
{
    if s.len() > 0 {
        crate::text::lemma_find_from(s, seq!['\n'], 0);
        match find_char(s, '\n') {
            Some(i) => {
                if i < s.len() {
                    let head = strip_cr(s.take(i as int));
                    let tail = s.skip(i + 1 as int);
                    lemma_lines_pieces(tail);
                    assert forall|k: int| 0 <= k < head.len() implies head[k] != '\n' by {
                        assert(!matches_at(s, seq!['\n'], k)) ;
                        assert(s.subrange(k, k + 1) =~= seq![s[k]]);
                    }
                    if no_cr(s) {
                        assert(no_cr(tail)) by {
                            assert forall|k: int| 0 <= k < tail.len() implies tail[k] != '\r' by {
                                assert(tail[k] == s[k + i + 1]);
                            }
                        }
                    }
                    let ls = lines(s);
                    assert(ls =~= seq![head] + lines(tail));
                    assert forall|k: int| 0 <= k < ls.len() implies no_lf(#[trigger] ls[k]) by {
                        if k > 0 {
                            assert(ls[k] == lines(tail)[k - 1]);
                        }
                    }
                    if no_cr(s) {
                        assert forall|k: int| 0 <= k < ls.len() implies no_cr(#[trigger] ls[k]) by {
                            if k > 0 {
                                assert(ls[k] == lines(tail)[k - 1]);
                            }
                        }
                    }
                } else {
                    assert(lines(s) =~= seq![s]);
                    assert(matches_at(s, seq!['\n'], i as int));
                }
            },
            None => {
                assert(lines(s) =~= seq![s]);
                assert forall|k: int| 0 <= k < s.len() implies s[k] != '\n' by {
                    assert(!matches_at(s, seq!['\n'], k));
                    assert(s.subrange(k, k + 1) =~= seq![s[k]]);
                }
            },
        }
    }
}

proof fn lemma_non_attr_pieces(ls: Seq<Seq<char>>)
    requires
        forall|i: int| 0 <= i < ls.len() ==> no_lf(#[trigger] ls[i]) && no_cr(ls[i]),
    ensures
        forall|i: int| 0 <= i < non_attr_lines(ls).len() ==> no_lf(#[trigger] non_attr_lines(ls)[i]) && no_cr(non_attr_lines(ls)[i]),
    decreases ls.len(),
{
    if ls.len() > 0 {
        let d = ls.drop_last();
        assert forall|i: int| 0 <= i < d.len() implies no_lf(#[trigger] d[i]) && no_cr(d[i]) by {
            assert(d[i] == ls[i]);
        }
        lemma_non_attr_pieces(d);
        assert(no_lf(ls[ls.len() - 1]) && no_cr(ls[ls.len() - 1]));
        let nd = non_attr_lines(d);
        let n = non_attr_lines(ls);
        assert forall|i: int| 0 <= i < n.len() implies no_lf(#[trigger] n[i]) && no_cr(n[i]) by {
            if i < nd.len() {
                assert(n[i] == nd[i]);
            } else {
                assert(n[i] == ls.last());
            }
        }
    }
}

proof fn lemma_join_no_cr(ls: Seq<Seq<char>>)
    requires
        forall|i: int| 0 <= i < ls.len() ==> no_cr(#[trigger] ls[i]),
    ensures
        no_cr(join(ls, seq!['\n'])),
    decreases ls.len(),
{
    if ls.len() == 1 {
        assert(no_cr(ls[0]));
    } else if ls.len() > 1 {
        let d = ls.drop_last();
        assert forall|i: int| 0 <= i < d.len() implies no_cr(#[trigger] d[i]) by {
            assert(d[i] == ls[i]);
        }
        lemma_join_no_cr(d);
        let j = join(d, seq!['\n']);
        let l = ls.last();
        assert(no_cr(ls[ls.len() - 1]));
        assert forall|k: int| 0 <= k < join(ls, seq!['\n']).len() implies join(ls, seq!['\n'])[k] != '\r' by {
            if k < j.len() {
                assert(join(ls, seq!['\n'])[k] == j[k]);
            } else if k == j.len() {
                assert(join(ls, seq!['\n'])[k] == '\n');
            } else {
                assert(join(ls, seq!['\n'])[k] == l[k - j.len() - 1]);
            }
        }
    }
}

proof fn lemma_trim_no_cr(x: Seq<char>)
    requires
        no_cr(x),
    ensures
        no_cr(trim_start(x)),
        no_cr(trim_end(x)),
        no_cr(trim(x)),
    decreases x.len(),
{
    if x.len() > 0 {
        let a = x.drop_first();
        let b = x.drop_last();
        assert(no_cr(a)) by {
            assert forall|k: int| 0 <= k < a.len() implies a[k] != '\r' by {
                assert(a[k] == x[k + 1]);
            }
        }
        assert(no_cr(b)) by {
            assert forall|k: int| 0 <= k < b.len() implies b[k] != '\r' by {
                assert(b[k] == x[k]);
            }
        }
        lemma_trim_no_cr(a);
        lemma_trim_no_cr(b);
    }
    lemma_trim_end_no_cr(trim_start(x));
}

proof fn lemma_trim_end_no_cr(x: Seq<char>)
    requires
        no_cr(x),
    ensures
        no_cr(trim_end(x)),
    decreases x.len(),
{
    if x.len() > 0 {
        let b = x.drop_last();
        assert(no_cr(b)) by {
            assert forall|k: int| 0 <= k < b.len() implies b[k] != '\r' by {
                assert(b[k] == x[k]);
            }
        }
        lemma_trim_end_no_cr(b);
    }
}

/// A source without carriage returns keeps none in its editor form.
pub proof fn lemma_stripped_no_cr(source: Seq<char>)
    requires
        no_cr(source),
    ensures
        no_cr(stripped_source(source)),
{
    lemma_lines_pieces(source);
    lemma_non_attr_pieces(lines(source));
    let n = non_attr_lines(lines(source));
    assert forall|i: int| 0 <= i < n.len() implies no_cr(#[trigger] n[i]) by {}
    lemma_join_no_cr(n);
    lemma_trim_no_cr(join(n, seq!['\n']));
}

proof fn lemma_preamble_len_bound(ls: Seq<Seq<char>>)
    ensures
        preamble_len(ls) <= ls.len(),
    decreases ls.len(),
{
    if ls.len() > 0 && crate::source_util::is_preamble_line(ls[0]) {
        lemma_preamble_len_bound(ls.drop_first());
    }
}

/// The attribute line `#[labrs::<attr>]` is an attribute line.
pub proof fn lemma_marker_is_attr_line(attr: Seq<char>)
    ensures
        is_attr_line(attr_marker(attr)),
{
    reveal_strlit("#[labrs::");
    reveal_strlit("]");
    let m = attr_marker(attr);
    assert(m[0] == '#');
    assert(m.last() == ']');
    assert(!is_ws(m[0]));
    assert(trim_start(m) == m);
    assert(!is_ws(m.last()));
    assert(trim_end(m) == m);
    assert(m.take("#[labrs::"@.len() as int) =~= "#[labrs::"@);
}

/// The disk form of a source puts the attribute line `#[labrs::<attr>]`
/// right after the leading blank and doc-comment lines of the editor form
/// and keeps every other line of the editor form, in order (for sources and
/// attribute names without carriage returns, and names without line feeds).
pub proof fn law_disk_form_places_the_attribute(source: Seq<char>, attr: Seq<char>)
    requires
        no_cr(source),
        no_cr(attr),
        no_lf(attr),
    ensures
        is_attr_line(attr_marker(attr)),
        lines(with_attr_source(source, attr)) == lines(stripped_source(source)).insert(
            preamble_len(lines(stripped_source(source))) as int,
            attr_marker(attr),
        ),
{
    lemma_marker_is_attr_line(attr);
    let t = stripped_source(source);
    lemma_stripped_no_cr(source);
    lemma_lines_pieces(t);
    let ls = lines(t);
    let k = preamble_len(ls) as int;
    lemma_preamble_len_bound(ls);
    let m = attr_marker(attr);
    reveal_strlit("#[labrs::");
    reveal_strlit("]");
    assert(no_lf(m) && no_cr(m)) by {
        assert forall|i: int| 0 <= i < m.len() implies m[i] != '\n' && m[i] != '\r' by {
            if i < 9 {
                assert(m[i] == "#[labrs::"@[i]);
            } else if i < 9 + attr.len() {
                assert(m[i] == attr[i - 9]);
            } else {
                assert(m[i] == ']');
            }
        }
    }
    let l2 = ls.insert(k, m);
    assert forall|i: int| 0 <= i < l2.len() implies no_lf(#[trigger] l2[i]) && no_cr(l2[i]) by {
        if i < k {
            assert(l2[i] == ls[i]);
        } else if i == k {
            assert(l2[i] == m);
        } else {
            assert(l2[i] == ls[i - 1]);
        }
    }
    lemma_lines_of_joined(l2);
}


/// A piece that the editor form may hold: no line feed, no carriage return,
/// and not an attribute line.
spec fn plain_piece(l: Seq<char>) -> bool {
    no_lf(l) && no_cr(l) && !is_attr_line(l)
}

/// Every piece of `ls` is plain.
spec fn plain_pieces(ls: Seq<Seq<char>>) -> bool {
    forall|i: int| 0 <= i < ls.len() ==> plain_piece(#[trigger] ls[i])
}

proof fn lemma_ts_concat(a: Seq<char>, b: Seq<char>)
    ensures
        trim_start(a + b) == (if trim_start(a).len() == 0 { trim_start(b) } else { trim_start(a) + b }),
    decreases a.len(),
{
    if a.len() == 0 {
        assert(a + b =~= b);
    } else if is_ws(a[0]) {
        assert((a + b)[0] == a[0]);
        assert((a + b).drop_first() =~= a.drop_first() + b);
        lemma_ts_concat(a.drop_first(), b);
    } else {
        assert((a + b)[0] == a[0]);
    }
}

proof fn lemma_te_concat(a: Seq<char>, b: Seq<char>)
    ensures
        trim_end(a + b) == (if trim_end(b).len() == 0 { trim_end(a) } else { a + trim_end(b) }),
    decreases b.len(),
{
    if b.len() == 0 {
        assert(a + b =~= a);
    } else if is_ws(b.last()) {
        assert((a + b).last() == b.last());
        assert((a + b).drop_last() =~= a + b.drop_last());
        lemma_te_concat(a, b.drop_last());
    } else {
        assert((a + b).last() == b.last());
    }
}

proof fn lemma_ts_shape(x: Seq<char>)
    ensures
        trim_start(x) == x.skip(x.len() - trim_start(x).len()),
        trim_start(x).len() <= x.len(),
        trim_start(x).len() > 0 ==> !is_ws(trim_start(x)[0]),
        trim_start(trim_start(x)) == trim_start(x),
    decreases x.len(),
{
    if x.len() > 0 && is_ws(x[0]) {
        lemma_ts_shape(x.drop_first());
        assert(x.drop_first().skip(x.drop_first().len() - trim_start(x).len()) =~= x.skip(x.len() - trim_start(x).len()));
    } else {
        assert(x.skip(0) =~= x);
    }
}

proof fn lemma_te_shape(x: Seq<char>)
    ensures
        trim_end(x) == x.take(trim_end(x).len() as int),
        trim_end(x).len() <= x.len(),
        trim_end(x).len() > 0 ==> !is_ws(trim_end(x).last()),
        trim_end(trim_end(x)) == trim_end(x),
    decreases x.len(),
{
    if x.len() > 0 && is_ws(x.last()) {
        lemma_te_shape(x.drop_last());
        assert(x.drop_last().take(trim_end(x).len() as int) =~= x.take(trim_end(x).len() as int));
    } else {
        assert(x.take(x.len() as int) =~= x);
    }
}

proof fn lemma_trim_commute(x: Seq<char>)
    ensures
        trim_start(trim_end(x)) == trim_end(trim_start(x)),
    decreases x.len(),
{
    if x.len() > 0 {
        let c = seq![x[0]];
        let y = x.drop_first();
        assert(x =~= c + y);
        lemma_te_concat(c, y);
        if is_ws(x[0]) {
            lemma_trim_commute(y);
            assert(c.drop_last() =~= Seq::<char>::empty());
            assert(c.last() == x[0]);
            assert(trim_end(c) == trim_end(c.drop_last()));
            assert(trim_end(Seq::<char>::empty()) =~= Seq::<char>::empty());
            assert(trim_end(c).len() == 0);
            if trim_end(y).len() > 0 {
                assert((c + trim_end(y)).drop_first() =~= trim_end(y));
            }
        } else {
            assert(trim_end(c) == c);
            if trim_end(y).len() > 0 {
                assert((c + trim_end(y))[0] == x[0]);
            }
        }
    }
}

/// `trim` leaves a trimmed text as it is.
proof fn lemma_trim_idempotent(x: Seq<char>)
    ensures
        trim(trim(x)) == trim(x),
{
    lemma_ts_shape(x);
    lemma_trim_commute(trim_start(x));
    lemma_te_shape(trim_start(trim_start(x)));
}

proof fn lemma_ts_piece(l: Seq<char>)
    requires
        plain_piece(l),
    ensures
        plain_piece(trim_start(l)),
{
    lemma_ts_shape(l);
    let t = trim_start(l);
    let d = l.len() - t.len();
    assert forall|k: int| 0 <= k < t.len() implies t[k] != '\n' && t[k] != '\r' by {
        assert(t[k] == l[k + d]);
    }
}

proof fn lemma_te_piece(l: Seq<char>)
    requires
        plain_piece(l),
    ensures
        plain_piece(trim_end(l)),
{
    lemma_te_shape(l);
    let t = trim_end(l);
    assert forall|k: int| 0 <= k < t.len() implies t[k] != '\n' && t[k] != '\r' by {
        assert(t[k] == l[k]);
    }
    lemma_trim_commute(l);
    lemma_te_shape(trim_start(l));
}

proof fn lemma_lf_is_ws()
    ensures
        is_ws('\n'),
        trim_start(seq!['\n']).len() == 0,
        trim_end(seq!['\n']).len() == 0,
{
    let s = seq!['\n'];
    assert(s[0] == '\n');
    assert(s.last() == '\n');
    assert(s.drop_first() =~= Seq::<char>::empty());
    assert(s.drop_last() =~= Seq::<char>::empty());
    assert(trim_start(s) == trim_start(s.drop_first()));
    assert(trim_end(s) == trim_end(s.drop_last()));
    assert(trim_start(Seq::<char>::empty()) =~= Seq::<char>::empty());
    assert(trim_end(Seq::<char>::empty()) =~= Seq::<char>::empty());
}

/// Trimming the front of joined plain pieces gives joined plain pieces.
proof fn lemma_trim_start_join(ls: Seq<Seq<char>>) -> (ms: Seq<Seq<char>>)
    requires
        plain_pieces(ls),
    ensures
        plain_pieces(ms),
        trim_start(join(ls, seq!['\n'])) == join(ms, seq!['\n']),
    decreases ls.len(),
{
    if ls.len() == 0 {
        ls
    } else if ls.len() == 1 {
        assert(plain_piece(ls[0]));
        lemma_ts_piece(ls[0]);
        let ms = seq![trim_start(ls[0])];
        assert(plain_piece(ms[0]));
        ms
    } else {
        let rest = ls.skip(1);
        assert(plain_pieces(rest)) by {
            assert forall|i: int| 0 <= i < rest.len() implies plain_piece(#[trigger] rest[i]) by {
                assert(rest[i] == ls[i + 1]);
            }
        }
        lemma_join_front(ls, seq!['\n']);
        let r = join(rest, seq!['\n']);
        assert(join(ls, seq!['\n']) =~= ls[0] + (seq!['\n'] + r));
        lemma_ts_concat(ls[0], seq!['\n'] + r);
        lemma_lf_is_ws();
        lemma_ts_concat(seq!['\n'], r);
        if trim_start(ls[0]).len() == 0 {
            lemma_trim_start_join(rest)
        } else {
            assert(plain_piece(ls[0]));
            lemma_ts_piece(ls[0]);
            let ms = seq![trim_start(ls[0])] + rest;
            assert(ms.skip(1) =~= rest);
            lemma_join_front(ms, seq!['\n']);
            assert(trim_start(ls[0]) + (seq!['\n'] + r) =~= trim_start(ls[0]) + seq!['\n'] + r);
            assert forall|i: int| 0 <= i < ms.len() implies plain_piece(#[trigger] ms[i]) by {
                if i > 0 {
                    assert(ms[i] == rest[i - 1]);
                }
            }
            ms
        }
    }
}

/// Trimming the back of joined plain pieces gives joined plain pieces whose
/// last piece ends in a character other than whitespace.
proof fn lemma_trim_end_join(ls: Seq<Seq<char>>) -> (ms: Seq<Seq<char>>)
    requires
        plain_pieces(ls),
    ensures
        plain_pieces(ms),
        trim_end(join(ls, seq!['\n'])) == join(ms, seq!['\n']),
        ms.len() > 0 ==> ms.last().len() > 0,
    decreases ls.len(),
{
    if ls.len() == 0 {
        ls
    } else {
        let l = ls.last();
        assert(plain_piece(ls[ls.len() - 1]));
        lemma_te_piece(l);
        lemma_te_shape(l);
        if ls.len() == 1 {
            if trim_end(l).len() == 0 {
                Seq::<Seq<char>>::empty()
            } else {
                seq![trim_end(l)]
            }
        } else {
            let front = ls.drop_last();
            assert(plain_pieces(front)) by {
                assert forall|i: int| 0 <= i < front.len() implies plain_piece(#[trigger] front[i]) by {
                    assert(front[i] == ls[i]);
                }
            }
            let f = join(front, seq!['\n']);
            assert(join(ls, seq!['\n']) == f + seq!['\n'] + l);
            lemma_te_concat(f + seq!['\n'], l);
            lemma_lf_is_ws();
            lemma_te_concat(f, seq!['\n']);
            assert(f + seq!['\n'] =~= f + seq!['\n']);
            if trim_end(l).len() == 0 {
                lemma_trim_end_join(front)
            } else {
                let ms = front.push(trim_end(l));
                assert(ms.drop_last() =~= front);
                assert forall|i: int| 0 <= i < ms.len() implies plain_piece(#[trigger] ms[i]) by {
                    if i < front.len() {
                        assert(ms[i] == front[i]);
                    }
                }
                assert(join(ms, seq!['\n']) == f + seq!['\n'] + trim_end(l));
                ms
            }
        }
    }
}

/// The lines of plain pieces joined with `\n` are the pieces again, when
/// the last piece is not empty.
proof fn lemma_lines_of_join(ls: Seq<Seq<char>>)
    requires
        forall|i: int| 0 <= i < ls.len() ==> no_lf(#[trigger] ls[i]) && no_cr(ls[i]),
        ls.len() > 0 ==> ls.last().len() > 0,
    ensures
        lines(join(ls, seq!['\n'])) == ls,
    decreases ls.len(),
{
    if ls.len() == 0 {
    } else if ls.len() == 1 {
        let h = ls[0];
        assert(no_lf(ls[0]));
        lemma_no_lf_find(h, 0);
        assert(lines(h) =~= seq![h]);
        assert(ls =~= seq![h]);
    } else {
        let h = ls[0];
        assert(no_lf(ls[0]) && no_cr(ls[0]));
        let rest = ls.skip(1);
        assert forall|i: int| 0 <= i < rest.len() implies no_lf(#[trigger] rest[i]) && no_cr(rest[i]) by {
            assert(rest[i] == ls[i + 1]);
        }
        assert(rest.last() == ls.last());
        lemma_lines_of_join(rest);
        lemma_join_front(ls, seq!['\n']);
        let x = join(ls, seq!['\n']);
        let r = join(rest, seq!['\n']);
        let n = h.len() as int;
        assert(x == h + seq!['\n'] + r);
        assert(x[n] == '\n');
        assert forall|k: int| 0 <= k < n implies x[k] != '\n' by {
            assert(x[k] == h[k]);
        }
        lemma_find_lf_from(x, n, 0);
        assert(x.take(n) =~= h);
        if h.len() > 0 {
            assert(h.last() != '\r');
        }
        assert(x.skip(n + 1) =~= r);
        assert(lines(x) =~= seq![h] + rest);
        assert(ls =~= seq![h] + rest);
    }
}

proof fn lemma_non_attr_concat(a: Seq<Seq<char>>, b: Seq<Seq<char>>)
    ensures
        non_attr_lines(a + b) == non_attr_lines(a) + non_attr_lines(b),
    decreases b.len(),
{
    if b.len() == 0 {
        assert(a + b =~= a);
        assert(non_attr_lines(a) + non_attr_lines(b) =~= non_attr_lines(a));
    } else {
        assert((a + b).drop_last() =~= a + b.drop_last());
        assert((a + b).last() == b.last());
        lemma_non_attr_concat(a, b.drop_last());
        if !is_attr_line(b.last()) {
            assert(non_attr_lines(a) + non_attr_lines(b.drop_last()).push(b.last())
                =~= (non_attr_lines(a) + non_attr_lines(b.drop_last())).push(b.last()));
        }
    }
}

proof fn lemma_non_attr_of_plain(ls: Seq<Seq<char>>)
    requires
        plain_pieces(ls),
    ensures
        non_attr_lines(ls) == ls,
    decreases ls.len(),
{
    if ls.len() > 0 {
        let d = ls.drop_last();
        assert(plain_pieces(d)) by {
            assert forall|i: int| 0 <= i < d.len() implies plain_piece(#[trigger] d[i]) by {
                assert(d[i] == ls[i]);
            }
        }
        lemma_non_attr_of_plain(d);
        assert(plain_piece(ls[ls.len() - 1]));
        assert(d.push(ls.last()) =~= ls);
    }
}

proof fn lemma_kept_lines_plain(ls: Seq<Seq<char>>)
    requires
        forall|i: int| 0 <= i < ls.len() ==> no_lf(#[trigger] ls[i]) && no_cr(ls[i]),
    ensures
        plain_pieces(non_attr_lines(ls)),
{
    lemma_non_attr_pieces(ls);
    lemma_kept_lines_not_attr(ls);
}

proof fn lemma_kept_lines_not_attr(ls: Seq<Seq<char>>)
    ensures
        forall|i: int| 0 <= i < non_attr_lines(ls).len() ==> !is_attr_line(#[trigger] non_attr_lines(ls)[i]),
    decreases ls.len(),
{
    if ls.len() > 0 {
        let d = ls.drop_last();
        lemma_kept_lines_not_attr(d);
        let nd = non_attr_lines(d);
        let n = non_attr_lines(ls);
        assert forall|i: int| 0 <= i < n.len() implies !is_attr_line(#[trigger] n[i]) by {
            if i < nd.len() {
                assert(n[i] == nd[i]);
            }
        }
    }
}

/// Stripping the disk form of a source gives back its editor form: the
/// attribute line that the disk form adds is the only line that stripping
/// drops (for sources and attribute names without carriage returns, and
/// names without line feeds).
pub proof fn law_strip_undoes_disk_form(source: Seq<char>, attr: Seq<char>)
    requires
        no_cr(source),
        no_cr(attr),
        no_lf(attr),
    ensures
        stripped_source(with_attr_source(source, attr)) == stripped_source(source),
{
    law_disk_form_places_the_attribute(source, attr);
    let t = stripped_source(source);
    lemma_lines_pieces(source);
    let kept = non_attr_lines(lines(source));
    lemma_kept_lines_plain(lines(source));
    let m1 = lemma_trim_start_join(kept);
    let m2 = lemma_trim_end_join(m1);
    assert(t == join(m2, seq!['\n']));
    assert forall|i: int| 0 <= i < m2.len() implies no_lf(#[trigger] m2[i]) && no_cr(m2[i]) by {
        assert(plain_piece(m2[i]));
    }
    lemma_lines_of_join(m2);
    let ls = lines(t);
    assert(ls == m2);
    let k = preamble_len(ls) as int;
    lemma_preamble_len_bound(ls);
    let m = attr_marker(attr);
    assert(ls.insert(k, m) =~= ls.take(k) + (seq![m] + ls.skip(k)));
    lemma_non_attr_concat(ls.take(k), seq![m] + ls.skip(k));
    lemma_non_attr_concat(seq![m], ls.skip(k));
    assert(seq![m].drop_last() =~= Seq::<Seq<char>>::empty());
    assert(seq![m].last() == m);
    assert(non_attr_lines(seq![m]) == non_attr_lines(seq![m].drop_last()));
    assert(non_attr_lines(seq![m]) =~= Seq::<Seq<char>>::empty());
    assert(plain_pieces(ls.take(k))) by {
        assert forall|i: int| 0 <= i < ls.take(k).len() implies plain_piece(#[trigger] ls.take(k)[i]) by {
            assert(ls.take(k)[i] == ls[i]);
        }
    }
    assert(plain_pieces(ls.skip(k))) by {
        assert forall|i: int| 0 <= i < ls.skip(k).len() implies plain_piece(#[trigger] ls.skip(k)[i]) by {
            assert(ls.skip(k)[i] == ls[i + k]);
        }
    }
    lemma_non_attr_of_plain(ls.take(k));
    lemma_non_attr_of_plain(ls.skip(k));
    assert(non_attr_lines(ls.insert(k, m)) =~= ls);
    lemma_trim_idempotent(join(non_attr_lines(lines(source)), seq!['\n']));
}


/// The editor form of a source without carriage returns: its lines are
/// plain pieces, joined with line feeds they give it back, and it is
/// trimmed.
proof fn lemma_editor_form_shape(source: Seq<char>)
    requires
        no_cr(source),
    ensures
        plain_pieces(lines(stripped_source(source))),
        join(lines(stripped_source(source)), seq!['\n']) == stripped_source(source),
        trim(stripped_source(source)) == stripped_source(source),
{
    let t = stripped_source(source);
    lemma_lines_pieces(source);
    let kept = non_attr_lines(lines(source));
    lemma_kept_lines_plain(lines(source));
    let m1 = lemma_trim_start_join(kept);
    let m2 = lemma_trim_end_join(m1);
    assert(t == join(m2, seq!['\n']));
    assert forall|i: int| 0 <= i < m2.len() implies no_lf(#[trigger] m2[i]) && no_cr(m2[i]) by {
        assert(plain_piece(m2[i]));
    }
    lemma_lines_of_join(m2);
    assert(lines(t) == m2);
    lemma_trim_idempotent(join(kept, seq!['\n']));
}

/// Stripping the attribute lines is idempotent: the editor form of an
/// editor form is itself (for sources without carriage returns).
pub proof fn law_strip_is_idempotent(source: Seq<char>)
    requires
        no_cr(source),
    ensures
        stripped_source(stripped_source(source)) == stripped_source(source),
{
    let t = stripped_source(source);
    lemma_editor_form_shape(source);
    lemma_non_attr_of_plain(lines(t));
}

/// Adding the attribute to a text that already carries it changes
/// nothing, and the disk form holds exactly one attribute line, the
/// marker (for sources and attribute names without carriage returns, and
/// names without line feeds).
pub proof fn law_disk_form_has_one_marker(source: Seq<char>, attr: Seq<char>)
    requires
        no_cr(source),
        no_cr(attr),
        no_lf(attr),
    ensures
        with_attr_source(with_attr_source(source, attr), attr) == with_attr_source(source, attr),
        forall|j: int| 0 <= j < lines(with_attr_source(source, attr)).len() ==>
            (is_attr_line(#[trigger] lines(with_attr_source(source, attr))[j])
                <==> j == preamble_len(lines(stripped_source(source)))),
{
    law_strip_undoes_disk_form(source, attr);
    law_disk_form_places_the_attribute(source, attr);
    lemma_editor_form_shape(source);
    let ls = lines(stripped_source(source));
    let k = preamble_len(ls) as int;
    lemma_preamble_len_bound(ls);
    let w = lines(with_attr_source(source, attr));
    assert forall|j: int| 0 <= j < w.len() implies (is_attr_line(#[trigger] w[j]) <==> j == k) by {
        if j < k {
            assert(w[j] == ls[j]);
            assert(plain_piece(ls[j]));
        } else if j > k {
            assert(w[j] == ls[j - 1]);
            assert(plain_piece(ls[j - 1]));
        }
    }
}

} // verus!
