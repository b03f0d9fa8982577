//! The framing of Language Server Protocol messages: the header written
//! before a message, and what a header line read back says.

use vstd::prelude::*;
use crate::source_util::{decimal, decimal_vec};
use crate::text::{chars_of, find_char, push_all, slice_chars, string_of, trim, trim_vec};

verus! {

/// The header written before a message body of `len` bytes.
pub open spec fn frame_header_spec(len: nat) -> Seq<char> {
    "Content-Length: "@ + decimal(len) + "\r\n\r\n"@
}

/// The header written before a message body of `len` bytes.
pub fn frame_header(len: usize) -> (r: String)
    ensures
        r@ == frame_header_spec(len as nat),
{
    let mut v = chars_of("Content-Length: ");
    push_all(&mut v, &decimal_vec(len));
    push_all(&mut v, &chars_of("\r\n\r\n"));
    string_of(&v)
}

/// `s` without its trailing `\r` and `\n` characters.
pub open spec fn trim_line_end(s: Seq<char>) -> Seq<char>
    decreases s.len(),
{
    if s.len() > 0 && (s.last() == '\r' || s.last() == '\n') {
        trim_line_end(s.drop_last())
    } else {
        s
    }
}

fn trim_line_end_vec(s: &[char]) -> (r: Vec<char>)
    ensures
        r@ == trim_line_end(s@),
{
    let mut n = s.len();
    assert(s@.take(n as int) =~= s@);
    while n > 0 && (s[n - 1] == '\r' || s[n - 1] == '\n')
        invariant
            n <= s@.len(),
            trim_line_end(s@) == trim_line_end(s@.take(n as int)),
        decreases n,
    {
        assert(s@.take(n as int).drop_last() =~= s@.take(n - 1));
        n -= 1;
    }
    let r = slice_chars(s, 0, n);
    assert(r@ =~= s@.take(n as int));
    r
}

/// A line that ends the headers: empty once its line ending is removed.
pub fn header_end(line: &str) -> (b: bool)
    ensures
        b == (trim_line_end(line@).len() == 0),
{
    trim_line_end_vec(&chars_of(line)).len() == 0
}

/// `x` and `y` are the same letter up to ASCII case, or equal.
pub open spec fn same_ignoring_case(x: char, y: char) -> bool {
    ||| x == y
    ||| ('A' <= x && x <= 'Z' && 'a' <= y && y <= 'z' && y as int - x as int == 32)
    ||| ('a' <= x && x <= 'z' && 'A' <= y && y <= 'Z' && x as int - y as int == 32)
}

/// `a` and `b` are equal up to ASCII case (`str::eq_ignore_ascii_case`).
pub open spec fn eq_ignore_case(a: Seq<char>, b: Seq<char>) -> bool {
    a.len() == b.len() && forall|i: int| 0 <= i < a.len() ==> same_ignoring_case(#[trigger] a[i], b[i])
}

fn eq_ignore_case_vec(a: &[char], b: &[char]) -> (r: bool)
    ensures
        r == eq_ignore_case(a@, b@),
{
    if a.len() != b.len() {
        return false;
    }
    let mut i: usize = 0;
    while i < a.len()
        invariant
            a@.len() == b@.len(),
            i <= a@.len(),
            forall|k: int| 0 <= k < i ==> same_ignoring_case(#[trigger] a@[k], b@[k]),
        decreases a@.len() - i,
    {
        let x = a[i];
        let y = b[i];
        let same = x == y || ('A' <= x && x <= 'Z' && 'a' <= y && y <= 'z' && (y as u32) - (x as u32) == 32)
            || ('a' <= x && x <= 'z' && 'A' <= y && y <= 'Z' && (x as u32) - (y as u32) == 32);
        if !same {
            return false;
        }
        i += 1;
    }
    true
}

/// The value of the decimal digits `s`.
pub open spec fn digits_value(s: Seq<char>) -> nat
    decreases s.len(),
{
    if s.len() == 0 {
        0
    } else {
        digits_value(s.drop_last()) * 10 + (s.last() as int - '0' as int) as nat
    }
}

pub open spec fn all_digits(s: Seq<char>) -> bool {
    forall|i: int| 0 <= i < s.len() ==> '0' <= #[trigger] s[i] && s[i] <= '9'
}

/// What `str::parse::<usize>` gives: an optional `+`, then one or more
/// decimal digits whose value fits in a `usize`.
pub open spec fn usize_of(s: Seq<char>) -> Option<usize> {
    let d = if s.len() > 0 && s[0] == '+' { s.drop_first() } else { s };
    if d.len() > 0 && all_digits(d) && digits_value(d) <= usize::MAX {
        Some(digits_value(d) as usize)
    } else {
        None
    }
}

proof fn lemma_digits_grow(s: Seq<char>)
    requires
        s.len() > 0,
        '0' <= s.last() && s.last() <= '9',
    ensures
        digits_value(s) >= digits_value(s.drop_last()),
{
    let v = digits_value(s.drop_last());
    assert(v * 10 >= v) by (nonlinear_arith);
}

fn parse_usize(s: &[char]) -> (r: Option<usize>)
    ensures
        r == usize_of(s@),
{
    let start: usize = if s.len() > 0 && s[0] == '+' { 1 } else { 0 };
    let ghost d = if s@.len() > 0 && s@[0] == '+' { s@.drop_first() } else { s@ };
    assert(d =~= s@.skip(start as int));
    if start >= s.len() {
        return None;
    }
    let mut v: usize = 0;
    let mut i: usize = start;
    assert(s@.subrange(start as int, i as int) =~= Seq::<char>::empty());
    while i < s.len()
        invariant
            start <= i <= s@.len(),
            d == s@.skip(start as int),
            d == (if s@.len() > 0 && s@[0] == '+' { s@.drop_first() } else { s@ }),
            v == digits_value(s@.subrange(start as int, i as int)),
            all_digits(s@.subrange(start as int, i as int)),
        decreases s@.len() - i,
    {
        let c = s[i];
        if !('0' <= c && c <= '9') {
            assert(d[i - start] == c);
            return None;
        }
        let ghost pre = s@.subrange(start as int, i as int);
        let ghost post = s@.subrange(start as int, i + 1);
        assert(post.drop_last() =~= pre);
        assert(post.last() == c);
        let digit = (c as u32 - '0' as u32) as usize;
        assert(digits_value(post) == v * 10 + digit);
        let m = v.checked_mul(10);
        let next = match m {
            Some(m) => m.checked_add(digit),
            None => None,
        };
        match next {
            Some(n) => {
                v = n;
            },
            None => {
                proof {
                    assert(digits_value(post) > usize::MAX) by (nonlinear_arith)
                        requires
                            digits_value(post) == v * 10 + digit,
                            m is None ==> v * 10 > usize::MAX,
                            m matches Some(mv) ==> mv == v * 10 && mv + digit > usize::MAX,
                    ;
                    lemma_digits_grow_to(s@, start as int, i + 1);
                }
                return None;
            },
        }
        i += 1;
    }
    assert(s@.subrange(start as int, i as int) =~= d);
    Some(v)
}

/// The value of a prefix of digits is at most the value of the whole.
proof fn lemma_digits_grow_to(s: Seq<char>, start: int, j: int)
    requires
        0 <= start < j <= s.len(),
        all_digits(s.subrange(start, j - 1)),
        '0' <= s[j - 1] && s[j - 1] <= '9',
        digits_value(s.subrange(start, j)) > usize::MAX,
    ensures
        usize_of_tail(s, start) is None,
    decreases s.len() - j,
{
    if j < s.len() && '0' <= s[j] && s[j] <= '9' {
        let a = s.subrange(start, j);
        let b = s.subrange(start, j + 1);
        assert(b.drop_last() =~= a);
        assert(b.last() == s[j]);
        lemma_digits_grow(b);
        assert(all_digits(a)) by {
            assert forall|i: int| 0 <= i < a.len() implies '0' <= #[trigger] a[i] && a[i] <= '9' by {
                if i < a.len() - 1 {
                    assert(a[i] == s.subrange(start, j - 1)[i]);
                }
            }
        }
        lemma_digits_grow_to(s, start, j + 1);
    } else {
        lemma_tail_value(s, start, j);
    }
}

/// `s` from `start` on read as an unsigned number.
pub open spec fn usize_of_tail(s: Seq<char>, start: int) -> Option<usize> {
    let d = s.skip(start);
    if d.len() > 0 && all_digits(d) && digits_value(d) <= usize::MAX {
        Some(digits_value(d) as usize)
    } else {
        None
    }
}

proof fn lemma_tail_value(s: Seq<char>, start: int, j: int)
    requires
        0 <= start < j <= s.len(),
        digits_value(s.subrange(start, j)) > usize::MAX,
        j < s.len() ==> !('0' <= s[j] && s[j] <= '9'),
    ensures
        usize_of_tail(s, start) is None,
{
    let d = s.skip(start);
    if j < s.len() {
        assert(d[j - start] == s[j]);
    } else {
        assert(d =~= s.subrange(start, j));
    }
}

/// The content length that a header line leaves, given the one known
/// before it: a `Content-Length` header (the name in any ASCII case) sets
/// it to its trimmed value read as a number (`None` when that fails); any
/// other line leaves it.
pub open spec fn content_length_after(line: Seq<char>, current: Option<usize>) -> Option<usize> {
    let t = trim_line_end(line);
    match find_char(t, ':') {
        None => current,
        Some(k) => if eq_ignore_case(t.take(k as int), "Content-Length"@) {
            usize_of(trim(t.skip(k + 1 as int)))
        } else {
            current
        },
    }
}

/// Read one header line: see `content_length_after`.
pub fn content_length_of(line: &str, current: Option<usize>) -> (r: Option<usize>)
    ensures
        r == content_length_after(line@, current),
{
    let t = trim_line_end_vec(&chars_of(line));
    let colon = vec![':'];
    assert(colon@ =~= seq![':']);
    match crate::text::find_vec(&t, &colon) {
        None => current,
        Some(k) => {
            proof {
                crate::text::lemma_find_from(t@, seq![':'], 0);
                assert(crate::text::matches_at(t@, seq![':'], k as int));
            }
            assert(k < t.len());
            let name = slice_chars(&t, 0, k);
            assert(name@ =~= t@.take(k as int));
            if eq_ignore_case_vec(&name, &chars_of("Content-Length")) {
                let rest = slice_chars(&t, k + 1, t.len());
                assert(rest@ =~= t@.skip(k + 1));
                parse_usize(&trim_vec(&rest))
            } else {
                current
            }
        },
    }
}

} // verus!
