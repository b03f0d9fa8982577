//! Whole-word search of an identifier in Rust source, on its UTF-8 bytes.

use vstd::prelude::*;
use vstd::string::StringSliceAdditionalSpecFns;

verus! {

/// An ASCII letter, digit or `_`.
pub open spec fn ident_byte(b: u8) -> bool {
    ||| (48 <= b && b <= 57)
    ||| (65 <= b && b <= 90)
    ||| (97 <= b && b <= 122)
    ||| b == 95
}

/// `id` occurs in `s` at `i`, with no identifier byte right before or after.
pub open spec fn word_at(s: Seq<u8>, id: Seq<u8>, i: int) -> bool {
    &&& 0 <= i
    &&& i + id.len() <= s.len()
    &&& s.subrange(i, i + id.len()) == id
    &&& (i == 0 || !ident_byte(s[i - 1]))
    &&& (i + id.len() >= s.len() || !ident_byte(s[i + id.len()]))
}

/// `id` is not empty and occurs in `s` as a whole word.
pub open spec fn ident_in(s: Seq<u8>, id: Seq<u8>) -> bool {
    id.len() > 0 && exists|i: int| #[trigger] word_at(s, id, i)
}

/// Whether `b` may be part of an identifier.
pub fn is_ident_byte(b: u8) -> (r: bool)
    ensures
        r == ident_byte(b),
{
    (b >= 48 && b <= 57) || (b >= 65 && b <= 90) || (b >= 97 && b <= 122) || b == 95
}

fn bytes_at(s: &[u8], id: &[u8], i: usize) -> (r: bool)
    requires
        i + id@.len() <= s@.len(),
    ensures
        r == (s@.subrange(i as int, i + id@.len()) == id@),
{
    assert(s@.len() == s.len());
    let mut k: usize = 0;
    while k < id.len()
        invariant
            i + id@.len() <= s@.len(),
            s@.len() <= usize::MAX,
            k <= id@.len(),
            forall|j: int| 0 <= j < k ==> s@[i + j] == id@[j],
        decreases id@.len() - k,
    {
        if s[i + k] != id[k] {
            assert(s@.subrange(i as int, i + id@.len())[k as int] != id@[k as int]);
            return false;
        }
        k += 1;
    }
    assert(s@.subrange(i as int, i + id@.len()) =~= id@);
    true
}

/// True if `ident` appears as a whole word in `src`.
pub fn ident_used_in(src: &str, ident: &str) -> (r: bool)
    ensures
        r == ident_in(src.spec_bytes(), ident.spec_bytes()),
{
    let bytes = src.as_bytes();
    let id = ident.as_bytes();
    assert(bytes@.len() == bytes.len());
    assert(id@.len() == id.len());
    if id.len() == 0 {
        return false;
    }
    let mut i: usize = 0;
    while id.len() <= bytes.len() && i <= bytes.len() - id.len()
        invariant
            bytes@.len() == bytes.len(),
            id@.len() == id.len(),
            bytes@ == src.spec_bytes(),
            id@ == ident.spec_bytes(),
            id@.len() > 0,
            i <= bytes@.len(),
            forall|j: int| 0 <= j < i ==> !word_at(bytes@, id@, j),
        decreases bytes@.len() - i,
    {
        if bytes_at(bytes, id, i) {
            let before_ok = i == 0 || !is_ident_byte(bytes[i - 1]);
            let after = i + id.len();
            let after_ok = after >= bytes.len() || !is_ident_byte(bytes[after]);
            if before_ok && after_ok {
                assert(word_at(bytes@, id@, i as int));
                return true;
            }
        }
        i += 1;
    }
    assert forall|j: int| #![trigger word_at(bytes@, id@, j)] !word_at(bytes@, id@, j) by {
        if j >= i {
            assert(id@.len() > bytes@.len() || j + id@.len() > bytes@.len());
        }
    }
    false
}

} // verus!
