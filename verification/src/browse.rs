//! Decisions of the workspace file browser: which relative paths may be
//! opened, and which directory entries are listed, in which order. Reading
//! the disk is left to the caller, who hands over what it found.

use vstd::prelude::*;
use crate::protocol::{normalize_rel, normalized_rel};
use crate::text::{chars_of, push_all, starts_with, starts_with_vec, string_of};

verus! {

// ---------------------------------------------------------------------------
// Paths under the root
// ---------------------------------------------------------------------------

/// `s` holds a `..` component at index `i`: two dots between slashes or
/// the ends of `s`.
pub open spec fn parent_at(s: Seq<char>, i: int) -> bool {
    &&& 0 <= i
    &&& i + 2 <= s.len()
    &&& s[i] == '.'
    &&& s[i + 1] == '.'
    &&& (i == 0 || s[i - 1] == '/')
    &&& (i + 2 == s.len() || s[i + 2] == '/')
}

/// `s` holds a `..` component.
pub open spec fn has_parent_component(s: Seq<char>) -> bool {
    exists|i: int| #[trigger] parent_at(s, i)
}

/// Why a path under the workspace root is refused.
#[derive(Debug, Clone, Copy, PartialEq, Eq, Structural)]
pub enum PathRefusal {
    /// Its canonical form lies outside the root.
    EscapesRoot,
    /// It names a parent directory.
    InvalidComponent,
}

impl PathRefusal {
    pub open spec fn message_spec(self) -> Seq<char> {
        match self {
            PathRefusal::EscapesRoot => "path escapes workspace root"@,
            PathRefusal::InvalidComponent => "invalid path component"@,
        }
    }

    /// The text of the refusal.
    pub fn message(&self) -> (m: String)
        ensures
            m@ == self.message_spec(),
    {
        match self {
            PathRefusal::EscapesRoot => string_of(&chars_of("path escapes workspace root")),
            PathRefusal::InvalidComponent => string_of(&chars_of("invalid path component")),
        }
    }
}

/// The refusal owed to the relative path `rel`, once it was found on disk
/// and `inside_root` tells whether its canonical form lies under the root.
pub open spec fn refusal_for(rel: Seq<char>, inside_root: bool) -> Option<PathRefusal> {
    if !inside_root {
        Some(PathRefusal::EscapesRoot)
    } else if has_parent_component(normalized_rel(rel)) {
        Some(PathRefusal::InvalidComponent)
    } else {
        None
    }
}

fn parent_component_vec(s: &[char]) -> (b: bool)
    ensures
        b == has_parent_component(s@),
{
    let mut i: usize = 0;
    while s.len() >= 2 && i <= s.len() - 2
        invariant
            i <= s@.len(),
            forall|k: int| 0 <= k < i ==> !parent_at(s@, k),
        decreases s@.len() - i,
    {
        if s[i] == '.' && s[i + 1] == '.' && (i == 0 || s[i - 1] == '/') && (i + 2 == s.len()
            || s[i + 2] == '/') {
            assert(parent_at(s@, i as int));
            return true;
        }
        i += 1;
    }
    assert forall|k: int| !parent_at(s@, k) by {
        if k >= i {
            assert(k + 2 > s@.len());
        }
    }
    false
}

/// Check a relative path that the caller has resolved under the workspace
/// root: refused when its canonical form leaves the root, or when it names
/// a parent directory.
pub fn check_under_root(rel: &str, inside_root: bool) -> (r: Result<(), PathRefusal>)
    ensures
        r == (match refusal_for(rel@, inside_root) {
            Some(e) => Err(e),
            None => Ok(()),
        }),
{
    if !inside_root {
        return Err(PathRefusal::EscapesRoot);
    }
    let n = normalize_rel(rel);
    let cs = chars_of(n.as_str());
    if parent_component_vec(&cs) {
        Err(PathRefusal::InvalidComponent)
    } else {
        Ok(())
    }
}

// ---------------------------------------------------------------------------
// Order of names
// ---------------------------------------------------------------------------

/// `a` comes before `b` in the order of `String`: character by character,
/// a proper prefix first.
pub open spec fn lex_lt(a: Seq<char>, b: Seq<char>) -> bool
    decreases a.len(),
{
    if a.len() == 0 {
        b.len() > 0
    } else if b.len() == 0 {
        false
    } else if a[0] != b[0] {
        a[0] < b[0]
    } else {
        lex_lt(a.drop_first(), b.drop_first())
    }
}

proof fn lemma_lex_asym(a: Seq<char>, b: Seq<char>)
    ensures
        lex_lt(a, b) ==> !lex_lt(b, a),
        !lex_lt(a, b) && !lex_lt(b, a) ==> a == b,
    decreases a.len(),
{
    if a.len() > 0 && b.len() > 0 && a[0] == b[0] {
        lemma_lex_asym(a.drop_first(), b.drop_first());
        if a.drop_first() == b.drop_first() {
            assert(a =~= seq![a[0]] + a.drop_first());
            assert(b =~= seq![b[0]] + b.drop_first());
        }
    } else if a.len() == 0 && b.len() == 0 {
        assert(a =~= b);
    }
}

proof fn lemma_lex_trans(a: Seq<char>, b: Seq<char>, c: Seq<char>)
    requires
        lex_lt(a, b),
        lex_lt(b, c),
    ensures
        lex_lt(a, c),
    decreases a.len(),
{
    if a.len() > 0 && b.len() > 0 && c.len() > 0 && a[0] == b[0] && b[0] == c[0] {
        lemma_lex_trans(a.drop_first(), b.drop_first(), c.drop_first());
    }
}


/// What `str::to_lowercase` gives for the characters `s`.
pub uninterp spec fn lowercase_of(s: Seq<char>) -> Seq<char>;

/// Calls `str::to_lowercase`. Unicode lower-casing takes tables to state, so
/// the result is only named: `lowercase_of` of the argument's characters.
#[verifier::external_body]
fn lowercase(s: &str) -> (r: String)
    ensures
        r@ == lowercase_of(s@),
{
    s.to_lowercase()
}

fn lex_lt_vec(a: &[char], b: &[char]) -> (r: bool)
    ensures
        r == lex_lt(a@, b@),
{
    let mut i: usize = 0;
    assert(a@.skip(0) =~= a@);
    assert(b@.skip(0) =~= b@);
    while i < a.len() && i < b.len() && a[i] == b[i]
        invariant
            i <= a@.len(),
            i <= b@.len(),
            lex_lt(a@, b@) == lex_lt(a@.skip(i as int), b@.skip(i as int)),
        decreases a@.len() - i,
    {
        assert(a@.skip(i as int).drop_first() =~= a@.skip(i + 1));
        assert(b@.skip(i as int).drop_first() =~= b@.skip(i + 1));
        i += 1;
    }
    if i == a.len() {
        i < b.len()
    } else if i == b.len() {
        false
    } else {
        a[i] < b[i]
    }
}

// ---------------------------------------------------------------------------
// Directory listing
// ---------------------------------------------------------------------------

/// An entry of the file browser.
#[derive(Debug)]
pub struct DirEntry {
    pub name: String,
    /// Path relative to the browsing root, with `/` separators.
    pub path: String,
    pub is_dir: bool,
    pub is_notebook: bool,
}

impl DirEntry {
    pub open spec fn view_of(self) -> (Seq<char>, Seq<char>, bool, bool) {
        (self.name@, self.path@, self.is_dir, self.is_notebook)
    }
}

pub open spec fn ends_with(s: Seq<char>, p: Seq<char>) -> bool {
    p.len() <= s.len() && s.skip(s.len() - p.len()) == p
}

/// An entry found on disk is listed: it is not hidden, and it is a
/// directory or a `.rs` file.
pub open spec fn listed(name: Seq<char>, is_dir: bool) -> bool {
    !starts_with(name, "."@) && (is_dir || ends_with(name, ".rs"@))
}

/// The path of the entry `name` of the directory `rel_norm`.
pub open spec fn entry_path(rel_norm: Seq<char>, name: Seq<char>) -> Seq<char> {
    if rel_norm.len() == 0 {
        name
    } else {
        rel_norm + "/"@ + name
    }
}

/// Found entry `a` sorts before found entry `b` when `keys` holds their
/// sort names: directories first, then by sort name.
pub open spec fn sorts_before(found: Seq<(String, bool)>, keys: Seq<Seq<char>>, a: int, b: int) -> bool {
    ||| (found[a].1 && !found[b].1)
    ||| (found[a].1 == found[b].1 && lex_lt(keys[a], keys[b]))
}

/// Found entry `a` is listed before found entry `b`: it sorts before, or
/// the two sort level and `a` was found first.
pub open spec fn goes_before(found: Seq<(String, bool)>, keys: Seq<Seq<char>>, a: int, b: int) -> bool {
    sorts_before(found, keys, a, b) || (!sorts_before(found, keys, b, a) && a < b)
}

/// Found entry `k` is listed.
pub open spec fn listed_at(found: Seq<(String, bool)>, k: int) -> bool {
    listed(found[k].0@, found[k].1)
}

/// `order` names each listed entry of `found` once, in listing order by
/// the sort names `keys`.
pub open spec fn listing_order(found: Seq<(String, bool)>, keys: Seq<Seq<char>>, order: Seq<int>) -> bool {
    &&& forall|i: int| 0 <= i < order.len() ==> 0 <= #[trigger] order[i] < found.len() && listed_at(found, order[i])
    &&& forall|k: int| 0 <= k < found.len() && #[trigger] listed_at(found, k) ==> exists|i: int| 0 <= i < order.len() && order[i] == k
    &&& forall|i: int, j: int| 0 <= i < j < order.len() ==> goes_before(found, keys, #[trigger] order[i], #[trigger] order[j])
}

/// The sort names of the browser: each found name lower-cased.
pub open spec fn lowered(found: Seq<(String, bool)>) -> Seq<Seq<char>> {
    Seq::new(found.len(), |k: int| lowercase_of(found[k].0@))
}

/// The characters of each string.
pub open spec fn key_views(keys: Seq<String>) -> Seq<Seq<char>> {
    Seq::new(keys.len(), |k: int| keys[k]@)
}

/// The entry shown for found entry `k` in the directory `rel_norm`.
pub open spec fn entry_for(found: Seq<(String, bool)>, rel_norm: Seq<char>, k: int) -> (Seq<char>, Seq<char>, bool, bool) {
    let name = found[k].0@;
    (name, entry_path(rel_norm, name), found[k].1, !found[k].1 && ends_with(name, ".rs"@))
}

proof fn lemma_sorts_asym(found: Seq<(String, bool)>, keys: Seq<Seq<char>>, a: int, b: int)
    ensures
        sorts_before(found, keys, a, b) ==> !sorts_before(found, keys, b, a),
{
    lemma_lex_asym(keys[a], keys[b]);
}

proof fn lemma_sorts_trans(found: Seq<(String, bool)>, keys: Seq<Seq<char>>, x: int, y: int, z: int)
    requires
        sorts_before(found, keys, x, y),
        !sorts_before(found, keys, z, y),
    ensures
        sorts_before(found, keys, x, z),
{
    let lx = keys[x];
    let ly = keys[y];
    let lz = keys[z];
    lemma_lex_asym(lz, ly);
    if lex_lt(ly, lz) && lex_lt(lx, ly) {
        lemma_lex_trans(lx, ly, lz);
    }
}

fn sorts_before_exec(found: &Vec<(String, bool)>, lows: &Vec<Vec<char>>, Ghost(keys): Ghost<Seq<Seq<char>>>, a: usize, b: usize) -> (r: bool)
    requires
        a < found@.len(),
        b < found@.len(),
        lows@.len() == found@.len(),
        keys.len() == found@.len(),
        forall|t: int| 0 <= t < lows@.len() ==> #[trigger] lows@[t]@ == keys[t],
    ensures
        r == sorts_before(found@, keys, a as int, b as int),
{
    let da = found[a].1;
    let db = found[b].1;
    if da && !db {
        true
    } else if da != db {
        false
    } else {
        lex_lt_vec(&lows[a], &lows[b])
    }
}

fn ends_with_vec(s: &[char], p: &[char]) -> (r: bool)
    ensures
        r == ends_with(s@, p@),
{
    if p.len() > s.len() {
        return false;
    }
    let d = s.len() - p.len();
    let mut t: usize = d;
    while t < s.len()
        invariant
            d + p@.len() == s@.len(),
            d <= t <= s@.len(),
            forall|k: int| d <= k < t ==> s@[k] == p@[k - d],
        decreases s@.len() - t,
    {
        if s[t] != p[t - d] {
            assert(s@.skip(d as int)[t - d] != p@[t - d]);
            return false;
        }
        t += 1;
    }
    assert(s@.skip(d as int) =~= p@);
    true
}

fn is_listed(name: &str, is_dir: bool) -> (r: bool)
    ensures
        r == listed(name@, is_dir),
{
    let cs = chars_of(name);
    let dot = chars_of(".");
    let rs = chars_of(".rs");
    !starts_with_vec(&cs, &dot) && (is_dir || ends_with_vec(&cs, &rs))
}

/// The positions of the listed entries of `found` in listing order, where
/// `keys` holds the sort name of each found entry.
pub fn order_listing(found: &Vec<(String, bool)>, keys: &Vec<String>) -> (order: Vec<usize>)
    requires
        keys@.len() == found@.len(),
    ensures
        listing_order(found@, key_views(keys@), order@.map_values(|x: usize| x as int)),
{
    let n = found.len();
    let ghost ks = key_views(keys@);
    let mut lows: Vec<Vec<char>> = Vec::new();
    let mut k: usize = 0;
    while k < n
        invariant
            n == found@.len(),
            n == keys@.len(),
            ks == key_views(keys@),
            k <= n,
            lows@.len() == k,
            forall|t: int| 0 <= t < k ==> #[trigger] lows@[t]@ == ks[t],
        decreases n - k,
    {
        lows.push(chars_of(keys[k].as_str()));
        k += 1;
    }
    let ghost f = found@;
    let mut order: Vec<usize> = Vec::new();
    let mut j: usize = 0;
    while j < n
        invariant
            f == found@,
            n == f.len(),
            ks.len() == n,
            j <= n,
            lows@.len() == n,
            forall|t: int| 0 <= t < lows@.len() ==> #[trigger] lows@[t]@ == ks[t],
            forall|i: int| 0 <= i < order@.len() ==> #[trigger] order@[i] < j && listed_at(f, order@[i] as int),
            forall|k: int| 0 <= k < j && #[trigger] listed_at(f, k) ==> exists|i: int| 0 <= i < order@.len() && order@[i] == k,
            forall|a: int, b: int| 0 <= a < b < order@.len() ==> goes_before(f, ks, #[trigger] order@[a] as int, #[trigger] order@[b] as int),
        decreases n - j,
    {
        if is_listed(found[j].0.as_str(), found[j].1) {
            let mut q: usize = 0;
            while q < order.len() && !sorts_before_exec(found, &lows, Ghost(ks), j, order[q])
                invariant
                    f == found@,
                    n == f.len(),
                    ks.len() == n,
                    j < n,
                    lows@.len() == n,
                    forall|t: int| 0 <= t < lows@.len() ==> #[trigger] lows@[t]@ == ks[t],
                    forall|i: int| 0 <= i < order@.len() ==> #[trigger] order@[i] < j,
                    q <= order@.len(),
                    forall|t: int| 0 <= t < q ==> !sorts_before(f, ks, j as int, #[trigger] order@[t] as int),
                decreases order@.len() - q,
            {
                q += 1;
            }
            let ghost old_order = order@;
            proof {
                assert forall|t: int| q <= t < old_order.len() implies sorts_before(f, ks, j as int, #[trigger] old_order[t] as int) by {
                    if t > q {
                        assert(goes_before(f, ks, old_order[q as int] as int, old_order[t] as int));
                        lemma_sorts_asym(f, ks, old_order[q as int] as int, old_order[t] as int);
                        lemma_sorts_trans(f, ks, j as int, old_order[q as int] as int, old_order[t] as int);
                    }
                }
            }
            order.insert(q, j);
            proof {
                let no = order@;
                assert(no =~= old_order.insert(q as int, j));
                assert forall|a: int, b: int| 0 <= a < b < no.len() implies goes_before(f, ks, #[trigger] no[a] as int, #[trigger] no[b] as int) by {
                    if b < q {
                        assert(no[a] == old_order[a] && no[b] == old_order[b]);
                    } else if b == q {
                        assert(no[a] == old_order[a]);
                        assert(!sorts_before(f, ks, j as int, old_order[a] as int));
                    } else if a < q {
                        assert(no[a] == old_order[a] && no[b] == old_order[b - 1]);
                    } else if a == q {
                        assert(no[b] == old_order[b - 1]);
                        assert(sorts_before(f, ks, j as int, old_order[b - 1] as int));
                    } else {
                        assert(no[a] == old_order[a - 1] && no[b] == old_order[b - 1]);
                    }
                }
                assert forall|i: int| 0 <= i < no.len() implies #[trigger] no[i] < j + 1 && listed_at(f, no[i] as int) by {
                    if i < q {
                        assert(no[i] == old_order[i]);
                    } else if i > q {
                        assert(no[i] == old_order[i - 1]);
                    }
                }
                assert forall|k: int| 0 <= k < j + 1 && #[trigger] listed_at(f, k) implies exists|i: int| 0 <= i < no.len() && no[i] == k by {
                    if k == j {
                        assert(no[q as int] == j);
                    } else {
                        let t = choose|t: int| 0 <= t < old_order.len() && old_order[t] == k;
                        if t < q {
                            assert(no[t] == k);
                        } else {
                            assert(no[t + 1] == k);
                        }
                    }
                }
            }
        } else {
            proof {
                assert forall|k: int| 0 <= k < j + 1 && #[trigger] listed_at(f, k) implies exists|i: int| 0 <= i < order@.len() && order@[i] == k by {
                    if k == j {
                        assert(!listed_at(f, k));
                    }
                }
            }
        }
        j += 1;
    }
    let ghost p = order@.map_values(|x: usize| x as int);
    assert forall|k: int| 0 <= k < f.len() && #[trigger] listed_at(f, k) implies exists|i: int| 0 <= i < p.len() && p[i] == k by {
        let t = choose|t: int| 0 <= t < order@.len() && order@[t] == k;
        assert(p[t] == k);
    }
    assert forall|a: int, b: int| 0 <= a < b < p.len() implies goes_before(f, ks, #[trigger] p[a], #[trigger] p[b]) by {
        assert(goes_before(f, ks, order@[a] as int, order@[b] as int));
    }
    order
}

/// The positions of the listed entries of `found`, in listing order by
/// lower-cased name.
fn listing_positions(found: &Vec<(String, bool)>) -> (order: Vec<usize>)
    ensures
        listing_order(found@, lowered(found@), order@.map_values(|x: usize| x as int)),
{
    let mut keys: Vec<String> = Vec::new();
    let mut k: usize = 0;
    while k < found.len()
        invariant
            k <= found@.len(),
            keys@.len() == k,
            forall|t: int| 0 <= t < k ==> #[trigger] keys@[t]@ == lowercase_of(found@[t].0@),
        decreases found@.len() - k,
    {
        keys.push(lowercase(found[k].0.as_str()));
        k += 1;
    }
    assert(key_views(keys@) =~= lowered(found@));
    order_listing(found, &keys)
}

/// The entries listed for a directory, given what reading it found:
/// `found` holds each name with whether it is a directory, in the order
/// the directory was read, and `rel` is the directory's path relative to
/// the browsing root. Hidden names and files other than `.rs` files are
/// left out; directories come first, then names by their lower-cased form,
/// names that sort level keeping the order in which they were found.
pub fn list_dir_entries(rel: &str, found: &Vec<(String, bool)>) -> (r: Vec<DirEntry>)
    ensures
        exists|order: Seq<int>| #[trigger] listing_order(found@, lowered(found@), order) && order.len() == r@.len()
            && forall|i: int| 0 <= i < r@.len() ==> #[trigger] r@[i].view_of() == entry_for(found@, normalized_rel(rel@), order[i]),
{
    let rel_norm = normalize_rel(rel);
    let rn = chars_of(rel_norm.as_str());
    let slash = chars_of("/");
    let rs = chars_of(".rs");
    let order = listing_positions(found);
    let ghost p = order@.map_values(|x: usize| x as int);
    let mut r: Vec<DirEntry> = Vec::new();
    let mut i: usize = 0;
    while i < order.len()
        invariant
            p == order@.map_values(|x: usize| x as int),
            listing_order(found@, lowered(found@), p),
            rn@ == normalized_rel(rel@),
            slash@ == "/"@,
            rs@ == ".rs"@,
            i <= order@.len(),
            r@.len() == i,
            forall|t: int| 0 <= t < i ==> #[trigger] r@[t].view_of() == entry_for(found@, normalized_rel(rel@), p[t]),
        decreases order@.len() - i,
    {
        let k = order[i];
        assert(p[i as int] == k as int);
        assert(0 <= p[i as int] < found@.len());
        let name = found[k].0.clone();
        let is_dir = found[k].1;
        let cs = chars_of(name.as_str());
        let path = if rn.len() == 0 {
            name.clone()
        } else {
            let mut pc = rn.clone();
            push_all(&mut pc, &slash);
            push_all(&mut pc, &cs);
            string_of(&pc)
        };
        let is_notebook = !is_dir && ends_with_vec(&cs, &rs);
        r.push(DirEntry { name, path, is_dir, is_notebook });
        i += 1;
    }
    r
}

} // verus!
