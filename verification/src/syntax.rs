//! The Rust syntax of a notebook file as `syn` parses it and `prettyplease`
//! prints it. A parsed file is kept with the text it was parsed from, which
//! is its view; each function here answers one question about the `i`-th
//! top-level item (its `j`-th attribute, its `k`-th parameter). The syntax
//! tree is a function of the text, so each answer is named as a function of
//! the text and the indices; what the notebook makes of the answers is in
//! `parse`.

use vstd::prelude::*;

verus! {

#[verifier::external_type_specification]
#[verifier::external_body]
pub struct ExSynFile(syn::File);

/// A top-level item other than a function or a constant, with its name
/// where it has one.
#[derive(Debug)]
pub enum OtherItem {
    Struct(String),
    Enum(String),
    Type(String),
    Trait(String),
    Impl,
    Use,
    Mod(String),
    Static(String),
    Other,
}

/// Which kind of top-level item an item is.
#[derive(Debug, Clone, Copy, PartialEq, Eq, Structural)]
pub enum ItemTag {
    Fn,
    Const,
    Struct,
    Enum,
    Type,
    Trait,
    Impl,
    Use,
    Mod,
    Static,
    Other,
}

/// The syntax tree of a text that `syn::parse_file` accepted, kept with
/// that text.
pub struct SyntaxTree {
    file: syn::File,
    text: Ghost<Seq<char>>,
}

impl View for SyntaxTree {
    type V = Seq<char>;

    closed spec fn view(&self) -> Seq<char> {
        self.text@
    }
}

/// The characters of an optional string.
pub open spec fn opt_view(o: Option<String>) -> Option<Seq<char>> {
    match o {
        Some(s) => Some(s@),
        None => None,
    }
}

/// `syn::parse_file` accepts the text.
pub uninterp spec fn parses(text: Seq<char>) -> bool;

/// The number of top-level items of the text.
pub uninterp spec fn item_count_of(text: Seq<char>) -> nat;

/// The kind of item `i`.
pub uninterp spec fn item_tag_of(text: Seq<char>, i: int) -> ItemTag;

/// The identifier of item `i` (empty for kinds that have none).
pub uninterp spec fn item_ident_of(text: Seq<char>, i: int) -> Seq<char>;

/// Item `i` printed by `prettyplease`.
pub uninterp spec fn item_printed_of(text: Seq<char>, i: int) -> Seq<char>;

/// Item `i` holds no verbatim syntax node and defines no `macro_rules!`
/// macro, as its `Debug` text shows.
pub uninterp spec fn item_plain_of(text: Seq<char>, i: int) -> bool;

/// Start and end (line, column) of item `i`.
pub uninterp spec fn item_lines_of(text: Seq<char>, i: int) -> ((usize, usize), (usize, usize));

/// The number of attributes of function or constant `i`.
pub uninterp spec fn attr_count_of(text: Seq<char>, i: int) -> nat;

/// The identifiers of the path of attribute `j` of item `i`.
pub uninterp spec fn attr_segments_of(text: Seq<char>, i: int, j: int) -> Seq<Seq<char>>;

/// The path of attribute `j` of item `i` is the identifier `doc`.
pub uninterp spec fn attr_is_doc_of(text: Seq<char>, i: int, j: int) -> bool;

/// The string of attribute `j` of item `i` when it is `name = "string"`.
pub uninterp spec fn attr_str_of(text: Seq<char>, i: int, j: int) -> Option<Seq<char>>;

/// The number of parameters of function `i`.
pub uninterp spec fn input_count_of(text: Seq<char>, i: int) -> nat;

/// Parameter `k` of function `i` is `self`.
pub uninterp spec fn input_is_receiver_of(text: Seq<char>, i: int, k: int) -> bool;

/// The identifier of parameter `k` of function `i`, when its pattern is one.
pub uninterp spec fn input_ident_of(text: Seq<char>, i: int, k: int) -> Option<Seq<char>>;

/// The tokens of the pattern of parameter `k` of function `i`.
pub uninterp spec fn input_pat_of(text: Seq<char>, i: int, k: int) -> Seq<char>;

/// The tokens of the type of parameter `k` of function `i`.
pub uninterp spec fn input_type_of(text: Seq<char>, i: int, k: int) -> Seq<char>;

/// The tokens of the referenced type of parameter `k` of function `i`,
/// when its type is a reference.
pub uninterp spec fn input_elem_of(text: Seq<char>, i: int, k: int) -> Option<Seq<char>>;

/// The tokens of the return type of function `i`, when one is written.
pub uninterp spec fn output_type_of(text: Seq<char>, i: int) -> Option<Seq<char>>;

/// The tokens of the referenced type of the return type of function `i`,
/// when it is a reference.
pub uninterp spec fn output_elem_of(text: Seq<char>, i: int) -> Option<Seq<char>>;

/// The number of statements in the body of function `i`.
pub uninterp spec fn stmt_count_of(text: Seq<char>, i: int) -> nat;

/// Function `i` printed by `prettyplease` without attributes and visibility.
pub uninterp spec fn plain_printed_of(text: Seq<char>, i: int) -> Seq<char>;

/// The string of constant `i` when its expression is a string literal.
pub uninterp spec fn const_str_of(text: Seq<char>, i: int) -> Option<Seq<char>>;

/// The tokens of the expression of constant `i`.
pub uninterp spec fn const_tokens_of(text: Seq<char>, i: int) -> Seq<char>;

/// Item `i` of the tree exists.
pub open spec fn has_item(t: SyntaxTree, i: int) -> bool {
    0 <= i < item_count_of(t@)
}

/// Item `i` of the tree is a function.
pub open spec fn is_fn(t: SyntaxTree, i: int) -> bool {
    has_item(t, i) && item_tag_of(t@, i) == ItemTag::Fn
}

/// Item `i` of the tree is a constant.
pub open spec fn is_const(t: SyntaxTree, i: int) -> bool {
    has_item(t, i) && item_tag_of(t@, i) == ItemTag::Const
}

/// `syn::parse_file`: claimed to succeed exactly on the texts named
/// `parses`; the tree keeps the text.
#[verifier::external_body]
pub(crate) fn parse_tree(source: &str) -> (r: Option<SyntaxTree>)
    ensures
        r is Some <==> parses(source@),
        r matches Some(t) ==> t@ == source@,
{
    match syn::parse_file(source) {
        Ok(file) => Some(SyntaxTree { file, text: Ghost(source@) }),
        Err(_) => None,
    }
}

/// `File::items.len()`.
#[verifier::external_body]
pub(crate) fn item_count(t: &SyntaxTree) -> (r: usize)
    ensures
        r == item_count_of(t@),
{
    t.file.items.len()
}

/// Which variant of `syn::Item` item `i` is.
#[verifier::external_body]
pub(crate) fn item_tag(t: &SyntaxTree, i: usize) -> (r: ItemTag)
    requires
        has_item(*t, i as int),
    ensures
        r == item_tag_of(t@, i as int),
{
    match &t.file.items[i] {
        syn::Item::Fn(_) => ItemTag::Fn,
        syn::Item::Const(_) => ItemTag::Const,
        syn::Item::Struct(_) => ItemTag::Struct,
        syn::Item::Enum(_) => ItemTag::Enum,
        syn::Item::Type(_) => ItemTag::Type,
        syn::Item::Trait(_) => ItemTag::Trait,
        syn::Item::Impl(_) => ItemTag::Impl,
        syn::Item::Use(_) => ItemTag::Use,
        syn::Item::Mod(_) => ItemTag::Mod,
        syn::Item::Static(_) => ItemTag::Static,
        _ => ItemTag::Other,
    }
}

/// The `ident` of item `i`, for the variants that have one.
#[verifier::external_body]
pub(crate) fn item_ident(t: &SyntaxTree, i: usize) -> (r: String)
    requires
        has_item(*t, i as int),
    ensures
        r@ == item_ident_of(t@, i as int),
{
    match &t.file.items[i] {
        syn::Item::Fn(f) => f.sig.ident.to_string(),
        syn::Item::Const(c) => c.ident.to_string(),
        syn::Item::Struct(s) => s.ident.to_string(),
        syn::Item::Enum(e) => e.ident.to_string(),
        syn::Item::Type(x) => x.ident.to_string(),
        syn::Item::Trait(x) => x.ident.to_string(),
        syn::Item::Mod(m) => m.ident.to_string(),
        syn::Item::Static(s) => s.ident.to_string(),
        _ => String::new(),
    }
}

/// Whether item `i` is free of the syntax that `prettyplease` may refuse
/// to print: its `Debug` text (syn's `extra-traits`) shows no `Verbatim`
/// node and no identifier `macro_rules`. Claimed: the answer depends on
/// the text and the index alone (named `item_plain_of`). The test is
/// conservative: text that merely mentions those words is refused too.
#[verifier::external_body]
pub(crate) fn item_plain(t: &SyntaxTree, i: usize) -> (r: bool)
    requires
        has_item(*t, i as int),
    ensures
        r == item_plain_of(t@, i as int),
{
    let d = format!("{:?}", &t.file.items[i]);
    !d.contains("Verbatim(TokenStream") && !d.contains("sym: macro_rules") && !d.contains("Ident(macro_rules)")
}

/// `prettyplease::unparse` of a file holding only item `i`. `prettyplease`
/// panics only on verbatim nodes it cannot re-parse and on `macro_rules!`
/// bodies of a shape it does not expect (its other `unimplemented!` arms
/// are for `syn` variants it does not know, and it knows every variant of
/// this `syn`), so the item is required to be free of both.
#[verifier::external_body]
pub(crate) fn item_printed(t: &SyntaxTree, i: usize) -> (r: String)
    requires
        has_item(*t, i as int),
        item_plain_of(t@, i as int),
    ensures
        r@ == item_printed_of(t@, i as int),
{
    prettyplease::unparse(&syn::File { shebang: None, attrs: vec![], items: vec![t.file.items[i].clone()] })
}

/// The start and end of item `i`'s span as (line, column) pairs, lines
/// counted from 1 (`Spanned::span`, `Span::start`, `Span::end`).
#[verifier::external_body]
pub(crate) fn item_lines(t: &SyntaxTree, i: usize) -> (r: ((usize, usize), (usize, usize)))
    requires
        has_item(*t, i as int),
    ensures
        r == item_lines_of(t@, i as int),
{
    let s = syn::spanned::Spanned::span(&t.file.items[i]);
    ((s.start().line, s.start().column), (s.end().line, s.end().column))
}

/// The number of attributes of function or constant `i`.
#[verifier::external_body]
pub(crate) fn attr_count(t: &SyntaxTree, i: usize) -> (r: usize)
    requires
        has_item(*t, i as int),
    ensures
        r == attr_count_of(t@, i as int),
{
    match &t.file.items[i] {
        syn::Item::Fn(f) => f.attrs.len(),
        syn::Item::Const(c) => c.attrs.len(),
        _ => 0,
    }
}

/// The identifiers of the segments of attribute `j`'s path.
#[verifier::external_body]
pub(crate) fn attr_segments(t: &SyntaxTree, i: usize, j: usize) -> (r: Vec<String>)
    requires
        has_item(*t, i as int),
        j < attr_count_of(t@, i as int),
    ensures
        crate::graph::string_views(r@) == attr_segments_of(t@, i as int, j as int),
{
    match &t.file.items[i] {
        syn::Item::Fn(f) => f.attrs[j].path().segments.iter().map(|s| s.ident.to_string()).collect(),
        syn::Item::Const(c) => c.attrs[j].path().segments.iter().map(|s| s.ident.to_string()).collect(),
        _ => Vec::new(),
    }
}

/// `Path::is_ident("doc")` on attribute `j`'s path.
#[verifier::external_body]
pub(crate) fn attr_is_doc(t: &SyntaxTree, i: usize, j: usize) -> (r: bool)
    requires
        has_item(*t, i as int),
        j < attr_count_of(t@, i as int),
    ensures
        r == attr_is_doc_of(t@, i as int, j as int),
{
    match &t.file.items[i] {
        syn::Item::Fn(f) => f.attrs[j].path().is_ident("doc"),
        syn::Item::Const(c) => c.attrs[j].path().is_ident("doc"),
        _ => false,
    }
}

/// The value of attribute `j` when it is `name = "string"` (`LitStr::value`).
#[verifier::external_body]
pub(crate) fn attr_str(t: &SyntaxTree, i: usize, j: usize) -> (r: Option<String>)
    requires
        has_item(*t, i as int),
        j < attr_count_of(t@, i as int),
    ensures
        opt_view(r) == attr_str_of(t@, i as int, j as int),
{
    let a = match &t.file.items[i] {
        syn::Item::Fn(f) => &f.attrs[j],
        syn::Item::Const(c) => &c.attrs[j],
        _ => return None,
    };
    match &a.meta {
        syn::Meta::NameValue(syn::MetaNameValue { value: syn::Expr::Lit(syn::ExprLit { lit: syn::Lit::Str(s), .. }), .. }) => Some(s.value()),
        _ => None,
    }
}

/// The number of parameters of function `i`.
#[verifier::external_body]
pub(crate) fn input_count(t: &SyntaxTree, i: usize) -> (r: usize)
    requires
        is_fn(*t, i as int),
    ensures
        r == input_count_of(t@, i as int),
{
    match &t.file.items[i] {
        syn::Item::Fn(f) => f.sig.inputs.len(),
        _ => 0,
    }
}

/// Parameter `k` of function `i` is a receiver (`self`).
#[verifier::external_body]
pub(crate) fn input_is_receiver(t: &SyntaxTree, i: usize, k: usize) -> (r: bool)
    requires
        is_fn(*t, i as int),
        k < input_count_of(t@, i as int),
    ensures
        r == input_is_receiver_of(t@, i as int, k as int),
{
    match &t.file.items[i] {
        syn::Item::Fn(f) => matches!(f.sig.inputs[k], syn::FnArg::Receiver(_)),
        _ => false,
    }
}

/// The identifier of parameter `k`, when its pattern is `Pat::Ident`.
#[verifier::external_body]
pub(crate) fn input_ident(t: &SyntaxTree, i: usize, k: usize) -> (r: Option<String>)
    requires
        is_fn(*t, i as int),
        k < input_count_of(t@, i as int),
    ensures
        opt_view(r) == input_ident_of(t@, i as int, k as int),
{
    match &t.file.items[i] {
        syn::Item::Fn(f) => match &f.sig.inputs[k] {
            syn::FnArg::Typed(p) => match p.pat.as_ref() {
                syn::Pat::Ident(id) => Some(id.ident.to_string()),
                _ => None,
            },
            _ => None,
        },
        _ => None,
    }
}

/// The tokens of parameter `k`'s pattern (`TokenStream::to_string`).
#[verifier::external_body]
pub(crate) fn input_pat(t: &SyntaxTree, i: usize, k: usize) -> (r: String)
    requires
        is_fn(*t, i as int),
        k < input_count_of(t@, i as int),
    ensures
        r@ == input_pat_of(t@, i as int, k as int),
{
    match &t.file.items[i] {
        syn::Item::Fn(f) => match &f.sig.inputs[k] {
            syn::FnArg::Typed(p) => quote::ToTokens::to_token_stream(p.pat.as_ref()).to_string(),
            _ => String::new(),
        },
        _ => String::new(),
    }
}

/// The tokens of parameter `k`'s type.
#[verifier::external_body]
pub(crate) fn input_type(t: &SyntaxTree, i: usize, k: usize) -> (r: String)
    requires
        is_fn(*t, i as int),
        k < input_count_of(t@, i as int),
    ensures
        r@ == input_type_of(t@, i as int, k as int),
{
    match &t.file.items[i] {
        syn::Item::Fn(f) => match &f.sig.inputs[k] {
            syn::FnArg::Typed(p) => quote::ToTokens::to_token_stream(p.ty.as_ref()).to_string(),
            _ => String::new(),
        },
        _ => String::new(),
    }
}

/// The tokens of the referenced type (`TypeReference::elem`) of parameter
/// `k`'s type, when it is a reference.
#[verifier::external_body]
pub(crate) fn input_elem(t: &SyntaxTree, i: usize, k: usize) -> (r: Option<String>)
    requires
        is_fn(*t, i as int),
        k < input_count_of(t@, i as int),
    ensures
        opt_view(r) == input_elem_of(t@, i as int, k as int),
{
    match &t.file.items[i] {
        syn::Item::Fn(f) => match &f.sig.inputs[k] {
            syn::FnArg::Typed(p) => match p.ty.as_ref() {
                syn::Type::Reference(r) => Some(quote::ToTokens::to_token_stream(r.elem.as_ref()).to_string()),
                _ => None,
            },
            _ => None,
        },
        _ => None,
    }
}

/// The tokens of function `i`'s return type; `None` when none is written.
#[verifier::external_body]
pub(crate) fn output_type(t: &SyntaxTree, i: usize) -> (r: Option<String>)
    requires
        is_fn(*t, i as int),
    ensures
        opt_view(r) == output_type_of(t@, i as int),
{
    match &t.file.items[i] {
        syn::Item::Fn(f) => match &f.sig.output {
            syn::ReturnType::Type(_, ty) => Some(quote::ToTokens::to_token_stream(ty.as_ref()).to_string()),
            syn::ReturnType::Default => None,
        },
        _ => None,
    }
}

/// The tokens of the referenced type of function `i`'s return type, when it
/// is a reference.
#[verifier::external_body]
pub(crate) fn output_elem(t: &SyntaxTree, i: usize) -> (r: Option<String>)
    requires
        is_fn(*t, i as int),
    ensures
        opt_view(r) == output_elem_of(t@, i as int),
{
    match &t.file.items[i] {
        syn::Item::Fn(f) => match &f.sig.output {
            syn::ReturnType::Type(_, ty) => match ty.as_ref() {
                syn::Type::Reference(r) => Some(quote::ToTokens::to_token_stream(r.elem.as_ref()).to_string()),
                _ => None,
            },
            syn::ReturnType::Default => None,
        },
        _ => None,
    }
}

/// The number of statements in function `i`'s body.
#[verifier::external_body]
pub(crate) fn stmt_count(t: &SyntaxTree, i: usize) -> (r: usize)
    requires
        is_fn(*t, i as int),
    ensures
        r == stmt_count_of(t@, i as int),
{
    match &t.file.items[i] {
        syn::Item::Fn(f) => f.block.stmts.len(),
        _ => 0,
    }
}

/// `prettyplease::unparse` of function `i` without its attributes and
/// visibility (a part of the item, so free of what `item_printed` rules
/// out when the item is).
#[verifier::external_body]
pub(crate) fn plain_printed(t: &SyntaxTree, i: usize) -> (r: String)
    requires
        is_fn(*t, i as int),
        item_plain_of(t@, i as int),
    ensures
        r@ == plain_printed_of(t@, i as int),
{
    match &t.file.items[i] {
        syn::Item::Fn(f) => {
            let g = syn::ItemFn { attrs: vec![], vis: syn::Visibility::Inherited, sig: f.sig.clone(), block: f.block.clone() };
            prettyplease::unparse(&syn::File { shebang: None, attrs: vec![], items: vec![syn::Item::Fn(g)] })
        },
        _ => String::new(),
    }
}

/// The value of constant `i` when its expression is a string literal.
#[verifier::external_body]
pub(crate) fn const_str(t: &SyntaxTree, i: usize) -> (r: Option<String>)
    requires
        is_const(*t, i as int),
    ensures
        opt_view(r) == const_str_of(t@, i as int),
{
    match &t.file.items[i] {
        syn::Item::Const(c) => match c.expr.as_ref() {
            syn::Expr::Lit(syn::ExprLit { lit: syn::Lit::Str(s), .. }) => Some(s.value()),
            _ => None,
        },
        _ => None,
    }
}

/// The tokens of constant `i`'s expression.
#[verifier::external_body]
pub(crate) fn const_tokens(t: &SyntaxTree, i: usize) -> (r: String)
    requires
        is_const(*t, i as int),
    ensures
        r@ == const_tokens_of(t@, i as int),
{
    match &t.file.items[i] {
        syn::Item::Const(c) => quote::ToTokens::to_token_stream(c.expr.as_ref()).to_string(),
        _ => String::new(),
    }
}

/// `Path::display` of a path, as a string.
#[verifier::external_body]
pub(crate) fn path_display(p: &std::path::PathBuf) -> (r: String) {
    p.display().to_string()
}

} // verus!
