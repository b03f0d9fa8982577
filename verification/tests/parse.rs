use labrs::deps::transitive_dependents;
use labrs::graph::build_graph;
use labrs::notebook::OrderEntry;
use labrs::parse::{parse_notebook_source, ReadError};
use std::path::PathBuf;

#[test]
fn parses_cells_helpers_and_markdown() {
    let src = r##"
use labrs::prelude::*;

fn double(val: u16) -> u16 {
    2 * val
}

#[labrs::cell]
pub fn val() -> u16 {
    4
}

#[labrs::cell]
pub fn report(val: &u16) -> String {
    let double_val = double(*val);
    format!("Double of {val} is {double_val}")
}

#[labrs::markdown]
pub const intro: &str = r#"# Hello"#;
"##;
    let nb = parse_notebook_source(PathBuf::from("test.rs"), src.to_string()).unwrap();
    assert_eq!(nb.cells.len(), 2);
    assert_eq!(nb.helpers.len(), 1);
    assert_eq!(nb.helpers[0].name, "double");
    assert_eq!(nb.cells[0].name, "val");
    assert_eq!(nb.cells[1].params[0].name, "val");
    assert_eq!(nb.markdown.len(), 1);
    assert_eq!(nb.markdown[0].content, "# Hello");
}

#[test]
fn builds_graph_and_flags_unbound() {
    let src = r#"
#[labrs::cell]
pub fn greeting() -> String { "hi".into() }

#[labrs::cell]
pub fn process(greeting: &String) -> String { format!("P: {greeting}") }

#[labrs::cell]
pub fn double(val: &u16) -> u16 { 2 * (*val) }
"#;
    let nb = parse_notebook_source(PathBuf::from("t.rs"), src.to_string()).unwrap();
    let g = build_graph(&nb);
    assert!(g
        .edges
        .iter()
        .any(|e| e.from == "greeting" && e.to == "process"));
    assert!(g.errors().iter().any(|d| d.cell.as_deref() == Some("double")));
    assert!(g.errors().iter().any(|d| d.message.contains("plain `fn`")));
}

#[test]
fn topo_order() {
    let src = r#"
#[labrs::cell]
pub fn a() -> i32 { 1 }

#[labrs::cell]
pub fn b(a: &i32) -> i32 { *a + 1 }

#[labrs::cell]
pub fn c(b: &i32) -> i32 { *b + 1 }
"#;
    let nb = parse_notebook_source(PathBuf::from("t.rs"), src.to_string()).unwrap();
    let g = build_graph(&nb);
    assert!(g.is_ok());
    assert_eq!(g.order, vec!["a", "b", "c"]);
}

#[test]
fn transitive_dependents_topo() {
    let src = r#"
#[labrs::cell]
pub fn a() -> i32 { 1 }

#[labrs::cell]
pub fn b(a: &i32) -> i32 { *a + 1 }

#[labrs::cell]
pub fn c(b: &i32) -> i32 { *b + 1 }
"#;
    let nb = parse_notebook_source(PathBuf::from("t.rs"), src.to_string()).unwrap();
    let g = build_graph(&nb);
    assert_eq!(transitive_dependents(&g, "a"), vec!["b", "c"]);
    assert_eq!(transitive_dependents(&g, "b"), vec!["c"]);
    assert!(transitive_dependents(&g, "c").is_empty());
}

#[test]
fn rejects_unbound_param() {
    let src = r#"
#[labrs::cell]
pub fn double(val: &u16) -> u16 { 2 * (*val) }
"#;
    let nb = parse_notebook_source(PathBuf::from("t.rs"), src.into()).unwrap();
    let g = build_graph(&nb);
    assert!(!g.is_ok());
}

#[test]
fn cells_carry_types_docs_body_and_span() {
    let src = "/// The input\n/// value\n#[labrs::cell]\npub fn v(x: &std::vec::Vec<u8>, y: Option<(u8, u8)>) -> Vec<u8> {\n    x.clone()\n}\n";
    let nb = parse_notebook_source(PathBuf::from("t.rs"), src.to_string()).unwrap();
    let c = &nb.cells[0];
    assert_eq!(c.id, "v");
    assert_eq!(c.docs.as_deref(), Some("The input\nvalue"));
    // tokens are joined as `TokenStream` prints them; a closing `>` at the end keeps its space
    assert_eq!(c.params[0].ty, "&std::vec::Vec<u8 >");
    assert_eq!(c.params[0].inner_ty, "std::vec::Vec<u8 >");
    assert!(c.params[0].is_ref);
    assert_eq!(c.params[1].ty, "Option<(u8, u8) >");
    assert!(!c.params[1].is_ref);
    assert_eq!(c.return_type, "Vec<u8 >");
    assert_eq!(c.body, "x.clone()");
    // columns are counted from 1 here and from 0 by the parser: the span stops one short
    assert_eq!(&src[c.span.0..c.span.1], "/// The input\n/// value\n#[labrs::cell]\npub fn v(x: &std::vec::Vec<u8>, y: Option<(u8, u8)>) -> Vec<u8> {\n    x.clone()\n");
    assert!(c.source.contains("pub fn v("));
}

#[test]
fn a_cell_without_return_type_returns_unit() {
    let nb = parse_notebook_source(PathBuf::from("t.rs"), "#[cell]\nfn u() {}\n".to_string()).unwrap();
    assert_eq!(nb.cells[0].return_type, "()");
    assert_eq!(nb.cells[0].body, "");
}

#[test]
fn definitions_are_named_and_ordered() {
    let src = "use std::fmt;\nstruct S;\nimpl S {}\n#[labrs::helper]\nfn h() {}\nconst K: u8 = 1;\nunion U { a: u8 }\n";
    let nb = parse_notebook_source(PathBuf::from("t.rs"), src.to_string()).unwrap();
    let names: Vec<_> = nb.definitions.iter().map(|d| (d.kind.as_str(), d.name.as_str())).collect();
    assert_eq!(names, vec![("use", "use_0"), ("struct", "S"), ("impl", "impl_2"), ("const", "K"), ("item", "item_4")]);
    assert_eq!(nb.definitions[4].span, (0, 0));
    assert!(nb.helpers[0].explicit);
    assert_eq!(nb.order.len(), 6);
    assert!(matches!(&nb.order[3], OrderEntry::Helper { name } if name == "h"));
}

#[test]
fn reading_errors() {
    let e = parse_notebook_source(PathBuf::from("bad.rs"), "fn (".to_string()).unwrap_err();
    assert_eq!(e, ReadError::Syntax("bad.rs".into()));
    assert_eq!(e.message(), "failed to parse Rust syntax in bad.rs");
    let dup = "#[labrs::cell]\nfn a() {}\nmod m {}\n#[labrs::cell]\nfn a() {}\n";
    assert_eq!(parse_notebook_source(PathBuf::from("t.rs"), dup.to_string()).unwrap_err().message(), "duplicate cell name `a`");
    let pat = "#[labrs::cell]\nfn a((x, y): (u8, u8)) {}\n";
    assert_eq!(
        parse_notebook_source(PathBuf::from("t.rs"), pat.to_string()).unwrap_err().message(),
        "cell `a`: unsupported parameter pattern `(x , y)`"
    );
    let md = "#[labrs::markdown]\nconst m: u8 = 1;\n";
    assert_eq!(
        parse_notebook_source(PathBuf::from("t.rs"), md.to_string()).unwrap_err().message(),
        "markdown cell `m` must be a string literal, got 1"
    );
}

#[test]
fn syntax_that_cannot_be_printed_is_refused() {
    let src = "#[labrs::cell]\npub fn a() -> i32 { 1 }\n\nfn f(x: builtin # foo()) {}\n";
    let e = parse_notebook_source(PathBuf::from("t.rs"), src.to_string()).unwrap_err();
    assert_eq!(e, ReadError::Unprintable(4));
    assert_eq!(e.message(), "the item at line 4 uses syntax that cannot be printed");
    let mac = "macro_rules! m { x }\n";
    assert_eq!(
        parse_notebook_source(PathBuf::from("t.rs"), mac.to_string()).unwrap_err(),
        ReadError::Unprintable(1)
    );
}
