use labrs::notebook::{Cell, Helper, MarkdownCell, Notebook, Param, SharedDef};
use labrs::protocol::{
    cell_details, definition_details, helper_details, markdown_details, normalize_rel, parse_after,
    parse_direction, scaffold_notebook,
};
use labrs::session::{AddKind, MoveDirection};
use std::path::PathBuf;

#[test]
fn after_item_forms() {
    assert_eq!(parse_after(&None, &None).unwrap(), None);
    assert_eq!(
        parse_after(&Some("__start__".into()), &None).unwrap(),
        Some((AddKind::Cell, "__start__".to_string()))
    );
    assert_eq!(
        parse_after(&Some("helper".into()), &Some("__start__".into())).unwrap(),
        Some((AddKind::Cell, "__start__".to_string()))
    );
    assert_eq!(
        parse_after(&Some("md".into()), &Some("intro".into())).unwrap(),
        Some((AddKind::Markdown, "intro".to_string()))
    );
    assert_eq!(parse_after(&Some("x".into()), &Some("a".into())).unwrap_err(), "unknown kind `x`");
    assert_eq!(
        parse_after(&Some("cell".into()), &None).unwrap_err(),
        "after_kind and after_name must both be set or both omitted"
    );
}

#[test]
fn directions() {
    assert_eq!(parse_direction("up").unwrap(), MoveDirection::Up);
    assert_eq!(parse_direction("down").unwrap(), MoveDirection::Down);
    assert_eq!(parse_direction("left").unwrap_err(), "unknown direction `left`");
}

#[test]
fn relative_paths_are_normalized() {
    assert_eq!(normalize_rel("  ./././a/b/  "), "a/b");
    assert_eq!(normalize_rel("."), "");
    assert_eq!(normalize_rel("/"), "");
    assert_eq!(normalize_rel("a\\b"), "a/b");
    assert_eq!(normalize_rel("../x"), "../x");
}

#[test]
fn scaffold_names_the_notebook() {
    let s = scaffold_notebook("demo");
    assert!(s.starts_with("//! # demo\n//!\n//! A labrs notebook."));
    assert!(s.contains("pub fn report(val: &u16) -> String {\n    let double_val = double(*val);\n    let msg = format!(\"Double of {val} is {double_val}\");"));
    assert!(s.ends_with("    msg\n}\n"));
}

#[test]
fn details_show_sources_without_attributes() {
    let nb = Notebook {
        path: PathBuf::from("nb.rs"),
        source: String::new(),
        cells: vec![Cell {
            id: "a".into(),
            name: "a".into(),
            docs: Some("doc".into()),
            source: "#[labrs::cell]\npub fn a(x: &i32) -> i32 { 1 }".into(),
            body: "1".into(),
            params: vec![Param { name: "x".into(), ty: "&i32".into(), inner_ty: "i32".into(), is_ref: true }],
            return_type: "i32".into(),
            span: (0, 0),
        }],
        helpers: vec![Helper { name: "h".into(), docs: None, source: "#[labrs::helper]\nfn h() {}".into(), explicit: true, span: (0, 0) }],
        definitions: vec![SharedDef { name: "S".into(), kind: "struct".into(), source: "struct S;".into(), span: (0, 0) }],
        markdown: vec![MarkdownCell { id: "m".into(), name: "m".into(), content: "# M".into(), source: "const m: &str = \"# M\";".into(), span: (0, 0) }],
        order: vec![],
    };
    let c = cell_details(&nb);
    assert_eq!(c[0].source, "pub fn a(x: &i32) -> i32 { 1 }");
    assert_eq!(c[0].docs.as_deref(), Some("doc"));
    assert_eq!(c[0].params[0].name, "x");
    assert_eq!(c[0].params[0].ty, "&i32");
    let h = helper_details(&nb);
    assert_eq!(h[0].source, "fn h() {}");
    let m = markdown_details(&nb);
    assert_eq!(m[0].content, "# M");
    let d = definition_details(&nb);
    assert_eq!(d[0].kind, "struct");
}
