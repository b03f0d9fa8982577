use labrs::notebook::OrderEntry;
use labrs::parse::{read_items, ArgInfo, AttrInfo, ConstInfo, FnInfo, ItemInfo, ReadError, TypeInfo};
use labrs::syntax::OtherItem;
use std::path::PathBuf;

fn attr(segs: &[&str]) -> AttrInfo {
    AttrInfo { segments: segs.iter().map(|s| s.to_string()).collect(), is_doc: false, str_value: None }
}

fn doc(line: &str) -> AttrInfo {
    AttrInfo { segments: vec!["doc".to_string()], is_doc: true, str_value: Some(line.to_string()) }
}

fn typed(name: &str, tokens: &str, elem: Option<&str>) -> ArgInfo {
    ArgInfo::Typed {
        ident: Some(name.to_string()),
        pat_tokens: name.to_string(),
        ty: TypeInfo { tokens: tokens.to_string(), ref_elem: elem.map(|e| e.to_string()) },
    }
}

fn func(name: &str, attrs: Vec<AttrInfo>, inputs: Vec<ArgInfo>) -> ItemInfo {
    ItemInfo::Fn(FnInfo {
        name: name.to_string(),
        attrs,
        inputs,
        output: Some(TypeInfo { tokens: "Vec < u8 >".to_string(), ref_elem: None }),
        stmt_count: 1,
        plain_printed: format!("fn {name}() {{\n    1\n}}\n"),
        printed: format!("  fn {name}() {{ 1 }}\n"),
        lines: ((1, 0), (1, 3)),
    })
}

fn source() -> String {
    "fn a() {}\n".to_string()
}

#[test]
fn cells_and_helpers_are_read_in_order() {
    let items = vec![
        func("helper_one", vec![doc(" Helps.")], vec![]),
        func("val", vec![attr(&["labrs", "cell"])], vec![]),
        func("report", vec![attr(&["cell"])], vec![typed("val", "& u16", Some("u16"))]),
    ];
    let nb = read_items(PathBuf::from("n.rs"), source(), items).unwrap();
    assert_eq!(nb.helpers.len(), 1);
    assert_eq!(nb.helpers[0].name, "helper_one");
    assert_eq!(nb.helpers[0].docs.as_deref(), Some("Helps."));
    assert_eq!(nb.helpers[0].source, "fn helper_one() { 1 }");
    assert_eq!(nb.helpers[0].span, (0, 2));
    assert!(!nb.helpers[0].explicit);
    assert_eq!(nb.cells.len(), 2);
    let report = &nb.cells[1];
    assert_eq!(report.name, "report");
    assert_eq!(report.body, "1");
    assert_eq!(report.return_type, "Vec<u8 >");
    assert_eq!(report.params[0].name, "val");
    assert_eq!(report.params[0].ty, "&u16");
    assert_eq!(report.params[0].inner_ty, "u16");
    assert!(report.params[0].is_ref);
    assert!(matches!(&nb.order[0], OrderEntry::Helper { name } if name == "helper_one"));
    assert!(matches!(&nb.order[2], OrderEntry::Cell { id } if id == "report"));
}

#[test]
fn a_cell_taking_self_is_refused() {
    let items = vec![func("c", vec![attr(&["cell"])], vec![ArgInfo::Receiver])];
    let e = read_items(PathBuf::from("n.rs"), source(), items).unwrap_err();
    assert_eq!(e, ReadError::SelfParameter("c".to_string()));
}

#[test]
fn a_pattern_parameter_is_refused() {
    let arg = ArgInfo::Typed {
        ident: None,
        pat_tokens: "(a , b)".to_string(),
        ty: TypeInfo { tokens: "(u8 , u8)".to_string(), ref_elem: None },
    };
    let items = vec![func("c", vec![attr(&["labrs_macros", "cell"])], vec![arg])];
    let e = read_items(PathBuf::from("n.rs"), source(), items).unwrap_err();
    assert_eq!(e, ReadError::ParameterPattern("c".to_string(), "(a , b)".to_string()));
}

#[test]
fn duplicate_cells_are_refused_by_name() {
    let items = vec![func("x", vec![attr(&["cell"])], vec![]), func("x", vec![attr(&["cell"])], vec![])];
    let e = read_items(PathBuf::from("n.rs"), source(), items).unwrap_err();
    assert_eq!(e, ReadError::DuplicateCell("x".to_string()));
}

#[test]
fn markdown_needs_a_string_and_other_items_are_definitions() {
    let md = |v: Option<&str>| {
        ItemInfo::Const(ConstInfo {
            name: "intro".to_string(),
            attrs: vec![attr(&["labrs", "markdown"])],
            str_value: v.map(|s| s.to_string()),
            expr_tokens: "1 + 1".to_string(),
            printed: "const intro: &str = \"# Hi\";".to_string(),
            lines: ((1, 0), (1, 2)),
        })
    };
    let bad = read_items(PathBuf::from("n.rs"), source(), vec![md(None)]).unwrap_err();
    assert_eq!(bad, ReadError::MarkdownNotString("intro".to_string(), "1 + 1".to_string()));
    let other = |kind: OtherItem| ItemInfo::Other { kind, printed: " impl X {}\n".to_string(), lines: ((9, 0), (9, 1)) };
    let nb = read_items(
        PathBuf::from("n.rs"),
        source(),
        vec![md(Some("# Hi")), other(OtherItem::Impl), other(OtherItem::Struct("S".to_string())), other(OtherItem::Other)],
    )
    .unwrap();
    assert_eq!(nb.markdown[0].content, "# Hi");
    let defs: Vec<(&str, &str, (usize, usize))> =
        nb.definitions.iter().map(|d| (d.name.as_str(), d.kind.as_str(), d.span)).collect();
    assert_eq!(defs, vec![("impl_0", "impl", (0, 0)), ("S", "struct", (0, 0)), ("item_2", "item", (0, 0))]);
    assert_eq!(nb.definitions[0].source, "impl X {}");
}
