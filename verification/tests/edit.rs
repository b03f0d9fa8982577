use labrs::edit::{
    append_item, delete_item_block, replace_definition_source, replace_preamble_block, swap_item_blocks, insert_after_item, prepend_item, replace_cell_source, replace_helper_source,
    replace_item_block, replace_markdown_content, EditError,
};
use labrs::notebook::Cell;

const SRC: &str = "use x;\n\n/// doc\n#[labrs::cell]\npub fn a() -> i32 {\n    if true { 1 } else { 2 }\n}\n\nfn h() {}\n\n#[labrs::markdown]\npub const intro: &str = \"# Hi\";\n";

fn cell_a() -> Cell {
    Cell {
        id: "a".into(),
        name: "a".into(),
        docs: None,
        source: "gone".into(),
        body: String::new(),
        params: vec![],
        return_type: "i32".into(),
        span: (0, 0),
    }
}

#[test]
fn append_trims_and_separates() {
    assert_eq!(append_item("x\n\n\n", "  y  "), "x\n\ny\n");
    assert_eq!(append_item("", "y"), "\n\ny\n");
}

#[test]
fn prepend_trims_and_ends_with_newline() {
    assert_eq!(prepend_item("\n\nx", " y "), "y\n\nx\n");
    assert_eq!(prepend_item("x\n", "y"), "y\n\nx\n");
}

#[test]
fn insert_after_a_cell_includes_its_attributes_and_body() {
    let out = insert_after_item(SRC, "cell", "a", "fn n() {}").unwrap();
    assert_eq!(
        out,
        "use x;\n\n/// doc\n#[labrs::cell]\npub fn a() -> i32 {\n    if true { 1 } else { 2 }\n}\n\nfn n() {}\n\nfn h() {}\n\n#[labrs::markdown]\npub const intro: &str = \"# Hi\";\n"
    );
}

#[test]
fn insert_after_markdown_at_the_end() {
    let out = insert_after_item(SRC, "markdown", "intro", "fn n() {}").unwrap();
    assert!(out.ends_with("pub const intro: &str = \"# Hi\";\n\nfn n() {}\n\n"));
}

#[test]
fn insert_errors() {
    assert_eq!(insert_after_item(SRC, "cell", "zz", "x"), Err(EditError::FunctionNotFound("zz".into())));
    assert_eq!(insert_after_item(SRC, "markdown", "zz", "x"), Err(EditError::MarkdownNotFound("zz".into())));
    assert_eq!(insert_after_item(SRC, "thing", "a", "x"), Err(EditError::UnknownKind("thing".into())));
    assert_eq!(insert_after_item("const m: &str = \"x\"", "markdown", "m", "x"), Err(EditError::MissingSemicolon));
    assert_eq!(EditError::UnknownKind("thing".into()).message(), "unknown item kind `thing`");
    assert_eq!(EditError::MissingSemicolon.message(), "markdown const missing `;`");
}

#[test]
fn replace_a_block_takes_doc_comments_and_attributes() {
    let out = replace_item_block(SRC, "cell", "a", "fn a() {}\n").unwrap();
    assert_eq!(out, "use x;\n\nfn a() {}\n\nfn h() {}\n\n#[labrs::markdown]\npub const intro: &str = \"# Hi\";\n");
}

#[test]
fn replace_the_last_block() {
    let out = replace_item_block(SRC, "markdown", "intro", "const intro: &str = \"\";").unwrap();
    assert!(out.ends_with("fn h() {}\n\nconst intro: &str = \"\";\n"));
}

#[test]
fn replace_a_cell_by_name_when_its_source_is_gone() {
    let out = replace_cell_source(SRC, &cell_a(), "pub fn a() -> i32 { 3 }").unwrap();
    assert!(out.starts_with("use x;\n\npub fn a() -> i32 { 3 }\n\n\nfn h() {}"));
}

#[test]
fn replace_a_helper_by_its_old_source() {
    let out = replace_helper_source(SRC, "h", "fn h() {}", "fn h() { }").unwrap();
    assert!(out.contains("}\n\nfn h() { }\n\n\n#[labrs::markdown]"));
    assert_eq!(replace_helper_source(SRC, "zz", "", "x"), Err(EditError::ItemNotFound("zz".into())));
}

#[test]
fn markdown_content_is_written_as_a_json_literal() {
    let out = replace_markdown_content(SRC, "intro", "line \"1\"\nline 2").unwrap();
    assert!(out.ends_with("#[labrs::markdown]\npub const intro: &str = \"line \\\"1\\\"\\nline 2\";\n"));
    assert!(out.starts_with("use x;\n\n/// doc\n"));
}

#[test]
fn delete_a_block_and_the_line_feeds_after_it() {
    assert_eq!(
        delete_item_block(SRC, "helper", "h").unwrap(),
        "use x;\n\n/// doc\n#[labrs::cell]\npub fn a() -> i32 {\n    if true { 1 } else { 2 }\n}\n\n#[labrs::markdown]\npub const intro: &str = \"# Hi\";\n"
    );
    assert_eq!(delete_item_block(SRC, "markdown", "intro").unwrap(), "use x;\n\n/// doc\n#[labrs::cell]\npub fn a() -> i32 {\n    if true { 1 } else { 2 }\n}\n\nfn h() {}\n\n");
    assert_eq!(delete_item_block(SRC, "cell", "zz"), Err(EditError::FunctionNotFound("zz".into())));
}

#[test]
fn swap_two_blocks() {
    let out = swap_item_blocks(SRC, "cell", "a", "helper", "h").unwrap();
    assert_eq!(
        out,
        "use x;\n\nfn h() {}\n\n/// doc\n#[labrs::cell]\npub fn a() -> i32 {\n    if true { 1 } else { 2 }\n}\n\n#[labrs::markdown]\npub const intro: &str = \"# Hi\";\n"
    );
    assert_eq!(swap_item_blocks(SRC, "helper", "h", "cell", "a").unwrap(), out);
    assert_eq!(swap_item_blocks(SRC, "helper", "h", "helper", "h").unwrap(), SRC);
}

#[test]
fn replace_a_definition_by_source_or_span() {
    assert_eq!(replace_definition_source("use x;\nfn f() {}\n", "use_0", (0, 0), "use x;", "use y;").unwrap(), "use y;\n\nfn f() {}\n");
    assert_eq!(replace_definition_source("use x;\nfn f() {}\n", "use_0", (0, 6), "gone", " use z; ").unwrap(), "use z;\n\nfn f() {}\n");
    assert_eq!(replace_definition_source("use x;", "d", (3, 99), "gone", "y"), Err(EditError::ItemNotFound("d".into())));
}

#[test]
fn replace_the_preamble() {
    let out = replace_preamble_block("use a;\nuse b;\nfn f() {}\n", &vec!["use a;".to_string(), "use b;".to_string()], "use c;");
    assert_eq!(out, "use c;\n\nfn f() {}\n");
}

#[test]
fn a_name_is_not_found_inside_a_longer_name() {
    let src = "fn ab() {}\nfn a() {}\n";
    assert_eq!(replace_item_block(src, "helper", "a", "fn z() {}").unwrap(), "fn ab() {}\nfn z() {}\n");
}

#[test]
fn a_semicolon_inside_the_literal_does_not_end_the_constant() {
    let src = "#[labrs::markdown]\npub const m: &str = \"a;b\";\n";
    assert_eq!(
        replace_markdown_content(src, "m", "c").unwrap(),
        "#[labrs::markdown]\npub const m: &str = \"c\";\n"
    );
    let raw = "#[labrs::markdown]\npub const m: &str = r#\"x;\"y\"#;\nfn f() {}\n";
    assert_eq!(
        replace_markdown_content(raw, "m", "c").unwrap(),
        "#[labrs::markdown]\npub const m: &str = \"c\";\n\nfn f() {}\n"
    );
    let escaped = "pub const m: &str = \"q\\\";\";\n";
    assert_eq!(replace_markdown_content(escaped, "m", "c").unwrap(), "#[labrs::markdown]\npub const m: &str = \"c\";\n");
}

#[test]
fn a_helper_without_its_old_source_is_found_by_its_text() {
    let src = "fn ab() {}\n";
    assert_eq!(replace_helper_source(src, "a", "", "fn z() {}").unwrap(), "fn z() {}\n\n");
}
