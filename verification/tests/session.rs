use labrs::json::JsonValue;
use labrs::graph::build_graph;
use labrs::notebook::{Cell, Helper, MarkdownCell, Notebook, OrderEntry, Param, SharedDef};
use labrs::session_edit::join_preamble;
use labrs::session_edit::ensure_cellish_fn;
use labrs::session::{AddKind, CellOutput, CellStatus, MoveDirection, Session};
use serde_json::Value;
use std::path::PathBuf;

fn param(name: &str) -> Param {
    Param { name: name.to_string(), ty: "&i32".to_string(), inner_ty: "i32".to_string(), is_ref: true }
}

fn cell(name: &str, params: &[&str], source: &str) -> Cell {
    Cell {
        id: name.to_string(),
        name: name.to_string(),
        docs: None,
        source: source.to_string(),
        body: String::new(),
        params: params.iter().map(|p| param(p)).collect(),
        return_type: "i32".to_string(),
        span: (0, 0),
    }
}

const SOURCE: &str = "fn helper() -> i32 {\n    1\n}\n\n#[labrs::cell]\npub fn a() -> i32 {\n    helper()\n}\n\n#[labrs::cell]\npub fn b(a: &i32) -> i32 {\n    *a + 1\n}\n\n#[labrs::cell]\npub fn c(b: &i32) -> i32 {\n    *b + 1\n}\n\n#[labrs::markdown]\npub const intro: &str = \"# Hi\";\n";

fn notebook() -> Notebook {
    Notebook {
        path: PathBuf::from("nb.rs"),
        source: SOURCE.to_string(),
        cells: vec![
            cell("a", &[], "#[labrs::cell]\npub fn a() -> i32 {\n    helper()\n}"),
            cell("b", &["a"], "#[labrs::cell]\npub fn b(a: &i32) -> i32 {\n    *a + 1\n}"),
            cell("c", &["b"], "#[labrs::cell]\npub fn c(b: &i32) -> i32 {\n    *b + 1\n}"),
        ],
        helpers: vec![Helper {
            name: "helper".to_string(),
            docs: None,
            source: "fn helper() -> i32 {\n    1\n}".to_string(),
            explicit: false,
            span: (0, 0),
        }],
        definitions: vec![],
        markdown: vec![MarkdownCell {
            id: "intro".to_string(),
            name: "intro".to_string(),
            content: "# Hi".to_string(),
            source: "#[labrs::markdown]\npub const intro: &str = \"# Hi\";".to_string(),
            span: (0, 0),
        }],
        order: vec![
            OrderEntry::Helper { name: "helper".to_string() },
            OrderEntry::Cell { id: "a".to_string() },
            OrderEntry::Cell { id: "b".to_string() },
            OrderEntry::Cell { id: "c".to_string() },
            OrderEntry::Markdown { id: "intro".to_string() },
        ],
    }
}

fn session() -> Session {
    let nb = notebook();
    let g = build_graph(&nb);
    Session::new(PathBuf::from("nb.rs"), nb, g)
}

fn output(cell: &str, success: bool, hash: &str) -> CellOutput {
    CellOutput {
        cell: cell.to_string(),
        value: JsonValue::null(),
        stdout: String::new(),
        stderr: String::new(),
        success,
        error: None,
        value_hash: hash.to_string(),
    }
}

#[test]
fn kinds_by_name() {
    assert_eq!(AddKind::parse("cell").unwrap(), AddKind::Cell);
    assert_eq!(AddKind::parse("helper").unwrap(), AddKind::Helper);
    assert_eq!(AddKind::parse("md").unwrap(), AddKind::Markdown);
    assert_eq!(AddKind::parse("markdown").unwrap(), AddKind::Markdown);
    assert_eq!(AddKind::parse("other").unwrap_err(), "unknown kind `other`");
    assert_eq!(AddKind::Markdown.as_str(), "markdown");
}

#[test]
fn a_new_session_is_clean() {
    let s = session();
    assert!(s.auto_react);
    assert!(!s.is_dirty("a"));
    assert!(s.output("a").is_none());
    let snap = s.snapshot();
    assert_eq!(snap.cells.len(), 3);
    assert!(snap.cells.iter().all(|c| c.status == CellStatus::Pristine && !c.dirty));
    assert_eq!(snap.helpers, vec!["helper"]);
    assert_eq!(snap.markdown, vec![("intro".to_string(), "# Hi".to_string())]);
    assert_eq!(snap.graph.order, vec!["a", "b", "c"]);
}

#[test]
fn a_run_marks_direct_dependents_dirty() {
    let mut s = session();
    let changed = s.record_output("a", output("a", true, "h1"));
    assert!(changed);
    assert!(!s.is_dirty("a"));
    assert!(s.is_dirty("b"));
    assert!(!s.is_dirty("c"));
    assert_eq!(s.output("a").unwrap().value_hash, "h1");
    assert_eq!(s.cell_state(&s.notebook.cells[0]).status, CellStatus::Success);
}

#[test]
fn an_unchanged_output_marks_nothing() {
    let mut s = session();
    s.record_output("a", output("a", true, "h1"));
    s.record_output("b", output("b", true, "h2"));
    assert!(!s.is_dirty("b"));
    assert!(s.is_dirty("c"));
    s.mark_dirty("c");
    let mut s2 = session();
    s2.record_output("a", output("a", true, "h1"));
    s2.record_output("b", output("b", true, "h2"));
    s2.record_output("c", output("c", true, "h3"));
    let changed = s2.record_output("a", output("a", true, "h1"));
    assert!(!changed);
    assert!(!s2.is_dirty("b"));
}

#[test]
fn a_failed_run_marks_nothing() {
    let mut s = session();
    let changed = s.record_output("a", output("a", false, ""));
    assert!(changed);
    assert!(!s.is_dirty("b"));
    assert_eq!(s.cell_state(&s.notebook.cells[0]).status, CellStatus::Error);
}

#[test]
fn dependency_values_need_successful_runs() {
    let mut s = session();
    assert_eq!(s.dependency_values("zzz").err().unwrap(), "unknown cell `zzz`");
    assert_eq!(
        s.dependency_values("b").err().unwrap(),
        "dependency `a` has not been run yet (required by `b`)"
    );
    s.record_output("a", output("a", false, ""));
    assert_eq!(s.dependency_values("b").err().unwrap(), "dependency `a` failed; fix it before running `b`");
    let mut ok = output("a", true, "h");
    ok.value = JsonValue::read("true").unwrap();
    s.record_output("a", ok);
    let vals = s.dependency_values("b").ok().unwrap();
    assert_eq!(vals.len(), 1);
    assert_eq!(vals[0].0, "a");
    assert_eq!(*vals[0].1.as_value(), Value::Bool(true));
    assert!(s.dependency_values("a").ok().unwrap().is_empty());
}

#[test]
fn next_to_run_follows_the_order() {
    let mut s = session();
    s.mark_all_dirty();
    let order = s.graph.order.clone();
    assert_eq!(s.next_to_run(&order, 0), Some(0));
    s.record_output("a", output("a", true, "h1"));
    assert_eq!(s.next_to_run(&order, 1), Some(1));
    s.record_output("b", output("b", false, ""));
    assert_eq!(s.next_to_run(&order, 2), None);
    assert_eq!(s.next_to_run(&order, 7), None);
}

#[test]
fn cascade_only_when_output_changed() {
    let s = session();
    assert_eq!(s.cascade_after("a", true, true), vec!["b", "c"]);
    assert!(s.cascade_after("a", true, false).is_empty());
    assert!(s.cascade_after("a", false, true).is_empty());
    let mut s2 = session();
    s2.set_auto_react(false);
    assert!(s2.cascade_after("a", true, true).is_empty());
}

#[test]
fn record_all_cleans_every_cell() {
    let mut s = session();
    s.mark_all_dirty();
    s.record_all(&vec![output("a", true, "1"), output("b", true, "2"), output("a", true, "3")]);
    assert!(!s.is_dirty("a"));
    assert!(!s.is_dirty("b"));
    assert!(s.is_dirty("c"));
    assert_eq!(s.output("a").unwrap().value_hash, "3");
    assert_eq!(s.dep_values().len(), 2);
}

#[test]
fn forgetting_a_cell_dirties_its_dependents() {
    let mut s = session();
    s.record_output("a", output("a", true, "1"));
    s.record_output("b", output("b", true, "2"));
    s.forget_item(AddKind::Cell, "b");
    assert!(s.output("b").is_none());
    assert!(s.is_dirty("c"));
    assert!(s.output("a").is_some());
}

#[test]
fn helper_edits_reach_users_and_their_dependents() {
    let s = session();
    assert_eq!(s.cells_affected_by_helper("helper"), vec!["a", "b", "c"]);
    let nb = notebook();
    let mut nb2 = nb;
    nb2.cells[0].source = "pub fn a() -> i32 { 1 }".to_string();
    nb2.cells[2].source = "pub fn c(b: &i32) -> i32 { helper2(*b) }".to_string();
    let g = build_graph(&nb2);
    let s2 = Session::new(PathBuf::from("nb.rs"), nb2, g);
    assert_eq!(s2.cells_affected_by_helper("helper2"), vec!["c"]);
    // no cell names `helper`: every cell counts
    assert_eq!(s2.cells_affected_by_helper("helper"), vec!["a", "b", "c"]);
}

#[test]
fn adding_items() {
    let s = session();
    let (name, file) = s.add_item_file(AddKind::Cell, &None).unwrap();
    assert_eq!(name, "cell");
    assert!(file.ends_with("\n\n#[labrs::cell]\npub fn cell() -> i32 {\n    0\n}\n"));
    let (name, file) = s.add_item_file(AddKind::Helper, &Some((AddKind::Cell, "__start__".to_string()))).unwrap();
    assert_eq!(name, "helper_2");
    assert!(file.starts_with("fn helper_2() {\n    // helper\n}\n\nfn helper() -> i32 {"));
    let (name, file) = s.add_item_file(AddKind::Markdown, &Some((AddKind::Cell, "a".to_string()))).unwrap();
    assert_eq!(name, "md");
    assert!(file.contains("pub fn a() -> i32 {\n    helper()\n}\n\n#[labrs::markdown]\npub const md: &str = \"# New markdown\\n\\nEdit me.\";\n\n#[labrs::cell]\npub fn b"));
    assert_eq!(
        s.add_item_file(AddKind::Cell, &Some((AddKind::Cell, "nope".to_string()))).unwrap_err(),
        "function `nope` not found"
    );
}

#[test]
fn changing_kinds() {
    let s = session();
    assert!(s.change_kind_file("a", AddKind::Cell, AddKind::Cell).unwrap().is_none());
    assert_eq!(
        s.change_kind_block("a", AddKind::Cell, AddKind::Helper).unwrap().unwrap(),
        "pub fn a() -> i32 {\n    helper()\n}\n"
    );
    assert_eq!(
        s.change_kind_block("helper", AddKind::Helper, AddKind::Cell).unwrap().unwrap(),
        "#[labrs::cell]\npub fn helper() -> i32 {\n    1\n}\n"
    );
    assert_eq!(
        s.change_kind_block("a", AddKind::Cell, AddKind::Markdown).unwrap().unwrap(),
        "#[labrs::markdown]\npub const a: &str = \"# a\\n\";\n"
    );
    assert_eq!(
        s.change_kind_block("intro", AddKind::Markdown, AddKind::Cell).unwrap().unwrap(),
        "#[labrs::cell]\npub fn intro() -> String {\n    \"# Hi\".to_string()\n}\n"
    );
    assert_eq!(
        s.change_kind_block("intro", AddKind::Markdown, AddKind::Helper).unwrap().unwrap(),
        "fn intro() {\n    // helper\n}\n"
    );
    assert_eq!(s.change_kind_block("zz", AddKind::Cell, AddKind::Helper).unwrap_err(), "unknown cell `zz`");
    assert_eq!(s.change_kind_block("zz", AddKind::Helper, AddKind::Cell).unwrap_err(), "unknown helper `zz`");
    assert_eq!(s.change_kind_block("zz", AddKind::Markdown, AddKind::Cell).unwrap_err(), "unknown markdown `zz`");
    let file = s.change_kind_file("c", AddKind::Cell, AddKind::Helper).unwrap().unwrap();
    assert!(file.ends_with("pub fn c(b: &i32) -> i32 {\n    *b + 1\n}\n\n#[labrs::markdown]\npub const intro: &str = \"# Hi\";\n"));
    assert!(!file.contains("#[labrs::cell]\npub fn c"));
}

#[test]
fn kind_change_bookkeeping() {
    let mut s = session();
    s.record_output("a", output("a", true, "1"));
    s.record_output("b", output("b", true, "2"));
    assert!(!s.is_dirty("a"));
    s.forget_after_kind_change("b");
    assert!(s.output("b").is_none());
    assert!(s.is_dirty("a"));
    assert!(!s.is_dirty("b"));
}

#[test]
fn moving_items() {
    let s = session();
    assert_eq!(s.move_target(AddKind::Cell, "a", MoveDirection::Up).unwrap(), Some((AddKind::Helper, "helper".to_string())));
    assert_eq!(s.move_target(AddKind::Cell, "c", MoveDirection::Down).unwrap(), Some((AddKind::Markdown, "intro".to_string())));
    assert_eq!(s.move_target(AddKind::Helper, "helper", MoveDirection::Up).unwrap(), None);
    assert_eq!(s.move_target(AddKind::Markdown, "intro", MoveDirection::Down).unwrap(), None);
    assert_eq!(s.move_target(AddKind::Helper, "a", MoveDirection::Up).unwrap_err(), "item `a` not found in order");
}

#[test]
fn editing_cells_and_helpers() {
    let s = session();
    let file = s.edit_cell_file("b", "#[labrs::cell]\npub fn b(a: &i32) -> i32 {\n    *a * 2\n}").unwrap();
    assert!(file.contains("pub fn b(a: &i32) -> i32 {\n    *a * 2\n}\n\n\n#[labrs::cell]\npub fn c"));
    assert_eq!(s.edit_cell_file("zz", "x").unwrap_err(), "unknown cell `zz`");
    let file = s.edit_helper_file("helper", "fn helper() -> i32 {\n    2\n}").unwrap();
    assert!(file.starts_with("fn helper() -> i32 {\n    2\n}\n\n\n#[labrs::cell]"));
    assert_eq!(s.edit_helper_file("zz", "x").unwrap_err(), "unknown helper `zz`");
}

#[test]
fn edits_mark_cells_with_outputs() {
    let mut s = session();
    s.mark_edited("a");
    assert!(!s.is_dirty("a"));
    s.record_output("a", output("a", true, "1"));
    s.mark_edited("a");
    assert!(s.is_dirty("a"));
    assert_eq!(s.cell_state(&s.notebook.cells[0]).status, CellStatus::Dirty);
}

#[test]
fn runnable_checks() {
    let mut s = session();
    assert!(s.check_runnable().is_ok());
    assert!(s.ready_to_run("a"));
    assert!(!s.ready_to_run("b"));
    assert!(!s.ready_to_run("zz"));
    s.record_output("a", output("a", true, "1"));
    assert!(s.ready_to_run("b"));
    assert!(s.is_runnable(&"b".to_string()));
    assert!(!s.is_runnable(&"a".to_string()));
}

#[test]
fn ensure_cellish_fn_cases() {
    assert_eq!(ensure_cellish_fn("  fn h() {}  ", "h"), "pub fn h() {}");
    assert_eq!(ensure_cellish_fn("pub fn h() {}", "h"), "pub fn h() {}");
    assert_eq!(ensure_cellish_fn("fn other() {}", "h"), "pub fn h() -> i32 {\n    0\n}\n");
}

fn with_definitions() -> Session {
    let mut nb = notebook();
    nb.source = format!("use std::fmt;\nstruct S;\n{SOURCE}");
    nb.definitions = vec![
        SharedDef { name: "use_0".into(), kind: "use".into(), source: "use std::fmt;".into(), span: (0, 13) },
        SharedDef { name: "S".into(), kind: "struct".into(), source: "struct S;".into(), span: (14, 23) },
    ];
    let g = build_graph(&nb);
    Session::new(PathBuf::from("nb.rs"), nb, g)
}

#[test]
fn editing_definitions_and_the_preamble() {
    let s = with_definitions();
    let file = s.edit_definition_file("S", "struct S { x: i32 }").unwrap();
    assert!(file.starts_with("use std::fmt;\nstruct S { x: i32 }\n\nfn helper()"));
    assert_eq!(s.edit_definition_file("T", "x").unwrap_err(), "unknown definition `T`");
    let file = s.edit_preamble_file("use std::io;");
    assert!(file.starts_with("use std::io;\n\nstruct S;\nfn helper()"));
    assert_eq!(join_preamble(&s.notebook.definitions), "use std::fmt;");
    assert_eq!(s.definition_source_or("S", "x"), "struct S;");
    assert_eq!(s.definition_source_or("T", "x"), "x");
}

#[test]
fn reloading_keeps_outputs_and_registers_new_cells() {
    let mut s = session();
    s.record_output("a", output("a", true, "1"));
    let mut nb = notebook();
    nb.cells.push(cell("d", &["c"], "pub fn d(c: &i32) -> i32 { *c }"));
    let (nb, g) = labrs::runner::reload_notebook(nb);
    assert_eq!(g.order, vec!["a", "b", "c", "d"]);
    s.reload_with(nb);
    assert!(s.output("a").is_some());
    assert!(s.is_dirty("b"));
    assert!(!s.is_dirty("d"));
    assert_eq!(s.graph.order, vec!["a", "b", "c", "d"]);
}

#[test]
fn cells_by_name() {
    let mut nb = notebook();
    assert_eq!(nb.cell("b").unwrap().params.len(), 1);
    assert!(nb.cell("helper").is_none());
    nb.cell_mut("c").unwrap().return_type = "u8".into();
    assert_eq!(nb.cells[2].return_type, "u8");
}
