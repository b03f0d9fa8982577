use labrs::deps::{dependents, transitive_dependents};
use labrs::diagnose::Severity;
use labrs::graph::build_graph;
use labrs::notebook::{Cell, Notebook, Param};
use std::path::PathBuf;

fn param(name: &str, ty: &str) -> Param {
    let is_ref = ty.starts_with('&');
    Param {
        name: name.to_string(),
        ty: ty.to_string(),
        inner_ty: ty.trim_start_matches('&').trim().to_string(),
        is_ref,
    }
}

fn cell(name: &str, params: &[(&str, &str)], ret: &str) -> Cell {
    Cell {
        id: name.to_string(),
        name: name.to_string(),
        docs: None,
        source: format!("pub fn {name}() -> {ret} {{ todo }}"),
        body: String::new(),
        params: params.iter().map(|(n, t)| param(n, t)).collect(),
        return_type: ret.to_string(),
        span: (0, 0),
    }
}

fn notebook(cells: Vec<Cell>) -> Notebook {
    Notebook {
        path: PathBuf::from("t.rs"),
        source: String::new(),
        cells,
        helpers: vec![],
        definitions: vec![],
        markdown: vec![],
        order: vec![],
    }
}

fn chain() -> Notebook {
    notebook(vec![
        cell("a", &[], "i32"),
        cell("b", &[("a", "&i32")], "i32"),
        cell("c", &[("b", "&i32")], "i32"),
    ])
}

#[test]
fn edges_and_unbound_parameter() {
    let nb = notebook(vec![
        cell("greeting", &[], "String"),
        cell("process", &[("greeting", "&String")], "String"),
        cell("double", &[("val", "&u16")], "u16"),
    ]);
    let g = build_graph(&nb);
    assert!(g.edges.iter().any(|e| e.from == "greeting" && e.to == "process" && e.param_name == "greeting"));
    assert_eq!(g.edges.len(), 1);
    assert!(g.errors().iter().any(|d| d.cell.as_deref() == Some("double")));
    assert!(g.errors().iter().any(|d| d.message.contains("plain `fn`")));
    assert_eq!(
        g.errors()[0].message,
        "parameter `val` is not a cell. Use a plain `fn` for reusable logic, or add `#[labrs::cell] fn val() -> ...`."
    );
    assert!(!g.is_ok());
}

#[test]
fn chain_is_ordered() {
    let g = build_graph(&chain());
    assert!(g.is_ok());
    assert_eq!(g.order, vec!["a", "b", "c"]);
    assert_eq!(g.levels, vec![vec!["a".to_string()], vec!["b".to_string()], vec!["c".to_string()]]);
}

#[test]
fn dependents_of_a_chain() {
    let g = build_graph(&chain());
    assert_eq!(transitive_dependents(&g, "a"), vec!["b", "c"]);
    assert_eq!(transitive_dependents(&g, "b"), vec!["c"]);
    assert!(transitive_dependents(&g, "c").is_empty());
    assert_eq!(dependents(&g, "a"), vec!["b"]);
    assert!(dependents(&g, "c").is_empty());
}

#[test]
fn siblings_share_a_level() {
    let nb = notebook(vec![
        cell("a", &[], "i32"),
        cell("b", &[("a", "&i32")], "i32"),
        cell("c", &[("a", "&i32")], "i32"),
        cell("d", &[("b", "&i32"), ("c", "&i32")], "i32"),
    ]);
    let g = build_graph(&nb);
    assert_eq!(g.order, vec!["a", "b", "c", "d"]);
    assert_eq!(g.levels.len(), 3);
    assert_eq!(g.levels[1], vec!["b".to_string(), "c".to_string()]);
    assert_eq!(transitive_dependents(&g, "a"), vec!["b", "c", "d"]);
}

#[test]
fn cycle_is_reported() {
    let nb = notebook(vec![
        cell("a", &[("b", "&i32")], "i32"),
        cell("b", &[("a", "&i32")], "i32"),
        cell("z", &[], "i32"),
    ]);
    let g = build_graph(&nb);
    assert_eq!(g.order, vec!["z"]);
    assert!(!g.is_ok());
    assert!(g.diagnostics.iter().any(|d| d.message == "dependency cycle involving: a, b" && d.cell.is_none()));
}

#[test]
fn a_cell_behind_a_cycle_is_left_out_with_it() {
    let nb = notebook(vec![
        cell("a", &[("b", "&i32")], "i32"),
        cell("b", &[("a", "&i32")], "i32"),
        cell("c", &[("a", "&i32")], "i32"),
        cell("z", &[], "i32"),
    ]);
    let g = build_graph(&nb);
    assert_eq!(g.order, vec!["z"]);
    assert!(g.diagnostics.iter().any(|d| d.message == "dependency cycle involving: a, b, c" && d.cell.is_none()));
}

#[test]
fn type_mismatch_is_an_error() {
    let nb = notebook(vec![cell("a", &[], "i32"), cell("b", &[("a", "&u16")], "i32")]);
    let g = build_graph(&nb);
    assert_eq!(g.errors().len(), 1);
    assert_eq!(g.errors()[0].message, "parameter `a` has type `&u16` but cell `a` returns `i32`");
    assert_eq!(g.errors()[0].cell.as_deref(), Some("b"));
}

#[test]
fn by_value_parameter_is_a_warning() {
    let nb = notebook(vec![cell("a", &[], "Vec < i32 >"), cell("b", &[("a", "Vec<i32>")], "i32")]);
    let g = build_graph(&nb);
    assert!(g.is_ok());
    assert_eq!(g.diagnostics.len(), 1);
    assert_eq!(g.diagnostics[0].severity, Severity::Warning);
    assert_eq!(g.diagnostics[0].message, "cell `b`: prefer `&Vec<i32>` for dependency parameter `a`");
}

#[test]
fn dependents_are_the_cells_taking_the_cell_in_order() {
    let nb = notebook(vec![
        cell("c", &[("a", "&u8")], "u8"),
        cell("a", &[], "u8"),
        cell("b", &[("x", "&u8"), ("a", "&u8")], "u8"),
    ]);
    let g = build_graph(&nb);
    assert_eq!(dependents(&g, "a"), vec!["c", "b"]);
    assert!(dependents(&g, "x").is_empty());
}
