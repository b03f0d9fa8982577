use labrs::cli::{graph_report, random_tip, tip_for};
use labrs::graph::build_graph;
use labrs::notebook::{Cell, Helper, Notebook, Param};
use std::path::PathBuf;

#[test]
fn tips_rotate_with_the_clock() {
    assert_eq!(tip_for(0), "labrs new hello          — scaffold a notebook (.rs + optional Cargo.toml)");
    assert_eq!(tip_for(15), tip_for(0));
    assert_eq!(tip_for(14), "Toggle Auto-run in the toolbar to cascade dependents when outputs change");
    assert!(!random_tip().is_empty());
}

#[test]
fn graph_report_lists_everything() {
    let nb = Notebook {
        path: PathBuf::from("nb.rs"),
        source: String::new(),
        cells: vec![
            Cell { id: "a".into(), name: "a".into(), docs: None, source: String::new(), body: String::new(), params: vec![], return_type: "i32".into(), span: (0, 0) },
            Cell {
                id: "b".into(),
                name: "b".into(),
                docs: None,
                source: String::new(),
                body: String::new(),
                params: vec![Param { name: "a".into(), ty: "i32".into(), inner_ty: "i32".into(), is_ref: false }],
                return_type: "i32".into(),
                span: (0, 0),
            },
        ],
        helpers: vec![Helper { name: "h".into(), docs: None, source: String::new(), explicit: true, span: (0, 0) }],
        definitions: vec![],
        markdown: vec![],
        order: vec![],
    };
    let g = build_graph(&nb);
    assert_eq!(
        graph_report("nb.rs", &nb, &g),
        "Notebook: nb.rs\nCells: 2\nHelpers: 1\nDefinitions: 0\nMarkdown: 0\n\nHelpers (not in DAG):\n  - h #[labrs::helper]\n\nEdges:\n  a -> b (param a)\n\nTopological order: a → b\n\nDiagnostics:\n  [Warning] (-) cell `b`: prefer `&i32` for dependency parameter `a`\n"
    );
}
