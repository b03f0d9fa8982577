use labrs::codegen::{cell_fn_source, generate_run_all, generate_single_cell, rename_fn, shared_prelude};
use labrs::graph::build_graph;
use labrs::notebook::{Cell, Helper, Notebook, Param, SharedDef};
use std::path::PathBuf;

fn notebook() -> Notebook {
    Notebook {
        path: PathBuf::from("nb.rs"),
        source: String::new(),
        cells: vec![
            Cell {
                id: "val".into(),
                name: "val".into(),
                docs: None,
                source: "#[labrs::cell]\npub fn val() -> u16 {\n    4\n}".into(),
                body: "4".into(),
                params: vec![],
                return_type: "u16".into(),
                span: (0, 0),
            },
            Cell {
                id: "report".into(),
                name: "report".into(),
                docs: None,
                source: "#[labrs::cell]\npub fn report(val: &u16) -> String {\n    format!(\"{val}\")\n}".into(),
                body: "format!(\"{val}\")".into(),
                params: vec![Param { name: "val".into(), ty: "&u16".into(), inner_ty: "u16".into(), is_ref: true }],
                return_type: "String".into(),
                span: (0, 0),
            },
        ],
        helpers: vec![Helper {
            name: "double".into(),
            docs: None,
            source: "#[labrs::helper]\nfn double(v: u16) -> u16 {\n    2 * v\n}".into(),
            explicit: true,
            span: (0, 0),
        }],
        definitions: vec![
            SharedDef { name: "use_0".into(), kind: "use".into(), source: "use labrs::prelude::*;".into(), span: (0, 0) },
            SharedDef { name: "use_1".into(), kind: "use".into(), source: "use std::fmt;".into(), span: (0, 0) },
            SharedDef { name: "S".into(), kind: "struct".into(), source: "struct S;\n".into(), span: (0, 0) },
            SharedDef { name: "item_3".into(), kind: "item".into(), source: "  ".into(), span: (0, 0) },
        ],
        markdown: vec![],
        order: vec![],
    }
}

const HEADER: &str = "#![allow(dead_code, unused_imports, unused_variables, non_snake_case)]\nuse serde_json::Value;\n\n";

#[test]
fn prelude_keeps_definitions_and_helpers() {
    let p = shared_prelude(&notebook());
    assert_eq!(
        p,
        format!("{HEADER}use std::fmt;\n\nstruct S;\n\nfn double(v: u16) -> u16 {{\n    2 * v\n}}\n\n")
    );
}

#[test]
fn rename_only_the_first_signature() {
    assert_eq!(rename_fn("pub fn a() { fn a() {} }", "a", "b"), "pub fn b() { fn a() {} }");
    assert_eq!(rename_fn("pub fn x() {}", "a", "b"), "pub fn x() {}");
}

#[test]
fn cell_functions_are_renamed() {
    let nb = notebook();
    assert_eq!(cell_fn_source(&nb.cells[0]), "pub fn __cell_val() -> u16 {\n    4\n}");
    let mut blank = nb.cells[1].clone_for_test();
    blank.source = "#[labrs::cell]".into();
    assert_eq!(cell_fn_source(&blank), "pub fn __cell_report(val: &u16) -> String {\nformat!(\"{val}\")\n}");
}

trait CloneForTest {
    fn clone_for_test(&self) -> Cell;
}

impl CloneForTest for Cell {
    fn clone_for_test(&self) -> Cell {
        Cell {
            id: self.id.clone(),
            name: self.name.clone(),
            docs: self.docs.clone(),
            source: self.source.clone(),
            body: self.body.clone(),
            params: self.params.clone(),
            return_type: self.return_type.clone(),
            span: self.span,
        }
    }
}

#[test]
fn run_all_program_runs_cells_in_order() {
    let nb = notebook();
    let g = build_graph(&nb);
    let code = generate_run_all(&nb, &g);
    assert!(code.starts_with(HEADER));
    assert!(code.contains("use gag::BufferRedirect;\nuse std::io::Read;\n\npub fn __cell_val() -> u16 {\n    4\n}\n\npub fn __cell_report(val: &u16) -> String {"));
    let val_at = code.find("let __result_val = (|| { __cell_val() })();").unwrap();
    let report_at = code.find("let __result_report = (|| { __cell_report(&val) })();").unwrap();
    assert!(val_at < report_at);
    assert!(code.contains("    println!(\"___LABRS_CELL_START___report___\");\n"));
    assert!(code.contains("    println!(\"___LABRS_VALUE___{}\", serde_json::to_string(&__value_val).unwrap());\n"));
    assert!(code.contains("    let val = __result_val;\n    let _ = (&__stdout_val, &__stderr_val, &__value_val, &val);\n"));
    assert!(code.ends_with("}\n"));
}

#[test]
fn single_cell_program_reads_its_parameters() {
    let nb = notebook();
    let code = generate_single_cell(&nb, &nb.cells[1]);
    assert!(code.contains("use gag::BufferRedirect;\nuse std::io::{self, Read};\n\npub fn __cell_report(val: &u16) -> String {"));
    assert!(code.contains(
        "    let val: u16 = serde_json::from_value(__deps.get(\"val\").cloned().unwrap_or(Value::Null)).expect(\"deserialize val\");\n"
    ));
    assert!(code.contains("    let __result = (|| { __cell_report(&val) })();\n"));
    assert!(code.contains("    println!(\"___LABRS_CELL_END___report___\");\n}\n"));
}
