use labrs::graph::build_graph;
use labrs::notebook::{Cell, Notebook, Param};
use labrs::json::JsonValue;
use labrs::runner::{
    cargo_toml_text, cell_dir_name, hash_value, parse_all_cells, runner_dir_name, short_hash,
    single_cell_program, validation_message, ExecuteOptions,
};
use serde_json::Value;
use std::path::PathBuf;

fn notebook() -> Notebook {
    let c = |name: &str, params: Vec<Param>, ret: &str| Cell {
        id: name.into(),
        name: name.into(),
        docs: None,
        source: format!("pub fn {name}() -> {ret} {{ 1 }}"),
        body: "1".into(),
        params,
        return_type: ret.into(),
        span: (0, 0),
    };
    let p = |name: &str, ty: &str, inner: &str| Param { name: name.into(), ty: ty.into(), inner_ty: inner.into(), is_ref: ty.starts_with('&') };
    Notebook {
        path: PathBuf::from("nb.rs"),
        source: String::new(),
        cells: vec![
            c("val", vec![], "u16"),
            c("report", vec![p("val", "&u16", "u16")], "String"),
            c("bad", vec![p("nothing", "&u8", "u8"), p("val", "&u8", "u8")], "u8"),
        ],
        helpers: vec![],
        definitions: vec![],
        markdown: vec![],
        order: vec![],
    }
}

#[test]
fn short_hashes_are_sha256_prefixes() {
    assert_eq!(short_hash(""), "e3b0c44298fc1c14");
    assert_eq!(short_hash("abc"), "ba7816bf8f01cfea");
    assert_eq!(short_hash("abc").len(), 16);
}

#[test]
fn hash_of_a_value_hashes_its_json() {
    assert_eq!(hash_value(&JsonValue::null()), short_hash("null"));
    assert_eq!(hash_value(&JsonValue::read("true").unwrap()), short_hash("true"));
    assert_eq!(hash_value(&JsonValue::read(" { \"a\" : [1, 2] } ").unwrap()), short_hash("{\"a\":[1,2]}"));
    assert_ne!(hash_value(&JsonValue::read("true").unwrap()), hash_value(&JsonValue::read("false").unwrap()));
    assert!(JsonValue::read("{oops").is_none());
}

#[test]
fn protocol_is_read_cell_by_cell() {
    let out = "noise\n___LABRS_CELL_START___val___\n___LABRS_VALUE___4\n___LABRS_STDOUT___\"hello\\n\"\n___LABRS_STDERR___\"\"\n___LABRS_CELL_END___val___\n___LABRS_CELL_END___x___\n___LABRS_CELL_START___report\n___LABRS_VALUE___\"4->8\"\n___LABRS_STDOUT___bad json\n___LABRS_CELL_END___report___\n";
    let cells = parse_all_cells(out);
    assert_eq!(cells.len(), 2);
    assert_eq!(cells[0].cell, "val");
    assert_eq!(*cells[0].value.as_value(), Value::from(4));
    assert_eq!(cells[0].stdout, "hello\n");
    assert_eq!(cells[0].stderr, "");
    assert!(cells[0].success);
    assert!(cells[0].error.is_none());
    assert_eq!(cells[0].value_hash, short_hash("4"));
    assert_eq!(cells[1].cell, "report");
    assert_eq!(*cells[1].value.as_value(), Value::from("4->8"));
    assert_eq!(cells[1].stdout, "");
    assert_eq!(cells[1].value_hash, short_hash("\"4->8\""));
}

#[test]
fn unreadable_values_are_null() {
    let cells = parse_all_cells("___LABRS_CELL_START___a___\n___LABRS_VALUE___{oops\n___LABRS_CELL_END___a___");
    assert_eq!(cells.len(), 1);
    assert_eq!(*cells[0].value.as_value(), Value::Null);
    assert_eq!(cells[0].value_hash, short_hash("null"));
}

#[test]
fn single_cell_program_checks_its_inputs() {
    let nb = notebook();
    assert_eq!(single_cell_program(&nb, "zz", &vec![]).unwrap_err(), "unknown cell `zz`");
    assert_eq!(
        single_cell_program(&nb, "report", &vec![]).unwrap_err(),
        "cell `report` requires dependency `val` to have been run first"
    );
    assert_eq!(
        single_cell_program(&nb, "bad", &vec!["val".to_string()]).unwrap_err(),
        "cell `bad` requires dependency `nothing` to have been run first"
    );
    let code = single_cell_program(&nb, "report", &vec!["val".to_string()]).unwrap();
    assert_eq!(code, labrs::codegen::generate_single_cell(&nb, &nb.cells[1]));
}

#[test]
fn validation_lists_every_error() {
    let g = build_graph(&notebook());
    assert_eq!(
        validation_message(&g),
        "notebook validation failed:\n  - parameter `nothing` is not a cell. Use a plain `fn` for reusable logic, or add `#[labrs::cell] fn nothing() -> ...`.\n  - parameter `val` has type `&u8` but cell `val` returns `u16`"
    );
}

#[test]
fn build_directories_and_manifest() {
    assert_eq!(runner_dir_name("src"), format!("run_all_{}", short_hash("src")));
    assert_eq!(cell_dir_name("src", "val"), format!("cell_val_{}", short_hash("src:val")));
    assert_eq!(
        cargo_toml_text("labrs_cell_val"),
        "[workspace]\n\n[package]\nname = \"labrs_cell_val\"\nversion = \"0.1.0\"\nedition = \"2021\"\n\n[dependencies]\nserde = { version = \"1\", features = [\"derive\"] }\nserde_json = \"1\"\ngag = \"1\"\n"
    );
    let o = ExecuteOptions::default();
    assert!(!o.rustfmt);
    assert!(o.cache_dir.is_none());
}

#[test]
fn a_failed_runner_keeps_what_it_printed() {
    let o = labrs::runner::runner_failed("c", "out".to_string(), "boom".to_string());
    assert_eq!(o.cell, "c");
    assert!(!o.success);
    assert_eq!(o.error.as_deref(), Some("execution failed:\nboom"));
    assert_eq!(o.stdout, "out");
    assert_eq!(o.value_hash, short_hash("null"));
}

#[test]
fn the_output_of_the_cell_is_selected() {
    let out = "___LABRS_CELL_START___a___\n___LABRS_VALUE___1\n___LABRS_CELL_END___a___\n___LABRS_CELL_START___b___\n___LABRS_VALUE___2\n___LABRS_CELL_END___b___\n";
    let o = labrs::runner::select_output(parse_all_cells(out), "b", out.to_string(), String::new());
    assert_eq!(o.cell, "b");
    assert_eq!(*o.value.as_value(), Value::from(2));
    let missing = labrs::runner::select_output(parse_all_cells(out), "z", "x".to_string(), String::new());
    assert!(!missing.success);
    assert_eq!(missing.error.as_deref(), Some("could not parse cell output protocol"));
    assert_eq!(missing.stdout, "x");
}
