use labrs::source_util::{fresh_name, strip_labrs_attrs, with_labrs_attr};

#[test]
fn strips_and_restores_cell_attr() {
    let src = "#[labrs::cell]\npub fn foo() -> i32 {\n    1\n}\n";
    let bare = strip_labrs_attrs(src);
    assert!(!bare.contains("labrs::"));
    assert!(bare.contains("pub fn foo"));
    let back = with_labrs_attr(&bare, "cell");
    assert!(back.lines().next().unwrap().contains("#[labrs::cell]"));
    assert!(back.contains("pub fn foo"));
}

#[test]
fn keeps_docs_before_attr() {
    let bare = "/// docs\npub fn foo() -> i32 {\n    1\n}";
    let back = with_labrs_attr(bare, "cell");
    let lines: Vec<_> = back.lines().collect();
    assert_eq!(lines[0], "/// docs");
    assert_eq!(lines[1], "#[labrs::cell]");
}

#[test]
fn strip_removes_every_attribute_form() {
    let src = "  #[labrs_macros::helper]\n#[cell]\n/// doc\nfn f() {}\n#[markdown]\n";
    assert_eq!(strip_labrs_attrs(src), "/// doc\nfn f() {}");
}

#[test]
fn with_attr_replaces_an_existing_attribute() {
    let src = "#[labrs::helper]\nfn f() {}";
    assert_eq!(with_labrs_attr(src, "cell"), "#[labrs::cell]\nfn f() {}\n");
}

#[test]
fn with_attr_after_blank_and_doc_lines() {
    let src = "\n//! top\n/// doc\nfn f() {}";
    // the source is trimmed first, so the leading blank line goes
    assert_eq!(with_labrs_attr(src, "cell"), "//! top\n/// doc\n#[labrs::cell]\nfn f() {}\n");
}

#[test]
fn fresh_name_prefers_the_prefix() {
    let names: Vec<String> = vec!["a".into(), "b".into()];
    assert_eq!(fresh_name(&names, "cell"), "cell");
}

#[test]
fn fresh_name_numbers_from_two() {
    let names: Vec<String> = vec!["cell".into(), "cell_2".into(), "cell_4".into()];
    assert_eq!(fresh_name(&names, "cell"), "cell_3");
}

#[test]
fn fresh_name_skips_taken_numbers() {
    let names: Vec<String> = vec!["md".into(), "md_2".into()];
    assert_eq!(fresh_name(&names, "md"), "md_3");
}

#[test]
fn stripping_the_disk_form_gives_the_editor_form_back() {
    let sources = [
        "#[labrs::cell]\npub fn foo() -> i32 {\n    1\n}\n",
        "\n\n  /// doc\n  fn g(x: &u8) -> u8 { *x }  \n\n",
        "#[helper]\n",
        "",
        "   x  ",
    ];
    for src in sources {
        for attr in ["cell", "helper", "markdown"] {
            let bare = strip_labrs_attrs(src);
            let disk = with_labrs_attr(src, attr);
            assert_eq!(strip_labrs_attrs(&disk), bare);
        }
    }
}

#[test]
fn fresh_name_is_unused_even_when_every_candidate_is_taken() {
    let mut names: Vec<String> = vec!["c".into()];
    for i in 2..10_000 {
        names.push(format!("c_{i}"));
    }
    names.push("c_new".into());
    let n = fresh_name(&names, "c");
    assert!(!names.contains(&n));
    assert!(n.starts_with("c_new_"));
}

#[test]
fn stripping_twice_is_stripping_once() {
    for src in ["#[labrs::cell]\n  fn a() {}\n", "\n\n#[cell]\n/// d\nfn b() {}\n\n", "x"] {
        let once = strip_labrs_attrs(src);
        assert_eq!(strip_labrs_attrs(&once), once);
    }
}

#[test]
fn adding_the_attribute_twice_changes_nothing() {
    let src = "/// doc\npub fn foo() -> i32 {\n    1\n}";
    let once = with_labrs_attr(src, "cell");
    assert_eq!(with_labrs_attr(&once, "cell"), once);
    assert_eq!(once.lines().filter(|l| l.trim().starts_with("#[labrs::")).count(), 1);
}
