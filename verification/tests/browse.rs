use labrs::browse::{check_under_root, list_dir_entries, order_listing, PathRefusal};

fn found(items: &[(&str, bool)]) -> Vec<(String, bool)> {
    items.iter().map(|(n, d)| (n.to_string(), *d)).collect()
}

#[test]
fn path_outside_the_root_is_refused() {
    assert_eq!(check_under_root("docs", false), Err(PathRefusal::EscapesRoot));
    assert_eq!(PathRefusal::EscapesRoot.message(), "path escapes workspace root");
}

#[test]
fn parent_components_are_refused() {
    assert_eq!(check_under_root("a/../b", true), Err(PathRefusal::InvalidComponent));
    assert_eq!(check_under_root("..", true), Err(PathRefusal::InvalidComponent));
    assert_eq!(check_under_root("./a/..", true), Err(PathRefusal::InvalidComponent));
    assert_eq!(check_under_root("a\\..\\b", true), Err(PathRefusal::InvalidComponent));
    assert_eq!(PathRefusal::InvalidComponent.message(), "invalid path component");
}

#[test]
fn ordinary_paths_are_accepted() {
    assert_eq!(check_under_root("", true), Ok(()));
    assert_eq!(check_under_root("./a/b/", true), Ok(()));
    assert_eq!(check_under_root("a..b/.c/...", true), Ok(()));
}

#[test]
fn listing_puts_directories_first_then_names_case_blind() {
    let f = found(&[
        ("zeta.rs", false),
        (".hidden", true),
        ("alpha2", true),
        ("notes.txt", false),
        ("Beta.rs", false),
        ("Alpha", true),
        (".x.rs", false),
    ]);
    let entries = list_dir_entries("sub/", &f);
    let got: Vec<(&str, &str, bool, bool)> =
        entries.iter().map(|e| (e.name.as_str(), e.path.as_str(), e.is_dir, e.is_notebook)).collect();
    assert_eq!(
        got,
        vec![
            ("Alpha", "sub/Alpha", true, false),
            ("alpha2", "sub/alpha2", true, false),
            ("Beta.rs", "sub/Beta.rs", false, true),
            ("zeta.rs", "sub/zeta.rs", false, true),
        ]
    );
}

#[test]
fn listing_at_the_root_uses_bare_names() {
    let f = found(&[("b.rs", false), ("a", true)]);
    let entries = list_dir_entries("./", &f);
    assert_eq!(entries[0].path, "a");
    assert_eq!(entries[1].path, "b.rs");
}

#[test]
fn names_that_sort_level_keep_their_order() {
    let f = found(&[("B.rs", false), ("b.rs", false), ("A.rs", false)]);
    let entries = list_dir_entries("", &f);
    let names: Vec<&str> = entries.iter().map(|e| e.name.as_str()).collect();
    assert_eq!(names, vec!["A.rs", "B.rs", "b.rs"]);
}

#[test]
fn order_follows_the_given_sort_names() {
    let f = found(&[("x.rs", false), ("y.rs", false), ("d", true)]);
    let keys: Vec<String> = vec!["2".into(), "1".into(), "9".into()];
    assert_eq!(order_listing(&f, &keys), vec![2, 1, 0]);
}

#[test]
fn case_does_not_decide_the_order() {
    let f = found(&[("a.rs", false), ("B.rs", false), ("c", true), ("D", true)]);
    let entries = list_dir_entries("", &f);
    let names: Vec<&str> = entries.iter().map(|e| e.name.as_str()).collect();
    assert_eq!(names, vec!["c", "D", "a.rs", "B.rs"]);
}
