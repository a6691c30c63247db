//! Queries for definitions.

use ctsq::resolve::{resolve_def_query, Confidence, Def, DefId, DefIndex, DefKind};

fn def(name: &str, qualified: &[&str], kind: DefKind, file: &str, line: usize) -> Def {
    Def {
        name: name.to_string(),
        qualified: qualified.iter().map(|s| s.to_string()).collect(),
        kind,
        ret: None,
        id: DefId { file: file.to_string(), line },
    }
}

fn sample_index() -> DefIndex {
    let mut idx = DefIndex::default();
    idx.push(def("helper", &["util", "helper"], DefKind::Function, "src/util.rs", 1));
    idx.push(def("helper", &["other", "helper"], DefKind::Function, "src/other.rs", 1));
    idx.push(def("new", &["geo", "Foo", "new"],
        DefKind::Method { receiver: "Foo".into(), via_trait: None }, "src/geo.rs", 3));
    idx.push(def("new", &["geo", "Bar", "new"],
        DefKind::Method { receiver: "Bar".into(), via_trait: None }, "src/geo.rs", 9));
    idx.push(def("unique_fn", &["unique_fn"], DefKind::Function, "src/a.rs", 5));
    idx
}

#[test]
fn bare_unique_name_is_exact() {
    let idx = sample_index();
    let hits = resolve_def_query("unique_fn", &idx);
    assert_eq!(hits, vec![(4, Confidence::Exact)]);
}

#[test]
fn bare_ambiguous_name_lists_all_as_guesses() {
    let idx = sample_index();
    let hits = resolve_def_query("helper", &idx);
    assert_eq!(hits.len(), 2);
    assert!(hits.iter().all(|(_, c)| *c == Confidence::Guess));
}

#[test]
fn qualified_path_narrows_to_exact() {
    let idx = sample_index();
    let hits = resolve_def_query("util::helper", &idx);
    assert_eq!(hits, vec![(0, Confidence::Exact)]);
    let hits = resolve_def_query("Foo::new", &idx);
    assert_eq!(hits, vec![(2, Confidence::Exact)]);
}

#[test]
fn method_expr_filters_by_receiver_type() {
    let idx = sample_index();
    let hits = resolve_def_query("x.new", &idx);
    assert_eq!(hits.len(), 2, "unknown receiver: all methods named new");
    let hits = resolve_def_query("Bar.new", &idx);
    assert_eq!(hits, vec![(3, Confidence::Exact)]);
}

#[test]
fn dot_with_package_qualifier_matches_functions() {
    let idx = sample_index();
    let hits = resolve_def_query("util.helper", &idx);
    assert_eq!(hits, vec![(0, Confidence::Exact)], "Go-style pkg.Fn query");
}

#[test]
fn missing_name_returns_empty() {
    let idx = sample_index();
    assert!(resolve_def_query("nope", &idx).is_empty());
    assert!(resolve_def_query("wrong::helper", &idx).is_empty());
}

#[test]
fn roots_and_longer_paths() {
    let idx = sample_index();
    for root in ["crate", "self", "super"] {
        assert_eq!(
            resolve_def_query(&format!("{}::util::helper", root), &idx),
            resolve_def_query("util::helper", &idx)
        );
    }
    assert_eq!(resolve_def_query("::helper", &idx).len(), 2);
    assert_eq!(resolve_def_query("geo::Foo::new", &idx), vec![(2, Confidence::Exact)]);
    assert!(resolve_def_query("Foo::", &idx).is_empty());
    assert!(resolve_def_query("oo::new", &idx).is_empty());
    assert!(resolve_def_query("crate::", &idx).is_empty());
}

#[test]
fn what_a_longer_path_finds_a_shorter_one_finds() {
    let idx = sample_index();
    for (longer, shorter) in [
        ("geo::Foo::new", "Foo::new"),
        ("geo::Foo::new", "new"),
        ("util::helper", "::helper"),
        ("crate::other::helper", "helper"),
    ] {
        let found: Vec<usize> = resolve_def_query(shorter, &idx).into_iter().map(|h| h.0).collect();
        let narrowed = resolve_def_query(longer, &idx);
        assert_eq!(narrowed.len(), 1, "{}", longer);
        assert!(narrowed.iter().all(|h| found.contains(&h.0)), "{} {}", longer, shorter);
    }
}
