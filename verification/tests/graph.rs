//! Call graphs.

use ctsq::files::SourceFile;
use ctsq::resolve::graph::{build, NodeKey};
use ctsq::resolve::Confidence;

/// A file in the directory for temporary files.
fn file(name: &str, lang_name: &'static str, src: &str) -> SourceFile {
    SourceFile {
        file: format!("/tmp/{}", name),
        lang_name,
        source: Some(src.as_bytes().to_vec()),
    }
}

#[test]
fn same_named_fns_in_different_files_are_distinct_nodes() {
    // a::helper calls b_entry; b::helper calls a_entry. Keyed by name alone
    // they would collapse / falsely cycle.
    let jobs = vec![
        file("ctsq_graph_a.rs", "rust", "fn helper() { b_entry(); }\nfn a_entry() {}\n"),
        file("ctsq_graph_b.rs", "rust", "fn helper() { a_entry(); }\nfn b_entry() {}\n"),
    ];

    let g = build(&jobs);
    let helpers: Vec<_> = g.index.by_name.get("helper").unwrap().clone();
    assert_eq!(helpers.len(), 2);
    for &h in &helpers {
        let key = NodeKey::Def(g.index.defs[h].id.clone());
        let edges = g.fwd.get(&key).expect("each helper has its own edges");
        assert_eq!(edges.len(), 1, "each helper calls exactly one entry fn");
    }
}

#[test]
fn rust_method_calls_appear_as_edges() {
    let jobs = vec![file(
        "ctsq_graph_methods.rs",
        "rust",
        "struct Foo;\nimpl Foo {\n  fn m(&self) {}\n}\nfn go() {\n  let x: Foo = make();\n  x.m();\n  Foo::m(&x);\n}\n",
    )];
    let g = build(&jobs);

    let go = g.index.by_name.get("go").unwrap()[0];
    let key = NodeKey::Def(g.index.defs[go].id.clone());
    let edges = g.fwd.get(&key).expect("go has edges");
    let resolved: Vec<_> = edges.iter()
        .filter_map(|&e| g.calls[e].target)
        .collect();
    assert!(
        resolved.iter().any(|(t, c)| g.index.defs[*t].name == "m" && *c == Confidence::Exact),
        "method call x.m() should resolve to Foo::m"
    );
}

#[test]
fn one_edge_per_caller_and_callee() {
    let src = "fn a() {\n  b();\n  b();\n  c();\n  b();\n}\nfn b() { c(); }\n";
    let g = build(&vec![file("pairs.rs", "rust", src)]);
    let seen: Vec<_> = g
        .calls
        .iter()
        .map(|c| (c.caller, c.callee_display.as_str(), c.line, c.target))
        .collect();
    assert_eq!(
        seen,
        vec![
            (0, "b", 2, Some((1, Confidence::Exact))),
            (0, "c", 4, None),
            (1, "c", 7, None),
        ]
    );
}

#[test]
fn nodes_list_the_edges_from_them_and_to_them() {
    let src = "fn a() {\n  z();\n  b(); c();\n}\nfn b() { z(); }\nfn c() {}\n";
    let g = build(&vec![file("nodes.rs", "rust", src)]);
    for (i, call) in g.calls.iter().enumerate() {
        let from = NodeKey::Def(g.index.defs[call.caller].id.clone());
        let to = match call.target {
            Some((t, _)) => NodeKey::Def(g.index.defs[t].id.clone()),
            None => NodeKey::External(call.callee_display.clone()),
        };
        assert!(g.fwd.get(&from).unwrap().contains(&i));
        assert!(g.rev.get(&to).unwrap().contains(&i));
    }
    let a = NodeKey::Def(g.index.defs[0].id.clone());
    let names: Vec<_> = g
        .fwd
        .get(&a)
        .unwrap()
        .iter()
        .map(|&i| g.calls[i].callee_display.as_str())
        .collect();
    assert_eq!(names, vec!["z", "b", "c"]);
    assert_eq!(g.rev.get(&NodeKey::External("z".to_string())).unwrap().len(), 2);
    assert!(g.rev.get(&a).is_none());
    assert!(g.fwd.get(&NodeKey::External("z".to_string())).is_none());
}

#[test]
fn files_that_could_not_be_read_are_left_out() {
    let gone = SourceFile { file: "gone.rs".to_string(), lang_name: "rust", source: None };
    let g = build(&vec![gone, file("there.rs", "rust", "fn f() { g(); }\n")]);
    assert_eq!(g.index.defs.len(), 1);
    assert_eq!(g.calls.len(), 1);
    let none = build(&vec![]);
    assert!(none.index.defs.is_empty() && none.calls.is_empty());
}

#[test]
fn languages_are_mixed_in_one_graph() {
    let g = build(&vec![
        file("a.rs", "rust", "fn shared() {}\n"),
        file("b.py", "python", "def main():\n    shared()\n"),
    ]);
    assert_eq!(g.calls.len(), 1);
    assert_eq!(g.calls[0].target, Some((0, Confidence::Exact)));
}

#[test]
fn methods_are_preferred_where_the_receiver_is_unknown() {
    let g = build(&vec![
        file("m.rs", "rust", "fn run() {}\nfn go() { unknown().run(); }\n"),
        file("far/n.rs", "rust", "struct S;\nimpl S { fn run(&self) {} }\n"),
    ]);
    let call = g.calls.iter().find(|c| c.callee_display == "run").unwrap();
    let (t, conf) = call.target.unwrap();
    assert_eq!(g.index.defs[t].id.file, "/tmp/far/n.rs");
    assert_eq!(conf, Confidence::Guess);
}
