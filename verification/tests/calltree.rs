//! Call trees and call graphs as text.

use ctsq::calltree::{callees, callers, callgraph, collect_edges, short_path, show_graph};
use ctsq::files::SourceFile;
use ctsq::resolve::graph::build;

/// A file in the directory for temporary files.
fn file(name: &str, lang_name: &'static str, src: &str) -> SourceFile {
    SourceFile {
        file: format!("/tmp/{}", name),
        lang_name,
        source: Some(src.as_bytes().to_vec()),
    }
}

// Pull all (caller_id, callee_id, guess) tuples out of the edge list.
fn pairs(jobs: &Vec<SourceFile>) -> Vec<(String, String, bool)> {
    let g = build(jobs);
    collect_edges(&g).into_iter().map(|(a, b, _, _, gss)| (a, b, gss)).collect()
}

#[test]
fn test_callgraph_resolves_unambiguous_callee() {
    // unique_helper is defined only in file_a — should resolve to a file:line id.
    let src_a = "fn unique_helper() {}\nfn caller_a() { unique_helper(); }\n";
    let jobs = vec![file("ctsq_test_unambig_a.rs", "rust", src_a)];

    let p = pairs(&jobs);
    let edge = p.iter().find(|(from, _, _)| from.ends_with(":2"));
    assert!(edge.is_some(), "expected edge from caller_a (line 2), got: {:?}", p);
    let (_, to, guess) = edge.unwrap();
    assert!(
        to.contains("ctsq_test_unambig_a.rs") && to.contains(":1"),
        "unambiguous callee should resolve to file:line, got: {}",
        to
    );
    assert!(!guess, "unambiguous resolution is exact, not a guess");
}

#[test]
fn test_callgraph_resolves_ambiguous_callee_to_same_file() {
    // shared_helper is defined in both files — each caller resolves to the
    // definition in its own file (exact: it's the unique in-scope match).
    let src_a = "fn shared_helper() {}\nfn caller_a() { shared_helper(); }\n";
    let src_b = "fn shared_helper() {}\nfn caller_b() { shared_helper(); }\n";

    let jobs = vec![
        file("ctsq_test_ambig_a.rs", "rust", src_a),
        file("ctsq_test_ambig_b.rs", "rust", src_b),
    ];

    let p = pairs(&jobs);
    for (from, to, _) in &p {
        if from.starts_with("ctsq_test_ambig_a.rs") {
            assert!(
                to.starts_with("ctsq_test_ambig_a.rs:1"),
                "caller_a's call should resolve to its own file's def, got: {}",
                to
            );
        }
        if from.starts_with("ctsq_test_ambig_b.rs") {
            assert!(
                to.starts_with("ctsq_test_ambig_b.rs:1"),
                "caller_b's call should resolve to its own file's def, got: {}",
                to
            );
        }
    }
}

#[test]
fn test_callgraph_marks_cross_file_ambiguity_as_guess() {
    // helper only defined in two *other* files — best-ranked candidate
    // wins but the edge is marked as a guess.
    let src_a = "fn helper() {}\n";
    let src_b = "fn helper() {}\n";
    let src_c = "fn caller_c() { helper(); }\n";

    let jobs = vec![
        file("ctsq_test_guess_a.rs", "rust", src_a),
        file("ctsq_test_guess_b.rs", "rust", src_b),
        file("ctsq_test_guess_c.rs", "rust", src_c),
    ];

    let p = pairs(&jobs);
    let edge = p.iter().find(|(from, _, _)| from.starts_with("ctsq_test_guess_c.rs"));
    let (_, to, guess) = edge.expect("caller_c should have an edge");
    assert!(to.contains(":1"), "should resolve to one of the candidates, got: {}", to);
    assert!(guess, "cross-file ambiguous resolution must be marked as a guess");
}

#[test]
fn test_fallback_lang_keeps_name_matching_behavior() {
    // JavaScript goes through the fallback resolver: unique names resolve
    // exactly, ambiguous names stay bare, nothing is marked as a guess.
    let src_a = "function shared() {}\nfunction unique_js() {}\nfunction caller_a() { shared(); unique_js(); }\n";
    let src_b = "function shared() {}\n";

    let jobs = vec![
        file("ctsq_test_fb_a.js", "javascript", src_a),
        file("ctsq_test_fb_b.js", "javascript", src_b),
    ];

    let p = pairs(&jobs);
    let from_caller: Vec<_> = p.iter()
        .filter(|(from, _, _)| from.starts_with("ctsq_test_fb_a.js:3"))
        .collect();
    assert!(!from_caller.is_empty(), "expected edges from caller_a, got: {:?}", p);
    for (_, to, guess) in &from_caller {
        if to.contains("unique_js") || to.ends_with(":2") {
            assert!(to.contains(":2"), "unique callee resolves to file:line, got: {}", to);
        } else {
            assert_eq!(to, "shared", "ambiguous callee must remain a bare name, got: {}", to);
        }
        assert!(!guess, "fallback resolver never guesses");
    }
}

const CHAIN: &str = "fn leaf() {}\nfn mid() {\n    leaf();\n    print();\n}\nfn top() {\n    mid();\n    leaf();\n    top();\n}\n";

#[test]
fn callees_are_a_tree() {
    let files = vec![file("chain.rs", "rust", CHAIN)];
    assert_eq!(
        callees("top", &files, 3),
        vec![
            "top()",
            "├── mid()  [chain.rs:2]",
            "│   ├── leaf()  [chain.rs:1]",
            "│   └── print()",
            "├── leaf()  [chain.rs:1]",
            "└── top()  [chain.rs:6] (cycle)",
        ]
    );
    assert_eq!(
        callees("top", &files, 1),
        vec![
            "top()",
            "├── mid()  [chain.rs:2]",
            "├── leaf()  [chain.rs:1]",
            "└── top()  [chain.rs:6] (cycle)",
        ]
    );
    assert_eq!(callees("top", &files, 0), vec!["top()"]);
    assert_eq!(callees("nowhere", &files, 3), vec!["nowhere()"]);
}

#[test]
fn callers_are_a_tree() {
    let files = vec![file("chain.rs", "rust", CHAIN)];
    assert_eq!(
        callers("leaf", &files, 3),
        vec![
            "leaf()",
            "├── mid()  [chain.rs:2]",
            "│   └── top()  [chain.rs:6]",
            "│       └── top()  [chain.rs:6] (cycle)",
            "└── top()  [chain.rs:6]",
            "    └── top()  [chain.rs:6] (cycle)",
        ]
    );
    // an external name has callers too
    assert_eq!(
        callers("print", &files, 2),
        vec!["print()", "└── mid()  [chain.rs:2]", "    └── top()  [chain.rs:6]"]
    );
}

#[test]
fn several_roots_are_told_apart() {
    let files = vec![
        file("a.rs", "rust", "fn run() { one(); }\nfn one() {}\n"),
        file("b.rs", "rust", "fn run() { two(); }\nfn two() {}\n"),
    ];
    assert_eq!(
        callees("run", &files, 3),
        vec![
            "run()  [a.rs:1]",
            "└── one()  [a.rs:2]",
            "",
            "run()  [b.rs:1]",
            "└── two()  [b.rs:2]",
        ]
    );
}

#[test]
fn guesses_are_marked() {
    let files = vec![
        file("a.rs", "rust", "fn helper() {}\n"),
        file("b.rs", "rust", "fn helper() {}\n"),
        file("c.rs", "rust", "fn go() { helper(); }\n"),
    ];
    assert_eq!(callees("go", &files, 3), vec!["go()", "└── helper()  [a.rs:1] ?"]);
    assert_eq!(callgraph(&files, "edges"), vec!["c.rs:1 -> a.rs:1 ?"]);
    assert_eq!(
        callgraph(&files, "dot"),
        vec![
            "digraph callgraph {",
            "    \"a.rs:1\" [label=\"helper\\\\na.rs:1\"];",
            "    \"c.rs:1\" [label=\"go\\\\nc.rs:1\"];",
            "",
            "    \"c.rs:1\" -> \"a.rs:1\" [style=dashed];",
            "}",
        ]
    );
}

#[test]
fn the_graph_in_both_formats() {
    let files = vec![file("chain.rs", "rust", CHAIN)];
    assert_eq!(
        callgraph(&files, "edges"),
        vec![
            "chain.rs:2 -> chain.rs:1",
            "chain.rs:2 -> print",
            "chain.rs:6 -> chain.rs:1",
            "chain.rs:6 -> chain.rs:2",
            "chain.rs:6 -> chain.rs:6",
        ]
    );
    assert_eq!(
        callgraph(&files, "dot"),
        vec![
            "digraph callgraph {",
            "    \"chain.rs:1\" [label=\"leaf\\\\nchain.rs:1\"];",
            "    \"chain.rs:2\" [label=\"mid\\\\nchain.rs:2\"];",
            "    \"chain.rs:6\" [label=\"top\\\\nchain.rs:6\"];",
            "    \"print\" [label=\"print\"];",
            "",
            "    \"chain.rs:2\" -> \"chain.rs:1\";",
            "    \"chain.rs:2\" -> \"print\";",
            "    \"chain.rs:6\" -> \"chain.rs:1\";",
            "    \"chain.rs:6\" -> \"chain.rs:2\";",
            "    \"chain.rs:6\" -> \"chain.rs:6\";",
            "}",
        ]
    );
}

#[test]
fn ids_are_quoted_in_dot() {
    let edge = |a: &str, b: &str, guess: bool| {
        (a.to_string(), b.to_string(), a.to_uppercase(), b.to_uppercase(), guess)
    };
    let edges = vec![edge("b\"x", "a", false), edge("c", "a", true)];
    assert_eq!(
        show_graph(&edges, "dot"),
        vec![
            "digraph callgraph {",
            "    \"a\" [label=\"A\"];",
            "    \"b\\\"x\" [label=\"B\\\"X\"];",
            "    \"c\" [label=\"C\"];",
            "",
            "    \"b\\\"x\" -> \"a\";",
            "    \"c\" -> \"a\" [style=dashed];",
            "}",
        ]
    );
    assert_eq!(show_graph(&edges, "edges"), vec!["b\"x -> a", "c -> a ?"]);
    assert_eq!(show_graph(&vec![], "edges"), Vec::<String>::new());
}

#[test]
fn edges_are_sorted_and_not_repeated() {
    // two definitions in one line have the same place
    let files = vec![file("one.rs", "rust", "fn a() { x(); } fn b() { x(); }\n")];
    let edges = collect_edges(&build(&files));
    let ids: Vec<_> = edges.iter().map(|e| (e.0.as_str(), e.1.as_str(), e.2.as_str())).collect();
    assert_eq!(ids, vec![("one.rs:1", "x", "b\\none.rs:1")]);
}

#[test]
fn short_paths() {
    assert_eq!(short_path("a/b/c.rs"), "c.rs");
    assert_eq!(short_path("c.rs"), "c.rs");
    assert_eq!(short_path(".."), "..");
    assert_eq!(short_path("/"), "/");
}

#[test]
fn a_call_is_seen_from_both_ends() {
    let files = vec![file("ends.rs", "rust", "fn callee() {}\nfn caller() { callee(); }\n")];
    assert_eq!(callees("caller", &files, 1), vec!["caller()", "└── callee()  [ends.rs:1]"]);
    assert_eq!(callers("callee", &files, 1), vec!["callee()", "└── caller()  [ends.rs:2]"]);
}
