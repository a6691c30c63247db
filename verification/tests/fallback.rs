//! Resolution by name.

use ctsq::files::SourceFile;
use ctsq::resolve::fallback::{parse_capture, parse_line, push_shown_calls, NameResolver};
use ctsq::resolve::graph::{build, build_index};
use ctsq::resolve::{resolver_for, run_def, Confidence, DefIndex, DefKind, Resolver};

fn file(name: &str, lang_name: &'static str, src: &str) -> SourceFile {
    SourceFile { file: name.to_string(), lang_name, source: Some(src.as_bytes().to_vec()) }
}

#[test]
fn captures_are_read_from_results() {
    let m = "@f:1: \"def f():\", @c:12: \"obj.run(a, b)\"";
    assert_eq!(parse_capture("c", m), Some("run".to_string()));
    assert_eq!(parse_line("c", m), Some(12));
    assert_eq!(parse_capture("x", m), None);
    assert_eq!(parse_line("x", m), None);
    assert_eq!(parse_capture("c", "@c:3: \"  spaced  (x)\""), Some("spaced".to_string()));
    assert_eq!(parse_capture("c", "@c:3"), None);
    assert_eq!(parse_capture("c", "@c:3: \"\", @c:4: \"g()\""), Some("g".to_string()));
    assert_eq!(parse_line("c", "@c:3-9: x"), None);
    assert_eq!(parse_line("c", "@c:"), None);
}

#[test]
fn calls_are_read_from_results() {
    let files = vec![
        file("a.py", "python", "def one():\n    pass\ndef two():\n    pass\n"),
        file("b.py", "python", "def two():\n    pass\n"),
    ];
    let index = build_index(&files);
    let results: Vec<String> = ["@c:5: \"one()\"", "@c:6: \"two()\"", "@c:7: \"len(x)\"", "nothing"]
        .iter()
        .map(|s| s.to_string())
        .collect();
    let mut calls = Vec::new();
    push_shown_calls(1, &results, &index, &mut calls);
    let seen: Vec<_> = calls
        .iter()
        .map(|c| (c.caller, c.callee_display.as_str(), c.line, c.target))
        .collect();
    assert_eq!(
        seen,
        vec![
            (1, "one", 5, Some((0, Confidence::Exact))),
            (1, "two", 6, None),
            (1, "len", 7, None),
        ]
    );
}

#[test]
fn names_resolve_where_they_are_unique() {
    let files = vec![
        file("a.py", "python", "def helper():\n    pass\ndef main():\n    helper()\n    shared()\n    print(1)\n"),
        file("b.py", "python", "def shared():\n    pass\n"),
        file("c.py", "python", "def shared():\n    pass\n"),
    ];
    let g = build(&files);
    let seen: Vec<_> = g
        .calls
        .iter()
        .map(|c| (c.callee_display.as_str(), c.line, c.target))
        .collect();
    assert_eq!(
        seen,
        vec![
            ("helper", 4, Some((0, Confidence::Exact))),
            ("shared", 5, None),
            ("print", 6, None),
        ]
    );
}

#[test]
fn definitions_of_other_languages_are_functions() {
    let defs = resolver_for("js").collect_defs("a.js", b"function f() {}\nclass A { m() {} }\n");
    let seen: Vec<_> = defs.iter().map(|d| (d.name.as_str(), d.id.line)).collect();
    assert_eq!(seen, vec![("f", 1), ("m", 2)]);
    assert!(defs.iter().all(|d| d.kind == DefKind::Function && d.qualified == vec![d.name.clone()]));
    assert!(resolver_for("js").collect_impls("a.js", b"").is_empty());
}

#[test]
fn unknown_languages_are_taken_for_c() {
    assert_eq!(NameResolver::new("cobol").lang_name, "c");
    assert_eq!(NameResolver::new("c++").lang_name, "cpp");
    let defs = resolver_for("cobol").collect_defs("a", b"int f(void) { return 0; }\n");
    assert_eq!(defs.len(), 1);
}

#[test]
fn dedicated_resolvers_are_chosen_by_full_name() {
    let rust = b"struct S;\nimpl S {\n  fn m(&self) {}\n}\nimpl T for S {}\n";
    let defs = resolver_for("rust").collect_defs("src/a.rs", rust);
    assert_eq!(defs[0].qualified, vec!["a", "S", "m"]);
    assert_eq!(
        resolver_for("rust").collect_impls("src/a.rs", rust),
        vec![("S".to_string(), "T".to_string())]
    );
    // the short name has the resolver by name
    assert_eq!(resolver_for("rs").collect_defs("src/a.rs", rust)[0].qualified, vec!["m"]);
    let go = b"package p\nfunc (s *S) M() {}\n";
    assert_eq!(resolver_for("go").collect_defs("x/a.go", go)[0].qualified, vec!["x", "S", "M"]);
    assert!(resolver_for("go").collect_impls("x/a.go", go).is_empty());
}

#[test]
fn an_empty_index_has_no_calls() {
    let calls = resolver_for("python").resolve_calls("a.py", b"f()\n", &DefIndex::default());
    assert!(calls.is_empty());
}

#[test]
fn definitions_are_printed() {
    let files = vec![
        file("d/b.rs", "rust", "  fn helper() {}\nfn only() { helper(); }\n"),
        file("d/a.rs", "rust", "\n\tfn helper() { }  \r\n"),
        SourceFile { file: "d/gone.rs".to_string(), lang_name: "rust", source: None },
    ];
    assert_eq!(
        run_def("helper", &files).unwrap(),
        vec!["d/a.rs:2: fn helper() { }  ?", "d/b.rs:1: fn helper() {}  ?"]
    );
    assert_eq!(run_def("only", &files).unwrap(), vec!["d/b.rs:2: fn only() { helper(); }"]);
    assert_eq!(
        run_def("nope", &files),
        Err("no definition found for 'nope'".to_string())
    );
}

#[test]
fn lines_of_files_that_are_not_utf8_are_left_out() {
    let files = vec![SourceFile {
        file: "a.c".to_string(),
        lang_name: "c",
        source: Some(b"int f(void) { return 0; } // \xff\n".to_vec()),
    }];
    assert_eq!(run_def("f", &files).unwrap(), vec!["a.c:1: "]);
}
