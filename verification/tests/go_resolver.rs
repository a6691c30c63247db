//! Resolution of Go calls.

use ctsq::resolve::go::{build_scope, GoResolver};
use ctsq::resolve::{Confidence, DefIndex, DefKind, Resolver};
use ctsq::syntax::{parse_source, Grammar};

fn build_index(files: &[(&str, &str)]) -> DefIndex {
    let r = GoResolver;
    let mut idx = DefIndex::default();
    for (f, src) in files {
        for d in r.collect_defs(f, src.as_bytes()) {
            idx.push(d);
        }
    }
    idx
}

// Resolve everything and return (caller_name, callee_display, target file:line, confidence).
fn resolve_all(files: &[(&str, &str)]) -> Vec<(String, String, Option<(String, usize, Confidence)>)> {
    let r = GoResolver;
    let idx = build_index(files);
    let mut out = Vec::new();
    for (f, src) in files {
        for rc in r.resolve_calls(f, src.as_bytes(), &idx) {
            let caller = idx.defs[rc.caller].name.clone();
            let target = rc.target.map(|(t, c)| {
                let d = &idx.defs[t];
                (d.id.file.clone(), d.id.line, c)
            });
            out.push((caller, rc.callee_display, target));
        }
    }
    out
}

fn target_of(
    results: &[(String, String, Option<(String, usize, Confidence)>)],
    caller: &str,
    callee: &str,
) -> Option<(String, usize, Confidence)> {
    results.iter()
        .find(|(cr, ce, _)| cr == caller && ce == callee)
        .and_then(|(_, _, t)| t.clone())
}

#[test]
fn defs_carry_package_path_and_receiver() {
    let idx = build_index(&[(
        "proj/util/geo.go",
        "package util\nfunc Free() {}\nfunc (f *Foo) Dist() {}\n",
    )]);
    let free = idx.defs.iter().find(|d| d.name == "Free").unwrap();
    assert_eq!(free.qualified, vec!["proj", "util", "Free"]);
    assert!(matches!(free.kind, DefKind::Function));
    let dist = idx.defs.iter().find(|d| d.name == "Dist").unwrap();
    assert_eq!(dist.qualified, vec!["proj", "util", "Foo", "Dist"]);
    assert!(matches!(&dist.kind, DefKind::Method { receiver, .. } if receiver == "Foo"));
}

#[test]
fn imports_collect_aliases_dot_and_blank() {
    let src = "package main\nimport (\n  \"fmt\"\n  u \"proj/util\"\n  . \"proj/dot\"\n  _ \"side\"\n)\nimport \"single/pkg\"\n";
    let root = parse_source(Grammar::Go, src.as_bytes()).unwrap();
    let scope = build_scope(&root);
    assert_eq!(scope.imports.get("fmt").unwrap(), &vec!["fmt"]);
    assert_eq!(scope.imports.get("u").unwrap(), &vec!["proj", "util"]);
    assert_eq!(scope.imports.get("pkg").unwrap(), &vec!["single", "pkg"]);
    assert!(scope.imports.get("side").is_none(), "blank import is dropped");
    assert_eq!(scope.globs, vec![vec!["proj", "dot"]]);
}

#[test]
fn go_same_file_bare_call_is_exact() {
    let results = resolve_all(&[
        ("a/a.go", "package a\nfunc helper() {}\nfunc Go() { helper() }\n"),
        ("b/b.go", "package b\nfunc helper() {}\n"),
    ]);
    let (file, line, conf) = target_of(&results, "Go", "helper").unwrap();
    assert_eq!((file.as_str(), line, conf), ("a/a.go", 2, Confidence::Exact));
}

#[test]
fn same_package_cross_file_bare_call_is_exact() {
    let results = resolve_all(&[
        ("a/one.go", "package a\nfunc helper() {}\n"),
        ("a/two.go", "package a\nfunc Go() { helper() }\n"),
        ("b/b.go", "package b\nfunc helper() {}\n"),
    ]);
    let (file, _, conf) = target_of(&results, "Go", "helper").unwrap();
    assert_eq!((file.as_str(), conf), ("a/one.go", Confidence::Exact));
}

#[test]
fn import_resolves_cross_package() {
    let results = resolve_all(&[
        ("proj/util/u.go", "package util\nfunc Helper() {}\n"),
        ("proj/other/o.go", "package other\nfunc Helper() {}\n"),
        ("proj/main.go", "package main\nimport \"example.com/proj/util\"\nfunc Go() { util.Helper() }\n"),
    ]);
    let (file, _, conf) = target_of(&results, "Go", "Helper").unwrap();
    assert_eq!((file.as_str(), conf), ("proj/util/u.go", Confidence::Exact));
}

#[test]
fn import_matches_when_only_path_tails_agree() {
    // on-disk path "/tmp/demo/util" vs module path "example.com/demo/util"
    let results = resolve_all(&[
        ("/tmp/demo/util/u.go", "package util\nfunc Helper() {}\n"),
        ("/tmp/demo/main.go", "package main\nimport \"example.com/demo/util\"\nfunc Go() { util.Helper() }\n"),
    ]);
    let (file, _, conf) = target_of(&results, "Go", "Helper").unwrap();
    assert_eq!((file.as_str(), conf), ("/tmp/demo/util/u.go", Confidence::Exact));
}

#[test]
fn deeper_path_overlap_beats_shared_directory_name() {
    let results = resolve_all(&[
        ("proj/a/util/u.go", "package util\nfunc Helper() {}\n"),
        ("proj/b/util/u.go", "package util\nfunc Helper() {}\n"),
        ("proj/main.go", "package main\nimport \"example.com/proj/a/util\"\nfunc Go() { util.Helper() }\n"),
    ]);
    let (file, _, conf) = target_of(&results, "Go", "Helper").unwrap();
    assert_eq!((file.as_str(), conf), ("proj/a/util/u.go", Confidence::Exact));
}

#[test]
fn alias_import_resolves() {
    let results = resolve_all(&[
        ("proj/util/u.go", "package util\nfunc Helper() {}\n"),
        ("proj/main.go", "package main\nimport u \"example.com/proj/util\"\nfunc Go() { u.Helper() }\n"),
    ]);
    let (file, line, conf) = target_of(&results, "Go", "Helper").unwrap();
    assert_eq!((file.as_str(), line, conf), ("proj/util/u.go", 2, Confidence::Exact));
}

#[test]
fn dot_import_resolves_bare_call() {
    let results = resolve_all(&[
        ("proj/util/u.go", "package util\nfunc Helper() {}\n"),
        ("proj/other/o.go", "package other\nfunc Helper() {}\n"),
        ("proj/main.go", "package main\nimport . \"example.com/proj/util\"\nfunc Go() { Helper() }\n"),
    ]);
    let (file, _, conf) = target_of(&results, "Go", "Helper").unwrap();
    assert_eq!((file.as_str(), conf), ("proj/util/u.go", Confidence::Exact));
}

#[test]
fn external_package_call_stays_unresolved() {
    let results = resolve_all(&[(
        "proj/main.go",
        "package main\nimport \"fmt\"\nfunc Println() {}\nfunc Go() { fmt.Println() }\n",
    )]);
    assert_eq!(target_of(&results, "Go", "Println"), None,
        "fmt.Println must not resolve to the local Println");
}

#[test]
fn go_value_binding_resolves_through_variable() {
    let results = resolve_all(&[(
        "a/a.go",
        "package a\nfunc helper() {}\nfunc Go() {\n  f := helper\n  f()\n}\n",
    )]);
    let (file, line, conf) = target_of(&results, "Go", "f").unwrap();
    assert_eq!((file.as_str(), line, conf), ("a/a.go", 2, Confidence::Exact));
}

#[test]
fn go_value_binding_shadowing_last_wins() {
    let results = resolve_all(&[(
        "a/a.go",
        "package a\nfunc one() {}\nfunc two() {}\nfunc Go() {\n  f := one\n  f = two\n  g := two\n  g()\n  f()\n}\n",
    )]);
    // `f = two` is a plain assignment (out of scope) — f still resolves to one
    let (_, line, _) = target_of(&results, "Go", "g").unwrap();
    assert_eq!(line, 3);
    let (_, line, _) = target_of(&results, "Go", "f").unwrap();
    assert_eq!(line, 2, "declaration binding wins; reassignment is out of scope");
}

#[test]
fn method_value_binding_resolves() {
    let results = resolve_all(&[(
        "a/a.go",
        "package a\ntype S struct{}\nfunc (s *S) Close() {}\nfunc Go(s *S) {\n  f := s.Close\n  f()\n}\n",
    )]);
    let (_, line, conf) = target_of(&results, "Go", "f").unwrap();
    assert_eq!((line, conf), (3, Confidence::Exact));
}

#[test]
fn receiver_param_resolves_method() {
    let results = resolve_all(&[(
        "a/a.go",
        "package a\ntype S struct{}\nfunc (s *S) A() { s.B() }\nfunc (s *S) B() {}\nfunc B() {}\n",
    )]);
    let (_, line, conf) = target_of(&results, "A", "B").unwrap();
    assert_eq!((line, conf), (4, Confidence::Exact), "should pick (*S).B, not free B");
}

#[test]
fn var_declaration_type_resolves_method() {
    let results = resolve_all(&[(
        "a/a.go",
        "package a\ntype S struct{}\ntype T struct{}\nfunc (s S) Run() {}\nfunc (t T) Run() {}\nfunc Go() {\n  var x S\n  x.Run()\n}\n",
    )]);
    let (_, line, conf) = target_of(&results, "Go", "Run").unwrap();
    assert_eq!((line, conf), (4, Confidence::Exact));
}

#[test]
fn composite_literal_resolves_method() {
    let results = resolve_all(&[(
        "a/a.go",
        "package a\ntype S struct{}\ntype T struct{}\nfunc (s *S) Run() {}\nfunc (t *T) Run() {}\nfunc Go() {\n  x := &S{}\n  x.Run()\n}\n",
    )]);
    let (_, line, conf) = target_of(&results, "Go", "Run").unwrap();
    assert_eq!((line, conf), (4, Confidence::Exact));
}

#[test]
fn new_constructor_convention_gives_type_evidence() {
    let results = resolve_all(&[(
        "a/a.go",
        "package a\ntype S struct{}\ntype T struct{}\nfunc NewS() *S { return &S{} }\nfunc (s *S) Run() {}\nfunc (t *T) Run() {}\nfunc Go() {\n  x := NewS()\n  x.Run()\n}\n",
    )]);
    let (_, line, conf) = target_of(&results, "Go", "Run").unwrap();
    assert_eq!((line, conf), (5, Confidence::Exact));
}

#[test]
fn go_return_type_resolves_through_call_binding() {
    // no New prefix — only the indexed return type can explain this
    let results = resolve_all(&[(
        "a/a.go",
        "package a\ntype S struct{}\ntype T struct{}\nfunc makeIt() *S { return &S{} }\nfunc (s *S) Run() {}\nfunc (t *T) Run() {}\nfunc Go() {\n  x := makeIt()\n  x.Run()\n}\n",
    )]);
    let (_, line, conf) = target_of(&results, "Go", "Run").unwrap();
    assert_eq!((line, conf), (5, Confidence::Exact));
}

#[test]
fn multi_assign_binds_first_result_type() {
    let results = resolve_all(&[(
        "a/a.go",
        "package a\ntype S struct{}\ntype T struct{}\nfunc open() (*S, error) { return nil, nil }\nfunc (s *S) Run() {}\nfunc (t *T) Run() {}\nfunc Go() {\n  x, err := open()\n  _ = err\n  x.Run()\n}\n",
    )]);
    let (_, line, conf) = target_of(&results, "Go", "Run").unwrap();
    assert_eq!((line, conf), (5, Confidence::Exact));
}

#[test]
fn return_type_resolves_cross_package() {
    let results = resolve_all(&[
        ("proj/server/s.go",
         "package server\ntype Server struct{}\nfunc Open() *Server { return nil }\nfunc (s *Server) Run() {}\n"),
        ("proj/other/o.go", "package other\ntype Other struct{}\nfunc (o *Other) Run() {}\n"),
        ("proj/main.go",
         "package main\nimport \"example.com/proj/server\"\nfunc Go() {\n  s := server.Open()\n  s.Run()\n}\n"),
    ]);
    let (file, line, conf) = target_of(&results, "Go", "Run").unwrap();
    assert_eq!((file.as_str(), line, conf), ("proj/server/s.go", 4, Confidence::Exact));
}

#[test]
fn interfaces_index_as_interface_methods() {
    let idx = build_index(&[(
        "a/a.go",
        "package a\ntype Writer interface {\n  Write(p []byte) (int, error)\n  Close() error\n}\n",
    )]);
    let write = idx.defs.iter().find(|d| d.name == "Write").unwrap();
    assert!(matches!(&write.kind, DefKind::InterfaceMethod { interface } if interface == "Writer"));
    assert_eq!(write.qualified, vec!["a", "Writer", "Write"]);
    assert_eq!(write.id.line, 3);
    assert!(idx.defs.iter().any(|d| d.name == "Close"));
}

#[test]
fn interface_dispatch_expands_to_implementations() {
    let results = resolve_all(&[(
        "a/a.go",
        "package a\ntype Writer interface {\n  Write()\n}\ntype File struct{}\nfunc (f *File) Write() {}\ntype Buf struct{}\nfunc (b *Buf) Write() {}\ntype NotWriter struct{}\nfunc (n *NotWriter) Other() {}\nfunc Save(w Writer) {\n  w.Write()\n}\n",
    )]);
    let targets: Vec<_> = results.iter()
        .filter(|(cr, ce, _)| cr == "Save" && ce == "Write")
        .filter_map(|(_, _, t)| t.clone())
        .collect();
    assert_eq!(targets.len(), 2, "one edge per implementing type: {:?}", targets);
    assert!(targets.iter().all(|(_, _, c)| *c == Confidence::Guess));
    let lines: Vec<usize> = targets.iter().map(|(_, l, _)| *l).collect();
    assert_eq!(lines, vec![6, 8], "File.Write and Buf.Write, not the signature");
}

#[test]
fn interface_dispatch_single_impl_is_exact() {
    let results = resolve_all(&[(
        "a/a.go",
        "package a\ntype Writer interface {\n  Write()\n}\ntype File struct{}\nfunc (f *File) Write() {}\nfunc Save(w Writer) {\n  w.Write()\n}\n",
    )]);
    let (_, line, conf) = target_of(&results, "Save", "Write").unwrap();
    assert_eq!((line, conf), (6, Confidence::Exact));
}

#[test]
fn interface_dispatch_requires_full_method_set() {
    // Half implements only one of Writer's two methods — not an implementor.
    let results = resolve_all(&[(
        "a/a.go",
        "package a\ntype Writer interface {\n  Write()\n  Close()\n}\ntype Full struct{}\nfunc (f *Full) Write() {}\nfunc (f *Full) Close() {}\ntype Half struct{}\nfunc (h *Half) Write() {}\nfunc Save(w Writer) {\n  w.Write()\n}\n",
    )]);
    let (_, line, conf) = target_of(&results, "Save", "Write").unwrap();
    assert_eq!((line, conf), (7, Confidence::Exact), "only Full implements Writer");
}

#[test]
fn interface_with_no_impls_resolves_to_signature() {
    let results = resolve_all(&[(
        "a/a.go",
        "package a\ntype Writer interface {\n  Write()\n}\nfunc Save(w Writer) {\n  w.Write()\n}\n",
    )]);
    let (_, line, conf) = target_of(&results, "Save", "Write").unwrap();
    assert_eq!((line, conf), (3, Confidence::Exact), "edge points at the signature");
}

#[test]
fn go_param_type_resolves_method() {
    let results = resolve_all(&[(
        "a/a.go",
        "package a\ntype S struct{}\ntype T struct{}\nfunc (s *S) Run() {}\nfunc (t *T) Run() {}\nfunc Go(x *S, n int) { x.Run() }\n",
    )]);
    let (_, line, conf) = target_of(&results, "Go", "Run").unwrap();
    assert_eq!((line, conf), (4, Confidence::Exact));
}

#[test]
fn local_binding_shadows_package_name() {
    let results = resolve_all(&[
        ("proj/util/u.go", "package util\nfunc Run() {}\n"),
        ("proj/main.go",
         "package main\nimport \"example.com/proj/util\"\ntype S struct{}\nfunc (s *S) Run() {}\nfunc Go() {\n  util := &S{}\n  util.Run()\n}\n"),
    ]);
    let (file, line, conf) = target_of(&results, "Go", "Run").unwrap();
    assert_eq!((file.as_str(), line, conf), ("proj/main.go", 4, Confidence::Exact),
        "local variable shadows the imported package");
}

#[test]
fn calls_in_go_defer_and_closures_are_attributed() {
    let results = resolve_all(&[(
        "a/a.go",
        "package a\nfunc run() {}\nfunc cleanup() {}\nfunc inner() {}\nfunc Go() {\n  go run()\n  defer cleanup()\n  f := func() { inner() }\n  f()\n}\n",
    )]);
    assert!(target_of(&results, "Go", "run").is_some());
    assert!(target_of(&results, "Go", "cleanup").is_some());
    assert!(target_of(&results, "Go", "inner").is_some(),
        "calls inside func literals attribute to the enclosing function");
}

#[test]
fn generic_call_is_extracted() {
    let results = resolve_all(&[(
        "a/a.go",
        "package a\nfunc Map() {}\nfunc Go() { Map[int]() }\n",
    )]);
    let (_, line, conf) = target_of(&results, "Go", "Map").unwrap();
    assert_eq!((line, conf), (2, Confidence::Exact));
}

#[test]
fn go_ambiguous_name_ranks_same_dir_and_marks_guess() {
    let results = resolve_all(&[
        ("a/near.go", "package a\nfunc Helper() {}\n"),
        ("far/far.go", "package far\nfunc Helper() {}\n"),
        ("a/main.go", "package a\nfunc Go() { x.Helper() }\n"),
    ]);
    let (file, _, conf) = target_of(&results, "Go", "Helper").unwrap();
    assert_eq!((file.as_str(), conf), ("a/near.go", Confidence::Guess));
}

#[test]
fn go_zero_candidates_stay_unresolved() {
    let results = resolve_all(&[("a/a.go", "package a\nfunc Go() { println() }\n")]);
    assert_eq!(target_of(&results, "Go", "println"), None);
}

// Dump the grammar's actual node kinds for the constructs the resolver depends on.
#[test]
fn go_dump_node_kinds() {
    let snippets = [
        "package main\nimport (\n  \"fmt\"\n  u \"myproj/util\"\n  . \"myproj/dot\"\n  _ \"side\"\n)",
        "package main\nfunc (s *Server) Handle(w http.ResponseWriter, n int) { s.log(); helper(); u.Helper() }",
        "package main\nfunc main() {\n  x := NewServer()\n  var y Server\n  z := &Server{}\n  f := helper\n  f()\n  go run()\n  defer cleanup()\n}",
        "package main\ntype Writer interface {\n  Write(p []byte) (int, error)\n  Close() error\n  io.Reader\n}",
        "package main\nfunc One() *Server { return nil }\nfunc Two() (int, error) { return 0, nil }\nfunc Three() (n int, err error) { return }",
        "package main\nfunc main() {\n  x, err := NewServer()\n  _ = err\n  x.Run()\n}",
    ];
    for src in snippets {
        let root = parse_source(Grammar::Go, src.as_bytes()).unwrap();
        println!("--- {}\n{:?}\n", src, root);
    }
}
