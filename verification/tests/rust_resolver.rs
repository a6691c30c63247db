//! Resolution of Rust calls.

use ctsq::resolve::rust::{build_scope, file_module_path, RustResolver};
use ctsq::resolve::{Confidence, DefIndex, DefKind, Resolver};
use ctsq::syntax::{parse_source, Grammar};

fn build_index(files: &[(&str, &str)]) -> DefIndex {
    let r = RustResolver;
    let mut idx = DefIndex::default();
    for (f, src) in files {
        for d in r.collect_defs(f, src.as_bytes()) {
            idx.push(d);
        }
        idx.impls.extend(r.collect_impls(f, src.as_bytes()));
    }
    idx
}

// Resolve everything and return (caller_name, callee_display, target file:line, confidence).
fn resolve_all(files: &[(&str, &str)]) -> Vec<(String, String, Option<(String, usize, Confidence)>)> {
    let r = RustResolver;
    let idx = build_index(files);
    let mut out = Vec::new();
    for (f, src) in files {
        for rc in r.resolve_calls(f, src.as_bytes(), &idx) {
            let caller = idx.defs[rc.caller].name.clone();
            let target = rc.target.map(|(t, c)| {
                let d = &idx.defs[t];
                (d.id.file.clone(), d.id.line, c)
            });
            out.push((caller, rc.callee_display, target));
        }
    }
    out
}

fn target_of(
    results: &[(String, String, Option<(String, usize, Confidence)>)],
    caller: &str,
    callee: &str,
) -> Option<(String, usize, Confidence)> {
    results.iter()
        .find(|(cr, ce, _)| cr == caller && ce == callee)
        .and_then(|(_, _, t)| t.clone())
}

#[test]
fn defs_carry_module_path_and_receiver() {
    let idx = build_index(&[(
        "src/util/geo.rs",
        "mod inner {\n  pub struct Foo;\n  impl Foo {\n    pub fn dist(&self) {}\n  }\n  pub fn free() {}\n}\n",
    )]);
    let dist = idx.defs.iter().find(|d| d.name == "dist").unwrap();
    assert_eq!(dist.qualified, vec!["util", "geo", "inner", "Foo", "dist"]);
    assert!(matches!(&dist.kind, DefKind::Method { receiver, .. } if receiver == "Foo"));
    let free = idx.defs.iter().find(|d| d.name == "free").unwrap();
    assert_eq!(free.qualified, vec!["util", "geo", "inner", "free"]);
    assert!(matches!(free.kind, DefKind::Function));
}

#[test]
fn main_and_lib_contribute_directory_only() {
    assert_eq!(file_module_path("proj/src/main.rs"), Vec::<String>::new());
    assert_eq!(file_module_path("proj/src/util/mod.rs"), vec!["util"]);
    assert_eq!(file_module_path("proj/src/util/geo.rs"), vec!["util", "geo"]);
}

#[test]
fn imports_collect_aliases_nested_lists_and_globs() {
    let src = "use a::{b as c, d::*, e::f};\nuse g;\n";
    let root = parse_source(Grammar::Rust, src.as_bytes()).unwrap();
    let scope = build_scope(&root);
    assert_eq!(scope.imports.get("c").unwrap(), &vec!["a", "b"]);
    assert_eq!(scope.imports.get("f").unwrap(), &vec!["a", "e", "f"]);
    assert_eq!(scope.imports.get("g").unwrap(), &vec!["g"]);
    assert_eq!(scope.globs, vec![vec!["a", "d"]]);
}

#[test]
fn rust_same_file_bare_call_is_exact() {
    let results = resolve_all(&[
        ("src/a.rs", "fn helper() {}\nfn go() { helper(); }\n"),
        ("src/b.rs", "fn helper() {}\n"),
    ]);
    let (file, line, conf) = target_of(&results, "go", "helper").unwrap();
    assert_eq!((file.as_str(), line, conf), ("src/a.rs", 1, Confidence::Exact));
}

#[test]
fn import_resolves_cross_file() {
    let results = resolve_all(&[
        ("src/util.rs", "pub fn helper() {}\n"),
        ("src/other.rs", "pub fn helper() {}\n"),
        ("src/main.rs", "use util::helper;\nfn go() { helper(); }\n"),
    ]);
    let (file, _, conf) = target_of(&results, "go", "helper").unwrap();
    assert_eq!((file.as_str(), conf), ("src/util.rs", Confidence::Exact));
}

#[test]
fn alias_resolves_to_original() {
    let results = resolve_all(&[
        ("src/util.rs", "pub fn helper() {}\n"),
        ("src/main.rs", "use util::helper as h;\nfn go() { h(); }\n"),
    ]);
    // alias display name is the alias itself; target is the original def
    let (file, line, conf) = target_of(&results, "go", "h").unwrap();
    assert_eq!((file.as_str(), line, conf), ("src/util.rs", 1, Confidence::Exact));
}

#[test]
fn glob_import_resolves() {
    let results = resolve_all(&[
        ("src/util.rs", "pub fn helper() {}\n"),
        ("src/other.rs", "pub fn helper() {}\n"),
        ("src/main.rs", "use util::*;\nfn go() { helper(); }\n"),
    ]);
    let (file, _, conf) = target_of(&results, "go", "helper").unwrap();
    assert_eq!((file.as_str(), conf), ("src/util.rs", Confidence::Exact));
}

#[test]
fn rust_value_binding_resolves_through_variable() {
    let results = resolve_all(&[(
        "src/a.rs",
        "fn helper() {}\nfn go() {\n  let f = helper;\n  f();\n}\n",
    )]);
    let (file, line, conf) = target_of(&results, "go", "f").unwrap();
    assert_eq!((file.as_str(), line, conf), ("src/a.rs", 1, Confidence::Exact));
}

#[test]
fn rust_value_binding_shadowing_last_wins() {
    let results = resolve_all(&[(
        "src/a.rs",
        "fn one() {}\nfn two() {}\nfn go() {\n  let f = one;\n  let f = two;\n  f();\n}\n",
    )]);
    let (_, line, _) = target_of(&results, "go", "f").unwrap();
    assert_eq!(line, 2, "last binding before the call should win");
}

#[test]
fn value_binding_path_resolves_to_method() {
    let results = resolve_all(&[(
        "src/a.rs",
        "struct Foo;\nimpl Foo {\n  fn new() -> Foo { Foo }\n}\nfn go() {\n  let f = Foo::new;\n  f();\n}\n",
    )]);
    let (_, line, conf) = target_of(&results, "go", "f").unwrap();
    assert_eq!((line, conf), (3, Confidence::Exact));
}

#[test]
fn self_method_resolves_within_impl() {
    let results = resolve_all(&[(
        "src/a.rs",
        "struct Foo;\nimpl Foo {\n  fn a(&self) { self.b(); }\n  fn b(&self) {}\n}\nfn b() {}\n",
    )]);
    let (_, line, conf) = target_of(&results, "a", "b").unwrap();
    assert_eq!((line, conf), (4, Confidence::Exact), "should pick Foo::b, not free b");
}

#[test]
fn self_method_in_trait_impl_falls_back_to_trait_default() {
    let results = resolve_all(&[(
        "src/a.rs",
        "trait Tr {\n  fn dflt(&self) {}\n}\nstruct Foo;\nimpl Tr for Foo {\n  fn go(&self) { self.dflt(); }\n}\n",
    )]);
    let (_, line, conf) = target_of(&results, "go", "dflt").unwrap();
    assert_eq!((line, conf), (2, Confidence::Exact));
}

#[test]
fn typed_receiver_resolves_method() {
    let results = resolve_all(&[(
        "src/a.rs",
        "struct Foo;\nstruct Bar;\nimpl Foo { fn run(&self) {} }\nimpl Bar { fn run(&self) {} }\nfn go() {\n  let x: Foo = make();\n  x.run();\n}\n",
    )]);
    let (_, line, conf) = target_of(&results, "go", "run").unwrap();
    assert_eq!((line, conf), (3, Confidence::Exact), "should pick Foo::run via let type");
}

#[test]
fn constructor_call_gives_type_evidence() {
    let results = resolve_all(&[(
        "src/a.rs",
        "struct Foo;\nstruct Bar;\nimpl Foo {\n  fn new() -> Foo { Foo }\n  fn run(&self) {}\n}\nimpl Bar { fn run(&self) {} }\nfn go() {\n  let x = Foo::new();\n  x.run();\n}\n",
    )]);
    let (_, line, conf) = target_of(&results, "go", "run").unwrap();
    assert_eq!((line, conf), (5, Confidence::Exact));
}

#[test]
fn rust_return_type_resolves_through_call_binding() {
    // free function, no Type::assoc heuristic available
    let results = resolve_all(&[(
        "src/a.rs",
        "struct Foo;\nstruct Bar;\nimpl Foo { fn run(&self) {} }\nimpl Bar { fn run(&self) {} }\nfn make_it() -> Foo { Foo }\nfn go() {\n  let x = make_it();\n  x.run();\n}\n",
    )]);
    let (_, line, conf) = target_of(&results, "go", "run").unwrap();
    assert_eq!((line, conf), (3, Confidence::Exact));
}

#[test]
fn self_return_type_means_impl_type() {
    let results = resolve_all(&[(
        "src/a.rs",
        "struct Foo;\nstruct Bar;\nimpl Foo {\n  fn create() -> Self { Foo }\n  fn run(&self) {}\n}\nimpl Bar { fn run(&self) {} }\nfn go() {\n  let x = Foo::create();\n  x.run();\n}\n",
    )]);
    let (_, line, conf) = target_of(&results, "go", "run").unwrap();
    assert_eq!((line, conf), (5, Confidence::Exact));
}

#[test]
fn return_type_beats_constructor_name_heuristic() {
    // Factory::build returns a Widget, not a Factory.
    let results = resolve_all(&[(
        "src/a.rs",
        "struct Factory;\nstruct Widget;\nimpl Factory {\n  fn build() -> Widget { Widget }\n  fn run(&self) {}\n}\nimpl Widget { fn run(&self) {} }\nfn go() {\n  let x = Factory::build();\n  x.run();\n}\n",
    )]);
    let (_, line, conf) = target_of(&results, "go", "run").unwrap();
    assert_eq!((line, conf), (7, Confidence::Exact), "should pick Widget::run via return type");
}

#[test]
fn rust_param_type_resolves_method() {
    let results = resolve_all(&[(
        "src/a.rs",
        "struct Foo;\nstruct Bar;\nimpl Foo { fn run(&self) {} }\nimpl Bar { fn run(&self) {} }\nfn go(x: &Foo) { x.run(); }\n",
    )]);
    let (_, line, conf) = target_of(&results, "go", "run").unwrap();
    assert_eq!((line, conf), (3, Confidence::Exact));
}

#[test]
fn trait_signatures_index_as_interface_methods_with_impl_links() {
    let idx = build_index(&[(
        "src/a.rs",
        "trait W {\n  fn write(&self);\n  fn flush(&self) {}\n}\nstruct File;\nimpl W for File {\n  fn write(&self) {}\n}\nimpl File {\n  fn open() {}\n}\n",
    )]);
    let sig = idx.defs.iter().find(|d| d.name == "write" && d.id.line == 2).unwrap();
    assert!(matches!(&sig.kind, DefKind::InterfaceMethod { interface } if interface == "W"));
    let dflt = idx.defs.iter().find(|d| d.name == "flush").unwrap();
    assert!(matches!(&dflt.kind,
        DefKind::Method { receiver, via_trait: None } if receiver == "W"));
    let imp = idx.defs.iter().find(|d| d.name == "write" && d.id.line == 7).unwrap();
    assert!(matches!(&imp.kind,
        DefKind::Method { receiver, via_trait: Some(v) } if receiver == "File" && v == "W"));
    let inherent = idx.defs.iter().find(|d| d.name == "open").unwrap();
    assert!(matches!(&inherent.kind,
        DefKind::Method { via_trait: None, .. }));
}

#[test]
fn dyn_param_expands_to_implementations() {
    let results = resolve_all(&[(
        "src/a.rs",
        "trait W {\n  fn write(&self);\n}\nstruct File;\nimpl W for File {\n  fn write(&self) {}\n}\nstruct Buf;\nimpl W for Buf {\n  fn write(&self) {}\n}\nfn save(w: &dyn W) {\n  w.write();\n}\n",
    )]);
    let targets: Vec<_> = results.iter()
        .filter(|(cr, ce, _)| cr == "save" && ce == "write")
        .filter_map(|(_, _, t)| t.clone())
        .collect();
    assert_eq!(targets.len(), 2, "one edge per impl: {:?}", targets);
    assert!(targets.iter().all(|(_, _, c)| *c == Confidence::Guess));
    let lines: Vec<usize> = targets.iter().map(|(_, l, _)| *l).collect();
    assert_eq!(lines, vec![6, 10], "File::write and Buf::write, not the signature");
}

#[test]
fn box_dyn_single_impl_is_exact() {
    let results = resolve_all(&[(
        "src/a.rs",
        "trait W {\n  fn write(&self);\n}\nstruct File;\nimpl W for File {\n  fn write(&self) {}\n}\nfn save(w: Box<dyn W>) {\n  w.write();\n}\n",
    )]);
    let (_, line, conf) = target_of(&results, "save", "write").unwrap();
    assert_eq!((line, conf), (6, Confidence::Exact));
}

#[test]
fn generic_bound_dispatches_through_trait() {
    let results = resolve_all(&[(
        "src/a.rs",
        "trait W {\n  fn write(&self);\n}\nstruct File;\nimpl W for File {\n  fn write(&self) {}\n}\nfn save<T: W>(t: T) {\n  t.write();\n}\n",
    )]);
    let (_, line, conf) = target_of(&results, "save", "write").unwrap();
    assert_eq!((line, conf), (6, Confidence::Exact));
}

#[test]
fn where_clause_bound_dispatches_through_trait() {
    let results = resolve_all(&[(
        "src/a.rs",
        "trait W {\n  fn write(&self);\n}\nstruct File;\nimpl W for File {\n  fn write(&self) {}\n}\nfn save<T>(t: T) where T: W {\n  t.write();\n}\n",
    )]);
    let (_, line, conf) = target_of(&results, "save", "write").unwrap();
    assert_eq!((line, conf), (6, Confidence::Exact));
}

#[test]
fn impl_trait_param_dispatches_through_trait() {
    let results = resolve_all(&[(
        "src/a.rs",
        "trait W {\n  fn write(&self);\n}\nstruct File;\nimpl W for File {\n  fn write(&self) {}\n}\nfn save(t: impl W) {\n  t.write();\n}\n",
    )]);
    let (_, line, conf) = target_of(&results, "save", "write").unwrap();
    assert_eq!((line, conf), (6, Confidence::Exact));
}

#[test]
fn non_overriding_impl_falls_back_to_trait_default() {
    // Buf overrides log; File relies on the default. Expansion yields the
    // override plus one shared default edge.
    let results = resolve_all(&[(
        "src/a.rs",
        "trait W {\n  fn log(&self) {}\n}\nstruct File;\nimpl W for File {}\nstruct Buf;\nimpl W for Buf {\n  fn log(&self) {}\n}\nfn save(w: &dyn W) {\n  w.log();\n}\n",
    )]);
    let targets: Vec<_> = results.iter()
        .filter(|(cr, ce, _)| cr == "save" && ce == "log")
        .filter_map(|(_, _, t)| t.clone())
        .collect();
    let lines: Vec<usize> = targets.iter().map(|(_, l, _)| *l).collect();
    assert_eq!(lines, vec![2, 8], "trait default (for File) plus Buf's override");
}

#[test]
fn dyn_with_no_impls_resolves_to_signature() {
    let results = resolve_all(&[(
        "src/a.rs",
        "trait W {\n  fn write(&self);\n}\nfn save(w: &dyn W) {\n  w.write();\n}\n",
    )]);
    let (_, line, conf) = target_of(&results, "save", "write").unwrap();
    assert_eq!((line, conf), (2, Confidence::Exact), "edge points at the signature");
}

#[test]
fn smart_pointer_param_sees_through_to_concrete_type() {
    let results = resolve_all(&[(
        "src/a.rs",
        "struct Foo;\nstruct Bar;\nimpl Foo { fn run(&self) {} }\nimpl Bar { fn run(&self) {} }\nfn go(x: Rc<Foo>) { x.run(); }\n",
    )]);
    let (_, line, conf) = target_of(&results, "go", "run").unwrap();
    assert_eq!((line, conf), (3, Confidence::Exact));
}

#[test]
fn qualified_call_suffix_matches_module_path() {
    let results = resolve_all(&[
        ("src/util.rs", "pub fn helper() {}\n"),
        ("src/main.rs", "fn go() { util::helper(); }\n"),
    ]);
    let (file, _, conf) = target_of(&results, "go", "helper").unwrap();
    assert_eq!((file.as_str(), conf), ("src/util.rs", Confidence::Exact));
}

#[test]
fn unmatched_qualified_path_is_external() {
    let results = resolve_all(&[(
        "src/a.rs",
        "struct Foo;\nimpl Foo { fn new() -> Foo { Foo } }\nfn go() { std::collections::HashMap::new(); }\n",
    )]);
    assert_eq!(target_of(&results, "go", "new"), None,
        "HashMap::new must not resolve to the local Foo::new");
}

#[test]
fn rust_ambiguous_name_ranks_same_dir_and_marks_guess() {
    let results = resolve_all(&[
        ("src/near.rs", "pub fn helper() {}\n"),
        ("other/far.rs", "pub fn helper() {}\n"),
        ("src/main.rs", "fn go() { helper(); }\n"),
    ]);
    let (file, _, conf) = target_of(&results, "go", "helper").unwrap();
    assert_eq!((file.as_str(), conf), ("src/near.rs", Confidence::Guess));
}

#[test]
fn rust_zero_candidates_stay_unresolved() {
    let results = resolve_all(&[("src/a.rs", "fn go() { println(); }\n")]);
    assert_eq!(target_of(&results, "go", "println"), None);
}

#[test]
fn method_and_qualified_calls_are_extracted() {
    // regression for the old query-based extraction, which only saw
    // `function: (identifier)` call sites in Rust
    let results = resolve_all(&[(
        "src/a.rs",
        "struct Foo;\nimpl Foo {\n  fn m(&self) {}\n  fn s() {}\n}\nfn go() {\n  let x: Foo = make();\n  x.m();\n  Foo::s();\n}\n",
    )]);
    assert!(target_of(&results, "go", "m").is_some(), "method call extracted+resolved");
    assert!(target_of(&results, "go", "s").is_some(), "qualified call extracted+resolved");
}

// Dump the grammar's actual node kinds for the constructs the resolver depends on.
#[test]
fn rust_dump_node_kinds() {
    let snippets = [
        "fn f() { x.foo(); }",
        "fn f() { Foo::bar(); }",
        "use a::{b as c, d::*};",
        "trait W { fn write(&self); fn flush(&self) {} }",
        "impl W for File { fn write(&self) {} }",
        "fn a(w: &dyn W) {}",
        "fn b(w: Box<dyn W>) {}",
        "fn c<T: W>(t: T) {}",
        "fn d(t: impl W) {}",
        "fn e<T>(t: T) where T: W {}",
    ];
    for src in snippets {
        let root = parse_source(Grammar::Rust, src.as_bytes()).unwrap();
        println!("--- {}\n{:?}\n", src, root);
    }
}

#[test]
fn inherent_methods_are_no_overrides() {
    let results = resolve_all(&[(
        "src/a.rs",
        "trait W {\n  fn log(&self) {}\n}\nstruct File;\nimpl File {\n  fn log(&self) {}\n}\nimpl W for File {}\nfn save(w: &dyn W) {\n  w.log();\n}\n",
    )]);
    let (_, line, conf) = target_of(&results, "save", "log").unwrap();
    assert_eq!((line, conf), (2, Confidence::Exact));
}

#[test]
fn the_method_of_the_impl_is_the_override() {
    let results = resolve_all(&[(
        "src/a.rs",
        "trait W {\n  fn log(&self) {}\n}\nstruct File;\nimpl File {\n  fn log(&self) {}\n}\nimpl W for File {\n  fn log(&self) {}\n}\nfn save(w: &dyn W) {\n  w.log();\n}\n",
    )]);
    let (_, line, conf) = target_of(&results, "save", "log").unwrap();
    assert_eq!((line, conf), (9, Confidence::Exact));
}

#[test]
fn the_order_of_impls_makes_no_difference() {
    let trait_src = ("src/w.rs", "pub trait W {\n  fn log(&self);\n}\n");
    let a = ("src/a.rs", "impl W for A {\n  fn log(&self) {}\n}\n");
    let b = ("src/b.rs", "impl W for B {\n  fn log(&self) {}\n}\nimpl W for B {}\n");
    let go = ("src/go.rs", "fn go(w: &dyn W) {\n  w.log();\n}\n");
    let targets = |files: &[(&str, &str)]| {
        let mut found: Vec<_> = resolve_all(files)
            .into_iter()
            .filter(|r| r.0 == "go")
            .map(|r| r.2.unwrap())
            .collect();
        found.dedup();
        found
    };
    let expected = vec![
        ("src/a.rs".to_string(), 2, Confidence::Guess),
        ("src/b.rs".to_string(), 2, Confidence::Guess),
    ];
    assert_eq!(targets(&[trait_src, a, b, go]), expected);
    assert_eq!(targets(&[b, go, a, trait_src]), expected);
}
