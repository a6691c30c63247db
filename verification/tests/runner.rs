//! Results of queries.

use ctsq::compiler::{compile, lang};
use ctsq::query::parse;
use ctsq::runner::run;

fn run_str(query: &str, lang_name: &str, source: &str) -> Vec<String> {
    let ast = parse(query).unwrap();
    let l = lang::for_name(lang_name).unwrap();
    let compiled = compile(&ast, l.as_ref());
    run(&compiled, l.as_ref(), source.as_bytes(), false).unwrap()
}

#[test]
fn test_body_combinator_finds_call() {
    let src = "void DoStuff() {\n    int x = 1;\n    Loading();\n    x++;\n}\n";
    let results = run_str("(*function @f).body((&function#Loading @c))", "cpp", src);
    assert!(!results.is_empty(), "expected match, got: {:?}", results);
    assert!(results[0].contains("Loading"), "expected Loading in result: {:?}", results);
}

#[test]
fn test_body_combinator_nested_call() {
    let src = "void Outer() {\n    if (x) {\n        Loading();\n    }\n}\n";
    let results = run_str("(*function @f).body((&function#Loading @c))", "cpp", src);
    assert!(!results.is_empty(), "expected match for nested call, got: {:?}", results);
}

#[test]
fn test_body_combinator_condition_call() {
    // Loading() used in an if-condition, matching the actual Cossacks pattern
    let src = "void Init() {\n    if (!Loading()) {\n        return;\n    }\n}\n";
    let results = run_str("(*function @f).body((&function#Loading @c))", "cpp", src);
    assert!(!results.is_empty(), "expected match for condition call, got: {:?}", results);
}

#[test]
fn test_condition_combinator() {
    // Find if statements whose condition contains a call to Check()
    let src = "void f() {\n    if (Check(x)) {\n        DoWork();\n    }\n}\n";
    // .condition() should find Check() in the condition but NOT DoWork() in the body
    let results = run_str("(if @s).condition((&function#Check @c))", "cpp", src);
    assert!(!results.is_empty(), "expected condition match, got: {:?}", results);
    assert!(results[0].contains("Check"), "expected Check: {:?}", results);

    // DoWork is in the body, not the condition — should NOT match with .condition()
    let neg = run_str("(if @s).condition((&function#DoWork @c))", "cpp", src);
    assert!(neg.is_empty(), "DoWork is in body not condition, got: {:?}", neg);
}
