//! Compiled queries.

use ctsq::compiler::lang::for_name;
use ctsq::compiler::{compile, CompiledQuery};
use ctsq::query::parse;

fn compile_str(query: &str, lang_name: &str) -> String {
    let q = parse(query).expect("parse failed");
    let lang = for_name(lang_name).expect("unknown lang");
    match compile(&q, lang.as_ref()) {
        CompiledQuery::Simple(s) => s,
        CompiledQuery::Scoped { outer, inner, .. } => format!("SCOPED outer={} inner={}", outer, inner),
        other => panic!("with searches: {:?}", other),
    }
}

#[test]
fn test_passthrough_arrow_function() {
    // arrow_function is an unknown abstract type → pass-through
    let out = compile_str("arrow_function", "javascript");
    assert!(out.starts_with("(arrow_function)"), "got: {}", out);
}

#[test]
fn test_sizeof_call_c() {
    let out = compile_str("(&function#sizeof @f)", "c");
    assert!(out.contains("call_expression"), "got: {}", out);
    assert!(out.contains("#eq?"), "got: {}", out);
    assert!(out.contains("\"sizeof\""), "got: {}", out);
    assert!(out.contains("@f"), "got: {}", out);
}

#[test]
fn test_main_def_js_has_multiple_variants() {
    let out = compile_str("(*function#main @f)", "javascript");
    assert!(
        out.starts_with('[') || out.contains("function_declaration"),
        "got: {}", out
    );
    assert!(out.contains("\"main\""), "got: {}", out);
    // arrow_function should be in the alternation but without a name predicate
    assert!(out.contains("arrow_function"), "got: {}", out);
}

#[test]
fn test_malloc_params_c() {
    let out = compile_str("(&function#malloc @f).params((var#ARRAY_SIZE @v))", "c");
    assert!(out.contains("call_expression"), "got: {}", out);
    assert!(out.contains("\"malloc\""), "got: {}", out);
    assert!(out.contains("arguments"), "got: {}", out);
    assert!(out.contains("ARRAY_SIZE"), "got: {}", out);
    assert!(out.contains("@v"), "got: {}", out);
}

#[test]
fn test_python_does_not_panic() {
    let out = compile_str("(&function#malloc @f).params((var#ARRAY_SIZE @v))", "python");
    let _ = out;
}

#[test]
fn test_empty_on_known_missing() {
    // "class" has no mapping in C
    let out = compile_str("class", "c");
    assert!(out.is_empty(), "expected empty, got: {}", out);
}

#[test]
fn test_regex_name_match() {
    let out = compile_str("(&function#/malloc|calloc/ @f)", "c");
    assert!(out.contains("#match?"), "got: {}", out);
    assert!(out.contains("malloc|calloc"), "got: {}", out);
}

#[test]
fn test_main_def_python() {
    let out = compile_str("(*function#main @f)", "python");
    assert!(out.contains("function_definition"), "got: {}", out);
    assert!(out.contains("\"main\""), "got: {}", out);
}

#[test]
fn test_body_combinator_cpp() {
    let q = parse("(*function @f).body((&function#Loading @c))").expect("parse failed");
    let lang = for_name("cpp").expect("unknown lang");
    let compiled = compile(&q, lang.as_ref());
    match compiled {
        CompiledQuery::Scoped { outer, scope_field, inner } => {
            assert_eq!(scope_field, "body");
            assert!(outer.contains("function_definition"), "outer: {}", outer);
            assert!(inner.contains("call_expression"), "inner: {}", inner);
            assert!(inner.contains("Loading"), "inner: {}", inner);
        }
        other => panic!("expected Scoped, got: {:?}", other),
    }
}

#[test]
fn test_control_flow_types() {
    assert!(compile_str("if", "c").contains("if_statement"));
    assert!(compile_str("if", "rust").contains("if_expression"));
    assert!(compile_str("for", "cpp").contains("for_statement"));
    assert!(compile_str("for", "rust").contains("for_expression"));
    assert!(compile_str("while", "cpp").contains("while_statement"));
    assert!(compile_str("while", "go").is_empty(), "Go has no while");
    assert!(compile_str("switch", "javascript").contains("switch_statement"));
    assert!(compile_str("switch", "rust").contains("match_expression"));
    assert!(compile_str("switch", "python").is_empty(), "Python has no switch");
    assert!(compile_str("switch", "go").contains("expression_switch_statement"));
    assert!(compile_str("switch", "go").contains("type_switch_statement"));
    // call is now a known-absent no-op in all languages
    assert!(compile_str("call", "c").is_empty());
    assert!(compile_str("call", "javascript").is_empty());
}
