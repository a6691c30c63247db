//! Searches from end to end.

use ctsq::compiler::lang::{
    all_known_extensions, extensions_for_name, for_name, lang_for_extension,
    lang_for_name_canonical, Lang,
};
use ctsq::compiler::{compile, compile_with_ids, emit_alternation, CompiledQuery, Fragment, Search};
use ctsq::query::{parse, Combinator, SelectorNode};
use ctsq::runner::run;
use ctsq::search::{show_query, show_results};
use ctsq::syntax::Grammar;

const C: &str = "#include <stdlib.h>\n\n\nvoid process(int ARRAY_SIZE) {\n  char *p;\n  p = malloc(ARRAY_SIZE);\n}\n\nint main(void) {\n  process(3);\n  return 0;\n}\n";

fn search(query: &str, lang_name: &str, source: &str) -> Vec<String> {
    let ast = parse(query).unwrap();
    let lang = for_name(lang_name).unwrap();
    let compiled = compile(&ast, lang.as_ref());
    run(&compiled, lang.as_ref(), source.as_bytes(), false).unwrap()
}

fn compiled(query: &str, lang_name: &str) -> CompiledQuery {
    compile(&parse(query).unwrap(), for_name(lang_name).unwrap().as_ref())
}

fn compiled_text(query: &str, lang_name: &str) -> String {
    match compiled(query, lang_name) {
        CompiledQuery::Simple(s) => s,
        other => panic!("not simple: {:?}", other),
    }
}

fn error_of(query: &str, lang_name: &str, source: &str) -> String {
    let lang = for_name(lang_name).unwrap();
    run(&compiled(query, lang_name), lang.as_ref(), source.as_bytes(), false).unwrap_err()
}

#[test]
fn uses_of_a_symbol() {
    assert_eq!(
        search("id#ARRAY_SIZE", "c", C),
        vec!["<match>:4: \"ARRAY_SIZE\"", "<match>:6: \"ARRAY_SIZE\""]
    );
    assert_eq!(
        search("id#/ARRAY_SIZE|malloc/", "c", C),
        vec!["<match>:4: \"ARRAY_SIZE\"", "<match>:6: \"malloc\"", "<match>:6: \"ARRAY_SIZE\""]
    );
}

#[test]
fn definitions_only() {
    assert_eq!(
        search("*function#process", "c", C),
        vec!["<match>:4: \"void process(int ARRAY_SIZE) {\""]
    );
}

#[test]
fn references_only() {
    assert_eq!(search("&function#process", "c", C), vec!["<match>:10: \"process(3)\""]);
}

#[test]
fn no_sigil_finds_definitions_and_references() {
    let mut both = search("*function#process", "c", C);
    both.extend(search("&function#process", "c", C));
    assert_eq!(search("function#process", "c", C), both);
}

#[test]
fn calls_inside_a_function() {
    let expected =
        vec!["@f:4: \"void process(int ARRAY_SIZE) {\", @call:6: \"malloc(ARRAY_SIZE)\""];
    assert_eq!(search("(*function#process @f).body((&function#malloc @call))", "c", C), expected);
    assert_eq!(search("(*function @f).body((&function#malloc @call))", "c", C), expected);
    assert_eq!(
        search("(*function @f).body(id#ARRAY_SIZE)", "c", C),
        vec!["@f:4: \"void process(int ARRAY_SIZE) {\""]
    );
}

#[test]
fn params_are_part_of_the_pattern() {
    assert_eq!(
        search("(&function#malloc @f).params((identifier#ARRAY_SIZE @v))", "c", C),
        vec!["@f:6: \"malloc(ARRAY_SIZE)\", @v:6: \"ARRAY_SIZE\""]
    );
    assert!(search("(&function#malloc @f).params((identifier#OTHER @v))", "c", C).is_empty());
    assert!(search("(&function#malloc @f).params((var#ARRAY_SIZE @v))", "python", "malloc(x)\n").is_empty());
    assert_eq!(
        search("(&function#malloc @f).params((var#ARRAY_SIZE @v))", "python", "malloc(ARRAY_SIZE)\n"),
        vec!["@f:1: \"malloc(ARRAY_SIZE)\", @v:1: \"ARRAY_SIZE\""]
    );
}

#[test]
fn a_group_without_a_capture_keeps_its_name() {
    assert_eq!(search("(id#malloc)", "c", C), vec!["<match>:6: \"malloc\""]);
    assert_eq!(search("(id#malloc)", "c", C), search("id#malloc", "c", C));
}

#[test]
fn child_and_descendant() {
    let src = "class A {\n  void m() {}\n};\nvoid f() {}\n";
    assert_eq!(search("class (*function @m)", "cpp", src), vec!["@m:2: \"void m() {}\""]);
    for query in ["translation_unit > (function_definition @m)", "translation_unit>(function_definition @m)"] {
        assert_eq!(search(query, "cpp", src), vec!["@m:4: \"void f() {}\""]);
    }
}

#[test]
fn bodies_are_shown_in_full_on_demand() {
    let ast = parse("(*function#main @f)").unwrap();
    let lang = for_name("c").unwrap();
    let compiled = compile(&ast, lang.as_ref());
    let results = run(&compiled, lang.as_ref(), C.as_bytes(), true).unwrap();
    assert_eq!(results, vec!["@f:9-12: int main(void) {\n  process(3);\n  return 0;\n}"]);
}

#[test]
fn text_that_is_not_utf8_is_said_so() {
    let ast = parse("comment").unwrap();
    let lang = for_name("c").unwrap();
    let compiled = compile(&ast, lang.as_ref());
    let results = run(&compiled, lang.as_ref(), b"// \xff\nint x;\n", false).unwrap();
    assert_eq!(results, vec!["<match>:1: \"<invalid utf8>\""]);
}

#[test]
fn unknown_types_pass_through() {
    assert_eq!(compiled_text("preproc_include", "c"), "(preproc_include) @_root0");
    assert_eq!(search("preproc_include", "c", C).len(), 1);
    assert_eq!(compiled_text("no_such_node", "c"), "(no_such_node) @_root0");
}

#[test]
fn patterns_that_the_grammar_refuses_are_errors() {
    assert!(error_of("no_such_node", "c", C).starts_with("query error: "));
    assert!(error_of("(no_such_node @x).body((id @y))", "c", C).starts_with("outer query error: "));
    assert!(error_of("(*function @x).body((no_such_node @y))", "c", C).starts_with("inner query error: "));
}

#[test]
fn missing_concepts_match_nothing() {
    assert!(compiled("class", "c").is_empty());
    assert!(search("class", "c", C).is_empty());
    assert!(search("*class#process", "c", C).is_empty());
    assert!(!compiled("id", "c").is_empty());
}

#[test]
fn results_are_not_repeated() {
    let src = "void f() { g(); }\nvoid g() { }\n";
    // both captures of a match are of the same function
    let results = search("(*function @f).body((id @i))", "c", src);
    assert_eq!(results, vec!["@f:1: \"void f() { g(); }\", @i:1: \"g\""]);
    // without captures every identifier in the body gives the same result
    let twice = "void f() { g(); g(); }\n";
    assert_eq!(search("(*function @f).body(id)", "c", twice), vec!["@f:1: \"void f() { g(); g(); }\""]);
}

#[test]
fn internal_captures_are_numbered_through_several_queries() {
    let lang = for_name("c").unwrap();
    let ast = parse("id#x").unwrap();
    let mut ids = 0;
    let first = compile_with_ids(&ast, lang.as_ref(), &mut ids);
    let second = compile_with_ids(&ast, lang.as_ref(), &mut ids);
    match (first, second) {
        (CompiledQuery::Simple(a), CompiledQuery::Simple(b)) => {
            assert_eq!(
                a,
                "[((identifier) @_nm2 (#eq? @_nm2 \"x\"))\n ((field_identifier) @_nm3 (#eq? @_nm3 \"x\"))]"
            );
            assert_eq!(
                b,
                "[((identifier) @_nm6 (#eq? @_nm6 \"x\"))\n ((field_identifier) @_nm7 (#eq? @_nm7 \"x\"))]"
            );
        }
        _ => panic!("not simple"),
    }
    assert_eq!(ids, 8);
}

#[test]
fn names_are_tested_on_the_node_that_holds_them() {
    assert_eq!(
        compiled_text("(&function#malloc @f)", "c"),
        "((call_expression function: (identifier) @_n0) @f (#eq? @_n0 \"malloc\"))"
    );
    assert_eq!(
        compiled_text("(&function#/m.*/ @f)", "c"),
        "((call_expression function: (identifier) @_n0) @f (#match? @_n0 \"m.*\"))"
    );
}

#[test]
fn a_scope_makes_two_phases() {
    match compiled("(*function @f).body((id @i))", "c") {
        CompiledQuery::Scoped { outer, scope_field, inner } => {
            assert_eq!(scope_field, "body");
            assert_eq!(outer, "(function_definition) @f");
            assert_eq!(inner, "[(identifier) @i\n (field_identifier) @i]");
        }
        other => panic!("{:?}", other),
    }
}

#[test]
fn queries_and_results_are_shown() {
    assert_eq!(
        show_query("c", &compiled("preproc_include", "c")),
        vec!["=== Compiled S-expression (c) ===", "(preproc_include) @_root0"]
    );
    assert_eq!(
        show_query("c", &compiled("class", "c")),
        vec![
            "=== Compiled S-expression (c) ===",
            "<no patterns — abstract type has no mapping in this language>",
        ]
    );
    assert_eq!(
        show_query("c", &compiled("(*function @f).body((type @i))", "c")),
        vec![
            "=== Compiled S-expression (c) ===",
            "[scoped two-phase query on field 'body']",
            "  outer: (function_definition) @f",
            "  inner: (type_identifier) @i",
        ]
    );
    let results = || vec!["<match>:1: \"x\"".to_string()];
    assert_eq!(show_results("a.c", results(), false, true), vec!["<match>:1: \"x\""]);
    assert_eq!(show_results("a.c", results(), true, true), vec!["a.c:<match>:1: \"x\""]);
    assert_eq!(show_results("a.c", vec![], false, true), vec!["(no matches)"]);
    assert!(show_results("a.c", vec![], true, true).is_empty());
    assert!(show_results("a.c", vec![], false, false).is_empty());
}

#[test]
fn parse_errors() {
    for (query, message) in [
        ("function#", "expected name match after #"),
        ("(function", "expected )"),
        ("(function @)", "expected capture name after @"),
        ("function.", "expected field name after ."),
        ("function.body", "expected ( after field name"),
        ("function.body(id", "expected ) to close field access"),
        ("(&function#malloc @f).params(var#ARRAY_SIZE @v @w)", "expected ) to close field access"),
        ("function)", "unexpected input at position 1"),
    ] {
        assert_eq!(parse(query).unwrap_err(), message, "{:?}", query);
    }
}

#[test]
fn combinators_with_and_without_white_space() {
    for (text, combinator) in [
        ("a b", Combinator::Descendant),
        ("a  \tb", Combinator::Descendant),
        ("a > b", Combinator::Child),
        ("a>b", Combinator::Child),
        ("a >b", Combinator::Child),
        ("a> b", Combinator::Child),
        ("a + b", Combinator::Adjacent),
        ("a+b", Combinator::Adjacent),
        ("a ~ b", Combinator::Sibling),
        ("a~b", Combinator::Sibling),
    ] {
        let query = parse(text).unwrap();
        assert_eq!(query.tail.len(), 1, "{:?}", text);
        assert_eq!(query.tail[0].0, combinator, "{:?}", text);
    }
    assert_eq!(parse(" a > b ~ c ").unwrap().tail.len(), 2);
}

#[test]
fn atoms_are_read_back() {
    for (sigil, node_type, name) in [
        ("*", "function", "#main"),
        ("&", "function", "#\"a b\""),
        ("", "id", "#/a|b/"),
        ("", "", "#x"),
        ("*", "arrow_function", ""),
        ("", "_x9", ""),
    ] {
        let text = format!("{}{}{}", sigil, node_type, name);
        let query = parse(&text).unwrap();
        assert!(query.tail.is_empty() && query.head.fields.is_empty(), "{}", text);
        let atom = match query.head.node {
            SelectorNode::Bare(atom) => atom,
            _ => panic!("{}", text),
        };
        assert_eq!(atom.sigil.is_some(), !sigil.is_empty(), "{}", text);
        assert_eq!(atom.node_type.unwrap_or_default(), node_type, "{}", text);
        assert_eq!(atom.name_match.is_some(), !name.is_empty(), "{}", text);
    }
    assert_eq!(parse("id#sizeof").unwrap(), parse("id#\"sizeof\"").unwrap());
}

#[test]
fn languages_by_name_and_extension() {
    for (name, full) in [
        ("c", "c"), ("cpp", "cpp"), ("c++", "cpp"), ("javascript", "javascript"),
        ("js", "javascript"), ("python", "python"), ("py", "python"), ("rust", "rust"),
        ("rs", "rust"), ("go", "go"),
    ] {
        assert_eq!(lang_for_name_canonical(name), Some(full));
        assert!(for_name(name).is_some());
        for ext in extensions_for_name(name) {
            assert!(all_known_extensions().contains(ext), "{}", ext);
            if *ext != "h" {
                assert_eq!(lang_for_extension(ext), Some(full));
            }
        }
    }
    assert_eq!(lang_for_name_canonical("C"), None);
    assert!(for_name("cobol").is_none());
    assert!(extensions_for_name("cobol").is_empty());
    assert_eq!(lang_for_extension("h"), Some("c"));
    assert_eq!(lang_for_extension(""), None);
    assert_eq!(all_known_extensions().len(), 14);
}

#[test]
fn the_vocabulary_is_the_same_in_all_languages() {
    for name in ["c", "cpp", "javascript", "python", "rust", "go"] {
        let lang = for_name(name).unwrap();
        for t in [
            "function", "class", "module", "id", "var", "param", "type", "import", "literal",
            "block", "if", "for", "while", "switch", "op", "call",
        ] {
            assert!(lang.resolve(t, None).is_some(), "{} {}", name, t);
        }
        assert!(lang.resolve("identifier", None).is_none());
        assert_eq!(lang.ts_language() == Grammar::Go, name == "go");
    }
}

#[test]
fn every_pattern_of_the_vocabulary_is_one_of_its_grammar() {
    for name in ["c", "cpp", "python", "rust", "go"] {
        let lang = for_name(name).unwrap();
        for t in [
            "function", "*function", "&function", "class", "module", "id", "var", "param", "type",
            "import", "literal", "block", "if", "for", "while", "switch", "op", "call",
        ] {
            let c = compiled(t, name);
            assert!(run(&c, lang.as_ref(), b"", false).is_ok(), "{} {}", name, t);
        }
    }
}

#[test]
fn combinators_of_node_names() {
    assert_eq!(
        compiled_text("call_expression > identifier", "c"),
        "(call_expression (identifier)) @_root0"
    );
    match compiled("call_expression identifier", "c") {
        CompiledQuery::Searched { pattern, searches } => {
            assert_eq!(pattern, "(call_expression) @_root2 @_in0");
            assert_eq!(searches.len(), 1);
            assert_eq!(searches[0].capture, "_in0");
            assert_eq!(searches[0].pattern, "(identifier) @_root1");
        }
        other => panic!("{:?}", other),
    }
    assert_eq!(compiled_text("comment + declaration", "c"), "((comment) @_root0 . (declaration))");
    assert_eq!(compiled_text("comment ~ declaration", "c"), "((comment) @_root0 (declaration))");
    assert_eq!(
        compiled_text("a + b ~ (c#x @c)", "c"),
        "((a) @_root0 . (b) (c) @c (#eq? @c \"x\"))"
    );
}

#[test]
fn siblings_are_found_by_their_order() {
    let js = "// note\nfunction a() {}\nlet x = 1;\nfunction b() {}\n";
    assert_eq!(
        search("(comment @c) + (function_declaration @f)", "javascript", js),
        vec!["@c:1: \"// note\", @f:2: \"function a() {}\""]
    );
    assert_eq!(
        search("(comment @c) ~ (function_declaration @f)", "javascript", js),
        vec![
            "@c:1: \"// note\", @f:2: \"function a() {}\"",
            "@c:1: \"// note\", @f:4: \"function b() {}\"",
        ]
    );
    assert_eq!(
        search("comment+lexical_declaration", "javascript", js),
        Vec::<String>::new()
    );
    assert_eq!(
        search("(function_declaration @f) + (lexical_declaration @l)", "javascript", js),
        vec!["@f:2: \"function a() {}\", @l:3: \"let x = 1;\""]
    );
    assert!(search("lexical_declaration ~ comment", "javascript", js).is_empty());
}

#[test]
fn siblings_of_known_types() {
    let py = "def a():\n    pass\ndef b():\n    pass\nx = 1\ndef c():\n    pass\n";
    assert_eq!(
        search("(*function#a @f) + (*function @g)", "python", py),
        vec!["@f:1: \"def a():\", @g:3: \"def b():\""]
    );
    assert_eq!(
        search("(*function#/b|c/ @f) ~ (*function#c @g)", "python", py),
        vec!["@f:3: \"def b():\", @g:6: \"def c():\""]
    );
}

#[test]
fn siblings_among_the_arguments() {
    let c = "void m(void) {\n  f(a, b);\n  f(a, z, b);\n  f(b, a);\n}\n";
    assert_eq!(
        search("(&function#f @c).params((identifier#a @x) + (identifier#b @y))", "c", c),
        vec!["@c:2: \"f(a, b)\", @x:2: \"a\", @y:2: \"b\""]
    );
    assert_eq!(
        search("(&function#f @c).params((identifier#a @x) ~ (identifier#b @y))", "c", c).len(),
        2
    );
}

#[test]
fn descendants_are_found_at_any_depth() {
    let c = "void f(void) {\n  a;\n  if (1) { g(h(b)); }\n}\nint z;\n";
    assert_eq!(
        search("(function_definition @f) (identifier#/^[abz]$/ @x)", "c", c),
        vec![
            "@f:1: \"void f(void) {\", @x:2: \"a\"",
            "@f:1: \"void f(void) {\", @x:3: \"b\"",
        ]
    );
    // a child is inside, too
    assert_eq!(
        search("(call_expression#x @c) (identifier @x)", "c", "int y = 1;").len(),
        0
    );
    assert_eq!(
        search("(argument_list @l) (identifier#b @x)", "c", c),
        vec!["@l:3: \"(h(b))\", @x:3: \"b\"", "@l:3: \"(b)\", @x:3: \"b\""]
    );
    // nothing is inside itself
    assert_eq!(
        search("(call_expression @a) (call_expression @b)", "c", c),
        vec!["@a:3: \"g(h(b))\", @b:3: \"h(b)\""]
    );
    assert_eq!(
        search("function_definition identifier#b", "c", c),
        vec!["<match>:1: \"void f(void) {\""]
    );
    assert!(search("function_definition identifier#z", "c", c).is_empty());
}

#[test]
fn descendants_in_groups_and_chains() {
    let c = "void f(void) {\n  if (1) { g(h(b)); }\n}\nvoid k(void) { b; }\n";
    // b inside a call inside a function
    assert_eq!(
        search("(function_definition @f) ((call_expression @c) (identifier#b @x))", "c", c),
        vec![
            "@f:1: \"void f(void) {\", @c:2: \"g(h(b))\", @x:2: \"b\"",
            "@f:1: \"void f(void) {\", @c:2: \"h(b)\", @x:2: \"b\"",
        ]
    );
    assert_eq!(
        search("(function_definition call_expression @f)", "c", c),
        vec!["@f:1: \"void f(void) {\""]
    );
    assert_eq!(
        search("translation_unit > (function_definition call_expression @f)", "c", c).len(),
        1
    );
    assert_eq!(
        search("(function_definition @f) if_statement identifier#b", "c", c),
        vec!["@f:1: \"void f(void) {\""]
    );
}

#[test]
fn a_body_is_searched_at_any_depth() {
    let c = "void f(void) {\n  if (1) { g(h(b)); }\n}\nvoid k(void) { b; }\nvoid e(void) {}\n";
    assert_eq!(search("(*function @f).body((id#b @x))", "c", c).len(), 2);
    // also where the function is a part of something else
    assert_eq!(
        search("translation_unit > (*function @f).body((id#b @x))", "c", c),
        vec![
            "@f:1: \"void f(void) {\", @x:2: \"b\"",
            "@f:4: \"void k(void) { b; }\", @x:4: \"b\"",
        ]
    );
    // the body itself, whatever is in it
    assert_eq!(search("(*function @f).body()", "c", c).len(), 3);
}

#[test]
fn parts_that_a_language_lacks_match_nothing() {
    for query in [
        "(*function @f).body(class)",
        "(*function @f).params(class)",
        "*function class",
        "*function > class",
        "*function + class",
        "*function ~ class",
        "class *function",
        "(*function (class))",
        "(*function @f).body(id (class @c))",
    ] {
        assert!(compiled(query, "c").is_empty(), "{}", query);
        assert!(search(query, "c", C).is_empty(), "{}", query);
    }
}

#[test]
fn accesses_beside_a_scope_are_kept() {
    let rust = "fn f(n: u8) { x; }\nfn g(m: u8) { x; }\nfn h(n: u8) { y; }\n";
    let params = ".params((parameter > identifier#n))";
    assert_eq!(
        search(&format!("(*function @f){}.body(id#x)", params), "rust", rust),
        vec!["@f:1: \"fn f(n: u8) { x; }\""]
    );
    assert_eq!(
        search(&format!("(*function @f).body(id#x){}", params), "rust", rust),
        vec!["@f:1: \"fn f(n: u8) { x; }\""]
    );
    match compiled("(*function @f).params(id#n).body(id#x)", "rust") {
        CompiledQuery::Scoped { outer, scope_field, inner } => {
            assert_eq!(scope_field, "body");
            assert!(outer.contains("parameters:") && outer.contains("\"n\""), "{}", outer);
            assert!(inner.contains("\"x\""), "{}", inner);
        }
        other => panic!("{:?}", other),
    }
    let two = "fn f() { x; y; }\nfn g() { x; }\n";
    assert_eq!(
        search("(*function @f).body(id#x).body(id#y)", "rust", two),
        vec!["@f:1: \"fn f() { x; y; }\""]
    );
}

#[test]
fn names_are_escaped() {
    assert_eq!(
        compiled_text("(a#/\\d\"/ @x)", "c"),
        "((a) @x (#match? @x \"\\\\d\\\"\"))"
    );
    let c = "int a1 = 1; int d = 2; char *s = \"q\";\n";
    assert_eq!(search("identifier#/\\d/", "c", c), vec!["<match>:1: \"a1\""]);
    assert_eq!(search("string_literal#/\"q\"/", "c", c), vec!["<match>:1: \"\\\"q\\\"\""]);
}

#[test]
fn text_across_nodes_is_matched_on_the_field() {
    let c = "void m(void) {\n  p = malloc(SIZE << 2);\n  q = malloc(SIZE);\n  r = malloc(SIZE, 1 << 2);\n}\n";
    assert_eq!(
        search("(&function#malloc @f).params((identifier#SIZE @v) + #\"<< 2\")", "c", c),
        vec!["@f:4: \"malloc(SIZE, 1 << 2)\", @v:4: \"SIZE\""]
    );
    assert_eq!(search("(&function#malloc @f).params(#\"<< 2\")", "c", c).len(), 2);
    assert_eq!(
        search("(*function @f).body((id#q @x) + #\"<< 2\")", "c", c),
        vec!["@f:1: \"void m(void) {\", @x:3: \"q\""]
    );
    assert!(search("(*function @f).body((id#q @x) + #\"<< 3\")", "c", c).is_empty());
}

#[test]
fn captures_in_field_accesses() {
    let c = "void m(void) {\n  malloc(ARRAY_SIZE);\n  malloc(1);\n}\n";
    assert_eq!(
        search("(&function#malloc @f).params(identifier#ARRAY_SIZE @v)", "c", c),
        vec!["@f:2: \"malloc(ARRAY_SIZE)\", @v:2: \"ARRAY_SIZE\""]
    );
    let with = parse("(&function#malloc @f).params((var#ARRAY_SIZE @v))").unwrap();
    let without = parse("(&function#malloc @f).params(var#ARRAY_SIZE @v)").unwrap();
    assert_eq!(with, without);
    assert_eq!(
        parse("a.params(b @)").unwrap_err(),
        "expected capture name after @"
    );
}

#[test]
fn captures_of_nested_groups() {
    let c = "int foo;\n";
    assert_eq!(search("((identifier#foo @x))", "c", c), vec!["@x:1: \"foo\""]);
    assert_eq!(
        search("((identifier#foo @x) @y)", "c", c),
        vec!["@y:1: \"foo\", @x:1: \"foo\""]
    );
}

#[test]
fn abstract_types_among_the_arguments() {
    let c = "void m(void) {\n  malloc(ARRAY_SIZE);\n  malloc(1);\n}\n";
    assert_eq!(
        search("(&function#malloc @f).params(var#ARRAY_SIZE @v)", "c", c),
        vec!["@f:2: \"malloc(ARRAY_SIZE)\", @v:2: \"ARRAY_SIZE\""]
    );
}

#[test]
fn truth_values_are_literals() {
    for (lang_name, source, found) in [
        ("c", "bool a = true;\n", "true"),
        ("cpp", "bool a = false;\n", "false"),
        ("go", "package p\n\nvar a = true\n", "true"),
        ("javascript", "a = false;\n", "false"),
        ("python", "a = True\n", "True"),
        ("rust", "const A: bool = true;\n", "true"),
    ] {
        let results = search("literal", lang_name, source);
        assert_eq!(results.len(), 1, "{}: {:?}", lang_name, results);
        assert!(results[0].ends_with(&format!("{:?}", found)), "{:?}", results);
    }
}

#[test]
fn concepts_that_a_language_lacks_are_no_errors() {
    assert!(search("type", "javascript", "let a = 1;\n").is_empty());
    assert!(search("switch", "python", "a = 1\n").is_empty());
}

#[test]
fn prototypes_of_methods_are_definitions() {
    let cpp = "class A {\n  int Find(int key);\n  int size;\n};\n";
    assert_eq!(search("*function#Find", "cpp", cpp), vec!["<match>:2: \"int Find(int key);\""]);
    assert_eq!(search("*function", "cpp", cpp), vec!["<match>:2: \"int Find(int key);\""]);
}

#[test]
fn scopes_are_those_of_the_outermost_node() {
    let rust = "fn f(n: u8) { x; }\nfn g(m: u8) { y; }\n";
    assert_eq!(
        search("*function.params((parameter @p)).body((id#x @x))", "rust", rust),
        vec!["@p:1: \"n: u8\", @x:1: \"x\""]
    );
    assert_eq!(
        search("(*function > (parameters @p)).body((id#y @y))", "rust", rust),
        vec!["@p:2: \"(m: u8)\", @y:2: \"y\""]
    );
}

fn run_text(compiled: CompiledQuery, lang_name: &str, source: &str) -> Result<Vec<String>, String> {
    run(&compiled, for_name(lang_name).unwrap().as_ref(), source.as_bytes(), false)
}

#[test]
fn comments_in_patterns_are_comments() {
    let c = "int foo;\n";
    let text = "(identifier) @x\n;; inside @x\n(no_such_node) @y".to_string();
    assert!(run_text(CompiledQuery::Simple(text), "c", c).unwrap_err().starts_with("query error: "));
    let text = "(identifier) @x\n;; inside @x\n".to_string();
    assert_eq!(run_text(CompiledQuery::Simple(text), "c", c).unwrap(), vec!["@x:1: \"foo\""]);
}

#[test]
fn an_alternative_that_the_grammar_refuses_is_an_error() {
    let c = "int foo;\n";
    let text = "[(identifier) @x\n (no_such_node) @x]".to_string();
    assert!(run_text(CompiledQuery::Simple(text), "c", c).unwrap_err().starts_with("query error: "));
    let searched = CompiledQuery::Searched {
        pattern: "(identifier) @x".to_string(),
        searches: vec![Search { capture: "x".to_string(), pattern: "(no_such_node)".to_string() }],
    };
    assert!(run_text(searched, "c", c).unwrap_err().starts_with("query error: "));
}

#[test]
fn a_scope_is_that_of_the_first_capture() {
    let c = "void f(void) { if (1) { a; } b; }\n";
    let scoped = |outer: &str| CompiledQuery::Scoped {
        outer: outer.to_string(),
        scope_field: "consequence".to_string(),
        inner: "(identifier) @x".to_string(),
    };
    // the first capture that is shown, whatever is in front of it
    assert_eq!(
        run_text(scoped("(compound_statement (if_statement) @i) @_all"), "c", c).unwrap(),
        vec!["@i:1: \"if (1) { a; }\", @x:1: \"a\""]
    );
    // else the whole match
    assert_eq!(
        run_text(scoped("(compound_statement (if_statement) @_root1) @_all"), "c", c).unwrap(),
        vec!["@x:1: \"a\""]
    );
    // else the first one
    assert_eq!(
        run_text(scoped("(function_definition (compound_statement (if_statement) @_i) @_all)"), "c", c)
            .unwrap(),
        vec!["@x:1: \"a\"", "@x:1: \"b\""]
    );
}

#[test]
fn searches_beside_scopes() {
    let c = "void f(void) { if (1) { g(a); } }\nvoid h(void) { g(a); }\n";
    let query = "((*function @f) if_statement).body((call_expression @c) (identifier#a @x))";
    match compiled(query, "c") {
        CompiledQuery::ScopedSearch { outer_searches, scope_field, inner_searches, .. } => {
            assert_eq!(scope_field, "body");
            assert_eq!(outer_searches.len(), 1);
            assert_eq!(inner_searches.len(), 1);
        }
        other => panic!("{:?}", other),
    }
    assert_eq!(
        search(query, "c", c),
        vec!["@f:1: \"void f(void) { if (1) { g(a); } }\", @c:1: \"g(a)\", @x:1: \"a\""]
    );
    assert_eq!(
        show_query("c", &compiled("(a @x) (b @y)", "c")),
        vec!["=== Compiled S-expression (c) ===", "(a) @x @_in0", "  inside @_in0: (b) @y"]
    );
    assert_eq!(
        show_query("c", &compiled("((a @x) b).body((c @y))", "c")),
        vec![
            "=== Compiled S-expression (c) ===",
            "[scoped two-phase query on field 'body']",
            "  outer: (a) @x @_in0",
            "  inside @_in0: (b) @_root1",
            "  inner: (c) @y",
        ]
    );
}

fn fragment(node: &str) -> Fragment {
    Fragment {
        node_body: node.to_string(),
        marks: String::new(),
        siblings: String::new(),
        predicates: vec![],
        inside: vec![],
        deep_captures: false,
        outer_capture: Some("x".to_string()),
        pending_name_match: None,
        params_field: None,
        params_container: None,
        params_needs_bridge: false,
        body_field: None,
        body_container: None,
    }
}

#[test]
fn repeated_fragments_make_no_difference() {
    let mut ids = 0;
    assert_eq!(emit_alternation(vec![], &mut ids), "");
    assert_eq!(emit_alternation(vec![fragment("a"), fragment("a")], &mut ids), "(a) @x");
    assert_eq!(
        emit_alternation(vec![fragment("a"), fragment("b"), fragment("a")], &mut ids),
        "[(a) @x\n (b) @x]"
    );
    assert_eq!(ids, 0);
}

#[test]
fn each_search_pairs_with_the_others() {
    let c = "int f(void) { g(1); return h(); }\n";
    let query = "(function_definition @f) (call_expression @c) (number_literal @n)";
    let f = "@f:1: \"int f(void) { g(1); return h(); }\"";
    assert_eq!(
        search(query, "c", c),
        vec![
            format!("{}, @c:1: \"g(1)\", @n:1: \"1\"", f),
            format!("{}, @c:1: \"h()\", @n:1: \"1\"", f),
        ]
    );
    assert!(search(query, "c", "int f(void) { return h(); }\n").is_empty());
}
