//! What the vocabularies say of the nodes of a syntax tree: which nodes a type stands for, and
//! which node below one of them is its name.

use vstd::prelude::*;
use crate::compiler::lang;
use crate::compiler::lang::VariantV;
use crate::query::ast::Sigil;
use crate::syntax;
use crate::syntax::{Grammar, NodeV};

verus! {

broadcast use vstd::string::group_string_axioms;

/// The node at the end of a path of nodes and fields, if it is of a kind.
pub open spec fn follow(
    start: Option<NodeV>,
    path: Seq<(Seq<char>, Seq<char>)>,
    kind: Seq<char>,
) -> Option<NodeV>
    decreases path.len(),
{
    match start {
        None => None,
        Some(x) => if path.len() == 0 {
            if x.kind == kind {
                Some(x)
            } else {
                None
            }
        } else if x.kind == path[0].0 {
            follow(syntax::field_child(x, path[0].1), path.drop_first(), kind)
        } else {
            None
        },
    }
}

/// The node that a variant takes for the name of a node: the node itself, or what its name
/// field and its name path lead to.
pub open spec fn named_node(v: VariantV, n: NodeV) -> Option<NodeV> {
    if n.kind != v.node {
        None
    } else {
        match v.name_field {
            Some(field) => follow(syntax::field_child(n, field), v.name_path, v.name_node),
            None => if v.name_node == v.node {
                Some(n)
            } else {
                None
            },
        }
    }
}

/// Whether one of the variants takes `x` for the name of `n`.
pub open spec fn is_named(vs: Seq<VariantV>, n: NodeV, x: NodeV) -> bool {
    exists|i: int| 0 <= i < vs.len() && named_node(#[trigger] vs[i], n) == Some(x)
}

/// A node, if it is of a kind.
pub open spec fn of_kind(n: Option<NodeV>, kind: Seq<char>) -> Option<NodeV> {
    match n {
        Some(x) => if x.kind == kind {
            Some(x)
        } else {
            None
        },
        None => None,
    }
}

/// The child in a field of a node, if both are of given kinds.
pub open spec fn child_of(n: Option<NodeV>, kind: Seq<char>, field: Seq<char>) -> Option<NodeV> {
    match of_kind(n, kind) {
        Some(x) => syntax::field_child(x, field),
        None => None,
    }
}

/// Either of two, the first before the second.
pub open spec fn either(a: Option<NodeV>, b: Option<NodeV>) -> Option<NodeV> {
    if a is Some {
        a
    } else {
        b
    }
}

/// The kind of the nodes that are calls.
pub open spec fn call_kind(g: Grammar) -> Seq<char> {
    if g == Grammar::Python {
        "call"@
    } else {
        "call_expression"@
    }
}

/// The last segment of what is called: a bare name itself, and of a call through an object or a
/// package what stands behind the dot, never what stands before it.
pub open spec fn last_segment(g: Grammar, callee: Option<NodeV>) -> Option<NodeV> {
    let behind_dot = match g {
        Grammar::JavaScript => of_kind(
            child_of(callee, "member_expression"@, "property"@),
            "property_identifier"@,
        ),
        Grammar::Go => of_kind(
            child_of(callee, "selector_expression"@, "field"@),
            "field_identifier"@,
        ),
        Grammar::Cpp => of_kind(
            child_of(callee, "field_expression"@, "field"@),
            "field_identifier"@,
        ),
        _ => None,
    };
    either(of_kind(callee, "identifier"@), behind_dot)
}

/// The name that a function definition gives: what its name field holds, and in the C family
/// the name at the end of its declarator.
pub open spec fn defined_name(g: Grammar, n: NodeV) -> Option<NodeV> {
    let me = Some(n);
    match g {
        Grammar::C => of_kind(
            child_of(
                child_of(me, "function_definition"@, "declarator"@),
                "function_declarator"@,
                "declarator"@,
            ),
            "identifier"@,
        ),
        Grammar::Cpp => {
            let declared = child_of(
                child_of(me, "function_definition"@, "declarator"@),
                "function_declarator"@,
                "declarator"@,
            );
            let announced = child_of(
                child_of(me, "field_declaration"@, "declarator"@),
                "function_declarator"@,
                "declarator"@,
            );
            either(
                either(
                    of_kind(declared, "identifier"@),
                    of_kind(child_of(declared, "qualified_identifier"@, "name"@), "identifier"@),
                ),
                of_kind(announced, "field_identifier"@),
            )
        },
        Grammar::JavaScript => either(
            either(
                of_kind(child_of(me, "function_declaration"@, "name"@), "identifier"@),
                of_kind(child_of(me, "function_expression"@, "name"@), "identifier"@),
            ),
            of_kind(child_of(me, "method_definition"@, "name"@), "property_identifier"@),
        ),
        Grammar::Python => of_kind(
            child_of(me, "function_definition"@, "name"@),
            "identifier"@,
        ),
        Grammar::Rust => of_kind(child_of(me, "function_item"@, "name"@), "identifier"@),
        Grammar::Go => either(
            of_kind(child_of(me, "function_declaration"@, "name"@), "identifier"@),
            of_kind(child_of(me, "method_declaration"@, "name"@), "field_identifier"@),
        ),
    }
}

proof fn lemma_literals()
    ensures
        "identifier"@ != "member_expression"@,
        "identifier"@ != "selector_expression"@,
        "identifier"@ != "field_expression"@,
        "identifier"@ != "qualified_identifier"@,
        "function_definition"@ != "field_declaration"@,
        "function_declaration"@ != "function_expression"@,
        "function_declaration"@ != "method_definition"@,
        "function_expression"@ != "method_definition"@,
        "function_declaration"@ != "method_declaration"@,
        "identifier"@ != "arrow_function"@,
{
    reveal_strlit("identifier");
    reveal_strlit("member_expression");
    reveal_strlit("selector_expression");
    reveal_strlit("field_expression");
    reveal_strlit("qualified_identifier");
    reveal_strlit("function_definition");
    reveal_strlit("field_declaration");
    reveal_strlit("function_declaration");
    reveal_strlit("function_expression");
    reveal_strlit("method_definition");
    reveal_strlit("method_declaration");
    reveal_strlit("arrow_function");
    assert("identifier"@[0] == 'i' && "member_expression"@[0] == 'm' && "selector_expression"@[0]
        == 's' && "field_expression"@[0] == 'f' && "qualified_identifier"@[0] == 'q'
        && "arrow_function"@[0] == 'a');
    assert("function_definition"@[1] == 'u' && "field_declaration"@[1] == 'i');
    assert("function_declaration"@.len() == 20 && "function_expression"@.len() == 19);
    assert("method_definition"@[0] == 'm' && "method_declaration"@[0] == 'm'
        && "function_declaration"@[0] == 'f' && "function_expression"@[0] == 'f');
}

proof fn lemma_follow(x: Option<NodeV>, path: Seq<(Seq<char>, Seq<char>)>, kind: Seq<char>)
    ensures
        path.len() == 0 ==> follow(x, path, kind) == of_kind(x, kind),
        path.len() == 1 ==> follow(x, path, kind) == of_kind(
            child_of(x, path[0].0, path[0].1),
            kind,
        ),
        path.len() == 2 ==> follow(x, path, kind) == of_kind(
            child_of(child_of(x, path[0].0, path[0].1), path[1].0, path[1].1),
            kind,
        ),
{
    reveal_with_fuel(follow, 3);
    if path.len() == 2 {
        assert(path.drop_first()[0] == path[1]);
    }
}

/// A call is known by the last segment of what is called: that is the name of a call, and there
/// is no other one, so that `console.log(..)` is a call of `log`, and not of `console`.
pub proof fn law_call_is_named_by_last_segment(g: Grammar, n: NodeV, x: NodeV)
    ensures
        is_named((lang::table_of(g))("function"@, Some(Sigil::Ref))->Some_0, n, x) <==> n.kind
            == call_kind(g) && last_segment(g, syntax::field_child(n, "function"@)) == Some(x),
{
    lemma_literals();
    let vs = (lang::table_of(g))("function"@, Some(Sigil::Ref))->Some_0;
    let callee = syntax::field_child(n, "function"@);
    assert(vs.len() == 1 || vs.len() == 2);
    lemma_follow(callee, vs[0].name_path, vs[0].name_node);
    if vs.len() == 2 {
        lemma_follow(callee, vs[1].name_path, vs[1].name_node);
    }
    if n.kind == call_kind(g) && last_segment(g, callee) == Some(x) {
        if of_kind(callee, "identifier"@) is Some {
            assert(named_node(vs[0], n) == Some(x));
        } else {
            assert(named_node(vs[1], n) == Some(x));
        }
    }
}

/// A function is found by the name that its definition gives it, and by no other one.
pub proof fn law_function_is_named_by_definition(g: Grammar, n: NodeV, x: NodeV)
    ensures
        is_named((lang::table_of(g))("function"@, Some(Sigil::Def))->Some_0, n, x)
            <==> defined_name(g, n) == Some(x),
{
    lemma_literals();
    let vs = (lang::table_of(g))("function"@, Some(Sigil::Def))->Some_0;
    assert(1 <= vs.len() <= 4);
    let at = |i: int| match vs[i].name_field {
        Some(f) => syntax::field_child(n, f),
        None => None,
    };
    lemma_follow(at(0), vs[0].name_path, vs[0].name_node);
    if vs.len() > 1 {
        lemma_follow(at(1), vs[1].name_path, vs[1].name_node);
    }
    if vs.len() > 2 {
        lemma_follow(at(2), vs[2].name_path, vs[2].name_node);
    }
    if vs.len() > 3 {
        lemma_follow(at(3), vs[3].name_path, vs[3].name_node);
    }
    if defined_name(g, n) == Some(x) {
        assert(named_node(vs[0], n) == Some(x) || (vs.len() > 1 && named_node(vs[1], n) == Some(
            x,
        )) || (vs.len() > 2 && named_node(vs[2], n) == Some(x)) || (vs.len() > 3 && named_node(
            vs[3],
            n,
        ) == Some(x)));
    }
}

/// The parts of functions are found in their fields: the parameters of a definition in
/// `parameters`, its body in `body`, and the arguments of a call in `arguments`. (The
/// announcement of a method in a C++ class has neither.)
pub proof fn law_parts_of_functions(g: Grammar, v: VariantV)
    ensures
        (lang::table_of(g))("function"@, Some(Sigil::Ref))->Some_0.contains(v) ==> v.params_field
            == Some("arguments"@) && v.body_field is None && !v.params_needs_bridge,
        (lang::table_of(g))("function"@, Some(Sigil::Def))->Some_0.contains(v) && v.node
            != "field_declaration"@ ==> {
            &&& v.params_field == Some("parameters"@)
            &&& v.body_field == Some("body"@)
            &&& v.params_needs_bridge <==> g == Grammar::C || g == Grammar::Cpp
        },
{
}

/// The kinds of nodes that a type other than `function` stands for in a language.
pub open spec fn kinds_of(g: Grammar, t: Seq<char>) -> Seq<Seq<char>> {
    let rust = g == Grammar::Rust;
    let cish = g == Grammar::C || g == Grammar::Cpp;
    if t == "if"@ {
        seq![if rust { "if_expression"@ } else { "if_statement"@ }]
    } else if t == "for"@ {
        seq![if rust { "for_expression"@ } else { "for_statement"@ }]
    } else if t == "while"@ {
        if g == Grammar::Go {
            Seq::empty()
        } else {
            seq![if rust { "while_expression"@ } else { "while_statement"@ }]
        }
    } else if t == "switch"@ {
        match g {
            Grammar::Python => Seq::empty(),
            Grammar::Rust => seq!["match_expression"@],
            Grammar::Go => seq!["expression_switch_statement"@, "type_switch_statement"@],
            _ => seq!["switch_statement"@],
        }
    } else if t == "block"@ {
        seq![
            if cish {
                "compound_statement"@
            } else if g == Grammar::JavaScript {
                "statement_block"@
            } else {
                "block"@
            },
        ]
    } else if t == "import"@ {
        seq![
            if cish {
                "preproc_include"@
            } else if rust {
                "use_declaration"@
            } else if g == Grammar::Go {
                "import_declaration"@
            } else {
                "import_statement"@
            },
        ]
    } else if t == "type"@ {
        if g == Grammar::Python || g == Grammar::JavaScript {
            Seq::empty()
        } else {
            seq!["type_identifier"@]
        }
    } else if t == "id"@ {
        if cish || g == Grammar::Go {
            seq!["identifier"@, "field_identifier"@]
        } else {
            seq!["identifier"@]
        }
    } else if t == "var"@ {
        match g {
            Grammar::Rust => seq!["let_declaration"@],
            Grammar::Go => seq!["var_spec"@],
            Grammar::Python | Grammar::JavaScript => seq!["identifier"@],
            _ => seq!["identifier"@, "field_identifier"@],
        }
    } else if t == "param"@ {
        match g {
            Grammar::Rust => seq!["parameter"@],
            Grammar::Python | Grammar::JavaScript => seq!["identifier"@],
            _ => seq!["parameter_declaration"@],
        }
    } else if t == "class"@ {
        match g {
            Grammar::C => Seq::empty(),
            Grammar::Cpp => seq!["class_specifier"@, "struct_specifier"@],
            Grammar::JavaScript => seq!["class_declaration"@],
            Grammar::Python => seq!["class_definition"@],
            Grammar::Rust => seq!["struct_item"@, "enum_item"@, "trait_item"@],
            Grammar::Go => seq!["type_spec"@],
        }
    } else if t == "module"@ {
        match g {
            Grammar::Cpp => seq!["namespace_definition"@],
            Grammar::Rust => seq!["mod_item"@],
            _ => Seq::empty(),
        }
    } else if t == "op"@ {
        if g == Grammar::Cpp || g == Grammar::JavaScript {
            seq!["binary_expression"@]
        } else {
            Seq::empty()
        }
    } else if t == "literal"@ {
        match g {
            Grammar::JavaScript => seq![
                "number"@,
                "string"@,
                "template_string"@,
                "true"@,
                "false"@,
            ],
            Grammar::Python => seq!["integer"@, "float"@, "string"@, "true"@, "false"@],
            Grammar::Rust => seq![
                "integer_literal"@,
                "float_literal"@,
                "string_literal"@,
                "boolean_literal"@,
                "char_literal"@,
            ],
            Grammar::Go => seq![
                "interpreted_string_literal"@,
                "raw_string_literal"@,
                "int_literal"@,
                "float_literal"@,
                "rune_literal"@,
                "true"@,
                "false"@,
            ],
            _ => seq![
                "number_literal"@,
                "string_literal"@,
                "char_literal"@,
                "true"@,
                "false"@,
            ],
        }
    } else {
        Seq::empty()
    }
}

/// The kinds of nodes of variants.
pub open spec fn kinds(vs: Seq<VariantV>) -> Seq<Seq<char>> {
    vs.map_values(|v: VariantV| v.node)
}

/// The name of a node that a type other than `function` stands for: what its name field holds,
/// where it declares something, or else the node itself.
pub open spec fn own_name(g: Grammar, t: Seq<char>, n: NodeV) -> Option<NodeV> {
    if t == "class"@ {
        of_kind(
            syntax::field_child(n, "name"@),
            if g == Grammar::JavaScript || g == Grammar::Python {
                "identifier"@
            } else {
                "type_identifier"@
            },
        )
    } else if t == "module"@ {
        of_kind(
            syntax::field_child(n, "name"@),
            if g == Grammar::Cpp {
                "namespace_identifier"@
            } else {
                "identifier"@
            },
        )
    } else if t == "var"@ && g == Grammar::Rust || t == "param"@ && g == Grammar::Rust {
        of_kind(syntax::field_child(n, "pattern"@), "identifier"@)
    } else if t == "var"@ && g == Grammar::Go || t == "param"@ && g == Grammar::Go {
        of_kind(syntax::field_child(n, "name"@), "identifier"@)
    } else if t == "param"@ && (g == Grammar::C || g == Grammar::Cpp) {
        of_kind(syntax::field_child(n, "declarator"@), "identifier"@)
    } else {
        Some(n)
    }
}

/// A node that a type other than `function` stands for is found by its own name. Only classes
/// and modules have bodies.
pub proof fn law_nodes_are_named(
    g: Grammar,
    t: Seq<char>,
    sigil: Option<Sigil>,
    v: VariantV,
    n: NodeV,
)
    requires
        lang::abstract_types().contains(t),
        t != "function"@,
        (lang::table_of(g))(t, sigil)->Some_0.contains(v),
        n.kind == v.node,
    ensures
        named_node(v, n) == own_name(g, t, n),
        v.params_field is None,
        v.body_field == (if t == "class"@ || t == "module"@ {
            Some(
                if g == Grammar::Go {
                    "type"@
                } else {
                    "body"@
                },
            )
        } else {
            None
        }),
{
    lang::law_vocabulary_is_fixed(g, t, sigil);
    lemma_types();
    let all = lang::abstract_types();
    assert(all[0] == "function"@ && all[1] == "class"@ && all[2] == "module"@ && all[3] == "id"@
        && all[4] == "var"@ && all[5] == "param"@ && all[6] == "type"@ && all[7] == "import"@
        && all[8] == "literal"@ && all[9] == "block"@ && all[10] == "if"@ && all[11] == "for"@
        && all[12] == "while"@ && all[13] == "switch"@ && all[14] == "op"@ && all[15] == "call"@);
    let field = match v.name_field {
        Some(f) => syntax::field_child(n, f),
        None => None,
    };
    lemma_follow(field, v.name_path, v.name_node);
}

/// Each type stands for the nodes of its kinds, whatever the sigil, and for no others.
pub proof fn law_types_stand_for_kinds(g: Grammar, t: Seq<char>, sigil: Option<Sigil>)
    requires
        lang::abstract_types().contains(t),
        t != "function"@,
    ensures
        (lang::table_of(g))(t, sigil) matches Some(vs) && kinds(vs) == kinds_of(g, t),
{
    lang::law_vocabulary_is_fixed(g, t, sigil);
    lemma_types();
    let vs = (lang::table_of(g))(t, sigil)->Some_0;
    assert(kinds(vs) =~= kinds_of(g, t));
}

proof fn lemma_types()
    ensures
        forall|i: int, j: int|
            0 <= i < j < lang::abstract_types().len() ==> lang::abstract_types()[i]
                != lang::abstract_types()[j],
{
    reveal_strlit("function");
    reveal_strlit("class");
    reveal_strlit("module");
    reveal_strlit("id");
    reveal_strlit("var");
    reveal_strlit("param");
    reveal_strlit("type");
    reveal_strlit("import");
    reveal_strlit("literal");
    reveal_strlit("block");
    reveal_strlit("if");
    reveal_strlit("for");
    reveal_strlit("while");
    reveal_strlit("switch");
    reveal_strlit("op");
    reveal_strlit("call");
    let all = lang::abstract_types();
    assert forall|i: int, j: int| 0 <= i < j < all.len() implies all[i] != all[j] by {
        assert(all[i].len() != all[j].len() || all[i][0] != all[j][0] || all[i][1] != all[j][1]);
    }
}

/// The extensions that the files of a language have.
pub open spec fn own_extensions(g: Grammar) -> Seq<Seq<char>> {
    match g {
        Grammar::Go => seq!["go"@],
        Grammar::Rust => seq!["rs"@],
        Grammar::Python => seq!["py"@],
        Grammar::JavaScript => seq!["js"@, "mjs"@, "cjs"@, "jsx"@],
        Grammar::Cpp => seq!["cpp"@, "cc"@, "cxx"@, "hpp"@, "hxx"@],
        Grammar::C => seq!["c"@, "h"@],
    }
}

/// A file with an extension of a language is in that language. Each language goes by its full
/// name, and is read with its own grammar.
pub proof fn law_languages(g: Grammar, i: int)
    requires
        0 <= i < own_extensions(g).len(),
    ensures
        lang::grammar_of_extension(own_extensions(g)[i]) == Some(g),
        lang::grammar_named(lang::canonical(g)) == Some(g),
        lang::canonical(Grammar::C) == "c"@,
        lang::canonical(Grammar::Cpp) == "cpp"@,
        lang::canonical(Grammar::JavaScript) == "javascript"@,
        lang::canonical(Grammar::Python) == "python"@,
        lang::canonical(Grammar::Rust) == "rust"@,
        lang::canonical(Grammar::Go) == "go"@,
        lang::grammar_named("js"@) == Some(Grammar::JavaScript),
        lang::grammar_named("py"@) == Some(Grammar::Python),
        lang::grammar_named("rs"@) == Some(Grammar::Rust),
        lang::grammar_named("c++"@) == Some(Grammar::Cpp),
{
    lang::law_canonical_name(g);
    reveal_strlit("c");
    reveal_strlit("h");
    reveal_strlit("cpp");
    reveal_strlit("cc");
    reveal_strlit("cxx");
    reveal_strlit("hpp");
    reveal_strlit("hxx");
    reveal_strlit("js");
    reveal_strlit("mjs");
    reveal_strlit("cjs");
    reveal_strlit("jsx");
    reveal_strlit("py");
    reveal_strlit("rs");
    reveal_strlit("go");
    reveal_strlit("c++");
    reveal_strlit("javascript");
    reveal_strlit("python");
    reveal_strlit("rust");
    let all = seq![
        "c"@, "h"@, "cpp"@, "cc"@, "cxx"@, "hpp"@, "hxx"@, "js"@, "mjs"@, "cjs"@, "jsx"@, "py"@,
        "rs"@, "go"@,
    ];
    assert forall|a: int, b: int| 0 <= a < b < all.len() implies all[a] != all[b] by {
        assert(all[a].len() != all[b].len() || all[a][0] != all[b][0] || all[a][1] != all[b][1]);
    }
    assert(all[0] == "c"@ && all[1] == "h"@ && all[2] == "cpp"@ && all[3] == "cc"@ && all[4]
        == "cxx"@ && all[5] == "hpp"@ && all[6] == "hxx"@ && all[7] == "js"@ && all[8] == "mjs"@
        && all[9] == "cjs"@ && all[10] == "jsx"@ && all[11] == "py"@ && all[12] == "rs"@ && all[13]
        == "go"@);
    assert("c++"@[1] == '+' && "cpp"@[1] == 'p' && "c++"@.len() == 3 && "c"@.len() == 1);
    assert("javascript"@.len() == 10 && "python"@.len() == 6 && "rust"@.len() == 4 && "js"@.len()
        == 2 && "py"@.len() == 2 && "rs"@.len() == 2);
}

} // verus!
