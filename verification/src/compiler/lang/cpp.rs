//! C++.

use vstd::prelude::*;
use crate::compiler::lang;
use crate::compiler::lang::{
    Lang, Table, TsVariant, VariantV, call, call_through, container, declared, field_identifier,
    five, identifier, named, none, one, pick, simple, three, two,
};
use crate::query::ast::Sigil;
use crate::syntax::Grammar;
use crate::text;
use crate::text::str_eq;

verus! {

pub struct CppLang;

/// The definitions of functions.
pub open spec fn def_table() -> Seq<VariantV> {
    seq![
        lang::declared_v(seq![("function_declarator"@, "declarator"@)]),
        lang::declared_v(
            seq![("function_declarator"@, "declarator"@), ("qualified_identifier"@, "name"@)],
        ),
        VariantV {
            name_path: seq![("function_declarator"@, "declarator"@)],
            always_constraint: Some(" declarator: (function_declarator)"@),
            ..lang::named_v("field_declaration"@, "declarator"@, "field_identifier"@)
        },
    ]
}

/// The calls of functions.
pub open spec fn call_table() -> Seq<VariantV> {
    seq![
        lang::call_v("call_expression"@, "identifier"@, "argument_list"@, Seq::empty()),
        lang::call_v("call_expression"@, "field_identifier"@, "argument_list"@, seq![("field_expression"@, "field"@)]),
    ]
}

/// The vocabulary: what each abstract type stands for.
pub open spec fn vocabulary(t: Seq<char>, sigil: Option<Sigil>) -> Option<Seq<VariantV>> {
    if t == "function"@ {
        Some(lang::picked(sigil, def_table(), call_table()))
    } else if t == "class"@ {
        Some(
            seq![
                lang::container_v("class_specifier"@, "type_identifier"@, "body"@, Some("field_declaration_list"@)),
                lang::container_v("struct_specifier"@, "type_identifier"@, "body"@, Some("field_declaration_list"@)),
            ],
        )
    } else if t == "module"@ {
        Some(
            seq![
                lang::container_v("namespace_definition"@, "namespace_identifier"@, "body"@, Some("declaration_list"@)),
            ],
        )
    } else if t == "id"@ || t == "var"@ {
        Some(seq![lang::simple_v("identifier"@), lang::simple_v("field_identifier"@)])
    } else if t == "param"@ {
        Some(seq![lang::named_v("parameter_declaration"@, "declarator"@, "identifier"@)])
    } else if t == "type"@ {
        Some(seq![lang::simple_v("type_identifier"@)])
    } else if t == "import"@ {
        Some(seq![lang::simple_v("preproc_include"@)])
    } else if t == "literal"@ {
        Some(
            seq![
                lang::simple_v("number_literal"@),
                lang::simple_v("string_literal"@),
                lang::simple_v("char_literal"@),
                lang::simple_v("true"@),
                lang::simple_v("false"@),
            ],
        )
    } else if t == "block"@ {
        Some(seq![lang::simple_v("compound_statement"@)])
    } else if t == "if"@ {
        Some(seq![lang::simple_v("if_statement"@)])
    } else if t == "for"@ {
        Some(seq![lang::simple_v("for_statement"@)])
    } else if t == "while"@ {
        Some(seq![lang::simple_v("while_statement"@)])
    } else if t == "switch"@ {
        Some(seq![lang::simple_v("switch_statement"@)])
    } else if t == "op"@ {
        Some(seq![lang::simple_v("binary_expression"@)])
    } else if t == "call"@ {
        Some(Seq::empty())
    } else {
        None
    }
}

impl Lang for CppLang {
    open spec fn table(&self) -> Table {
        |t: Seq<char>, sigil: Option<Sigil>| vocabulary(t, sigil)
    }

    open spec fn grammar(&self) -> Grammar {
        Grammar::Cpp
    }

    fn resolve(&self, abstract_type: &str, sigil: Option<&Sigil>) -> (r: Option<Vec<TsVariant>>) {
        if str_eq(abstract_type, "function") {
            pick(sigil, def_variants(), call_variants())
        } else if str_eq(abstract_type, "class") {
            Some(two(
                container("class_specifier", "type_identifier", "body", Some("field_declaration_list")),
                container("struct_specifier", "type_identifier", "body", Some("field_declaration_list")),
            ))
        } else if str_eq(abstract_type, "module") {
            Some(one(
                container("namespace_definition", "namespace_identifier", "body", Some("declaration_list")),
            ))
        } else if str_eq(abstract_type, "id") || str_eq(abstract_type, "var") {
            Some(two(identifier(), field_identifier()))
        } else if str_eq(abstract_type, "param") {
            Some(one(named("parameter_declaration", "declarator", "identifier")))
        } else if str_eq(abstract_type, "type") {
            Some(one(simple("type_identifier")))
        } else if str_eq(abstract_type, "import") {
            Some(one(simple("preproc_include")))
        } else if str_eq(abstract_type, "literal") {
            Some(five(
                simple("number_literal"),
                simple("string_literal"),
                simple("char_literal"),
                simple("true"),
                simple("false"),
            ))
        } else if str_eq(abstract_type, "block") {
            Some(one(simple("compound_statement")))
        } else if str_eq(abstract_type, "if") {
            Some(one(simple("if_statement")))
        } else if str_eq(abstract_type, "for") {
            Some(one(simple("for_statement")))
        } else if str_eq(abstract_type, "while") {
            Some(one(simple("while_statement")))
        } else if str_eq(abstract_type, "switch") {
            Some(one(simple("switch_statement")))
        } else if str_eq(abstract_type, "op") {
            Some(one(simple("binary_expression")))
        } else if str_eq(abstract_type, "call") {
            Some(none())
        } else {
            None
        }
    }

    fn ts_language(&self) -> (r: Grammar) {
        Grammar::Cpp
    }
}

fn def_variants() -> (r: Vec<TsVariant>)
    ensures
        text::views(r@) == def_table(),
{
    let plain: &'static [(&'static str, &'static str)] = &[("function_declarator", "declarator")];
    assert(lang::path_view(plain@) =~= seq![("function_declarator"@, "declarator"@)]);
    let scoped: &'static [(&'static str, &'static str)] = &[
        ("function_declarator", "declarator"),
        ("qualified_identifier", "name"),
    ];
    assert(lang::path_view(scoped@) =~= seq![
        ("function_declarator"@, "declarator"@),
        ("qualified_identifier"@, "name"@),
    ]);
    three(
        declared(plain),
        declared(scoped),
        TsVariant {
            name_path: plain,
            always_constraint: Some(" declarator: (function_declarator)"),
            ..named("field_declaration", "declarator", "field_identifier")
        },
    )
}

fn call_variants() -> (r: Vec<TsVariant>)
    ensures
        text::views(r@) == call_table(),
{
    let path: &'static [(&'static str, &'static str)] = &[("field_expression", "field")];
    assert(lang::path_view(path@) =~= seq![("field_expression"@, "field"@)]);
    two(
        call("call_expression", "identifier", "argument_list"),
        call_through("call_expression", "field_identifier", "argument_list", path),
    )
}

} // verus!
