//! Rust.

use vstd::prelude::*;
use crate::compiler::lang;
use crate::compiler::lang::{
    Lang, Table, TsVariant, VariantV, call, container, definition, five, identifier, named, none,
    one, pick, simple, three,
};
use crate::query::ast::Sigil;
use crate::syntax::Grammar;
use crate::text;
use crate::text::str_eq;

verus! {

pub struct RustLang;

/// The definitions of functions.
pub open spec fn def_table() -> Seq<VariantV> {
    seq![
        lang::definition_v("function_item"@, Some("name"@), "identifier"@, "parameters"@, "block"@),
    ]
}

/// The calls of functions.
pub open spec fn call_table() -> Seq<VariantV> {
    seq![
        lang::call_v("call_expression"@, "identifier"@, "arguments"@, Seq::empty()),
    ]
}

/// The vocabulary: what each abstract type stands for.
pub open spec fn vocabulary(t: Seq<char>, sigil: Option<Sigil>) -> Option<Seq<VariantV>> {
    if t == "function"@ {
        Some(lang::picked(sigil, def_table(), call_table()))
    } else if t == "class"@ {
        Some(
            seq![
                lang::container_v("struct_item"@, "type_identifier"@, "body"@, Some("field_declaration_list"@)),
                lang::container_v("enum_item"@, "type_identifier"@, "body"@, Some("enum_variant_list"@)),
                lang::container_v("trait_item"@, "type_identifier"@, "body"@, Some("declaration_list"@)),
            ],
        )
    } else if t == "module"@ {
        Some(
            seq![
                lang::container_v("mod_item"@, "identifier"@, "body"@, Some("declaration_list"@)),
            ],
        )
    } else if t == "id"@ {
        Some(seq![lang::simple_v("identifier"@)])
    } else if t == "var"@ {
        Some(seq![lang::named_v("let_declaration"@, "pattern"@, "identifier"@)])
    } else if t == "param"@ {
        Some(seq![lang::named_v("parameter"@, "pattern"@, "identifier"@)])
    } else if t == "type"@ {
        Some(seq![lang::simple_v("type_identifier"@)])
    } else if t == "import"@ {
        Some(seq![lang::simple_v("use_declaration"@)])
    } else if t == "literal"@ {
        Some(
            seq![
                lang::simple_v("integer_literal"@),
                lang::simple_v("float_literal"@),
                lang::simple_v("string_literal"@),
                lang::simple_v("boolean_literal"@),
                lang::simple_v("char_literal"@),
            ],
        )
    } else if t == "block"@ {
        Some(seq![lang::simple_v("block"@)])
    } else if t == "if"@ {
        Some(seq![lang::simple_v("if_expression"@)])
    } else if t == "for"@ {
        Some(seq![lang::simple_v("for_expression"@)])
    } else if t == "while"@ {
        Some(seq![lang::simple_v("while_expression"@)])
    } else if t == "switch"@ {
        Some(seq![lang::simple_v("match_expression"@)])
    } else if t == "call"@ || t == "op"@ {
        Some(Seq::empty())
    } else {
        None
    }
}

impl Lang for RustLang {
    open spec fn table(&self) -> Table {
        |t: Seq<char>, sigil: Option<Sigil>| vocabulary(t, sigil)
    }

    open spec fn grammar(&self) -> Grammar {
        Grammar::Rust
    }

    fn resolve(&self, abstract_type: &str, sigil: Option<&Sigil>) -> (r: Option<Vec<TsVariant>>) {
        if str_eq(abstract_type, "function") {
            pick(sigil, def_variants(), call_variants())
        } else if str_eq(abstract_type, "class") {
            Some(three(
                container("struct_item", "type_identifier", "body", Some("field_declaration_list")),
                container("enum_item", "type_identifier", "body", Some("enum_variant_list")),
                container("trait_item", "type_identifier", "body", Some("declaration_list")),
            ))
        } else if str_eq(abstract_type, "module") {
            Some(one(container("mod_item", "identifier", "body", Some("declaration_list"))))
        } else if str_eq(abstract_type, "id") {
            Some(one(identifier()))
        } else if str_eq(abstract_type, "var") {
            Some(one(named("let_declaration", "pattern", "identifier")))
        } else if str_eq(abstract_type, "param") {
            Some(one(named("parameter", "pattern", "identifier")))
        } else if str_eq(abstract_type, "type") {
            Some(one(simple("type_identifier")))
        } else if str_eq(abstract_type, "import") {
            Some(one(simple("use_declaration")))
        } else if str_eq(abstract_type, "literal") {
            Some(five(
                simple("integer_literal"),
                simple("float_literal"),
                simple("string_literal"),
                simple("boolean_literal"),
                simple("char_literal"),
            ))
        } else if str_eq(abstract_type, "block") {
            Some(one(simple("block")))
        } else if str_eq(abstract_type, "if") {
            Some(one(simple("if_expression")))
        } else if str_eq(abstract_type, "for") {
            Some(one(simple("for_expression")))
        } else if str_eq(abstract_type, "while") {
            Some(one(simple("while_expression")))
        } else if str_eq(abstract_type, "switch") {
            Some(one(simple("match_expression")))
        } else if str_eq(abstract_type, "call") || str_eq(abstract_type, "op") {
            Some(none())
        } else {
            None
        }
    }

    fn ts_language(&self) -> (r: Grammar) {
        Grammar::Rust
    }
}

fn def_variants() -> (r: Vec<TsVariant>)
    ensures
        text::views(r@) == def_table(),
{
    one(definition("function_item", Some("name"), "identifier", "parameters", "block"))
}

fn call_variants() -> (r: Vec<TsVariant>)
    ensures
        text::views(r@) == call_table(),
{
    one(call("call_expression", "identifier", "arguments"))
}

} // verus!
