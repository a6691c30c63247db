//! Go.

use vstd::prelude::*;
use crate::compiler::lang;
use crate::compiler::lang::{
    Lang, Table, TsVariant, VariantV, call, call_through, container, definition, field_identifier,
    five, identifier, named, none, one, pick, simple, two, with_booleans,
};
use crate::query::ast::Sigil;
use crate::syntax::Grammar;
use crate::text;
use crate::text::str_eq;

verus! {

pub struct GoLang;

/// The definitions of functions.
pub open spec fn def_table() -> Seq<VariantV> {
    seq![
        lang::definition_v("function_declaration"@, Some("name"@), "identifier"@, "parameter_list"@, "block"@),
        lang::definition_v("method_declaration"@, Some("name"@), "field_identifier"@, "parameter_list"@, "block"@),
    ]
}

/// The calls of functions.
pub open spec fn call_table() -> Seq<VariantV> {
    seq![
        lang::call_v("call_expression"@, "identifier"@, "argument_list"@, Seq::empty()),
        lang::call_v("call_expression"@, "field_identifier"@, "argument_list"@, seq![("selector_expression"@, "field"@)]),
    ]
}

/// The vocabulary: what each abstract type stands for.
pub open spec fn vocabulary(t: Seq<char>, sigil: Option<Sigil>) -> Option<Seq<VariantV>> {
    if t == "function"@ {
        Some(lang::picked(sigil, def_table(), call_table()))
    } else if t == "class"@ {
        Some(seq![lang::container_v("type_spec"@, "type_identifier"@, "type"@, None)])
    } else if t == "id"@ {
        Some(seq![lang::simple_v("identifier"@), lang::simple_v("field_identifier"@)])
    } else if t == "var"@ {
        Some(seq![lang::named_v("var_spec"@, "name"@, "identifier"@)])
    } else if t == "param"@ {
        Some(seq![lang::named_v("parameter_declaration"@, "name"@, "identifier"@)])
    } else if t == "type"@ {
        Some(seq![lang::simple_v("type_identifier"@)])
    } else if t == "import"@ {
        Some(seq![lang::simple_v("import_declaration"@)])
    } else if t == "literal"@ {
        Some(
            lang::with_booleans_v(
                seq![
                    lang::simple_v("interpreted_string_literal"@),
                    lang::simple_v("raw_string_literal"@),
                    lang::simple_v("int_literal"@),
                    lang::simple_v("float_literal"@),
                    lang::simple_v("rune_literal"@),
                ],
            ),
        )
    } else if t == "block"@ {
        Some(seq![lang::simple_v("block"@)])
    } else if t == "if"@ {
        Some(seq![lang::simple_v("if_statement"@)])
    } else if t == "for"@ {
        Some(seq![lang::simple_v("for_statement"@)])
    } else if t == "switch"@ {
        Some(
            seq![
                lang::simple_v("expression_switch_statement"@),
                lang::simple_v("type_switch_statement"@),
            ],
        )
    } else if t == "call"@ || t == "module"@ || t == "while"@ || t == "op"@ {
        Some(Seq::empty())
    } else {
        None
    }
}

impl Lang for GoLang {
    open spec fn table(&self) -> Table {
        |t: Seq<char>, sigil: Option<Sigil>| vocabulary(t, sigil)
    }

    open spec fn grammar(&self) -> Grammar {
        Grammar::Go
    }

    fn resolve(&self, abstract_type: &str, sigil: Option<&Sigil>) -> (r: Option<Vec<TsVariant>>) {
        if str_eq(abstract_type, "function") {
            pick(sigil, def_variants(), call_variants())
        } else if str_eq(abstract_type, "class") {
            Some(one(container("type_spec", "type_identifier", "type", None)))
        } else if str_eq(abstract_type, "id") {
            Some(two(identifier(), field_identifier()))
        } else if str_eq(abstract_type, "var") {
            Some(one(named("var_spec", "name", "identifier")))
        } else if str_eq(abstract_type, "param") {
            Some(one(named("parameter_declaration", "name", "identifier")))
        } else if str_eq(abstract_type, "type") {
            Some(one(simple("type_identifier")))
        } else if str_eq(abstract_type, "import") {
            Some(one(simple("import_declaration")))
        } else if str_eq(abstract_type, "literal") {
            Some(with_booleans(five(
                simple("interpreted_string_literal"),
                simple("raw_string_literal"),
                simple("int_literal"),
                simple("float_literal"),
                simple("rune_literal"),
            )))
        } else if str_eq(abstract_type, "block") {
            Some(one(simple("block")))
        } else if str_eq(abstract_type, "if") {
            Some(one(simple("if_statement")))
        } else if str_eq(abstract_type, "for") {
            Some(one(simple("for_statement")))
        } else if str_eq(abstract_type, "switch") {
            Some(two(simple("expression_switch_statement"), simple("type_switch_statement")))
        } else if str_eq(abstract_type, "call")
            || str_eq(abstract_type, "module")
            || str_eq(abstract_type, "while")
            || str_eq(abstract_type, "op") {
            Some(none())
        } else {
            None
        }
    }

    fn ts_language(&self) -> (r: Grammar) {
        Grammar::Go
    }
}

fn def_variants() -> (r: Vec<TsVariant>)
    ensures
        text::views(r@) == def_table(),
{
    two(
        definition("function_declaration", Some("name"), "identifier", "parameter_list", "block"),
        definition("method_declaration", Some("name"), "field_identifier", "parameter_list", "block"),
    )
}

fn call_variants() -> (r: Vec<TsVariant>)
    ensures
        text::views(r@) == call_table(),
{
    let path: &'static [(&'static str, &'static str)] = &[("selector_expression", "field")];
    assert(lang::path_view(path@) =~= seq![("selector_expression"@, "field"@)]);
    two(
        call("call_expression", "identifier", "argument_list"),
        call_through("call_expression", "field_identifier", "argument_list", path),
    )
}

} // verus!
