//! JavaScript.

use vstd::prelude::*;
use crate::compiler::lang;
use crate::compiler::lang::{
    Lang, Table, TsVariant, VariantV, call, call_through, container, definition, four, identifier,
    none, one, pick, simple, three, two, with_booleans,
};
use crate::query::ast::Sigil;
use crate::syntax::Grammar;
use crate::text;
use crate::text::str_eq;

verus! {

pub struct JsLang;

/// The definitions of functions.
pub open spec fn def_table() -> Seq<VariantV> {
    seq![
        lang::definition_v("function_declaration"@, Some("name"@), "identifier"@, "formal_parameters"@, "statement_block"@),
        lang::definition_v("function_expression"@, Some("name"@), "identifier"@, "formal_parameters"@, "statement_block"@),
        lang::definition_v("arrow_function"@, None, "identifier"@, "formal_parameters"@, "statement_block"@),
        lang::definition_v("method_definition"@, Some("name"@), "property_identifier"@, "formal_parameters"@, "statement_block"@),
    ]
}

/// The calls of functions.
pub open spec fn call_table() -> Seq<VariantV> {
    seq![
        lang::call_v("call_expression"@, "identifier"@, "arguments"@, Seq::empty()),
        lang::call_v("call_expression"@, "property_identifier"@, "arguments"@, seq![("member_expression"@, "property"@)]),
    ]
}

/// The vocabulary: what each abstract type stands for.
pub open spec fn vocabulary(t: Seq<char>, sigil: Option<Sigil>) -> Option<Seq<VariantV>> {
    if t == "function"@ {
        Some(lang::picked(sigil, def_table(), call_table()))
    } else if t == "class"@ {
        Some(
            seq![
                lang::container_v("class_declaration"@, "identifier"@, "body"@, Some("class_body"@)),
            ],
        )
    } else if t == "id"@ || t == "var"@ || t == "param"@ {
        Some(seq![lang::simple_v("identifier"@)])
    } else if t == "import"@ {
        Some(seq![lang::simple_v("import_statement"@)])
    } else if t == "literal"@ {
        Some(
            lang::with_booleans_v(
                seq![
                    lang::simple_v("number"@),
                    lang::simple_v("string"@),
                    lang::simple_v("template_string"@),
                ],
            ),
        )
    } else if t == "block"@ {
        Some(seq![lang::simple_v("statement_block"@)])
    } else if t == "if"@ {
        Some(seq![lang::simple_v("if_statement"@)])
    } else if t == "for"@ {
        Some(seq![lang::simple_v("for_statement"@)])
    } else if t == "while"@ {
        Some(seq![lang::simple_v("while_statement"@)])
    } else if t == "switch"@ {
        Some(seq![lang::simple_v("switch_statement"@)])
    } else if t == "op"@ {
        Some(seq![lang::simple_v("binary_expression"@)])
    } else if t == "call"@ || t == "module"@ || t == "type"@ {
        Some(Seq::empty())
    } else {
        None
    }
}

impl Lang for JsLang {
    open spec fn table(&self) -> Table {
        |t: Seq<char>, sigil: Option<Sigil>| vocabulary(t, sigil)
    }

    open spec fn grammar(&self) -> Grammar {
        Grammar::JavaScript
    }

    fn resolve(&self, abstract_type: &str, sigil: Option<&Sigil>) -> (r: Option<Vec<TsVariant>>) {
        if str_eq(abstract_type, "function") {
            pick(sigil, def_variants(), call_variants())
        } else if str_eq(abstract_type, "class") {
            Some(one(container("class_declaration", "identifier", "body", Some("class_body"))))
        } else if str_eq(abstract_type, "id")
            || str_eq(abstract_type, "var")
            || str_eq(abstract_type, "param") {
            Some(one(identifier()))
        } else if str_eq(abstract_type, "import") {
            Some(one(simple("import_statement")))
        } else if str_eq(abstract_type, "literal") {
            Some(
                with_booleans(
                    three(simple("number"), simple("string"), simple("template_string")),
                ),
            )
        } else if str_eq(abstract_type, "block") {
            Some(one(simple("statement_block")))
        } else if str_eq(abstract_type, "if") {
            Some(one(simple("if_statement")))
        } else if str_eq(abstract_type, "for") {
            Some(one(simple("for_statement")))
        } else if str_eq(abstract_type, "while") {
            Some(one(simple("while_statement")))
        } else if str_eq(abstract_type, "switch") {
            Some(one(simple("switch_statement")))
        } else if str_eq(abstract_type, "op") {
            Some(one(simple("binary_expression")))
        } else if str_eq(abstract_type, "call")
            || str_eq(abstract_type, "module")
            || str_eq(abstract_type, "type") {
            Some(none())
        } else {
            None
        }
    }

    fn ts_language(&self) -> (r: Grammar) {
        Grammar::JavaScript
    }
}

fn def_variants() -> (r: Vec<TsVariant>)
    ensures
        text::views(r@) == def_table(),
{
    four(
        definition("function_declaration", Some("name"), "identifier", "formal_parameters", "statement_block"),
        definition("function_expression", Some("name"), "identifier", "formal_parameters", "statement_block"),
        definition("arrow_function", None, "identifier", "formal_parameters", "statement_block"),
        definition("method_definition", Some("name"), "property_identifier", "formal_parameters", "statement_block"),
    )
}

fn call_variants() -> (r: Vec<TsVariant>)
    ensures
        text::views(r@) == call_table(),
{
    let path: &'static [(&'static str, &'static str)] = &[("member_expression", "property")];
    assert(lang::path_view(path@) =~= seq![("member_expression"@, "property"@)]);
    two(
        call("call_expression", "identifier", "arguments"),
        call_through("call_expression", "property_identifier", "arguments", path),
    )
}

} // verus!
