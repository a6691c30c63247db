//! Python.

use vstd::prelude::*;
use crate::compiler::lang;
use crate::compiler::lang::{
    Lang, Table, TsVariant, VariantV, call, container, definition, identifier, none, one, pick,
    simple, three, with_booleans,
};
use crate::query::ast::Sigil;
use crate::syntax::Grammar;
use crate::text;
use crate::text::str_eq;

verus! {

pub struct PyLang;

/// The definitions of functions.
pub open spec fn def_table() -> Seq<VariantV> {
    seq![
        lang::definition_v("function_definition"@, Some("name"@), "identifier"@, "parameters"@, "block"@),
    ]
}

/// The calls of functions.
pub open spec fn call_table() -> Seq<VariantV> {
    seq![
        lang::call_v("call"@, "identifier"@, "argument_list"@, Seq::empty()),
    ]
}

/// The vocabulary: what each abstract type stands for.
pub open spec fn vocabulary(t: Seq<char>, sigil: Option<Sigil>) -> Option<Seq<VariantV>> {
    if t == "function"@ {
        Some(lang::picked(sigil, def_table(), call_table()))
    } else if t == "class"@ {
        Some(seq![lang::container_v("class_definition"@, "identifier"@, "body"@, Some("block"@))])
    } else if t == "id"@ || t == "var"@ || t == "param"@ {
        Some(seq![lang::simple_v("identifier"@)])
    } else if t == "import"@ {
        Some(seq![lang::simple_v("import_statement"@)])
    } else if t == "literal"@ {
        Some(
            lang::with_booleans_v(
                seq![
                    lang::simple_v("integer"@),
                    lang::simple_v("float"@),
                    lang::simple_v("string"@),
                ],
            ),
        )
    } else if t == "block"@ {
        Some(seq![lang::simple_v("block"@)])
    } else if t == "if"@ {
        Some(seq![lang::simple_v("if_statement"@)])
    } else if t == "for"@ {
        Some(seq![lang::simple_v("for_statement"@)])
    } else if t == "while"@ {
        Some(seq![lang::simple_v("while_statement"@)])
    } else if t == "call"@ || t == "module"@ || t == "switch"@ || t == "type"@ || t == "op"@ {
        Some(Seq::empty())
    } else {
        None
    }
}

impl Lang for PyLang {
    open spec fn table(&self) -> Table {
        |t: Seq<char>, sigil: Option<Sigil>| vocabulary(t, sigil)
    }

    open spec fn grammar(&self) -> Grammar {
        Grammar::Python
    }

    fn resolve(&self, abstract_type: &str, sigil: Option<&Sigil>) -> (r: Option<Vec<TsVariant>>) {
        if str_eq(abstract_type, "function") {
            pick(sigil, def_variants(), call_variants())
        } else if str_eq(abstract_type, "class") {
            Some(one(container("class_definition", "identifier", "body", Some("block"))))
        } else if str_eq(abstract_type, "id")
            || str_eq(abstract_type, "var")
            || str_eq(abstract_type, "param") {
            Some(one(identifier()))
        } else if str_eq(abstract_type, "import") {
            Some(one(simple("import_statement")))
        } else if str_eq(abstract_type, "literal") {
            Some(with_booleans(three(simple("integer"), simple("float"), simple("string"))))
        } else if str_eq(abstract_type, "block") {
            Some(one(simple("block")))
        } else if str_eq(abstract_type, "if") {
            Some(one(simple("if_statement")))
        } else if str_eq(abstract_type, "for") {
            Some(one(simple("for_statement")))
        } else if str_eq(abstract_type, "while") {
            Some(one(simple("while_statement")))
        } else if str_eq(abstract_type, "call")
            || str_eq(abstract_type, "module")
            || str_eq(abstract_type, "switch")
            || str_eq(abstract_type, "type")
            || str_eq(abstract_type, "op") {
            Some(none())
        } else {
            None
        }
    }

    fn ts_language(&self) -> (r: Grammar) {
        Grammar::Python
    }
}

fn def_variants() -> (r: Vec<TsVariant>)
    ensures
        text::views(r@) == def_table(),
{
    one(definition("function_definition", Some("name"), "identifier", "parameters", "block"))
}

fn call_variants() -> (r: Vec<TsVariant>)
    ensures
        text::views(r@) == call_table(),
{
    one(call("call", "identifier", "argument_list"))
}

} // verus!
