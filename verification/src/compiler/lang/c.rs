//! C.

use vstd::prelude::*;
use crate::compiler::lang;
use crate::compiler::lang::{
    Lang, Table, TsVariant, VariantV, call, declared, field_identifier, identifier, named, none,
    one, pick, simple, three, two, with_booleans,
};
use crate::query::ast::Sigil;
use crate::syntax::Grammar;
use crate::text;
use crate::text::str_eq;

verus! {

pub struct CLang;

/// The definitions of functions.
pub open spec fn def_table() -> Seq<VariantV> {
    seq![
        lang::declared_v(seq![("function_declarator"@, "declarator"@)]),
    ]
}

/// The calls of functions.
pub open spec fn call_table() -> Seq<VariantV> {
    seq![
        lang::call_v("call_expression"@, "identifier"@, "argument_list"@, Seq::empty()),
    ]
}

/// The vocabulary: what each abstract type stands for.
pub open spec fn vocabulary(t: Seq<char>, sigil: Option<Sigil>) -> Option<Seq<VariantV>> {
    if t == "function"@ {
        Some(lang::picked(sigil, def_table(), call_table()))
    } else if t == "id"@ || t == "var"@ {
        Some(seq![lang::simple_v("identifier"@), lang::simple_v("field_identifier"@)])
    } else if t == "param"@ {
        Some(seq![lang::named_v("parameter_declaration"@, "declarator"@, "identifier"@)])
    } else if t == "type"@ {
        Some(seq![lang::simple_v("type_identifier"@)])
    } else if t == "import"@ {
        Some(seq![lang::simple_v("preproc_include"@)])
    } else if t == "literal"@ {
        Some(
            lang::with_booleans_v(
                seq![
                    lang::simple_v("number_literal"@),
                    lang::simple_v("string_literal"@),
                    lang::simple_v("char_literal"@),
                ],
            ),
        )
    } else if t == "block"@ {
        Some(seq![lang::simple_v("compound_statement"@)])
    } else if t == "if"@ {
        Some(seq![lang::simple_v("if_statement"@)])
    } else if t == "for"@ {
        Some(seq![lang::simple_v("for_statement"@)])
    } else if t == "while"@ {
        Some(seq![lang::simple_v("while_statement"@)])
    } else if t == "switch"@ {
        Some(seq![lang::simple_v("switch_statement"@)])
    } else if t == "call"@ || t == "class"@ || t == "module"@ || t == "op"@ {
        Some(Seq::empty())
    } else {
        None
    }
}

impl Lang for CLang {
    open spec fn table(&self) -> Table {
        |t: Seq<char>, sigil: Option<Sigil>| vocabulary(t, sigil)
    }

    open spec fn grammar(&self) -> Grammar {
        Grammar::C
    }

    fn resolve(&self, abstract_type: &str, sigil: Option<&Sigil>) -> (r: Option<Vec<TsVariant>>) {
        if str_eq(abstract_type, "function") {
            pick(sigil, def_variants(), call_variants())
        } else if str_eq(abstract_type, "id") || str_eq(abstract_type, "var") {
            Some(two(identifier(), field_identifier()))
        } else if str_eq(abstract_type, "param") {
            Some(one(named("parameter_declaration", "declarator", "identifier")))
        } else if str_eq(abstract_type, "type") {
            Some(one(simple("type_identifier")))
        } else if str_eq(abstract_type, "import") {
            Some(one(simple("preproc_include")))
        } else if str_eq(abstract_type, "literal") {
            Some(with_booleans(three(
                simple("number_literal"),
                simple("string_literal"),
                simple("char_literal"),
            )))
        } else if str_eq(abstract_type, "block") {
            Some(one(simple("compound_statement")))
        } else if str_eq(abstract_type, "if") {
            Some(one(simple("if_statement")))
        } else if str_eq(abstract_type, "for") {
            Some(one(simple("for_statement")))
        } else if str_eq(abstract_type, "while") {
            Some(one(simple("while_statement")))
        } else if str_eq(abstract_type, "switch") {
            Some(one(simple("switch_statement")))
        } else if str_eq(abstract_type, "call")
            || str_eq(abstract_type, "class")
            || str_eq(abstract_type, "module")
            || str_eq(abstract_type, "op") {
            Some(none())
        } else {
            None
        }
    }

    fn ts_language(&self) -> (r: Grammar) {
        Grammar::C
    }
}

fn def_variants() -> (r: Vec<TsVariant>)
    ensures
        text::views(r@) == def_table(),
{
    let plain: &'static [(&'static str, &'static str)] = &[("function_declarator", "declarator")];
    assert(lang::path_view(plain@) =~= seq![("function_declarator"@, "declarator"@)]);
    one(declared(plain))
}

fn call_variants() -> (r: Vec<TsVariant>)
    ensures
        text::views(r@) == call_table(),
{
    one(call("call_expression", "identifier", "argument_list"))
}

} // verus!
