//! The abstract vocabulary and what it stands for in each language.

use vstd::prelude::*;
use crate::query::ast::Sigil;
use crate::syntax::Grammar;
use crate::text;
use crate::text::str_eq;

pub mod c;
pub mod cpp;
pub mod go;
pub mod javascript;
pub mod names;
pub mod python;
pub mod rust;

verus! {

broadcast use vstd::string::group_string_axioms;

/// A single concrete tree-sitter node variant that an abstract type maps to.
#[derive(Debug, Clone, Copy)]
pub struct TsVariant {
    pub node: &'static str,
    /// The field containing the callee/name identifier (e.g. "function" for call_expression).
    /// None means the node itself IS the name (e.g. identifier).
    pub name_field: Option<&'static str>,
    /// The TS node type of the name child (e.g. "identifier").
    pub name_node: &'static str,
    /// TS field name for parameters / arguments (for .params() field access).
    pub params_field: Option<&'static str>,
    /// The container node that wraps parameter children (e.g. "argument_list").
    pub params_container: Option<&'static str>,
    /// TS field name for the body (for .body() field access).
    pub body_field: Option<&'static str>,
    /// The container node wrapping body children (e.g. "compound_statement" for C/C++).
    pub body_container: Option<&'static str>,
    /// Chain of (outer_node, inner_field) pairs from name_field down to name_node.
    /// Empty = name_node is a direct child of name_field.
    pub name_path: &'static [(&'static str, &'static str)],
    /// When true, .params() injects via a wildcard bridge node (`_ params_field: ...`)
    /// instead of directly. Needed for C/C++ function_definition where `parameters`
    /// is a field of `function_declarator`, not of `function_definition` itself.
    pub params_needs_bridge: bool,
    /// Structural constraint appended to the node body when no name filter is present.
    /// Used to narrow broad node types (e.g. field_declaration → only method prototypes).
    pub always_constraint: Option<&'static str>,
}

/// View of a [`TsVariant`].
#[verifier::ext_equal]
pub struct VariantV {
    pub node: Seq<char>,
    pub name_field: Option<Seq<char>>,
    pub name_node: Seq<char>,
    pub params_field: Option<Seq<char>>,
    pub params_container: Option<Seq<char>>,
    pub body_field: Option<Seq<char>>,
    pub body_container: Option<Seq<char>>,
    pub name_path: Seq<(Seq<char>, Seq<char>)>,
    pub params_needs_bridge: bool,
    pub always_constraint: Option<Seq<char>>,
}

/// The characters of an optional string.
pub open spec fn opt_str(s: Option<&'static str>) -> Option<Seq<char>> {
    match s {
        Some(t) => Some(t@),
        None => None,
    }
}

/// The characters of a list of pairs.
pub open spec fn path_view(path: Seq<(&'static str, &'static str)>) -> Seq<(Seq<char>, Seq<char>)> {
    path.map_values(|p: (&'static str, &'static str)| (p.0@, p.1@))
}

impl View for TsVariant {
    type V = VariantV;

    open spec fn view(&self) -> VariantV {
        VariantV {
            node: self.node@,
            name_field: opt_str(self.name_field),
            name_node: self.name_node@,
            params_field: opt_str(self.params_field),
            params_container: opt_str(self.params_container),
            body_field: opt_str(self.body_field),
            body_container: opt_str(self.body_container),
            name_path: path_view(self.name_path@),
            params_needs_bridge: self.params_needs_bridge,
            always_constraint: opt_str(self.always_constraint),
        }
    }
}

/// What a language makes of an abstract type and a sigil.
pub type Table = spec_fn(Seq<char>, Option<Sigil>) -> Option<Seq<VariantV>>;

pub open spec fn opt_sigil(s: Option<&Sigil>) -> Option<Sigil> {
    match s {
        Some(x) => Some(*x),
        None => None,
    }
}

pub open spec fn opt_variants(r: Option<Vec<TsVariant>>) -> Option<Seq<VariantV>> {
    match r {
        Some(v) => Some(text::views(v@)),
        None => None,
    }
}

pub trait Lang: Send + Sync {
    /// The vocabulary of the language.
    spec fn table(&self) -> Table;

    /// The grammar of the language.
    spec fn grammar(&self) -> Grammar;

    /// Resolve an abstract node type + sigil to zero or more TS variants.
    /// - None  → type is unknown; pass through as a concrete TS node name
    /// - Some([]) → type is known but has no mapping in this language (silent empty)
    fn resolve(&self, abstract_type: &str, sigil: Option<&Sigil>) -> (r: Option<Vec<TsVariant>>)
        ensures
            opt_variants(r) == (self.table())(abstract_type@, opt_sigil(sigil)),
    ;

    fn ts_language(&self) -> (r: Grammar)
        ensures
            r == self.grammar(),
    ;
}

// ---------------------------------------------------------------------------
// Languages and file name extensions
// ---------------------------------------------------------------------------

/// The language that a name or one of its short forms stands for.
pub open spec fn grammar_named(name: Seq<char>) -> Option<Grammar> {
    if name == "c"@ {
        Some(Grammar::C)
    } else if name == "cpp"@ || name == "c++"@ {
        Some(Grammar::Cpp)
    } else if name == "javascript"@ || name == "js"@ {
        Some(Grammar::JavaScript)
    } else if name == "python"@ || name == "py"@ {
        Some(Grammar::Python)
    } else if name == "rust"@ || name == "rs"@ {
        Some(Grammar::Rust)
    } else if name == "go"@ {
        Some(Grammar::Go)
    } else {
        None
    }
}

/// The full name of a language.
pub open spec fn canonical(g: Grammar) -> Seq<char> {
    match g {
        Grammar::C => "c"@,
        Grammar::Cpp => "cpp"@,
        Grammar::JavaScript => "javascript"@,
        Grammar::Python => "python"@,
        Grammar::Rust => "rust"@,
        Grammar::Go => "go"@,
    }
}

/// The vocabulary of a language.
pub open spec fn table_of(g: Grammar) -> Table {
    match g {
        Grammar::C => c::CLang.table(),
        Grammar::Cpp => cpp::CppLang.table(),
        Grammar::JavaScript => javascript::JsLang.table(),
        Grammar::Python => python::PyLang.table(),
        Grammar::Rust => rust::RustLang.table(),
        Grammar::Go => go::GoLang.table(),
    }
}

/// The extensions of the files that a search in one language looks at.
pub open spec fn extensions_of(g: Grammar) -> Seq<Seq<char>> {
    match g {
        Grammar::C => seq!["c"@, "h"@],
        Grammar::Cpp => seq!["cpp"@, "cc"@, "cxx"@, "h"@, "hpp"@, "hxx"@],
        Grammar::JavaScript => seq!["js"@, "mjs"@, "cjs"@, "jsx"@],
        Grammar::Python => seq!["py"@],
        Grammar::Rust => seq!["rs"@],
        Grammar::Go => seq!["go"@],
    }
}

/// The extensions of all languages.
pub open spec fn known_extensions() -> Seq<Seq<char>> {
    seq![
        "c"@, "h"@, "cpp"@, "cc"@, "cxx"@, "hpp"@, "hxx"@, "js"@, "mjs"@, "cjs"@, "jsx"@, "py"@,
        "rs"@, "go"@,
    ]
}

/// The language of the files with an extension.
pub open spec fn grammar_of_extension(ext: Seq<char>) -> Option<Grammar> {
    if ext == "c"@ || ext == "h"@ {
        Some(Grammar::C)
    } else if ext == "cpp"@ || ext == "cc"@ || ext == "cxx"@ || ext == "hpp"@ || ext == "hxx"@ {
        Some(Grammar::Cpp)
    } else if ext == "js"@ || ext == "mjs"@ || ext == "cjs"@ || ext == "jsx"@ {
        Some(Grammar::JavaScript)
    } else if ext == "py"@ {
        Some(Grammar::Python)
    } else if ext == "rs"@ {
        Some(Grammar::Rust)
    } else if ext == "go"@ {
        Some(Grammar::Go)
    } else {
        None
    }
}

fn grammar_for_name(name: &str) -> (r: Option<Grammar>)
    ensures
        r == grammar_named(name@),
{
    if str_eq(name, "c") {
        Some(Grammar::C)
    } else if str_eq(name, "cpp") || str_eq(name, "c++") {
        Some(Grammar::Cpp)
    } else if str_eq(name, "javascript") || str_eq(name, "js") {
        Some(Grammar::JavaScript)
    } else if str_eq(name, "python") || str_eq(name, "py") {
        Some(Grammar::Python)
    } else if str_eq(name, "rust") || str_eq(name, "rs") {
        Some(Grammar::Rust)
    } else if str_eq(name, "go") {
        Some(Grammar::Go)
    } else {
        None
    }
}

fn canonical_name(g: Grammar) -> (r: &'static str)
    ensures
        r@ == canonical(g),
{
    match g {
        Grammar::C => "c",
        Grammar::Cpp => "cpp",
        Grammar::JavaScript => "javascript",
        Grammar::Python => "python",
        Grammar::Rust => "rust",
        Grammar::Go => "go",
    }
}

/// The language with the given name, if there is one.
pub fn for_name(name: &str) -> (r: Option<Box<dyn Lang>>)
    ensures
        r is Some <==> grammar_named(name@) is Some,
        r is Some ==> Some((*r->Some_0).grammar()) == grammar_named(name@),
        r is Some ==> (*r->Some_0).table() == table_of((*r->Some_0).grammar()),
{
    match grammar_for_name(name) {
        Some(Grammar::C) => {
            let l: Box<dyn Lang> = Box::new(c::CLang);
            let r = Some(l);
            r
        },
        Some(Grammar::Cpp) => {
            let l: Box<dyn Lang> = Box::new(cpp::CppLang);
            let r = Some(l);
            r
        },
        Some(Grammar::JavaScript) => {
            let l: Box<dyn Lang> = Box::new(javascript::JsLang);
            let r = Some(l);
            r
        },
        Some(Grammar::Python) => {
            let l: Box<dyn Lang> = Box::new(python::PyLang);
            let r = Some(l);
            r
        },
        Some(Grammar::Rust) => {
            let l: Box<dyn Lang> = Box::new(rust::RustLang);
            let r = Some(l);
            r
        },
        Some(Grammar::Go) => {
            let l: Box<dyn Lang> = Box::new(go::GoLang);
            let r = Some(l);
            r
        },
        None => None,
    }
}

/// The full name of the language with the given name, if there is one.
pub fn lang_for_name_canonical(name: &str) -> (r: Option<&'static str>)
    ensures
        opt_str(r) == (match grammar_named(name@) {
            Some(g) => Some(canonical(g)),
            None => None,
        }),
{
    match grammar_for_name(name) {
        Some(g) => Some(canonical_name(g)),
        None => None,
    }
}

/// The extensions of the language with the given name; none, if there is no such language.
pub fn extensions_for_name(name: &str) -> (r: &'static [&'static str])
    ensures
        text::views(r@) == (match grammar_named(name@) {
            Some(g) => extensions_of(g),
            None => Seq::empty(),
        }),
{
    let r: &'static [&'static str] = match grammar_for_name(name) {
        Some(Grammar::C) => &["c", "h"],
        Some(Grammar::Cpp) => &["cpp", "cc", "cxx", "h", "hpp", "hxx"],
        Some(Grammar::JavaScript) => &["js", "mjs", "cjs", "jsx"],
        Some(Grammar::Python) => &["py"],
        Some(Grammar::Rust) => &["rs"],
        Some(Grammar::Go) => &["go"],
        None => &[],
    };
    assert(text::views(r@) =~= match grammar_named(name@) {
        Some(g) => extensions_of(g),
        None => Seq::empty(),
    });
    r
}

/// The extensions of all languages.
pub fn all_known_extensions() -> (r: &'static [&'static str])
    ensures
        text::views(r@) == known_extensions(),
{
    let r: &'static [&'static str] = &[
        "c", "h", "cpp", "cc", "cxx", "hpp", "hxx", "js", "mjs", "cjs", "jsx", "py", "rs", "go",
    ];
    assert(text::views(r@) =~= known_extensions());
    r
}

/// The full name of the language of the files with the given extension, if there is one.
pub fn lang_for_extension(ext: &str) -> (r: Option<&'static str>)
    ensures
        opt_str(r) == (match grammar_of_extension(ext@) {
            Some(g) => Some(canonical(g)),
            None => None,
        }),
{
    if str_eq(ext, "c") || str_eq(ext, "h") {
        Some("c")
    } else if str_eq(ext, "cpp") || str_eq(ext, "cc") || str_eq(ext, "cxx") || str_eq(ext, "hpp")
        || str_eq(ext, "hxx") {
        Some("cpp")
    } else if str_eq(ext, "js") || str_eq(ext, "mjs") || str_eq(ext, "cjs") || str_eq(
        ext,
        "jsx",
    ) {
        Some("javascript")
    } else if str_eq(ext, "py") {
        Some("python")
    } else if str_eq(ext, "rs") {
        Some("rust")
    } else if str_eq(ext, "go") {
        Some("go")
    } else {
        None
    }
}

/// The full name of a language names it.
pub proof fn law_canonical_name(g: Grammar)
    ensures
        grammar_named(canonical(g)) == Some(g),
{
    reveal_strlit("c");
    reveal_strlit("cpp");
    reveal_strlit("c++");
    reveal_strlit("javascript");
    reveal_strlit("js");
    reveal_strlit("python");
    reveal_strlit("py");
    reveal_strlit("rust");
    reveal_strlit("rs");
    reveal_strlit("go");
    assert("c"@.len() == 1 && "cpp"@.len() == 3 && "c++"@.len() == 3);
    assert("javascript"@.len() == 10 && "python"@.len() == 6 && "rust"@.len() == 4);
    assert("js"@.len() == 2 && "py"@.len() == 2 && "rs"@.len() == 2 && "go"@.len() == 2);
    assert("cpp"@[1] == 'p' && "c++"@[1] == '+');
    assert("js"@[0] == 'j' && "py"@[0] == 'p' && "rs"@[0] == 'r' && "go"@[0] == 'g');
}

/// A language is inferred from an extension exactly where the extension is in the list
/// of all extensions.
pub proof fn law_known_extensions(ext: Seq<char>)
    ensures
        grammar_of_extension(ext) is Some <==> known_extensions().contains(ext),
{
    let all = known_extensions();
    assert(all[0] == "c"@ && all[1] == "h"@ && all[2] == "cpp"@ && all[3] == "cc"@ && all[4]
        == "cxx"@ && all[5] == "hpp"@ && all[6] == "hxx"@ && all[7] == "js"@ && all[8] == "mjs"@
        && all[9] == "cjs"@ && all[10] == "jsx"@ && all[11] == "py"@ && all[12] == "rs"@ && all[13]
        == "go"@);
}

/// The files from which a language is inferred are among those that a search in that
/// language looks at.
pub proof fn law_inferred_extension_is_searched(ext: Seq<char>)
    ensures
        grammar_of_extension(ext) matches Some(g) ==> extensions_of(g).contains(ext),
{
    let c = extensions_of(Grammar::C);
    assert(c[0] == "c"@ && c[1] == "h"@);
    let cpp = extensions_of(Grammar::Cpp);
    assert(cpp[0] == "cpp"@ && cpp[1] == "cc"@ && cpp[2] == "cxx"@ && cpp[4] == "hpp"@ && cpp[5]
        == "hxx"@);
    let js = extensions_of(Grammar::JavaScript);
    assert(js[0] == "js"@ && js[1] == "mjs"@ && js[2] == "cjs"@ && js[3] == "jsx"@);
    assert(extensions_of(Grammar::Python)[0] == "py"@);
    assert(extensions_of(Grammar::Rust)[0] == "rs"@);
    assert(extensions_of(Grammar::Go)[0] == "go"@);
}

/// The files that a search in a language looks at are known, and but for C headers in a
/// C++ search the language is inferred from each of them.
pub proof fn law_searched_extension_is_inferred(g: Grammar, ext: Seq<char>)
    requires
        extensions_of(g).contains(ext),
    ensures
        grammar_of_extension(ext) is Some,
        ext != "h"@ ==> grammar_of_extension(ext) == Some(g),
{
    lemma_extension_literals();
    let all = known_extensions();
    assert(all[0] == "c"@ && all[1] == "h"@ && all[2] == "cpp"@ && all[3] == "cc"@ && all[4]
        == "cxx"@ && all[5] == "hpp"@ && all[6] == "hxx"@ && all[7] == "js"@ && all[8] == "mjs"@
        && all[9] == "cjs"@ && all[10] == "jsx"@ && all[11] == "py"@ && all[12] == "rs"@ && all[13]
        == "go"@);
}

/// The abstract types.
pub open spec fn abstract_types() -> Seq<Seq<char>> {
    seq![
        "function"@, "class"@, "module"@, "id"@, "var"@, "param"@, "type"@, "import"@, "literal"@,
        "block"@, "if"@, "for"@, "while"@, "switch"@, "op"@, "call"@,
    ]
}

/// The vocabulary is fixed: each abstract type is known in every language, whatever the
/// sigil, and nothing else is.
pub proof fn law_vocabulary_is_fixed(g: Grammar, t: Seq<char>, sigil: Option<Sigil>)
    ensures
        (table_of(g))(t, sigil) is Some <==> abstract_types().contains(t),
{
    let all = abstract_types();
    assert(all[0] == "function"@ && all[1] == "class"@ && all[2] == "module"@ && all[3] == "id"@
        && all[4] == "var"@ && all[5] == "param"@ && all[6] == "type"@ && all[7] == "import"@
        && all[8] == "literal"@ && all[9] == "block"@ && all[10] == "if"@ && all[11] == "for"@
        && all[12] == "while"@ && all[13] == "switch"@ && all[14] == "op"@ && all[15] == "call"@);
}

/// No sigil means both: without one, an abstract type stands for its definitions and for
/// its references, and for nothing else.
pub proof fn law_no_sigil_is_both(g: Grammar, t: Seq<char>, v: VariantV)
    requires
        abstract_types().contains(t),
    ensures
        (table_of(g))(t, None)->Some_0.contains(v) <==> (table_of(g))(
            t,
            Some(Sigil::Def),
        )->Some_0.contains(v) || (table_of(g))(t, Some(Sigil::Ref))->Some_0.contains(v),
{
    law_vocabulary_is_fixed(g, t, None);
    if t == "function"@ {
        let defs = (table_of(g))(t, Some(Sigil::Def))->Some_0;
        let refs = (table_of(g))(t, Some(Sigil::Ref))->Some_0;
        let both = (table_of(g))(t, None)->Some_0;
        assert(both =~= defs + refs);
        if defs.contains(v) {
            assert(both[defs.index_of(v)] == v);
        }
        if refs.contains(v) {
            assert(both[defs.len() + refs.index_of(v)] == v);
        }
        if both.contains(v) {
            let i = both.index_of(v);
            if i < defs.len() {
                assert(defs[i] == v);
            } else {
                assert(refs[i - defs.len()] == v);
            }
        }
    }
}

proof fn lemma_extension_literals()
    ensures
        forall|i: int, j: int|
            0 <= i < j < known_extensions().len() ==> known_extensions()[i] != known_extensions()[j],
{
    reveal_strlit("c");
    reveal_strlit("h");
    reveal_strlit("cpp");
    reveal_strlit("cc");
    reveal_strlit("cxx");
    reveal_strlit("hpp");
    reveal_strlit("hxx");
    reveal_strlit("js");
    reveal_strlit("mjs");
    reveal_strlit("cjs");
    reveal_strlit("jsx");
    reveal_strlit("py");
    reveal_strlit("rs");
    reveal_strlit("go");
    let all = known_extensions();
    assert forall|i: int, j: int| 0 <= i < j < all.len() implies all[i] != all[j] by {
        assert(all[i][0] != all[j][0] || all[i].len() != all[j].len() || all[i][1] != all[j][1]);
    }
}

// ---------------------------------------------------------------------------
// Shapes of variants
// ---------------------------------------------------------------------------

/// A node that is its own name.
pub open spec fn simple_v(node: Seq<char>) -> VariantV {
    VariantV {
        node,
        name_field: None,
        name_node: node,
        params_field: None,
        params_container: None,
        body_field: None,
        body_container: None,
        name_path: Seq::empty(),
        params_needs_bridge: false,
        always_constraint: None,
    }
}

/// A node with its name in a field.
pub open spec fn named_v(node: Seq<char>, name_field: Seq<char>, name_node: Seq<char>) -> VariantV {
    VariantV { name_field: Some(name_field), name_node, ..simple_v(node) }
}

/// A named node with a body.
pub open spec fn container_v(
    node: Seq<char>,
    name_node: Seq<char>,
    body_field: Seq<char>,
    body_container: Option<Seq<char>>,
) -> VariantV {
    VariantV { body_field: Some(body_field), body_container, ..named_v(node, "name"@, name_node) }
}

/// A call: the callee in the field `function`, the arguments in the field `arguments`.
pub open spec fn call_v(
    node: Seq<char>,
    name_node: Seq<char>,
    arguments: Seq<char>,
    name_path: Seq<(Seq<char>, Seq<char>)>,
) -> VariantV {
    VariantV {
        params_field: Some("arguments"@),
        params_container: Some(arguments),
        name_path,
        ..named_v(node, "function"@, name_node)
    }
}

/// A definition: the parameters in the field `parameters`, the body in the field `body`.
pub open spec fn definition_v(
    node: Seq<char>,
    name_field: Option<Seq<char>>,
    name_node: Seq<char>,
    parameters: Seq<char>,
    body: Seq<char>,
) -> VariantV {
    VariantV {
        name_field,
        name_node,
        params_field: Some("parameters"@),
        params_container: Some(parameters),
        body_field: Some("body"@),
        body_container: Some(body),
        ..simple_v(node)
    }
}

/// A function definition of the C family: the name lies below the declarator, and the
/// parameters belong to a node in between.
pub open spec fn declared_v(name_path: Seq<(Seq<char>, Seq<char>)>) -> VariantV {
    VariantV {
        name_path,
        params_needs_bridge: true,
        ..definition_v(
            "function_definition"@,
            Some("declarator"@),
            "identifier"@,
            "parameter_list"@,
            "compound_statement"@,
        )
    }
}

pub(crate) fn simple(node: &'static str) -> (r: TsVariant)
    ensures
        r@ == simple_v(node@),
{
    let r = TsVariant {
        node,
        name_field: None,
        name_node: node,
        params_field: None,
        params_container: None,
        body_field: None,
        body_container: None,
        name_path: &[],
        params_needs_bridge: false,
        always_constraint: None,
    };
    assert(r@.name_path =~= Seq::empty());
    r
}

pub(crate) fn identifier() -> (r: TsVariant)
    ensures
        r@ == simple_v("identifier"@),
{
    simple("identifier")
}

pub(crate) fn field_identifier() -> (r: TsVariant)
    ensures
        r@ == simple_v("field_identifier"@),
{
    simple("field_identifier")
}

pub(crate) fn named(node: &'static str, name_field: &'static str, name_node: &'static str) -> (r:
    TsVariant)
    ensures
        r@ == named_v(node@, name_field@, name_node@),
{
    TsVariant { name_field: Some(name_field), name_node, ..simple(node) }
}

pub(crate) fn container(
    node: &'static str,
    name_node: &'static str,
    body_field: &'static str,
    body_container: Option<&'static str>,
) -> (r: TsVariant)
    ensures
        r@ == container_v(node@, name_node@, body_field@, opt_str(body_container)),
{
    TsVariant { body_field: Some(body_field), body_container, ..named(node, "name", name_node) }
}

pub(crate) fn call(node: &'static str, name_node: &'static str, arguments: &'static str) -> (r:
    TsVariant)
    ensures
        r@ == call_v(node@, name_node@, arguments@, Seq::empty()),
{
    TsVariant {
        params_field: Some("arguments"),
        params_container: Some(arguments),
        ..named(node, "function", name_node)
    }
}

/// A call whose callee is reached through other nodes.
pub(crate) fn call_through(
    node: &'static str,
    name_node: &'static str,
    arguments: &'static str,
    name_path: &'static [(&'static str, &'static str)],
) -> (r: TsVariant)
    ensures
        r@ == call_v(node@, name_node@, arguments@, path_view(name_path@)),
{
    TsVariant {
        params_field: Some("arguments"),
        params_container: Some(arguments),
        name_path,
        ..named(node, "function", name_node)
    }
}

pub(crate) fn definition(
    node: &'static str,
    name_field: Option<&'static str>,
    name_node: &'static str,
    parameters: &'static str,
    body: &'static str,
) -> (r: TsVariant)
    ensures
        r@ == definition_v(node@, opt_str(name_field), name_node@, parameters@, body@),
{
    TsVariant {
        name_field,
        name_node,
        params_field: Some("parameters"),
        params_container: Some(parameters),
        body_field: Some("body"),
        body_container: Some(body),
        ..simple(node)
    }
}

pub(crate) fn declared(name_path: &'static [(&'static str, &'static str)]) -> (r: TsVariant)
    ensures
        r@ == declared_v(path_view(name_path@)),
{
    TsVariant {
        name_path,
        params_needs_bridge: true,
        ..definition(
            "function_definition",
            Some("declarator"),
            "identifier",
            "parameter_list",
            "compound_statement",
        )
    }
}

// ---------------------------------------------------------------------------
// Lists of variants
// ---------------------------------------------------------------------------

pub(crate) fn none() -> (r: Vec<TsVariant>)
    ensures
        text::views(r@) == Seq::<VariantV>::empty(),
{
    let v: Vec<TsVariant> = Vec::new();
    assert(text::views(v@) =~= Seq::<VariantV>::empty());
    v
}

pub(crate) fn one(a: TsVariant) -> (r: Vec<TsVariant>)
    ensures
        text::views(r@) == seq![a@],
{
    let v: Vec<TsVariant> = vec![a];
    assert(text::views(v@) =~= seq![a@]);
    v
}

pub(crate) fn two(a: TsVariant, b: TsVariant) -> (r: Vec<TsVariant>)
    ensures
        text::views(r@) == seq![a@, b@],
{
    let v: Vec<TsVariant> = vec![a, b];
    assert(text::views(v@) =~= seq![a@, b@]);
    v
}

pub(crate) fn three(a: TsVariant, b: TsVariant, c: TsVariant) -> (r: Vec<TsVariant>)
    ensures
        text::views(r@) == seq![a@, b@, c@],
{
    let v: Vec<TsVariant> = vec![a, b, c];
    assert(text::views(v@) =~= seq![a@, b@, c@]);
    v
}

pub(crate) fn four(
    a: TsVariant,
    b: TsVariant,
    c: TsVariant,
    d: TsVariant,
) -> (r: Vec<TsVariant>)
    ensures
        text::views(r@) == seq![a@, b@, c@, d@],
{
    let v: Vec<TsVariant> = vec![a, b, c, d];
    assert(text::views(v@) =~= seq![a@, b@, c@, d@]);
    v
}

pub(crate) fn five(
    a: TsVariant,
    b: TsVariant,
    c: TsVariant,
    d: TsVariant,
    e: TsVariant,
) -> (r: Vec<TsVariant>)
    ensures
        text::views(r@) == seq![a@, b@, c@, d@, e@],
{
    let v: Vec<TsVariant> = vec![a, b, c, d, e];
    assert(text::views(v@) =~= seq![a@, b@, c@, d@, e@]);
    v
}

/// Literals with those of the truth values.
pub open spec fn with_booleans_v(literals: Seq<VariantV>) -> Seq<VariantV> {
    literals + seq![simple_v("true"@), simple_v("false"@)]
}

pub(crate) fn with_booleans(literals: Vec<TsVariant>) -> (r: Vec<TsVariant>)
    ensures
        text::views(r@) == with_booleans_v(text::views(literals@)),
{
    let mut v: Vec<TsVariant> = literals;
    let mut more: Vec<TsVariant> = two(simple("true"), simple("false"));
    let ghost a = v@;
    let ghost b = more@;
    v.append(&mut more);
    assert(text::views(v@) =~= text::views(a) + text::views(b));
    v
}

/// What a sigil picks: the definitions for `*`, the references for `&`, both without one.
pub open spec fn picked(
    sigil: Option<Sigil>,
    defs: Seq<VariantV>,
    refs: Seq<VariantV>,
) -> Seq<VariantV> {
    match sigil {
        Some(Sigil::Def) => defs,
        Some(Sigil::Ref) => refs,
        None => defs + refs,
    }
}

pub(crate) fn pick(sigil: Option<&Sigil>, defs: Vec<TsVariant>, refs: Vec<TsVariant>) -> (r: Option<
    Vec<TsVariant>,
>)
    ensures
        opt_variants(r) == Some(
            picked(opt_sigil(sigil), text::views(defs@), text::views(refs@)),
        ),
{
    match sigil {
        Some(Sigil::Def) => Some(defs),
        Some(Sigil::Ref) => Some(refs),
        None => {
            let mut both: Vec<TsVariant> = defs;
            let mut i: usize = 0;
            assert(both@ =~= defs@ + refs@.take(0));
            while i < refs.len()
                invariant
                    i <= refs@.len(),
                    both@ == defs@ + refs@.take(i as int),
                decreases refs@.len() - i,
            {
                both.push(refs[i]);
                i += 1;
                assert(both@ =~= defs@ + refs@.take(i as int));
            }
            assert(text::views(both@) =~= text::views(defs@) + text::views(refs@));
            Some(both)
        },
    }
}

} // verus!
