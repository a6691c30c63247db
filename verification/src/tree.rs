//! Structural outline of a source file: classes, functions, variables.

use vstd::prelude::*;
use crate::compiler::lang;
use crate::compiler::lang::{for_name, lang_for_extension};
use crate::path;
use crate::path::extension;
use crate::runner;
use crate::syntax;
use crate::syntax::{Grammar, Node, NodeV, parse_source};
use crate::text;
use crate::text::{decimal, first_line, push_string, str_eq};

verus! {

broadcast use vstd::string::group_string_axioms;

/// An entry of an outline.
#[derive(Debug)]
pub struct Item {
    /// "class", "fn", "var" and the like.
    pub kind: &'static str,
    pub name: String,
    pub line: usize,
    pub children: Vec<Item>,
}

/// View of an [`Item`].
#[verifier::ext_equal]
pub struct ItemV {
    pub kind: Seq<char>,
    pub name: Seq<char>,
    pub line: usize,
    pub children: Seq<ItemV>,
}

pub open spec fn item_view(i: Item) -> ItemV
    decreases i,
{
    ItemV {
        kind: i.kind@,
        name: i.name@,
        line: i.line,
        children: Seq::new(
            i.children@.len(),
            |k: int|
                if 0 <= k < i.children@.len() {
                    item_view(i.children@[k])
                } else {
                    arbitrary()
                },
        ),
    }
}

impl View for Item {
    type V = ItemV;

    open spec fn view(&self) -> ItemV {
        item_view(*self)
    }
}

// ---------------------------------------------------------------------------
// What an outline shows
// ---------------------------------------------------------------------------

/// The text of the node in a field.
pub open spec fn field_text(n: NodeV, field: Seq<char>) -> Option<Seq<char>> {
    match syntax::field_child(n, field) {
        Some(c) => Some(syntax::content(c)),
        None => None,
    }
}

/// The name of a node that is shown also without one.
pub open spec fn name_or_anonymous(n: NodeV) -> Seq<char> {
    match field_text(n, "name"@) {
        Some(name) => name,
        None => "(anonymous)"@,
    }
}

/// An entry with other entries below it.
pub open spec fn group(kind: Seq<char>, name: Seq<char>, n: NodeV, children: Seq<ItemV>) -> ItemV {
    ItemV { kind, name, line: syntax::line_of(n.start_row), children }
}

/// An entry that is shown where it has a name.
pub open spec fn leaf(kind: Seq<char>, name: Option<Seq<char>>, n: NodeV) -> Option<ItemV> {
    match name {
        Some(name) => Some(group(kind, name, n, Seq::empty())),
        None => None,
    }
}

/// A list with what is there of an entry behind it.
pub open spec fn with_item(items: Seq<ItemV>, item: Option<ItemV>) -> Seq<ItemV> {
    match item {
        Some(i) => items.push(i),
        None => items,
    }
}

/// The name that a declarator of the C family declares: the identifier below it.
pub open spec fn declared_name(n: NodeV) -> Option<Seq<char>>
    decreases n,
{
    proof {
        syntax::lemma_field_child(n, "declarator"@);
        syntax::lemma_field_child(n, "name"@);
    }
    if n.kind == "identifier"@ || n.kind == "field_identifier"@ {
        Some(syntax::content(n))
    } else {
        match syntax::field_child(n, "declarator"@) {
            Some(d) => declared_name(d),
            None => match syntax::field_child(n, "name"@) {
                Some(d) => declared_name(d),
                None => None,
            },
        }
    }
}

/// The name of a function definition of the C family.
pub open spec fn c_function_name(n: NodeV) -> Option<Seq<char>> {
    match syntax::field_child(n, "declarator"@) {
        Some(d) => declared_name(d),
        None => None,
    }
}

/// The method that a field declaration of a class announces.
pub open spec fn c_prototype(n: NodeV) -> Option<ItemV> {
    if n.kind != "field_declaration"@ {
        None
    } else {
        match syntax::field_child(n, "declarator"@) {
            Some(d) => if d.kind == "function_declarator"@ {
                leaf("fn"@, field_text(d, "declarator"@), n)
            } else {
                None
            },
            None => None,
        }
    }
}

/// The first variable that the parts of a C declaration name.
pub open spec fn c_variable(nodes: Seq<NodeV>) -> Option<Seq<char>>
    decreases nodes.len(),
{
    if nodes.len() == 0 {
        None
    } else if nodes[0].kind == "identifier"@ {
        Some(syntax::content(nodes[0]))
    } else if nodes[0].kind == "init_declarator"@ && syntax::field_child(nodes[0], "declarator"@)
        is Some {
        field_text(nodes[0], "declarator"@)
    } else {
        c_variable(nodes.drop_first())
    }
}

/// The entry for a node of a C file, or of a C++ file. Variables are shown at the top
/// only.
pub open spec fn c_item(n: NodeV, cpp: bool, top: bool) -> Option<ItemV>
    decreases n, 1int,
{
    proof {
        syntax::lemma_field_child(n, "body"@);
    }
    if n.kind == "function_definition"@ {
        leaf("fn"@, c_function_name(n), n)
    } else if n.kind == "namespace_definition"@ && cpp {
        Some(
            group(
                "namespace"@,
                name_or_anonymous(n),
                n,
                match syntax::field_child(n, "body"@) {
                    Some(body) => c_items(body.children, cpp, false),
                    None => Seq::empty(),
                },
            ),
        )
    } else if (n.kind == "class_specifier"@ || n.kind == "struct_specifier"@) && cpp {
        Some(
            group(
                if n.kind == "class_specifier"@ {
                    "class"@
                } else {
                    "struct"@
                },
                name_or_anonymous(n),
                n,
                match syntax::field_child(n, "body"@) {
                    Some(body) => c_items(body.children, cpp, true),
                    None => Seq::empty(),
                },
            ),
        )
    } else if n.kind == "declaration"@ && top {
        leaf("var"@, c_variable(n.children), n)
    } else {
        None
    }
}

/// The entries for the nodes of a body; with the methods that they announce, where it is
/// that of a class.
pub open spec fn c_items(nodes: Seq<NodeV>, cpp: bool, in_class: bool) -> Seq<ItemV>
    decreases nodes, 0int,
{
    if nodes.len() == 0 {
        Seq::empty()
    } else {
        let init = with_item(
            c_items(nodes.drop_last(), cpp, in_class),
            c_item(nodes.last(), cpp, false),
        );
        if in_class {
            with_item(init, c_prototype(nodes.last()))
        } else {
            init
        }
    }
}

/// The name that an assignment at the top of a Python file gives a value.
pub open spec fn python_variable(n: NodeV) -> Option<Seq<char>> {
    match syntax::first_named(n) {
        Some(a) => if a.kind == "assignment"@ {
            match syntax::field_child(a, "left"@) {
                Some(lhs) => if lhs.kind == "identifier"@ {
                    Some(syntax::content(lhs))
                } else {
                    None
                },
                None => None,
            }
        } else {
            None
        },
        None => None,
    }
}

/// The entry for a node of a Python file.
pub open spec fn python_item(n: NodeV, top: bool) -> Option<ItemV>
    decreases n, 1int,
{
    proof {
        syntax::lemma_field_child(n, "body"@);
    }
    if n.kind == "function_definition"@ {
        leaf("fn"@, field_text(n, "name"@), n)
    } else if n.kind == "class_definition"@ {
        Some(
            group(
                "class"@,
                name_or_anonymous(n),
                n,
                match syntax::field_child(n, "body"@) {
                    Some(body) => python_items(body.children),
                    None => Seq::empty(),
                },
            ),
        )
    } else if n.kind == "expression_statement"@ && top {
        leaf("var"@, python_variable(n), n)
    } else {
        None
    }
}

/// The entries for the nodes of the body of a Python class.
pub open spec fn python_items(nodes: Seq<NodeV>) -> Seq<ItemV>
    decreases nodes, 0int,
{
    if nodes.len() == 0 {
        Seq::empty()
    } else {
        with_item(python_items(nodes.drop_last()), python_item(nodes.last(), false))
    }
}

/// The methods among the nodes of the body of a JavaScript class.
pub open spec fn js_methods(nodes: Seq<NodeV>) -> Seq<ItemV>
    decreases nodes.len(),
{
    if nodes.len() == 0 {
        Seq::empty()
    } else {
        let n = nodes.last();
        let init = js_methods(nodes.drop_last());
        if n.kind == "method_definition"@ {
            with_item(init, leaf("fn"@, field_text(n, "name"@), n))
        } else {
            init
        }
    }
}

/// Whether a declarator of JavaScript gives its name to a function.
pub open spec fn js_binds_function(d: NodeV) -> bool {
    match syntax::field_child(d, "value"@) {
        Some(v) => v.kind == "arrow_function"@ || v.kind == "function_expression"@ || v.kind
            == "function"@,
        None => false,
    }
}

/// What the first declarator with a name declares, in the declaration `n`.
pub open spec fn js_declared(nodes: Seq<NodeV>, n: NodeV) -> Option<ItemV>
    decreases nodes.len(),
{
    if nodes.len() == 0 {
        None
    } else if nodes[0].kind == "variable_declarator"@ && syntax::field_child(nodes[0], "name"@)
        is Some {
        leaf(
            if js_binds_function(nodes[0]) {
                "fn"@
            } else {
                "var"@
            },
            field_text(nodes[0], "name"@),
            n,
        )
    } else {
        js_declared(nodes.drop_first(), n)
    }
}

/// The entry for a node of a JavaScript file.
pub open spec fn js_item(n: NodeV, top: bool) -> Option<ItemV> {
    if n.kind == "function_declaration"@ {
        leaf("fn"@, field_text(n, "name"@), n)
    } else if n.kind == "class_declaration"@ {
        Some(
            group(
                "class"@,
                name_or_anonymous(n),
                n,
                match syntax::field_child(n, "body"@) {
                    Some(body) => js_methods(body.children),
                    None => Seq::empty(),
                },
            ),
        )
    } else if (n.kind == "lexical_declaration"@ || n.kind == "variable_declaration"@) && top {
        js_declared(n.children, n)
    } else {
        None
    }
}

/// The name of a Rust type or `impl` block; that of an `impl` block is its type.
pub open spec fn rust_container_name(n: NodeV) -> Seq<char> {
    match field_text(n, "name"@) {
        Some(name) => name,
        None => match field_text(n, "type"@) {
            Some(ty) => text::first_line_spec(ty),
            None => "(anonymous)"@,
        },
    }
}

/// How the kind of a Rust container is shown.
pub open spec fn rust_container(kind: Seq<char>) -> Option<Seq<char>> {
    if kind == "struct_item"@ {
        Some("struct"@)
    } else if kind == "enum_item"@ {
        Some("enum"@)
    } else if kind == "trait_item"@ {
        Some("trait"@)
    } else if kind == "impl_item"@ {
        Some("impl"@)
    } else {
        None
    }
}

/// The entry for a node of a Rust file.
pub open spec fn rust_item(n: NodeV, top: bool) -> Option<ItemV>
    decreases n, 1int,
{
    proof {
        syntax::lemma_field_child(n, "body"@);
    }
    let members = match syntax::field_child(n, "body"@) {
        Some(body) => rust_items(body.children),
        None => Seq::empty(),
    };
    if n.kind == "function_item"@ {
        leaf("fn"@, field_text(n, "name"@), n)
    } else if n.kind == "mod_item"@ {
        Some(group("mod"@, name_or_anonymous(n), n, members))
    } else if rust_container(n.kind) is Some {
        Some(group(rust_container(n.kind)->Some_0, rust_container_name(n), n, members))
    } else if (n.kind == "const_item"@ || n.kind == "static_item"@) && top {
        leaf("var"@, field_text(n, "name"@), n)
    } else {
        None
    }
}

/// The entries for the nodes of the body of a Rust module or container.
pub open spec fn rust_items(nodes: Seq<NodeV>) -> Seq<ItemV>
    decreases nodes, 0int,
{
    if nodes.len() == 0 {
        Seq::empty()
    } else {
        with_item(rust_items(nodes.drop_last()), rust_item(nodes.last(), false))
    }
}

/// The name of the first type that a Go declaration specifies.
pub open spec fn go_type(nodes: Seq<NodeV>) -> Option<Seq<char>>
    decreases nodes.len(),
{
    if nodes.len() == 0 {
        None
    } else if nodes[0].kind == "type_spec"@ {
        field_text(nodes[0], "name"@)
    } else {
        go_type(nodes.drop_first())
    }
}

/// The entry for a node of a Go file.
pub open spec fn go_item(n: NodeV, top: bool) -> Option<ItemV> {
    if n.kind == "function_declaration"@ || n.kind == "method_declaration"@ {
        leaf("fn"@, field_text(n, "name"@), n)
    } else if n.kind == "type_declaration"@ && top {
        leaf("type"@, go_type(n.children), n)
    } else {
        None
    }
}

/// The entry for a node at the top of a file in a language.
pub open spec fn top_item(n: NodeV, lang_name: Seq<char>) -> Option<ItemV> {
    if lang_name == "cpp"@ || lang_name == "c"@ {
        c_item(n, lang_name == "cpp"@, true)
    } else if lang_name == "python"@ {
        python_item(n, true)
    } else if lang_name == "javascript"@ {
        js_item(n, true)
    } else if lang_name == "rust"@ {
        rust_item(n, true)
    } else if lang_name == "go"@ {
        go_item(n, true)
    } else {
        None
    }
}

/// The entries for the nodes at the top of a file.
pub open spec fn top_items(nodes: Seq<NodeV>, lang_name: Seq<char>) -> Seq<ItemV>
    decreases nodes.len(),
{
    if nodes.len() == 0 {
        Seq::empty()
    } else {
        with_item(top_items(nodes.drop_last(), lang_name), top_item(nodes.last(), lang_name))
    }
}

/// The functions among the entries and all below them: the name and the line of each.
pub open spec fn functions(items: Seq<ItemV>) -> Seq<(Seq<char>, usize)>
    decreases items,
{
    if items.len() == 0 {
        Seq::empty()
    } else {
        let item = items.last();
        let own = if item.kind == "fn"@ {
            seq![(item.name, item.line)]
        } else {
            Seq::empty()
        };
        functions(items.drop_last()) + (own + functions(item.children))
    }
}

/// The functions that a source text in a language defines.
pub open spec fn function_locs(lang_name: Seq<char>, source: Seq<u8>) -> Seq<(Seq<char>, usize)> {
    match lang::grammar_named(lang_name) {
        Some(g) => functions(top_items(syntax::syntax_tree(g, source).children, lang_name)),
        None => Seq::empty(),
    }
}

/// The line that shows an entry.
pub open spec fn item_line(item: ItemV, prefix: Seq<char>, last: bool) -> Seq<char> {
    prefix + connector_spec(last) + item.kind + " "@ + item.name + "  :"@ + text::decimal_digits(
        item.line as nat,
    )
}

/// What leads to an entry of a tree.
pub open spec fn connector_spec(last: bool) -> Seq<char> {
    if last {
        "└── "@
    } else {
        "├── "@
    }
}

/// What stands before the entries below an entry.
pub open spec fn indent_spec(last: bool) -> Seq<char> {
    if last {
        "    "@
    } else {
        "│   "@
    }
}

/// The lines that show the entries from the position `i` on, and all below them.
pub open spec fn item_lines(items: Seq<ItemV>, i: nat, prefix: Seq<char>) -> Seq<Seq<char>>
    decreases items, items.len() - i,
{
    if i >= items.len() {
        Seq::empty()
    } else {
        let last = i == items.len() - 1;
        proof {
            assert(decreases_to!(items => items[i as int]));
        }
        (seq![item_line(items[i as int], prefix, last)] + item_lines(
            items[i as int].children,
            0,
            prefix + indent_spec(last),
        )) + item_lines(items, i + 1, prefix)
    }
}

/// How many entries there are, with all below them.
pub open spec fn count(items: Seq<ItemV>) -> nat
    decreases items,
{
    if items.len() == 0 {
        0
    } else {
        count(items.drop_last()) + 1 + count(items.last().children)
    }
}

/// An outline has a line for each entry, and each function of the index has one of them.
pub proof fn law_outline_shows_all(items: Seq<ItemV>, prefix: Seq<char>)
    ensures
        item_lines(items, 0, prefix).len() == count(items),
        forall|k: int|
            0 <= k < functions(items).len() ==> is_shown(
                item_lines(items, 0, prefix),
                #[trigger] functions(items)[k],
            ),
{
    lemma_lines_from(items, 0, prefix);
    assert(items.skip(0) =~= items);
    assert forall|k: int| 0 <= k < functions(items).len() implies is_shown(
        item_lines(items, 0, prefix),
        #[trigger] functions(items)[k],
    ) by {
        assert(functions(items).contains(functions(items)[k]));
    }
}

/// Whether one of the lines shows a function.
pub open spec fn is_shown(lines: Seq<Seq<char>>, f: (Seq<char>, usize)) -> bool {
    exists|i: int|
        0 <= i < lines.len() && ends_in(
            #[trigger] lines[i],
            "fn"@ + " "@ + f.0 + "  :"@ + text::decimal_digits(f.1 as nat),
        )
}

/// Whether a text ends in another one.
pub open spec fn ends_in(s: Seq<char>, end: Seq<char>) -> bool {
    s.len() >= end.len() && s.skip(s.len() - end.len()) == end
}

proof fn lemma_parts(a: Seq<ItemV>, b: Seq<ItemV>)
    ensures
        functions(a + b) == functions(a) + functions(b),
        count(a + b) == count(a) + count(b),
    decreases b.len(),
{
    if b.len() == 0 {
        assert(a + b =~= a);
        assert(functions(a) + functions(b) =~= functions(a));
    } else {
        lemma_parts(a, b.drop_last());
        assert((a + b).drop_last() =~= a + b.drop_last());
        assert((a + b).last() == b.last());
        let item = b.last();
        let own = if item.kind == "fn"@ {
            seq![(item.name, item.line)]
        } else {
            Seq::empty()
        };
        let tail = own + functions(item.children);
        assert((functions(a) + functions(b.drop_last())) + tail =~= functions(a) + (functions(
            b.drop_last(),
        ) + tail));
    }
}

proof fn lemma_shown(a: Seq<Seq<char>>, b: Seq<Seq<char>>, f: (Seq<char>, usize))
    ensures
        is_shown(a, f) || is_shown(b, f) ==> is_shown(a + b, f),
{
    let end = "fn"@ + " "@ + f.0 + "  :"@ + text::decimal_digits(f.1 as nat);
    if is_shown(a, f) {
        let i = choose|i: int| 0 <= i < a.len() && ends_in(#[trigger] a[i], end);
        assert((a + b)[i] == a[i]);
    } else if is_shown(b, f) {
        let i = choose|i: int| 0 <= i < b.len() && ends_in(#[trigger] b[i], end);
        assert((a + b)[a.len() + i] == b[i]);
    }
}

proof fn lemma_lines_from(items: Seq<ItemV>, i: nat, prefix: Seq<char>)
    requires
        i <= items.len(),
    ensures
        item_lines(items, i, prefix).len() == count(items.skip(i as int)),
        forall|f: (Seq<char>, usize)| #[trigger]
            functions(items.skip(i as int)).contains(f) ==> is_shown(
                item_lines(items, i, prefix),
                f,
            ),
    decreases items, items.len() - i,
{
    let rest = items.skip(i as int);
    if i < items.len() {
        let item = items[i as int];
        let last = i == items.len() - 1;
        let below = prefix + indent_spec(last);
        let line = item_line(item, prefix, last);
        let inner = item_lines(item.children, 0, below);
        let later = item_lines(items, i + 1, prefix);
        assert(decreases_to!(items => items[i as int]));
        lemma_lines_from(item.children, 0, below);
        lemma_lines_from(items, i + 1, prefix);
        assert(item.children.skip(0) =~= item.children);
        let one = seq![item];
        assert(rest =~= one + items.skip((i + 1) as int));
        lemma_parts(one, items.skip((i + 1) as int));
        assert(one.drop_last() =~= Seq::empty());
        assert(functions(one.drop_last()) =~= Seq::empty());
        assert(count(one.drop_last()) == 0);
        let own = if item.kind == "fn"@ {
            seq![(item.name, item.line)]
        } else {
            Seq::empty()
        };
        assert(functions(one) =~= own + functions(item.children));
        assert forall|f: (Seq<char>, usize)| #[trigger]
            functions(rest).contains(f) implies is_shown(
            item_lines(items, i, prefix),
            f,
        ) by {
            let all = functions(rest);
            let k = all.index_of(f);
            lemma_shown(seq![line], inner, f);
            lemma_shown(seq![line] + inner, later, f);
            if k < own.len() {
                assert(f == (item.name, item.line));
                let end = "fn"@ + " "@ + f.0 + "  :"@ + text::decimal_digits(f.1 as nat);
                let head = prefix + connector_spec(last);
                assert(line =~= head + end);
                assert(line.skip(line.len() - end.len()) =~= end);
                assert(ends_in(seq![line][0], end));
            } else if k < functions(one).len() {
                assert(functions(item.children)[k - own.len()] == f);
                assert(functions(item.children.skip(0)).contains(f));
            } else {
                assert(functions(items.skip((i + 1) as int))[k - functions(one).len()] == f);
                assert(functions(items.skip((i + 1) as int)).contains(f));
            }
        }
    } else {
        assert(rest =~= Seq::empty());
    }
}

/// The language of a file: the given one, or else that of the extension.
pub open spec fn language_of(path: Seq<char>, lang_name: Option<Seq<char>>) -> Option<Seq<char>> {
    match lang_name {
        Some(n) => Some(n),
        None => match path::extension_spec(path) {
            Some(ext) => match lang::grammar_of_extension(ext) {
                Some(g) => Some(lang::canonical(g)),
                None => None,
            },
            None => None,
        },
    }
}

/// The outline of a file, or why there is none.
pub open spec fn outline(path: Seq<char>, lang_name: Option<Seq<char>>, source: Seq<u8>) -> Result<
    Seq<Seq<char>>,
    Seq<char>,
> {
    match language_of(path, lang_name) {
        None => Err("Cannot detect language; use --lang"@),
        Some(name) => match lang::grammar_named(name) {
            None => Err("Unknown language: "@ + name),
            Some(g) => Ok(
                seq![path] + item_lines(
                    top_items(syntax::syntax_tree(g, source).children, name),
                    0,
                    ""@,
                ),
            ),
        },
    }
}

// ---------------------------------------------------------------------------
// Making an outline
// ---------------------------------------------------------------------------

/// The text of the node in a field.
fn text_in(node: &Node, field: &str) -> (r: Option<String>)
    ensures
        text::opt_view(r) == field_text(node@, field@),
{
    match node.child_by_field_name(field) {
        Some(c) => Some(c.content()),
        None => None,
    }
}

fn name_of(node: &Node) -> (r: String)
    ensures
        r@ == name_or_anonymous(node@),
{
    match text_in(node, "name") {
        Some(name) => name,
        None => "(anonymous)".to_string(),
    }
}

fn grouped(kind: &'static str, name: String, node: &Node, children: Vec<Item>) -> (r: Item)
    ensures
        r@ == group(kind@, name@, node@, text::views(children@)),
{
    let r = Item { kind, name, line: node.line(), children };
    assert(r@.children =~= text::views(children@));
    r
}

fn single(kind: &'static str, name: Option<String>, node: &Node) -> (r: Option<Item>)
    ensures
        text::opt_view(r) == leaf(kind@, text::opt_view(name), node@),
{
    match name {
        Some(name) => {
            let none: Vec<Item> = Vec::new();
            assert(text::views(none@) =~= Seq::<ItemV>::empty());
            Some(grouped(kind, name, node, none))
        },
        None => None,
    }
}

/// Appends what is there of an entry.
fn push_item(out: &mut Vec<Item>, item: Option<Item>)
    ensures
        text::views(final(out)@) == with_item(text::views(old(out)@), text::opt_view(item)),
{
    let ghost before = text::views(out@);
    if let Some(i) = item {
        let ghost view = i@;
        out.push(i);
        assert(text::views(out@) =~= before.push(view));
    }
}

// ── C / C++ ─────────────────────────────────────────────────────────────────

fn dig(node: &Node) -> (r: Option<String>)
    ensures
        text::opt_view(r) == declared_name(node@),
    decreases node@,
{
    proof {
        syntax::lemma_field_child(node@, "declarator"@);
        syntax::lemma_field_child(node@, "name"@);
    }
    if node.is("identifier") || node.is("field_identifier") {
        Some(node.content())
    } else if let Some(d) = node.child_by_field_name("declarator") {
        dig(d)
    } else if let Some(d) = node.child_by_field_name("name") {
        dig(d)
    } else {
        None
    }
}

/// function_definition → declarator field → function_declarator → declarator → identifier
fn fn_name_c(node: &Node) -> (r: Option<String>)
    ensures
        text::opt_view(r) == c_function_name(node@),
{
    match node.child_by_field_name("declarator") {
        Some(d) => dig(d),
        None => None,
    }
}

/// method prototype: `int Foo(args);` inside a class body
fn field_decl_method(node: &Node) -> (r: Option<Item>)
    ensures
        text::opt_view(r) == c_prototype(node@),
{
    if !node.is("field_declaration") {
        return None;
    }
    match node.child_by_field_name("declarator") {
        Some(d) => if d.is("function_declarator") {
            single("fn", text_in(d, "declarator"), node)
        } else {
            None
        },
        None => None,
    }
}

/// simple heuristic: first identifier child that isn't a type keyword
fn var_name_c(node: &Node) -> (r: Option<String>)
    ensures
        text::opt_view(r) == c_variable(node@.children),
{
    let ghost all = node@.children;
    let mut i: usize = 0;
    assert(all.skip(0) =~= all);
    while i < node.children.len()
        invariant
            i <= node.children@.len(),
            all == node@.children,
            c_variable(all) == c_variable(all.skip(i as int)),
        decreases node.children@.len() - i,
    {
        let child: &Node = &node.children[i];
        assert(all.skip(i as int)[0] == child@);
        assert(all.skip(i as int).drop_first() =~= all.skip(i + 1));
        if child.is("identifier") {
            return Some(child.content());
        }
        if child.is("init_declarator") {
            if let Some(d) = child.child_by_field_name("declarator") {
                return Some(d.content());
            }
        }
        i += 1;
    }
    None
}

fn extract_c(node: &Node, cpp: bool, top: bool) -> (r: Option<Item>)
    ensures
        text::opt_view(r) == c_item(node@, cpp, top),
    decreases node@, 1int,
{
    proof {
        syntax::lemma_field_child(node@, "body"@);
    }
    let body: Option<&Node> = node.child_by_field_name("body");
    if node.is("function_definition") {
        single("fn", fn_name_c(node), node)
    } else if cpp && node.is("namespace_definition") {
        let children: Vec<Item> = match body {
            Some(b) => members_c(b, cpp, false),
            None => no_items(),
        };
        Some(grouped("namespace", name_of(node), node, children))
    } else if cpp && (node.is("class_specifier") || node.is("struct_specifier")) {
        let children: Vec<Item> = match body {
            Some(b) => members_c(b, cpp, true),
            None => no_items(),
        };
        let kind: &'static str = if node.is("class_specifier") {
            "class"
        } else {
            "struct"
        };
        Some(grouped(kind, name_of(node), node, children))
    } else if top && node.is("declaration") {
        // top-level variable declarations
        single("var", var_name_c(node), node)
    } else {
        None
    }
}

fn no_items() -> (r: Vec<Item>)
    ensures
        text::views(r@) == Seq::<ItemV>::empty(),
{
    let none: Vec<Item> = Vec::new();
    assert(text::views(none@) =~= Seq::<ItemV>::empty());
    none
}

/// The entries for the children of a node.
fn members_c(node: &Node, cpp: bool, in_class: bool) -> (r: Vec<Item>)
    ensures
        text::views(r@) == c_items(node@.children, cpp, in_class),
    decreases node@, 0int,
{
    let ghost all = node@.children;
    let mut out: Vec<Item> = Vec::new();
    let mut i: usize = 0;
    assert(text::views(out@) =~= c_items(all.take(0), cpp, in_class));
    while i < node.children.len()
        invariant
            i <= node.children@.len(),
            all == node@.children,
            text::views(out@) == c_items(all.take(i as int), cpp, in_class),
        decreases node.children@.len() - i,
    {
        let child: &Node = &node.children[i];
        assert(all.take(i + 1).drop_last() =~= all.take(i as int));
        assert(all.take(i + 1).last() == child@);
        assert(decreases_to!(node@ => node@.children[i as int]));
        push_item(&mut out, extract_c(child, cpp, false));
        if in_class {
            // field_declaration can contain function_declarator (prototype)
            push_item(&mut out, field_decl_method(child));
        }
        i += 1;
    }
    assert(all.take(i as int) =~= all);
    out
}

// ── Python ───────────────────────────────────────────────────────────────────

/// `x = ...` at top level
fn var_name_python(node: &Node) -> (r: Option<String>)
    ensures
        text::opt_view(r) == python_variable(node@),
{
    match node.first_named_child() {
        Some(a) => if a.is("assignment") {
            match a.child_by_field_name("left") {
                Some(lhs) => if lhs.is("identifier") {
                    Some(lhs.content())
                } else {
                    None
                },
                None => None,
            }
        } else {
            None
        },
        None => None,
    }
}

fn extract_python(node: &Node, top: bool) -> (r: Option<Item>)
    ensures
        text::opt_view(r) == python_item(node@, top),
    decreases node@, 1int,
{
    proof {
        syntax::lemma_field_child(node@, "body"@);
    }
    if node.is("function_definition") {
        single("fn", text_in(node, "name"), node)
    } else if node.is("class_definition") {
        let children: Vec<Item> = match node.child_by_field_name("body") {
            Some(b) => members_python(b),
            None => no_items(),
        };
        Some(grouped("class", name_of(node), node, children))
    } else if top && node.is("expression_statement") {
        single("var", var_name_python(node), node)
    } else {
        None
    }
}

/// The entries for the children of a node.
fn members_python(node: &Node) -> (r: Vec<Item>)
    ensures
        text::views(r@) == python_items(node@.children),
    decreases node@, 0int,
{
    let ghost all = node@.children;
    let mut out: Vec<Item> = Vec::new();
    let mut i: usize = 0;
    assert(text::views(out@) =~= python_items(all.take(0)));
    while i < node.children.len()
        invariant
            i <= node.children@.len(),
            all == node@.children,
            text::views(out@) == python_items(all.take(i as int)),
        decreases node.children@.len() - i,
    {
        let child: &Node = &node.children[i];
        assert(all.take(i + 1).drop_last() =~= all.take(i as int));
        assert(all.take(i + 1).last() == child@);
        assert(decreases_to!(node@ => node@.children[i as int]));
        push_item(&mut out, extract_python(child, false));
        i += 1;
    }
    assert(all.take(i as int) =~= all);
    out
}

// ── JavaScript ───────────────────────────────────────────────────────────────

fn methods_js(node: &Node) -> (r: Vec<Item>)
    ensures
        text::views(r@) == js_methods(node@.children),
{
    let ghost all = node@.children;
    let mut out: Vec<Item> = Vec::new();
    let mut i: usize = 0;
    assert(text::views(out@) =~= js_methods(all.take(0)));
    while i < node.children.len()
        invariant
            i <= node.children@.len(),
            all == node@.children,
            text::views(out@) == js_methods(all.take(i as int)),
        decreases node.children@.len() - i,
    {
        let child: &Node = &node.children[i];
        assert(all.take(i + 1).drop_last() =~= all.take(i as int));
        assert(all.take(i + 1).last() == child@);
        if child.is("method_definition") {
            push_item(&mut out, single("fn", text_in(child, "name"), child));
        }
        i += 1;
    }
    assert(all.take(i as int) =~= all);
    out
}

fn binds_function(node: &Node) -> (r: bool)
    ensures
        r == js_binds_function(node@),
{
    match node.child_by_field_name("value") {
        Some(v) => v.is("arrow_function") || v.is("function_expression") || v.is("function"),
        None => false,
    }
}

fn declared_js(node: &Node) -> (r: Option<Item>)
    ensures
        text::opt_view(r) == js_declared(node@.children, node@),
{
    let ghost all = node@.children;
    let mut i: usize = 0;
    assert(all.skip(0) =~= all);
    while i < node.children.len()
        invariant
            i <= node.children@.len(),
            all == node@.children,
            js_declared(all, node@) == js_declared(all.skip(i as int), node@),
        decreases node.children@.len() - i,
    {
        let child: &Node = &node.children[i];
        assert(all.skip(i as int)[0] == child@);
        assert(all.skip(i as int).drop_first() =~= all.skip(i + 1));
        if child.is("variable_declarator") {
            if let Some(name) = text_in(child, "name") {
                // arrow functions / function expressions: show as fn
                let kind: &'static str = if binds_function(child) {
                    "fn"
                } else {
                    "var"
                };
                return single(kind, Some(name), node);
            }
        }
        i += 1;
    }
    None
}

fn extract_js(node: &Node, top: bool) -> (r: Option<Item>)
    ensures
        text::opt_view(r) == js_item(node@, top),
{
    if node.is("function_declaration") {
        single("fn", text_in(node, "name"), node)
    } else if node.is("class_declaration") {
        let children: Vec<Item> = match node.child_by_field_name("body") {
            Some(b) => methods_js(b),
            None => no_items(),
        };
        Some(grouped("class", name_of(node), node, children))
    } else if top && (node.is("lexical_declaration") || node.is("variable_declaration")) {
        declared_js(node)
    } else {
        None
    }
}

// ── Rust ─────────────────────────────────────────────────────────────────────

fn container_name(node: &Node) -> (r: String)
    ensures
        r@ == rust_container_name(node@),
{
    match text_in(node, "name") {
        Some(name) => name,
        // impl Foo — name is the type
        None => match text_in(node, "type") {
            Some(ty) => first_line(ty.as_str()),
            None => "(anonymous)".to_string(),
        },
    }
}

fn container_kind(node: &Node) -> (r: Option<&'static str>)
    ensures
        lang::opt_str(r) == rust_container(node@.kind),
{
    if node.is("struct_item") {
        Some("struct")
    } else if node.is("enum_item") {
        Some("enum")
    } else if node.is("trait_item") {
        Some("trait")
    } else if node.is("impl_item") {
        Some("impl")
    } else {
        None
    }
}

fn extract_rust(node: &Node, top: bool) -> (r: Option<Item>)
    ensures
        text::opt_view(r) == rust_item(node@, top),
    decreases node@, 2int,
{
    if node.is("function_item") {
        single("fn", text_in(node, "name"), node)
    } else if node.is("mod_item") {
        let children: Vec<Item> = body_rust(node);
        Some(grouped("mod", name_of(node), node, children))
    } else if let Some(kind) = container_kind(node) {
        let children: Vec<Item> = body_rust(node);
        Some(grouped(kind, container_name(node), node, children))
    } else if top && (node.is("const_item") || node.is("static_item")) {
        single("var", text_in(node, "name"), node)
    } else {
        None
    }
}

/// The entries for the body of a node.
fn body_rust(node: &Node) -> (r: Vec<Item>)
    ensures
        text::views(r@) == (match syntax::field_child(node@, "body"@) {
            Some(body) => rust_items(body.children),
            None => Seq::empty(),
        }),
    decreases node@, 1int,
{
    proof {
        syntax::lemma_field_child(node@, "body"@);
    }
    match node.child_by_field_name("body") {
        Some(b) => members_rust(b),
        None => no_items(),
    }
}

/// The entries for the children of a node.
fn members_rust(node: &Node) -> (r: Vec<Item>)
    ensures
        text::views(r@) == rust_items(node@.children),
    decreases node@, 0int,
{
    let ghost all = node@.children;
    let mut out: Vec<Item> = Vec::new();
    let mut i: usize = 0;
    assert(text::views(out@) =~= rust_items(all.take(0)));
    while i < node.children.len()
        invariant
            i <= node.children@.len(),
            all == node@.children,
            text::views(out@) == rust_items(all.take(i as int)),
        decreases node.children@.len() - i,
    {
        let child: &Node = &node.children[i];
        assert(all.take(i + 1).drop_last() =~= all.take(i as int));
        assert(all.take(i + 1).last() == child@);
        assert(decreases_to!(node@ => node@.children[i as int]));
        push_item(&mut out, extract_rust(child, false));
        i += 1;
    }
    assert(all.take(i as int) =~= all);
    out
}

// ── Go ───────────────────────────────────────────────────────────────────────

fn type_name_go(node: &Node) -> (r: Option<String>)
    ensures
        text::opt_view(r) == go_type(node@.children),
{
    let ghost all = node@.children;
    let mut i: usize = 0;
    assert(all.skip(0) =~= all);
    while i < node.children.len()
        invariant
            i <= node.children@.len(),
            all == node@.children,
            go_type(all) == go_type(all.skip(i as int)),
        decreases node.children@.len() - i,
    {
        let child: &Node = &node.children[i];
        assert(all.skip(i as int)[0] == child@);
        assert(all.skip(i as int).drop_first() =~= all.skip(i + 1));
        if child.is("type_spec") {
            return text_in(child, "name");
        }
        i += 1;
    }
    None
}

fn extract_go(node: &Node, top: bool) -> (r: Option<Item>)
    ensures
        text::opt_view(r) == go_item(node@, top),
{
    if node.is("function_declaration") || node.is("method_declaration") {
        single("fn", text_in(node, "name"), node)
    } else if top && node.is("type_declaration") {
        single("type", type_name_go(node), node)
    } else {
        None
    }
}

// ── The whole file ───────────────────────────────────────────────────────────

fn try_extract(node: &Node, lang_name: &str) -> (r: Option<Item>)
    ensures
        text::opt_view(r) == top_item(node@, lang_name@),
{
    if str_eq(lang_name, "cpp") {
        extract_c(node, true, true)
    } else if str_eq(lang_name, "c") {
        extract_c(node, false, true)
    } else if str_eq(lang_name, "python") {
        extract_python(node, true)
    } else if str_eq(lang_name, "javascript") {
        extract_js(node, true)
    } else if str_eq(lang_name, "rust") {
        extract_rust(node, true)
    } else if str_eq(lang_name, "go") {
        extract_go(node, true)
    } else {
        None
    }
}

/// The outline of a syntax tree.
pub fn collect_items(root: &Node, lang_name: &str) -> (r: Vec<Item>)
    ensures
        text::views(r@) == top_items(root@.children, lang_name@),
{
    let ghost all = root@.children;
    let mut out: Vec<Item> = Vec::new();
    let mut i: usize = 0;
    assert(text::views(out@) =~= top_items(all.take(0), lang_name@));
    while i < root.children.len()
        invariant
            i <= root.children@.len(),
            all == root@.children,
            text::views(out@) == top_items(all.take(i as int), lang_name@),
        decreases root.children@.len() - i,
    {
        let child: &Node = &root.children[i];
        assert(all.take(i + 1).drop_last() =~= all.take(i as int));
        assert(all.take(i + 1).last() == child@);
        push_item(&mut out, try_extract(child, lang_name));
        i += 1;
    }
    assert(all.take(i as int) =~= all);
    out
}

/// The views of a list of places.
pub open spec fn locs_view(v: Seq<(String, usize)>) -> Seq<(Seq<char>, usize)> {
    v.map_values(|p: (String, usize)| (p.0@, p.1))
}

/// Appends the functions among the entries and all below them.
fn fn_locs_recursive(items: &Vec<Item>, out: &mut Vec<(String, usize)>)
    ensures
        locs_view(final(out)@) == locs_view(old(out)@) + functions(text::views(items@)),
    decreases items@,
{
    let ghost all = text::views(items@);
    let ghost before = locs_view(out@);
    let mut i: usize = 0;
    assert(locs_view(out@) =~= before + functions(all.take(0)));
    while i < items.len()
        invariant
            i <= items@.len(),
            all == text::views(items@),
            locs_view(out@) == before + functions(all.take(i as int)),
        decreases items@.len() - i,
    {
        let item: &Item = &items[i];
        let ghost done = functions(all.take(i as int));
        let ghost own = if item@.kind == "fn"@ {
            seq![(item@.name, item@.line)]
        } else {
            Seq::empty()
        };
        assert(all.take(i + 1).drop_last() =~= all.take(i as int));
        assert(all.take(i + 1).last() == item@);
        assert(item@.children =~= text::views(item.children@));
        assert(decreases_to!(items@ => items@[i as int]));
        let ghost now = locs_view(out@);
        if str_eq(item.kind, "fn") {
            out.push((item.name.clone(), item.line));
        }
        assert(locs_view(out@) =~= now + own);
        fn_locs_recursive(&item.children, out);
        i += 1;
        assert(locs_view(out@) =~= before + functions(all.take(i as int)));
    }
    assert(all.take(i as int) =~= all);
}

/// The functions that a source text defines: the name and the line of each.
pub fn collect_function_locs(source: &[u8], lang_name: &str) -> (r: Vec<(String, usize)>)
    ensures
        locs_view(r@) == function_locs(lang_name@, source@),
{
    let mut locs: Vec<(String, usize)> = Vec::new();
    assert(locs_view(locs@) =~= Seq::empty());
    if let Some(l) = for_name(lang_name) {
        let grammar: Grammar = l.ts_language();
        if let Ok(root) = parse_source(grammar, source) {
            let items: Vec<Item> = collect_items(&root, lang_name);
            fn_locs_recursive(&items, &mut locs);
            assert(locs_view(locs@) =~= functions(text::views(items@)));
        }
    }
    locs
}

// ── Printer ───────────────────────────────────────────────────────────────────

pub(crate) fn connector(last: bool) -> (r: &'static str)
    ensures
        r@ == connector_spec(last),
{
    if last {
        "└── "
    } else {
        "├── "
    }
}

pub(crate) fn indent(last: bool) -> (r: &'static str)
    ensures
        r@ == indent_spec(last),
{
    if last {
        "    "
    } else {
        "│   "
    }
}

fn print_item(item: &Item, prefix: &str, last: bool) -> (r: String)
    ensures
        r@ == item_line(item@, prefix@, last),
{
    let mut line: String = prefix.to_string();
    line.append(connector(last));
    line.append(item.kind);
    line.append(" ");
    line.append(item.name.as_str());
    line.append("  :");
    line.append(decimal(item.line).as_str());
    line
}

/// Appends the lines that show the entries and all below them.
fn print_items(items: &Vec<Item>, prefix: &str, out: &mut Vec<String>)
    ensures
        text::views(final(out)@) == text::views(old(out)@) + item_lines(
            text::views(items@),
            0,
            prefix@,
        ),
    decreases items@,
{
    let ghost all = text::views(items@);
    let ghost before = text::views(out@);
    let ghost whole = before + item_lines(all, 0, prefix@);
    let mut i: usize = 0;
    while i < items.len()
        invariant
            i <= items@.len(),
            all == text::views(items@),
            whole == text::views(out@) + item_lines(all, i as nat, prefix@),
        decreases items@.len() - i,
    {
        let item: &Item = &items[i];
        let ghost now = text::views(out@);
        assert(all[i as int] == item@);
        assert(item@.children =~= text::views(item.children@));
        assert(decreases_to!(items@ => items@[i as int]));
        let last: bool = i == items.len() - 1;
        push_string(out, print_item(item, prefix, last));
        let mut inner: String = prefix.to_string();
        inner.append(indent(last));
        print_items(&item.children, inner.as_str(), out);
        let ghost below = item_lines(item@.children, 0, prefix@ + indent_spec(last));
        assert(text::views(out@) =~= now + (seq![item_line(item@, prefix@, last)] + below));
        assert(whole =~= text::views(out@) + item_lines(all, (i + 1) as nat, prefix@));
        i += 1;
    }
    assert(whole =~= text::views(out@));
}

/// The outline of a file, line by line; the first line is the path. Without a language
/// of that name, or with none for the extension, there is none.
pub fn run(path: &str, lang_name: Option<&str>, source: &[u8]) -> (r: Result<Vec<String>, String>)
    ensures
        runner::lines_view(r) == outline(path@, text::opt_view(lang_name), source@),
{
    let inferred: Option<String> = extension(path);
    let name: &str = match lang_name {
        Some(n) => n,
        None => {
            let found: Option<&'static str> = match &inferred {
                Some(ext) => lang_for_extension(ext.as_str()),
                None => None,
            };
            match found {
                Some(n) => n,
                None => {
                    return Err("Cannot detect language; use --lang".to_string());
                },
            }
        },
    };
    let grammar: Grammar = match for_name(name) {
        Some(l) => l.ts_language(),
        None => {
            let mut message: String = "Unknown language: ".to_string();
            message.append(name);
            return Err(message);
        },
    };
    let root: Node = match parse_source(grammar, source) {
        Ok(root) => root,
        Err(e) => {
            return Err(e);
        },
    };
    let mut out: Vec<String> = Vec::new();
    push_string(&mut out, path.to_string());
    assert(text::views(out@) =~= seq![path@]);
    let items: Vec<Item> = collect_items(&root, name);
    print_items(&items, "", &mut out);
    Ok(out)
}

} // verus!
