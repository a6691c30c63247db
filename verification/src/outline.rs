//! What an outline shows, said of the places in a syntax tree.

use vstd::prelude::*;
use crate::compiler::lang;
use crate::path;
use crate::syntax;
use crate::syntax::{Grammar, NodeV};
use crate::text;
use crate::tree;
use crate::tree::ItemV;
use crate::walk;

verus! {

broadcast use vstd::string::group_string_axioms;

/// An entry of an outline, and how many others it stands below.
#[verifier::ext_equal]
pub struct Entry {
    pub kind: Seq<char>,
    pub name: Seq<char>,
    pub line: usize,
    pub depth: nat,
}

/// Where a node stands: at the top of the file, in the body of a class, and below how many
/// others that have an entry.
#[verifier::ext_equal]
pub struct Spot {
    pub top: bool,
    pub in_class: bool,
    pub depth: nat,
}

/// The top of a file.
pub open spec fn top() -> Spot {
    Spot { top: true, in_class: false, depth: 0 }
}

/// In the body of a node.
pub open spec fn inside(w: Spot, class: bool) -> Spot {
    Spot { top: false, in_class: class, depth: w.depth + 1 }
}

/// The entries in a list and below them, in the order in which they are shown.
pub open spec fn entries(items: Seq<ItemV>, depth: nat) -> Seq<Entry>
    decreases items,
{
    if items.len() == 0 {
        Seq::empty()
    } else {
        let item = items.last();
        entries(items.drop_last(), depth) + (seq![
            Entry { kind: item.kind, name: item.name, line: item.line, depth },
        ] + entries(item.children, depth + 1))
    }
}

/// The nodes in the body of a node.
pub open spec fn inner_nodes(n: NodeV) -> Seq<NodeV> {
    match syntax::field_child(n, "body"@) {
        Some(body) => body.children,
        None => Seq::empty(),
    }
}

/// The text of the node in a field.
pub open spec fn text_in(n: NodeV, field: Seq<char>) -> Option<Seq<char>> {
    match syntax::field_child(n, field) {
        Some(c) => Some(syntax::content(c)),
        None => None,
    }
}

/// The name of a node, or that it has none.
pub open spec fn shown_name(n: NodeV) -> Option<Seq<char>> {
    match text_in(n, "name"@) {
        Some(name) => Some(name),
        None => Some("(anonymous)"@),
    }
}

/// The entry of a node with a name.
pub open spec fn entry(kind: Seq<char>, name: Option<Seq<char>>, n: NodeV, w: Spot) -> Option<
    Entry,
> {
    match name {
        Some(name) => Some(
            Entry { kind, name, line: syntax::line_of(n.start_row), depth: w.depth },
        ),
        None => None,
    }
}

// ---------------------------------------------------------------------------
// Where entries are
// ---------------------------------------------------------------------------

/// From node to node in a C or C++ file: into the bodies of namespaces, classes and structs.
pub open spec fn c_steps(cpp: bool) -> spec_fn(NodeV, Spot) -> (Seq<NodeV>, Spot) {
    |n: NodeV, w: Spot|
        if cpp && n.kind == "namespace_definition"@ {
            (inner_nodes(n), inside(w, false))
        } else if cpp && (n.kind == "class_specifier"@ || n.kind == "struct_specifier"@) {
            (inner_nodes(n), inside(w, true))
        } else {
            (Seq::empty(), inside(w, false))
        }
}

/// The entry of a node in a C or C++ file: functions with the name that they declare, methods
/// that a class announces, namespaces, classes, structs, and variables at the top.
pub open spec fn c_entry(cpp: bool) -> spec_fn(NodeV, Spot) -> Option<Entry> {
    |n: NodeV, w: Spot|
        if n.kind == "function_definition"@ {
            entry(
                "fn"@,
                match syntax::field_child(n, "declarator"@) {
                    Some(d) => tree::declared_name(d),
                    None => None,
                },
                n,
                w,
            )
        } else if n.kind == "field_declaration"@ && w.in_class {
            entry(
                "fn"@,
                match syntax::field_child(n, "declarator"@) {
                    Some(d) => if d.kind == "function_declarator"@ {
                        text_in(d, "declarator"@)
                    } else {
                        None
                    },
                    None => None,
                },
                n,
                w,
            )
        } else if cpp && n.kind == "namespace_definition"@ {
            entry("namespace"@, shown_name(n), n, w)
        } else if cpp && n.kind == "class_specifier"@ {
            entry("class"@, shown_name(n), n, w)
        } else if cpp && n.kind == "struct_specifier"@ {
            entry("struct"@, shown_name(n), n, w)
        } else if n.kind == "declaration"@ && w.top {
            entry("var"@, tree::c_variable(n.children), n, w)
        } else {
            None
        }
}

/// From node to node in a Python file: into the bodies of classes.
pub open spec fn python_steps() -> spec_fn(NodeV, Spot) -> (Seq<NodeV>, Spot) {
    |n: NodeV, w: Spot|
        if n.kind == "class_definition"@ {
            (inner_nodes(n), inside(w, true))
        } else {
            (Seq::empty(), inside(w, false))
        }
}

/// The entry of a node in a Python file: functions, classes, and variables at the top.
pub open spec fn python_entry() -> spec_fn(NodeV, Spot) -> Option<Entry> {
    |n: NodeV, w: Spot|
        if n.kind == "function_definition"@ {
            entry("fn"@, text_in(n, "name"@), n, w)
        } else if n.kind == "class_definition"@ {
            entry("class"@, shown_name(n), n, w)
        } else if n.kind == "expression_statement"@ && w.top {
            entry("var"@, tree::python_variable(n), n, w)
        } else {
            None
        }
}

/// From node to node in a JavaScript file: into the bodies of classes at the top.
pub open spec fn js_steps() -> spec_fn(NodeV, Spot) -> (Seq<NodeV>, Spot) {
    |n: NodeV, w: Spot|
        if n.kind == "class_declaration"@ && !w.in_class {
            (inner_nodes(n), inside(w, true))
        } else {
            (Seq::empty(), inside(w, true))
        }
}

/// The entry of a node in a JavaScript file: methods in classes, and outside of them
/// functions, classes and what is declared.
pub open spec fn js_entry() -> spec_fn(NodeV, Spot) -> Option<Entry> {
    |n: NodeV, w: Spot|
        if w.in_class {
            if n.kind == "method_definition"@ {
                entry("fn"@, text_in(n, "name"@), n, w)
            } else {
                None
            }
        } else if n.kind == "function_declaration"@ {
            entry("fn"@, text_in(n, "name"@), n, w)
        } else if n.kind == "class_declaration"@ {
            entry("class"@, shown_name(n), n, w)
        } else if n.kind == "lexical_declaration"@ || n.kind == "variable_declaration"@ {
            match first_declarator(n.children) {
                Some(d) => entry(
                    if binds_function(d) {
                        "fn"@
                    } else {
                        "var"@
                    },
                    text_in(d, "name"@),
                    n,
                    w,
                ),
                None => None,
            }
        } else {
            None
        }
}

/// Whether a node declares a variable with a name.
pub open spec fn is_declarator(d: NodeV) -> bool {
    d.kind == "variable_declarator"@ && syntax::field_child(d, "name"@) is Some
}

/// The first node that declares a variable with a name.
pub open spec fn first_declarator(nodes: Seq<NodeV>) -> Option<NodeV> {
    let found = nodes.filter(|d: NodeV| is_declarator(d));
    if found.len() > 0 {
        Some(found[0])
    } else {
        None
    }
}

/// Whether the value that a variable is declared with is a function.
pub open spec fn binds_function(d: NodeV) -> bool {
    match syntax::field_child(d, "value"@) {
        Some(v) => v.kind == "arrow_function"@ || v.kind == "function_expression"@ || v.kind
            == "function"@,
        None => false,
    }
}

/// From node to node in a Rust file: into the bodies of modules, structs, enums, traits and
/// `impl` blocks.
pub open spec fn rust_steps() -> spec_fn(NodeV, Spot) -> (Seq<NodeV>, Spot) {
    |n: NodeV, w: Spot|
        if n.kind == "mod_item"@ || n.kind == "struct_item"@ || n.kind == "enum_item"@ || n.kind
            == "trait_item"@ || n.kind == "impl_item"@ {
            (inner_nodes(n), inside(w, false))
        } else {
            (Seq::empty(), inside(w, false))
        }
}

/// The name of a Rust item; of an `impl` block, the first line of its type.
pub open spec fn rust_name(n: NodeV) -> Option<Seq<char>> {
    match (text_in(n, "name"@), text_in(n, "type"@)) {
        (Some(name), _) => Some(name),
        (None, Some(ty)) => Some(text::first_line_spec(ty)),
        (None, None) => Some("(anonymous)"@),
    }
}

/// The entry of a node in a Rust file: functions, modules, types, traits, `impl` blocks, and
/// constants and statics at the top.
pub open spec fn rust_entry() -> spec_fn(NodeV, Spot) -> Option<Entry> {
    |n: NodeV, w: Spot|
        if n.kind == "function_item"@ {
            entry("fn"@, text_in(n, "name"@), n, w)
        } else if n.kind == "mod_item"@ {
            entry("mod"@, shown_name(n), n, w)
        } else if n.kind == "struct_item"@ {
            entry("struct"@, rust_name(n), n, w)
        } else if n.kind == "enum_item"@ {
            entry("enum"@, rust_name(n), n, w)
        } else if n.kind == "trait_item"@ {
            entry("trait"@, rust_name(n), n, w)
        } else if n.kind == "impl_item"@ {
            entry("impl"@, rust_name(n), n, w)
        } else if (n.kind == "const_item"@ || n.kind == "static_item"@) && w.top {
            entry("var"@, text_in(n, "name"@), n, w)
        } else {
            None
        }
}

/// In a Go file there are entries at the top only.
pub open spec fn go_steps() -> spec_fn(NodeV, Spot) -> (Seq<NodeV>, Spot) {
    |n: NodeV, w: Spot| (Seq::empty(), inside(w, false))
}

/// The entry of a node in a Go file: functions, methods, and the first type of a declaration.
pub open spec fn go_entry() -> spec_fn(NodeV, Spot) -> Option<Entry> {
    |n: NodeV, w: Spot|
        if n.kind == "function_declaration"@ || n.kind == "method_declaration"@ {
            entry("fn"@, text_in(n, "name"@), n, w)
        } else if n.kind == "type_declaration"@ {
            match first_type(n.children) {
                Some(t) => entry("type"@, text_in(t, "name"@), n, w),
                None => None,
            }
        } else {
            None
        }
}

/// The first node that specifies a type.
pub open spec fn first_type(nodes: Seq<NodeV>) -> Option<NodeV> {
    let found = nodes.filter(|t: NodeV| t.kind == "type_spec"@);
    if found.len() > 0 {
        Some(found[0])
    } else {
        None
    }
}

/// From node to node in a file of a language.
pub open spec fn steps_of(lang_name: Seq<char>) -> spec_fn(NodeV, Spot) -> (Seq<NodeV>, Spot) {
    if lang_name == "cpp"@ || lang_name == "c"@ {
        c_steps(lang_name == "cpp"@)
    } else if lang_name == "python"@ {
        python_steps()
    } else if lang_name == "javascript"@ {
        js_steps()
    } else if lang_name == "rust"@ {
        rust_steps()
    } else {
        go_steps()
    }
}

/// The entry of a node in a file of a language.
pub open spec fn entry_of(lang_name: Seq<char>) -> spec_fn(NodeV, Spot) -> Option<Entry> {
    if lang_name == "cpp"@ || lang_name == "c"@ {
        c_entry(lang_name == "cpp"@)
    } else if lang_name == "python"@ {
        python_entry()
    } else if lang_name == "javascript"@ {
        js_entry()
    } else if lang_name == "rust"@ {
        rust_entry()
    } else if lang_name == "go"@ {
        go_entry()
    } else {
        |n: NodeV, w: Spot| None
    }
}

// ---------------------------------------------------------------------------
// That an outline has them
// ---------------------------------------------------------------------------

/// Whether an item is what a walk finds at a node and below it.
spec fn fits(
    item: Option<ItemV>,
    n: NodeV,
    w: Spot,
    steps: spec_fn(NodeV, Spot) -> (Seq<NodeV>, Spot),
    value: spec_fn(NodeV, Spot) -> Option<Entry>,
) -> bool {
    match item {
        Some(i) => {
            &&& value(n, w) == Some(
                Entry { kind: i.kind, name: i.name, line: i.line, depth: w.depth },
            )
            &&& walk::gathered(
                entries(i.children, w.depth + 1),
                steps(n, w).0,
                steps(n, w).1,
                steps,
                value,
            )
        },
        None => value(n, w) is None && steps(n, w).0.len() == 0,
    }
}

proof fn lemma_push(
    items: Seq<ItemV>,
    item: Option<ItemV>,
    init: Seq<NodeV>,
    n: NodeV,
    w: Spot,
    steps: spec_fn(NodeV, Spot) -> (Seq<NodeV>, Spot),
    value: spec_fn(NodeV, Spot) -> Option<Entry>,
)
    requires
        walk::gathered(entries(items, w.depth), init, w, steps, value),
        fits(item, n, w, steps, value),
    ensures
        walk::gathered(
            entries(tree::with_item(items, item), w.depth),
            init.push(n),
            w,
            steps,
            value,
        ),
{
    let before = entries(items, w.depth);
    let lower = match item {
        Some(i) => entries(i.children, w.depth + 1),
        None => {
            assert(steps(n, w).0 =~= Seq::empty());
            walk::lemma_gathered_none(steps(n, w).1, steps, value);
            Seq::empty()
        },
    };
    walk::lemma_gathered_push(init, n, w, steps, value, before, lower);
    match item {
        Some(i) => {
            assert(items.push(i).drop_last() =~= items);
            assert(items.push(i).last() == i);
        },
        None => {
            assert(before + (walk::some_of(value(n, w)) + lower) =~= before);
        },
    }
}

proof fn lemma_none(
    w: Spot,
    steps: spec_fn(NodeV, Spot) -> (Seq<NodeV>, Spot),
    value: spec_fn(NodeV, Spot) -> Option<Entry>,
)
    ensures
        walk::gathered(entries(Seq::empty(), w.depth), Seq::empty(), w, steps, value),
{
    walk::lemma_gathered_none(w, steps, value);
    assert(entries(Seq::<ItemV>::empty(), w.depth) =~= Seq::empty());
}

proof fn lemma_c_kinds()
    ensures
        "function_definition"@ != "namespace_definition"@,
        "function_definition"@ != "class_specifier"@,
        "function_definition"@ != "struct_specifier"@,
        "function_definition"@ != "field_declaration"@,
        "namespace_definition"@ != "class_specifier"@,
        "namespace_definition"@ != "struct_specifier"@,
        "namespace_definition"@ != "field_declaration"@,
        "class_specifier"@ != "struct_specifier"@,
        "class_specifier"@ != "field_declaration"@,
        "struct_specifier"@ != "field_declaration"@,
        "declaration"@ != "field_declaration"@,
        "declaration"@ != "namespace_definition"@,
        "declaration"@ != "class_specifier"@,
        "declaration"@ != "struct_specifier"@,
{
    reveal_strlit("function_definition");
    reveal_strlit("namespace_definition");
    reveal_strlit("class_specifier");
    reveal_strlit("struct_specifier");
    reveal_strlit("field_declaration");
    reveal_strlit("declaration");
    assert("function_definition"@.len() == 19 && "namespace_definition"@.len() == 20
        && "class_specifier"@.len() == 15 && "struct_specifier"@.len() == 16
        && "field_declaration"@.len() == 17 && "declaration"@.len() == 11);
}

/// The item of a node in a C or C++ file, or else the method that it announces.
spec fn c_any(n: NodeV, cpp: bool, w: Spot) -> Option<ItemV> {
    if w.in_class && tree::c_item(n, cpp, w.top) is None {
        tree::c_prototype(n)
    } else {
        tree::c_item(n, cpp, w.top)
    }
}

proof fn lemma_c_item(n: NodeV, cpp: bool, w: Spot)
    requires
        !(w.top && w.in_class),
    ensures
        fits(c_any(n, cpp, w), n, w, c_steps(cpp), c_entry(cpp)),
        w.in_class ==> tree::c_item(n, cpp, w.top) is None || tree::c_prototype(n) is None,
    decreases n, 1int,
{
    lemma_c_kinds();
    syntax::lemma_field_child(n, "body"@);
    lemma_none(c_steps(cpp)(n, w).1, c_steps(cpp), c_entry(cpp));
    if cpp && n.kind == "namespace_definition"@ {
        match syntax::field_child(n, "body"@) {
            Some(body) => lemma_c_items(body.children, cpp, inside(w, false)),
            None => {},
        }
    } else if cpp && (n.kind == "class_specifier"@ || n.kind == "struct_specifier"@) {
        match syntax::field_child(n, "body"@) {
            Some(body) => lemma_c_items(body.children, cpp, inside(w, true)),
            None => {},
        }
    }
}

proof fn lemma_c_items(nodes: Seq<NodeV>, cpp: bool, w: Spot)
    requires
        !w.top,
    ensures
        walk::gathered(
            entries(tree::c_items(nodes, cpp, w.in_class), w.depth),
            nodes,
            w,
            c_steps(cpp),
            c_entry(cpp),
        ),
    decreases nodes, 0int,
{
    if nodes.len() == 0 {
        assert(nodes =~= Seq::empty());
        assert(tree::c_items(nodes, cpp, w.in_class) =~= Seq::empty());
        lemma_none(w, c_steps(cpp), c_entry(cpp));
    } else {
        let init = nodes.drop_last();
        let n = nodes.last();
        lemma_c_items(init, cpp, w);
        lemma_c_item(n, cpp, w);
        let before = tree::c_items(init, cpp, w.in_class);
        lemma_push(before, c_any(n, cpp, w), init, n, w, c_steps(cpp), c_entry(cpp));
        assert(init.push(n) =~= nodes);
    }
}

proof fn lemma_python_kinds()
    ensures
        "function_definition"@ != "class_definition"@,
        "expression_statement"@ != "class_definition"@,
{
    reveal_strlit("function_definition");
    reveal_strlit("class_definition");
    reveal_strlit("expression_statement");
    assert("function_definition"@[0] == 'f' && "class_definition"@[0] == 'c'
        && "expression_statement"@[0] == 'e');
}

proof fn lemma_python_item(n: NodeV, w: Spot)
    ensures
        fits(tree::python_item(n, w.top), n, w, python_steps(), python_entry()),
    decreases n, 1int,
{
    lemma_python_kinds();
    syntax::lemma_field_child(n, "body"@);
    lemma_none(python_steps()(n, w).1, python_steps(), python_entry());
    if n.kind == "class_definition"@ {
        match syntax::field_child(n, "body"@) {
            Some(body) => lemma_python_items(body.children, inside(w, true)),
            None => {},
        }
    }
}

proof fn lemma_python_items(nodes: Seq<NodeV>, w: Spot)
    requires
        !w.top,
    ensures
        walk::gathered(
            entries(tree::python_items(nodes), w.depth),
            nodes,
            w,
            python_steps(),
            python_entry(),
        ),
    decreases nodes, 0int,
{
    if nodes.len() == 0 {
        assert(nodes =~= Seq::empty());
        assert(tree::python_items(nodes) =~= Seq::empty());
        lemma_none(w, python_steps(), python_entry());
    } else {
        let init = nodes.drop_last();
        let n = nodes.last();
        lemma_python_items(init, w);
        lemma_python_item(n, w);
        lemma_push(
            tree::python_items(init),
            tree::python_item(n, false),
            init,
            n,
            w,
            python_steps(),
            python_entry(),
        );
        assert(init.push(n) =~= nodes);
    }
}

proof fn lemma_js_kinds()
    ensures
        "function_declaration"@ != "class_declaration"@,
        "lexical_declaration"@ != "class_declaration"@,
        "variable_declaration"@ != "class_declaration"@,
        "lexical_declaration"@ != "function_declaration"@,
        "variable_declaration"@ != "function_declaration"@,
{
    reveal_strlit("function_declaration");
    reveal_strlit("class_declaration");
    reveal_strlit("lexical_declaration");
    reveal_strlit("variable_declaration");
    assert("function_declaration"@[0] == 'f' && "class_declaration"@[0] == 'c'
        && "lexical_declaration"@[0] == 'l' && "variable_declaration"@[0] == 'v');
}

/// The first item of a filtered list is the first one, if it is kept, or else that of the
/// others.
proof fn lemma_filter_first(nodes: Seq<NodeV>, keep: spec_fn(NodeV) -> bool)
    requires
        nodes.len() > 0,
    ensures
        nodes.filter(keep) == (if keep(nodes[0]) {
            seq![nodes[0]]
        } else {
            Seq::empty()
        }) + nodes.drop_first().filter(keep),
{
    let one = seq![nodes[0]];
    assert(nodes =~= one + nodes.drop_first());
    Seq::filter_distributes_over_add(one, nodes.drop_first(), keep);
    reveal(Seq::filter);
    assert(one.drop_last() =~= Seq::empty());
    assert(one.drop_last().filter(keep) =~= Seq::empty());
    assert(one.filter(keep) =~= if keep(nodes[0]) {
        seq![nodes[0]]
    } else {
        Seq::empty()
    });
}

proof fn lemma_js_declared(nodes: Seq<NodeV>, n: NodeV)
    ensures
        tree::js_declared(nodes, n) == (match first_declarator(nodes) {
            Some(d) => tree::leaf(
                if binds_function(d) {
                    "fn"@
                } else {
                    "var"@
                },
                text_in(d, "name"@),
                n,
            ),
            None => None,
        }),
    decreases nodes.len(),
{
    let keep = |d: NodeV| is_declarator(d);
    if nodes.len() == 0 {
        reveal(Seq::filter);
        assert(nodes.filter(keep) =~= Seq::empty());
    } else {
        lemma_filter_first(nodes, keep);
        lemma_js_declared(nodes.drop_first(), n);
        let rest = nodes.drop_first().filter(keep);
        assert(Seq::<NodeV>::empty() + rest =~= rest);
    }
}

proof fn lemma_js_methods(nodes: Seq<NodeV>, w: Spot)
    requires
        w.in_class,
    ensures
        walk::gathered(
            entries(tree::js_methods(nodes), w.depth),
            nodes,
            w,
            js_steps(),
            js_entry(),
        ),
    decreases nodes.len(),
{
    if nodes.len() == 0 {
        assert(nodes =~= Seq::empty());
        assert(tree::js_methods(nodes) =~= Seq::empty());
        lemma_none(w, js_steps(), js_entry());
    } else {
        let init = nodes.drop_last();
        let n = nodes.last();
        lemma_js_methods(init, w);
        lemma_none(js_steps()(n, w).1, js_steps(), js_entry());
        let item = if n.kind == "method_definition"@ {
            tree::leaf("fn"@, tree::field_text(n, "name"@), n)
        } else {
            None
        };
        lemma_push(tree::js_methods(init), item, init, n, w, js_steps(), js_entry());
        assert(init.push(n) =~= nodes);
    }
}

proof fn lemma_js_item(n: NodeV, w: Spot)
    requires
        w.top,
        !w.in_class,
    ensures
        fits(tree::js_item(n, w.top), n, w, js_steps(), js_entry()),
{
    lemma_js_kinds();
    lemma_none(js_steps()(n, w).1, js_steps(), js_entry());
    lemma_js_declared(n.children, n);
    if n.kind == "class_declaration"@ {
        match syntax::field_child(n, "body"@) {
            Some(body) => lemma_js_methods(body.children, inside(w, true)),
            None => {},
        }
    }
}

proof fn lemma_rust_kinds()
    ensures
        "function_item"@ != "mod_item"@,
        "function_item"@ != "struct_item"@,
        "function_item"@ != "enum_item"@,
        "function_item"@ != "trait_item"@,
        "function_item"@ != "impl_item"@,
        "const_item"@ != "mod_item"@,
        "const_item"@ != "struct_item"@,
        "const_item"@ != "enum_item"@,
        "const_item"@ != "trait_item"@,
        "const_item"@ != "impl_item"@,
        "static_item"@ != "mod_item"@,
        "static_item"@ != "struct_item"@,
        "static_item"@ != "enum_item"@,
        "static_item"@ != "trait_item"@,
        "static_item"@ != "impl_item"@,
{
    reveal_strlit("function_item");
    reveal_strlit("mod_item");
    reveal_strlit("struct_item");
    reveal_strlit("enum_item");
    reveal_strlit("trait_item");
    reveal_strlit("impl_item");
    reveal_strlit("const_item");
    reveal_strlit("static_item");
    assert("function_item"@[0] == 'f' && "mod_item"@[0] == 'm' && "struct_item"@[2] == 'r'
        && "enum_item"@[0] == 'e' && "trait_item"@[0] == 't' && "impl_item"@[0] == 'i'
        && "const_item"@[0] == 'c' && "static_item"@[2] == 'a' && "static_item"@[0] == 's'
        && "struct_item"@[0] == 's');
}

proof fn lemma_rust_item(n: NodeV, w: Spot)
    ensures
        fits(tree::rust_item(n, w.top), n, w, rust_steps(), rust_entry()),
    decreases n, 1int,
{
    lemma_rust_kinds();
    syntax::lemma_field_child(n, "body"@);
    lemma_none(rust_steps()(n, w).1, rust_steps(), rust_entry());
    match syntax::field_child(n, "body"@) {
        Some(body) => lemma_rust_items(body.children, inside(w, false)),
        None => {},
    }
}

proof fn lemma_rust_items(nodes: Seq<NodeV>, w: Spot)
    requires
        !w.top,
    ensures
        walk::gathered(
            entries(tree::rust_items(nodes), w.depth),
            nodes,
            w,
            rust_steps(),
            rust_entry(),
        ),
    decreases nodes, 0int,
{
    if nodes.len() == 0 {
        assert(nodes =~= Seq::empty());
        assert(tree::rust_items(nodes) =~= Seq::empty());
        lemma_none(w, rust_steps(), rust_entry());
    } else {
        let init = nodes.drop_last();
        let n = nodes.last();
        lemma_rust_items(init, w);
        lemma_rust_item(n, w);
        lemma_push(
            tree::rust_items(init),
            tree::rust_item(n, false),
            init,
            n,
            w,
            rust_steps(),
            rust_entry(),
        );
        assert(init.push(n) =~= nodes);
    }
}

proof fn lemma_go_type(nodes: Seq<NodeV>)
    ensures
        tree::go_type(nodes) == (match first_type(nodes) {
            Some(t) => text_in(t, "name"@),
            None => None,
        }),
    decreases nodes.len(),
{
    let keep = |t: NodeV| t.kind == "type_spec"@;
    if nodes.len() == 0 {
        reveal(Seq::filter);
        assert(nodes.filter(keep) =~= Seq::empty());
    } else {
        lemma_filter_first(nodes, keep);
        lemma_go_type(nodes.drop_first());
        let rest = nodes.drop_first().filter(keep);
        assert(Seq::<NodeV>::empty() + rest =~= rest);
    }
}

proof fn lemma_go_item(n: NodeV, w: Spot)
    requires
        w.top,
    ensures
        fits(tree::go_item(n, w.top), n, w, go_steps(), go_entry()),
{
    lemma_none(go_steps()(n, w).1, go_steps(), go_entry());
    lemma_go_type(n.children);
}

/// An outline has an entry for each node of its kinds, and for no other ones: at the top of the
/// file and in the bodies of what holds others, in the order of the text, each once, with its
/// kind, its name and its line, and as deep as it stands in others.
pub proof fn law_outline_has_all(nodes: Seq<NodeV>, lang_name: Seq<char>)
    ensures
        walk::gathered(
            entries(tree::top_items(nodes, lang_name), 0),
            nodes,
            top(),
            steps_of(lang_name),
            entry_of(lang_name),
        ),
    decreases nodes.len(),
{
    let w = top();
    let steps = steps_of(lang_name);
    let value = entry_of(lang_name);
    if nodes.len() == 0 {
        assert(nodes =~= Seq::empty());
        assert(tree::top_items(nodes, lang_name) =~= Seq::empty());
        lemma_none(w, steps, value);
    } else {
        let init = nodes.drop_last();
        let n = nodes.last();
        law_outline_has_all(init, lang_name);
        if lang_name == "cpp"@ || lang_name == "c"@ {
            lemma_c_item(n, lang_name == "cpp"@, w);
        } else if lang_name == "python"@ {
            lemma_python_item(n, w);
        } else if lang_name == "javascript"@ {
            lemma_js_item(n, w);
        } else if lang_name == "rust"@ {
            lemma_rust_item(n, w);
        } else if lang_name == "go"@ {
            lemma_go_item(n, w);
        } else {
            assert(steps(n, w).0 =~= Seq::empty());
        }
        lemma_push(
            tree::top_items(init, lang_name),
            tree::top_item(n, lang_name),
            init,
            n,
            w,
            steps,
            value,
        );
        assert(init.push(n) =~= nodes);
    }
}

// ---------------------------------------------------------------------------
// Functions and lines
// ---------------------------------------------------------------------------

/// The functions among entries: the name and the line of each.
pub open spec fn fn_entries(es: Seq<Entry>) -> Seq<(Seq<char>, usize)> {
    es.filter(|e: Entry| e.kind == "fn"@).map_values(|e: Entry| (e.name, e.line))
}

proof fn lemma_fn_entries_add(a: Seq<Entry>, b: Seq<Entry>)
    ensures
        fn_entries(a + b) == fn_entries(a) + fn_entries(b),
{
    let keep = |e: Entry| e.kind == "fn"@;
    Seq::filter_distributes_over_add(a, b, keep);
    assert(fn_entries(a + b) =~= fn_entries(a) + fn_entries(b));
}

/// The functions of an index are the functions of the outline, all of them and no others.
pub proof fn law_functions_are_entries(items: Seq<ItemV>, depth: nat)
    ensures
        tree::functions(items) == fn_entries(entries(items, depth)),
    decreases items,
{
    let keep = |e: Entry| e.kind == "fn"@;
    if items.len() == 0 {
        reveal(Seq::filter);
        assert(entries(items, depth).filter(keep) =~= Seq::empty());
        assert(fn_entries(entries(items, depth)) =~= Seq::empty());
    } else {
        let item = items.last();
        let e = Entry { kind: item.kind, name: item.name, line: item.line, depth };
        let one = seq![e];
        law_functions_are_entries(items.drop_last(), depth);
        law_functions_are_entries(item.children, depth + 1);
        lemma_fn_entries_add(one, entries(item.children, depth + 1));
        lemma_fn_entries_add(
            entries(items.drop_last(), depth),
            one + entries(item.children, depth + 1),
        );
        reveal(Seq::filter);
        assert(one.drop_last() =~= Seq::empty());
        assert(one.drop_last().filter(keep) =~= Seq::empty());
        assert(one.filter(keep) =~= if keep(e) {
            one
        } else {
            Seq::empty()
        });
        assert(fn_entries(one) =~= if item.kind == "fn"@ {
            seq![(item.name, item.line)]
        } else {
            Seq::empty()
        });
    }
}

/// No function is lost: a function that stands at the top of a file, or anywhere in the bodies
/// of what an outline goes into, is among the functions of the file, with its name and line.
pub proof fn law_function_is_indexed(
    lang_name: Seq<char>,
    g: Grammar,
    source: Seq<u8>,
    p: Seq<nat>,
)
    requires
        lang::grammar_named(lang_name) == Some(g),
    ensures
        walk::found_at(
            syntax::syntax_tree(g, source).children,
            top(),
            steps_of(lang_name),
            entry_of(lang_name),
            p,
        ) matches Some(e) ==> e.kind == "fn"@ ==> tree::function_locs(lang_name, source).contains(
            (e.name, e.line),
        ),
{
    let nodes = syntax::syntax_tree(g, source).children;
    let items = tree::top_items(nodes, lang_name);
    if let Some(e) = walk::found_at(nodes, top(), steps_of(lang_name), entry_of(lang_name), p) {
        if e.kind == "fn"@ {
            let keep = |e: Entry| e.kind == "fn"@;
            law_outline_has_all(nodes, lang_name);
            walk::lemma_found(
                entries(items, 0),
                nodes,
                top(),
                steps_of(lang_name),
                entry_of(lang_name),
                p,
            );
            law_functions_are_entries(items, 0);
            let es = entries(items, 0);
            es.lemma_filter_contains(keep, es.index_of(e));
            let kept = es.filter(keep);
            let k = kept.index_of(e);
            assert(fn_entries(es)[k] == (e.name, e.line));
        }
    }
}

/// How an entry is written.
pub open spec fn entry_text(e: Entry) -> Seq<char> {
    e.kind + " "@ + e.name + "  :"@ + text::decimal_digits(e.line as nat)
}

/// Whether a line shows an entry: behind what connects it with the others, which is as wide as
/// the entry is deep.
pub open spec fn shows(line: Seq<char>, e: Entry, width: nat) -> bool {
    let n = width + 4 * e.depth + 4;
    line.len() >= n && line.skip(n as int) == entry_text(e)
}

proof fn lemma_entries_add(a: Seq<ItemV>, b: Seq<ItemV>, depth: nat)
    ensures
        entries(a + b, depth) == entries(a, depth) + entries(b, depth),
    decreases b.len(),
{
    if b.len() == 0 {
        assert(a + b =~= a);
        assert(entries(a, depth) + entries(b, depth) =~= entries(a, depth));
    } else {
        lemma_entries_add(a, b.drop_last(), depth);
        assert((a + b).drop_last() =~= a + b.drop_last());
        assert((a + b).last() == b.last());
        assert(entries(a + b, depth) =~= entries(a, depth) + entries(b, depth));
    }
}

proof fn lemma_lines(items: Seq<ItemV>, i: nat, prefix: Seq<char>, depth: nat)
    requires
        i <= items.len(),
        prefix.len() >= 4 * depth,
    ensures
        ({
            let lines = tree::item_lines(items, i, prefix);
            let es = entries(items.skip(i as int), depth);
            &&& lines.len() == es.len()
            &&& forall|k: int|
                0 <= k < lines.len() ==> shows(
                    #[trigger] lines[k],
                    es[k],
                    (prefix.len() - 4 * depth) as nat,
                )
        }),
    decreases items, items.len() - i,
{
    let rest = items.skip(i as int);
    let lines = tree::item_lines(items, i, prefix);
    let width = (prefix.len() - 4 * depth) as nat;
    if i < items.len() {
        reveal_strlit("└── ");
        reveal_strlit("├── ");
        reveal_strlit("    ");
        reveal_strlit("│   ");
        let item = items[i as int];
        let last = i == items.len() - 1;
        let below = prefix + tree::indent_spec(last);
        let line = tree::item_line(item, prefix, last);
        let e = Entry { kind: item.kind, name: item.name, line: item.line, depth };
        assert(decreases_to!(items => items[i as int]));
        lemma_lines(item.children, 0, below, depth + 1);
        lemma_lines(items, i + 1, prefix, depth);
        assert(item.children.skip(0) =~= item.children);
        let one = seq![item];
        let later = items.skip((i + 1) as int);
        assert(rest =~= one + later);
        lemma_entries_add(one, later, depth);
        assert(one.drop_last() =~= Seq::empty());
        assert(entries(one.drop_last(), depth) =~= Seq::empty());
        let inner = entries(item.children, depth + 1);
        assert(entries(one, depth) =~= seq![e] + inner);
        let es = entries(rest, depth);
        assert(es =~= (seq![e] + inner) + entries(later, depth));
        let head = prefix + tree::connector_spec(last);
        assert(line =~= head + entry_text(e));
        assert(head.len() == width + 4 * e.depth + 4);
        assert(line.skip(head.len() as int) =~= entry_text(e));
        let a = tree::item_lines(item.children, 0, below);
        let b = tree::item_lines(items, i + 1, prefix);
        assert(lines =~= (seq![line] + a) + b);
        assert forall|k: int| 0 <= k < lines.len() implies shows(
            #[trigger] lines[k],
            es[k],
            width,
        ) by {
            if k == 0 {
            } else if k < 1 + a.len() {
                assert(shows(a[k - 1], inner[k - 1], (below.len() - 4 * (depth + 1)) as nat));
                assert(lines[k] == a[k - 1]);
                assert(es[k] == inner[k - 1]);
            } else {
                let m = k - 1 - a.len();
                assert(shows(b[m], entries(later, depth)[m], width));
                assert(lines[k] == b[m]);
                assert(es[k] == entries(later, depth)[m]);
            }
        }
    } else {
        assert(rest =~= Seq::empty());
    }
}

/// An outline has one line for each entry, in their order: the line shows the kind, the name and
/// the line number of the entry, indented by how deep it stands.
pub proof fn law_lines_show_entries(items: Seq<ItemV>)
    ensures
        tree::item_lines(items, 0, ""@).len() == entries(items, 0).len(),
        forall|k: int|
            0 <= k < entries(items, 0).len() ==> shows(
                #[trigger] tree::item_lines(items, 0, ""@)[k],
                entries(items, 0)[k],
                0,
            ),
{
    reveal_strlit("");
    lemma_lines(items, 0, ""@, 0);
    assert(items.skip(0) =~= items);
}

/// Whether nodes lead from a declarator to the name that it declares: from each to the one in
/// its field `declarator`, or, without one, in its field `name`, and none before the last is a
/// name.
pub open spec fn is_chain(chain: Seq<NodeV>) -> bool {
    &&& chain.len() > 0
    &&& forall|i: int|
        0 <= i < chain.len() - 1 ==> !is_identifier(#[trigger] chain[i]) && Some(chain[i + 1]) == (
        match syntax::field_child(chain[i], "declarator"@) {
            Some(d) => Some(d),
            None => syntax::field_child(chain[i], "name"@),
        })
}

/// Whether a node is a name of the C family.
pub open spec fn is_identifier(n: NodeV) -> bool {
    n.kind == "identifier"@ || n.kind == "field_identifier"@
}

/// A declarator of the C family, however many pointers and parameter lists it is made of,
/// declares the name at its end.
pub proof fn law_declarator_declares_its_end(chain: Seq<NodeV>)
    requires
        is_chain(chain),
    ensures
        is_identifier(chain.last()) ==> tree::declared_name(chain[0]) == Some(
            syntax::content(chain.last()),
        ),
        !is_identifier(chain.last()) && syntax::field_child(chain.last(), "declarator"@) is None
            && syntax::field_child(chain.last(), "name"@) is None ==> tree::declared_name(
            chain[0],
        ) is None,
    decreases chain.len(),
{
    if chain.len() > 1 {
        let rest = chain.drop_first();
        assert forall|i: int| 0 <= i < rest.len() - 1 implies !is_identifier(#[trigger] rest[i])
            && Some(rest[i + 1]) == (match syntax::field_child(rest[i], "declarator"@) {
            Some(d) => Some(d),
            None => syntax::field_child(rest[i], "name"@),
        }) by {
            assert(!is_identifier(chain[i + 1]));
        }
        law_declarator_declares_its_end(rest);
        assert(!is_identifier(chain[0]));
        assert(rest[0] == chain[0int + 1]);
        assert(tree::declared_name(chain[0]) == tree::declared_name(rest[0]));
    }
}

/// Whether a part of a C declaration names a variable.
pub open spec fn names_variable(n: NodeV) -> bool {
    n.kind == "identifier"@ || (n.kind == "init_declarator"@ && syntax::field_child(
        n,
        "declarator"@,
    ) is Some)
}

/// A C declaration shows the first variable that it declares, with a value or without.
pub proof fn law_first_variable(nodes: Seq<NodeV>)
    ensures
        tree::c_variable(nodes) == ({
            let found = nodes.filter(|n: NodeV| names_variable(n));
            if found.len() == 0 {
                None
            } else if found[0].kind == "identifier"@ {
                Some(syntax::content(found[0]))
            } else {
                text_in(found[0], "declarator"@)
            }
        }),
    decreases nodes.len(),
{
    let keep = |n: NodeV| names_variable(n);
    if nodes.len() == 0 {
        reveal(Seq::filter);
        assert(nodes.filter(keep) =~= Seq::empty());
    } else {
        lemma_filter_first(nodes, keep);
        law_first_variable(nodes.drop_first());
        let rest = nodes.drop_first().filter(keep);
        assert(Seq::<NodeV>::empty() + rest =~= rest);
    }
}

/// An assignment at the top of a Python file shows the name on its left side.
pub proof fn law_assigned_name(n: NodeV)
    ensures
        ({
            let left = match syntax::first_named(n) {
                Some(a) => if a.kind == "assignment"@ {
                    syntax::field_child(a, "left"@)
                } else {
                    None
                },
                None => None,
            };
            tree::python_variable(n) == (match left {
                Some(x) => if x.kind == "identifier"@ {
                    Some(syntax::content(x))
                } else {
                    None
                },
                None => None,
            })
        }),
{
}

/// An outline has the path of the file in its first line, and its entries below. The language is
/// the one that is given, or else that of the extension.
pub proof fn law_outline_of_file(path: Seq<char>, name: Seq<char>, g: Grammar, source: Seq<u8>)
    requires
        lang::grammar_named(name) == Some(g),
    ensures
        ({
            let items = tree::top_items(syntax::syntax_tree(g, source).children, name);
            &&& tree::outline(path, Some(name), source) matches Ok(lines) && lines.len() > 0
                && lines[0] == path && lines.skip(1) == tree::item_lines(items, 0, ""@)
            &&& path::extension_spec(path) matches Some(ext) ==> lang::grammar_of_extension(ext)
                == Some(g) && lang::canonical(g) == name ==> tree::outline(path, None, source)
                == tree::outline(path, Some(name), source)
        }),
{
    let items = tree::top_items(syntax::syntax_tree(g, source).children, name);
    let lines = seq![path] + tree::item_lines(items, 0, ""@);
    assert(lines.skip(1) =~= tree::item_lines(items, 0, ""@));
}

} // verus!
