//! What the nodes of a Go file define, call and import, said of the syntax tree.

use vstd::prelude::*;
use crate::path;
use crate::resolve;
use crate::resolve::go;
use crate::resolve::go_scope::{inner_nodes, is_function};
use crate::resolve::rust_defs::{Import, with_one};
use crate::resolve::scope::{BindingV, ScopeV};
use crate::resolve::{CalleeV, DefIdV, DefKindV, DefV, ReceiverV};
use crate::syntax;
use crate::syntax::NodeV;
use crate::text;
use crate::walk;

verus! {

broadcast use vstd::string::group_string_axioms;

// ---------------------------------------------------------------------------
// Types, callees and bindings
// ---------------------------------------------------------------------------

proof fn lemma_type_kinds()
    ensures
        "type_identifier"@ != "pointer_type"@,
        "type_identifier"@ != "generic_type"@,
        "type_identifier"@ != "qualified_type"@,
        "pointer_type"@ != "generic_type"@,
        "pointer_type"@ != "qualified_type"@,
        "generic_type"@ != "qualified_type"@,
{
    reveal_strlit("type_identifier");
    reveal_strlit("pointer_type");
    reveal_strlit("generic_type");
    reveal_strlit("qualified_type");
    assert("type_identifier"@[0] == 't' && "pointer_type"@[0] == 'p' && "generic_type"@[0] == 'g'
        && "qualified_type"@[0] == 'q');
}

/// The base name of a type: pointers and type arguments make no difference, and of a type of a
/// package it is the name without the package.
pub proof fn law_base_type(n: NodeV, inner: NodeV)
    ensures
        n.kind == "type_identifier"@ ==> go::base_type_spec(n) == Some(syntax::content(n)),
        n.kind == "pointer_type"@ && syntax::first_named(n) == Some(inner) ==> go::base_type_spec(n)
            == go::base_type_spec(inner),
        n.kind == "generic_type"@ && syntax::field_child(n, "type"@) == Some(inner)
            ==> go::base_type_spec(n) == go::base_type_spec(inner),
        n.kind == "qualified_type"@ && syntax::field_child(n, "name"@) == Some(inner)
            ==> go::base_type_spec(n) == Some(syntax::content(inner)),
{
    lemma_type_kinds();
}

proof fn lemma_expr_kinds()
    ensures
        "identifier"@ != "selector_expression"@,
        "identifier"@ != "index_expression"@,
        "identifier"@ != "generic_function"@,
        "identifier"@ != "parenthesized_expression"@,
        "identifier"@ != "composite_literal"@,
        "identifier"@ != "unary_expression"@,
        "identifier"@ != "call_expression"@,
        "selector_expression"@ != "index_expression"@,
        "selector_expression"@ != "generic_function"@,
        "selector_expression"@ != "parenthesized_expression"@,
        "selector_expression"@ != "composite_literal"@,
        "selector_expression"@ != "unary_expression"@,
        "selector_expression"@ != "call_expression"@,
        "parenthesized_expression"@ != "index_expression"@,
        "parenthesized_expression"@ != "generic_function"@,
        "composite_literal"@ != "unary_expression"@,
        "composite_literal"@ != "call_expression"@,
        "unary_expression"@ != "call_expression"@,
{
    reveal_strlit("identifier");
    reveal_strlit("selector_expression");
    reveal_strlit("index_expression");
    reveal_strlit("generic_function");
    reveal_strlit("parenthesized_expression");
    reveal_strlit("composite_literal");
    reveal_strlit("unary_expression");
    reveal_strlit("call_expression");
    assert("identifier"@[1] == 'd' && "selector_expression"@[1] == 'e' && "index_expression"@[1]
        == 'n' && "generic_function"@[0] == 'g' && "parenthesized_expression"@[0] == 'p'
        && "composite_literal"@[1] == 'o' && "unary_expression"@[0] == 'u' && "call_expression"@[1]
        == 'a' && "identifier"@[0] == 'i' && "selector_expression"@[0] == 's'
        && "index_expression"@[0] == 'i' && "composite_literal"@[0] == 'c' && "call_expression"@[0]
        == 'c' && "unary_expression"@[1] == 'n' && "generic_function"@[1] == 'e');
}

/// What a selector is called on: a variable or a package, or anything else.
pub open spec fn receiver_of(operand: NodeV) -> ReceiverV {
    if operand.kind == "identifier"@ {
        ReceiverV::Var(syntax::content(operand))
    } else {
        ReceiverV::Opaque(text::first_line_spec(syntax::content(operand)))
    }
}

/// What a call calls: a name, or what stands behind the dot on what stands before it. Type
/// arguments and parentheses make no difference.
pub proof fn law_callee(n: NodeV, f: NodeV, x: NodeV, y: NodeV)
    requires
        syntax::field_child(n, "function"@) == Some(f),
    ensures
        go::call_of(n) == go::callee_of(f),
        f.kind == "identifier"@ ==> go::call_of(n) == Some(CalleeV::Bare(syntax::content(f))),
        f.kind == "selector_expression"@ && syntax::field_child(f, "operand"@) == Some(x)
            && syntax::field_child(f, "field"@) == Some(y) ==> go::call_of(n) == Some(
            CalleeV::Method { receiver: receiver_of(x), name: syntax::content(y) },
        ),
        (f.kind == "index_expression"@ || f.kind == "generic_function"@) && syntax::field_child(
            f,
            "operand"@,
        ) == Some(x) ==> go::call_of(n) == go::callee_of(x),
        (f.kind == "index_expression"@ || f.kind == "generic_function"@) && syntax::field_child(
            f,
            "operand"@,
        ) is None && syntax::field_child(f, "function"@) == Some(x) ==> go::call_of(n)
            == go::callee_of(x),
        f.kind == "parenthesized_expression"@ && syntax::first_named(f) == Some(x) ==> go::call_of(
            n,
        ) == go::callee_of(x),
{
    lemma_expr_kinds();
}

/// What a value binds a variable to: a function, a type that is written out, with `&` or without,
/// or the result of a call.
pub proof fn law_value(value: NodeV, inner: NodeV)
    ensures
        value.kind == "identifier"@ || value.kind == "selector_expression"@ ==> go::value_binding(
            value,
        ) == (match go::callee_of(value) {
            Some(c) => Some(BindingV::FnValue(c)),
            None => None,
        }),
        value.kind == "composite_literal"@ ==> go::value_binding(value) == (match go::field_type(
            value,
            "type"@,
        ) {
            Some(t) => Some(BindingV::Typed(t)),
            None => None,
        }),
        value.kind == "unary_expression"@ && syntax::field_child(value, "operand"@) == Some(inner)
            ==> go::value_binding(value) == go::value_binding(inner),
        value.kind == "call_expression"@ ==> go::value_binding(value) == (match go::call_of(value) {
            Some(c) => Some(BindingV::Call(c)),
            None => None,
        }),
{
    lemma_expr_kinds();
}

/// `x := expr` binds its variable to its only value, and of several variables that a call gives
/// values to, the first one to the result of that call.
pub proof fn law_short_var(n: NodeV, left: NodeV, right: NodeV)
    requires
        syntax::field_child(n, "left"@) == Some(left),
        syntax::field_child(n, "right"@) == Some(right),
    ensures
        ({
            let vars = left.children.filter(syntax::is_named());
            let values = right.children.filter(syntax::is_named());
            go::short_var_binding(n) == (if vars.len() > 0 && values.len() == 1 && vars[0].kind
                == "identifier"@ && (vars.len() == 1 || values[0].kind == "call_expression"@) {
                match go::value_binding(values[0]) {
                    Some(b) => Some((syntax::content(vars[0]), b)),
                    None => None,
                }
            } else {
                None
            })
        }),
{
}

/// `var a, b T` binds each of its names to the type.
pub proof fn law_typed_vars(n: NodeV, ty: Seq<char>, b: (Seq<char>, BindingV))
    requires
        go::field_type(n, "type"@) == Some(ty),
    ensures
        go::var_spec_bindings(n).contains(b) <==> b.1 == BindingV::Typed(ty) && names(
            n.children,
            b.0,
        ),
{
    let vars = go::identifiers(syntax::labeled(n, "name"@));
    let all = go::var_spec_bindings(n);
    lemma_identifiers(n.children, b.0);
    if all.contains(b) {
        let k = all.index_of(b);
        assert(all[k] == (vars[k], BindingV::Typed(ty)));
        assert(vars.contains(vars[k]));
    }
    if b.1 == BindingV::Typed(ty) && vars.contains(b.0) {
        assert(all[vars.index_of(b.0)] == b);
    }
}

/// Whether one of the nodes is a name with a text.
pub open spec fn names(nodes: Seq<NodeV>, x: Seq<char>) -> bool {
    exists|i: int|
        0 <= i < nodes.len() && (#[trigger] nodes[i]).label == Some("name"@) && nodes[i].kind
            == "identifier"@ && syntax::content(nodes[i]) == x
}

proof fn lemma_identifiers(nodes: Seq<NodeV>, x: Seq<char>)
    ensures
        go::identifiers(nodes.filter(|c: NodeV| c.label == Some("name"@))).contains(x) <==> names(
            nodes,
            x,
        ),
    decreases nodes.len(),
{
    reveal(Seq::filter);
    let keep = |c: NodeV| c.label == Some("name"@);
    if nodes.len() == 0 {
        assert(nodes.filter(keep) =~= Seq::empty());
    } else {
        let init = nodes.drop_last();
        let n = nodes.last();
        let k = nodes.len() - 1;
        lemma_identifiers(init, x);
        let before = go::identifiers(init.filter(keep));
        let all = go::identifiers(nodes.filter(keep));
        if keep(n) {
            assert(nodes.filter(keep).drop_last() =~= init.filter(keep));
        }
        if all.contains(x) {
            if before.contains(x) {
                let i = choose|i: int|
                    0 <= i < init.len() && (#[trigger] init[i]).label == Some("name"@)
                        && init[i].kind == "identifier"@ && syntax::content(init[i]) == x;
                assert(nodes[i] == init[i]);
            } else {
                let m = all.index_of(x);
                assert(m == before.len());
                assert(nodes[k] == n);
            }
        }
        if names(nodes, x) {
            let i = choose|i: int|
                0 <= i < nodes.len() && (#[trigger] nodes[i]).label == Some("name"@)
                    && nodes[i].kind == "identifier"@ && syntax::content(nodes[i]) == x;
            if i < k {
                assert(init[i] == nodes[i]);
                assert(all[before.index_of(x)] == x);
            } else {
                assert(all[before.len() as int] == x);
            }
        }
    }
}

/// `var f = value` binds its name to its only value.
pub proof fn law_valued_var(n: NodeV, list: NodeV)
    requires
        go::field_type(n, "type"@) is None,
        syntax::field_child(n, "value"@) == Some(list),
    ensures
        ({
            let names = go::identifiers(syntax::labeled(n, "name"@));
            let values = list.children.filter(syntax::is_named());
            &&& values.len() == 1 && names.len() == 1 ==> go::var_spec_bindings(n) == (
            match go::value_binding(values[0]) {
                Some(b) => seq![(names[0], b)],
                None => Seq::empty(),
            })
            &&& values.len() != 1 || names.len() != 1 ==> go::var_spec_bindings(n).len() == 0
        }),
{
}

// ---------------------------------------------------------------------------
// Definitions
// ---------------------------------------------------------------------------

/// Where a declaration stands: at the top of the file, in a declaration of types, or in an
/// interface.
pub enum Home {
    Top,
    Types,
    Interface(Seq<char>),
}

/// The text of the node in the field `name`.
pub open spec fn name_of(n: NodeV) -> Option<Seq<char>> {
    match syntax::field_child(n, "name"@) {
        Some(m) => Some(syntax::content(m)),
        None => None,
    }
}

/// From declaration to declaration: from those of types to the elements of interfaces.
pub open spec fn def_steps() -> spec_fn(NodeV, Home) -> (Seq<NodeV>, Home) {
    |n: NodeV, h: Home|
        match h {
            Home::Top => if n.kind == "type_declaration"@ {
                (n.children, Home::Types)
            } else {
                (Seq::empty(), Home::Types)
            },
            Home::Types => match (name_of(n), syntax::field_child(n, "type"@)) {
                (Some(name), Some(body)) => if n.named && n.kind == "type_spec"@ && body.kind
                    == "interface_type"@ {
                    (body.children, Home::Interface(name))
                } else {
                    (Seq::empty(), Home::Types)
                },
                _ => (Seq::empty(), Home::Types),
            },
            Home::Interface(_) => (Seq::empty(), Home::Types),
        }
}

/// The base name of the type of the first declaration in a list of parameters.
pub open spec fn first_type(list: NodeV) -> Option<Seq<char>> {
    let found = list.children.filter(
        |p: NodeV| p.named && p.kind == "parameter_declaration"@,
    );
    if found.len() > 0 {
        go::field_type(found[0], "type"@)
    } else {
        None
    }
}

/// What a function returns: its result, or the first of several.
pub open spec fn result_of(n: NodeV) -> Option<Seq<char>> {
    match syntax::field_child(n, "result"@) {
        Some(r) => if r.kind == "parameter_list"@ {
            first_type(r)
        } else {
            go::base_type_spec(r)
        },
        None => None,
    }
}

/// The type of the receiver of a method.
pub open spec fn receiver_type(n: NodeV) -> Option<Seq<char>> {
    match syntax::field_child(n, "receiver"@) {
        Some(list) => first_type(list),
        None => None,
    }
}

/// A definition: a function, a method of the type of its receiver, or a signature of an
/// interface.
pub open spec fn a_definition(file: Seq<char>, pkg: Seq<Seq<char>>) -> spec_fn(
    NodeV,
    Home,
) -> Option<DefV> {
    |n: NodeV, h: Home|
        {
            let id = DefIdV { file, line: syntax::line_of(n.start_row) };
            let ret = result_of(n);
            match name_of(n) {
                None => None,
                Some(name) => match h {
                    Home::Top => if n.kind == "function_declaration"@ {
                        Some(
                            DefV {
                                name,
                                qualified: pkg.push(name),
                                kind: DefKindV::Function,
                                ret,
                                id,
                            },
                        )
                    } else if n.kind == "method_declaration"@ {
                        match receiver_type(n) {
                            Some(ty) => Some(
                                DefV {
                                    name,
                                    qualified: pkg.push(ty).push(name),
                                    kind: DefKindV::Method { receiver: ty, via_trait: None },
                                    ret,
                                    id,
                                },
                            ),
                            None => None,
                        }
                    } else {
                        None
                    },
                    Home::Types => None,
                    Home::Interface(iface) => if n.named && n.kind == "method_elem"@ {
                        Some(
                            DefV {
                                name,
                                qualified: pkg.push(iface).push(name),
                                kind: DefKindV::InterfaceMethod { interface: iface },
                                ret,
                                id,
                            },
                        )
                    } else {
                        None
                    },
                },
            }
        }
}

proof fn lemma_first_of_kind(nodes: Seq<NodeV>, kind: Seq<char>)
    ensures
        syntax::first_of_kind(nodes, kind) == ({
            let found = nodes.filter(|p: NodeV| p.named && p.kind == kind);
            if found.len() > 0 {
                Some(found[0])
            } else {
                None
            }
        }),
    decreases nodes.len(),
{
    let keep = |p: NodeV| p.named && p.kind == kind;
    reveal(Seq::filter);
    if nodes.len() == 0 {
        assert(nodes.filter(keep) =~= Seq::empty());
    } else {
        let one = seq![nodes[0]];
        let rest = nodes.drop_first();
        assert(nodes =~= one + rest);
        Seq::filter_distributes_over_add(one, rest, keep);
        assert(one.drop_last() =~= Seq::empty());
        assert(one.drop_last().filter(keep) =~= Seq::empty());
        assert(one.filter(keep) =~= if keep(nodes[0]) {
            one
        } else {
            Seq::empty()
        });
        lemma_first_of_kind(rest, kind);
        assert(Seq::<NodeV>::empty() + rest.filter(keep) =~= rest.filter(keep));
    }
}

proof fn lemma_result(n: NodeV)
    ensures
        go::return_type_spec(n) == result_of(n),
        go::receiver_type_spec(n) == receiver_type(n),
{
    if let Some(r) = syntax::field_child(n, "result"@) {
        lemma_first_of_kind(r.children, "parameter_declaration"@);
    }
    if let Some(r) = syntax::field_child(n, "receiver"@) {
        lemma_first_of_kind(r.children, "parameter_declaration"@);
    }
}

proof fn lemma_def_kinds()
    ensures
        "function_declaration"@ != "method_declaration"@,
        "function_declaration"@ != "type_declaration"@,
        "method_declaration"@ != "type_declaration"@,
{
    reveal_strlit("function_declaration");
    reveal_strlit("method_declaration");
    reveal_strlit("type_declaration");
    assert("function_declaration"@[0] == 'f' && "method_declaration"@[0] == 'm'
        && "type_declaration"@[0] == 't');
}

proof fn lemma_signatures(
    nodes: Seq<NodeV>,
    iface: Seq<char>,
    file: Seq<char>,
    pkg: Seq<Seq<char>>,
)
    ensures
        walk::gathered(
            go::signatures(nodes, iface, file, pkg),
            nodes,
            Home::Interface(iface),
            def_steps(),
            a_definition(file, pkg),
        ),
    decreases nodes.len(),
{
    let h = Home::Interface(iface);
    let value = a_definition(file, pkg);
    if nodes.len() == 0 {
        assert(nodes =~= Seq::empty());
        assert(go::signatures(nodes, iface, file, pkg) =~= Seq::empty());
        walk::lemma_gathered_none(h, def_steps(), value);
    } else {
        let init = nodes.drop_last();
        let n = nodes.last();
        lemma_signatures(init, iface, file, pkg);
        lemma_result(n);
        walk::lemma_gathered_none(Home::Types, def_steps(), value);
        let before = go::signatures(init, iface, file, pkg);
        walk::lemma_gathered_push(init, n, h, def_steps(), value, before, Seq::empty());
        assert(init.push(n) =~= nodes);
        assert(go::signatures(nodes, iface, file, pkg) =~= before + (walk::some_of(value(n, h))
            + Seq::empty()));
    }
}

proof fn lemma_interfaces(nodes: Seq<NodeV>, file: Seq<char>, pkg: Seq<Seq<char>>)
    ensures
        walk::gathered(
            go::interface_defs(nodes, file, pkg),
            nodes,
            Home::Types,
            def_steps(),
            a_definition(file, pkg),
        ),
    decreases nodes.len(),
{
    let h = Home::Types;
    let value = a_definition(file, pkg);
    if nodes.len() == 0 {
        assert(nodes =~= Seq::empty());
        assert(go::interface_defs(nodes, file, pkg) =~= Seq::empty());
        walk::lemma_gathered_none(h, def_steps(), value);
    } else {
        let init = nodes.drop_last();
        let n = nodes.last();
        lemma_interfaces(init, file, pkg);
        let before = go::interface_defs(init, file, pkg);
        let lower = match def_steps()(n, h).1 {
            Home::Interface(iface) => {
                let body = syntax::field_child(n, "type"@)->Some_0;
                lemma_signatures(body.children, iface, file, pkg);
                go::signatures(body.children, iface, file, pkg)
            },
            _ => {
                walk::lemma_gathered_none(Home::Types, def_steps(), value);
                Seq::empty()
            },
        };
        walk::lemma_gathered_push(init, n, h, def_steps(), value, before, lower);
        assert(init.push(n) =~= nodes);
        assert(go::interface_defs(nodes, file, pkg) =~= before + (walk::some_of(value(n, h))
            + lower));
    }
}

proof fn lemma_defs(nodes: Seq<NodeV>, file: Seq<char>, pkg: Seq<Seq<char>>)
    ensures
        walk::gathered(
            go::defs_below(nodes, file, pkg),
            nodes,
            Home::Top,
            def_steps(),
            a_definition(file, pkg),
        ),
    decreases nodes.len(),
{
    let h = Home::Top;
    let value = a_definition(file, pkg);
    if nodes.len() == 0 {
        assert(nodes =~= Seq::empty());
        assert(go::defs_below(nodes, file, pkg) =~= Seq::empty());
        walk::lemma_gathered_none(h, def_steps(), value);
    } else {
        let init = nodes.drop_last();
        let n = nodes.last();
        lemma_defs(init, file, pkg);
        lemma_def_kinds();
        lemma_result(n);
        let before = go::defs_below(init, file, pkg);
        let lower = if n.kind == "type_declaration"@ {
            lemma_interfaces(n.children, file, pkg);
            go::interface_defs(n.children, file, pkg)
        } else {
            walk::lemma_gathered_none(Home::Types, def_steps(), value);
            Seq::empty()
        };
        walk::lemma_gathered_push(init, n, h, def_steps(), value, before, lower);
        assert(init.push(n) =~= nodes);
        assert(go::defs_of(n, file, pkg) =~= walk::some_of(value(n, h)) + lower);
    }
}

/// The definitions of a file are its functions, its methods, each of the type of its receiver,
/// and the signatures of its interfaces, in the order of the text, each once: with the path of
/// directory, type and name, with what they return, and with their line.
pub proof fn law_definitions(root: NodeV, file: Seq<char>)
    ensures
        walk::gathered(
            go::tree_defs(root, file),
            root.children,
            Home::Top,
            def_steps(),
            a_definition(file, path::dir_names_spec(file)),
        ),
{
    lemma_defs(root.children, file, path::dir_names_spec(file));
}

// ---------------------------------------------------------------------------
// Imports
// ---------------------------------------------------------------------------

/// The path of an import is what stands between its quotes, cut at its slashes.
pub proof fn law_import_path(names: Seq<Seq<char>>)
    requires
        names.len() > 0,
        forall|i: int|
            0 <= i < names.len() ==> (#[trigger] names[i]).len() > 0 && !names[i].contains('/')
                && !names[i].contains('"'),
    ensures
        go::import_path("\""@ + text::join_spec(names, "/"@) + "\""@) == names,
{
    reveal_strlit("\"");
    let inner = text::join_spec(names, "/"@);
    let quoted = "\""@ + inner + "\""@;
    lemma_join_ends(names);
    assert(quoted.drop_first() =~= inner + "\""@);
    assert(inner.len() > 0);
    let front = inner + "\""@;
    assert(front[0] == inner[0]);
    assert(text::trim_front(front, '"') == front);
    assert(text::trim_front(quoted, '"') == front);
    assert(front.last() == '"');
    assert(front.drop_last() =~= inner);
    assert(text::trim_back(inner, '"') == inner);
    assert(text::trim_back(front, '"') == inner);
    assert forall|i: int| 0 <= i < names.len() implies !(#[trigger] names[i]).contains('/') by {}
    path::lemma_split_join(names);
    lemma_filter_all(names);
}

proof fn lemma_join_ends(names: Seq<Seq<char>>)
    requires
        names.len() > 0,
        forall|i: int|
            0 <= i < names.len() ==> (#[trigger] names[i]).len() > 0 && !names[i].contains('"'),
    ensures
        text::join_spec(names, "/"@).len() > 0,
        text::join_spec(names, "/"@)[0] != '"',
        text::join_spec(names, "/"@).last() != '"',
    decreases names.len(),
{
    let last = names[names.len() - 1];
    assert(last.contains(last[last.len() - 1]));
    assert(last.contains(last[0]));
    if names.len() > 1 {
        let init = names.drop_last();
        assert forall|i: int| 0 <= i < init.len() implies (#[trigger] init[i]).len() > 0
            && !init[i].contains('"') by {
            assert(init[i] == names[i]);
        }
        lemma_join_ends(init);
        let all = text::join_spec(names, "/"@);
        assert(all[0] == text::join_spec(init, "/"@)[0]);
        assert(all.last() == last[last.len() - 1]);
    }
}

proof fn lemma_filter_all(names: Seq<Seq<char>>)
    requires
        forall|i: int| 0 <= i < names.len() ==> (#[trigger] names[i]).len() > 0,
    ensures
        names.filter(|s: Seq<char>| s.len() > 0) == names,
    decreases names.len(),
{
    reveal(Seq::filter);
    let p = |s: Seq<char>| s.len() > 0;
    if names.len() == 0 {
        assert(names.filter(p) =~= names);
    } else {
        let init = names.drop_last();
        assert forall|i: int| 0 <= i < init.len() implies (#[trigger] init[i]).len() > 0 by {
            assert(init[i] == names[i]);
        }
        lemma_filter_all(init);
        assert(names[names.len() - 1].len() > 0);
        assert(names.filter(p) =~= names);
    }
}

/// From the list of an import declaration to the imports in it.
pub open spec fn import_steps() -> spec_fn(NodeV, ()) -> (Seq<NodeV>, ()) {
    |n: NodeV, w: ()|
        if n.kind == "import_spec_list"@ {
            (n.children.filter(syntax::is_named()), ())
        } else {
            (Seq::empty(), ())
        }
}

/// An import: of a path under an alias or its last segment, of everything for a dot, and of
/// nothing for `_`.
pub open spec fn an_import() -> spec_fn(NodeV, ()) -> Option<Import> {
    |n: NodeV, w: ()|
        match syntax::field_child(n, "path"@) {
            Some(p) => {
                let path = go::import_path(syntax::content(p));
                if n.kind != "import_spec"@ || path.len() == 0 {
                    None
                } else {
                    match syntax::field_child(n, "name"@) {
                        Some(name) => if name.kind == "dot"@ {
                            Some(Import::All(path))
                        } else if name.kind == "blank_identifier"@ {
                            None
                        } else {
                            Some(Import::Name(syntax::content(name), path))
                        },
                        None => Some(Import::Name(path.last(), path)),
                    }
                }
            },
            None => None,
        }
}

/// A scope with imports, from the last to the first: of two under one name, the first one stays.
pub open spec fn with_back(s: ScopeV, imports: Seq<Import>) -> ScopeV
    decreases imports.len(),
{
    if imports.len() == 0 {
        s
    } else {
        with_back(with_one(s, imports.last()), imports.drop_last())
    }
}

proof fn lemma_back_add(s: ScopeV, a: Seq<Import>, b: Seq<Import>)
    ensures
        with_back(s, a + b) == with_back(with_back(s, b), a),
    decreases b.len(),
{
    if b.len() == 0 {
        assert(a + b =~= a);
    } else {
        assert((a + b).drop_last() =~= a + b.drop_last());
        assert((a + b).last() == b.last());
        lemma_back_add(with_one(s, b.last()), a, b.drop_last());
    }
}

proof fn lemma_import_kinds()
    ensures
        "import_spec_list"@ != "import_spec"@,
        "dot"@ != "blank_identifier"@,
{
    reveal_strlit("import_spec_list");
    reveal_strlit("import_spec");
    reveal_strlit("dot");
    reveal_strlit("blank_identifier");
    assert("import_spec_list"@.len() == 16 && "import_spec"@.len() == 11 && "dot"@.len() == 3
        && "blank_identifier"@.len() == 16);
}

proof fn lemma_import(n: NodeV, s: ScopeV) -> (lower: Seq<Import>)
    ensures
        walk::gathered(lower, import_steps()(n, ()).0, (), import_steps(), an_import()),
        go::with_import(n, s) == with_back(s, walk::some_of(an_import()(n, ())) + lower),
    decreases n, 1int,
{
    lemma_import_kinds();
    walk::lemma_gathered_none((), import_steps(), an_import());
    let own = walk::some_of(an_import()(n, ()));
    if n.kind == "import_spec_list"@ {
        let lower = lemma_imports(n.children, s);
        assert(own + lower =~= lower);
        lower
    } else {
        let lower = Seq::<Import>::empty();
        assert(own + lower =~= own);
        if own.len() > 0 {
            assert(own.drop_last() =~= Seq::empty());
            assert(with_back(with_one(s, own[0]), own.drop_last()) == with_one(s, own[0]));
        }
        lower
    }
}

proof fn lemma_imports(nodes: Seq<NodeV>, s: ScopeV) -> (all: Seq<Import>)
    ensures
        walk::gathered(all, nodes.filter(syntax::is_named()), (), import_steps(), an_import()),
        go::with_imports(nodes, s) == with_back(s, all),
    decreases nodes, 0int,
{
    reveal(Seq::filter);
    let named = syntax::is_named();
    if nodes.len() == 0 {
        assert(nodes.filter(named) =~= Seq::empty());
        walk::lemma_gathered_none((), import_steps(), an_import());
        Seq::empty()
    } else {
        let init = nodes.drop_last();
        let n = nodes.last();
        if n.named {
            let lower = lemma_import(n, s);
            let a = lemma_imports(init, go::with_import(n, s));
            walk::lemma_gathered_push(
                init.filter(named),
                n,
                (),
                import_steps(),
                an_import(),
                a,
                lower,
            );
            let b = walk::some_of(an_import()(n, ())) + lower;
            lemma_back_add(s, a, b);
            assert(nodes.filter(named) == init.filter(named).push(n));
            a + b
        } else {
            assert(nodes.filter(named) == init.filter(named));
            lemma_imports(init, s)
        }
    }
}

/// What an import declaration brings into a scope: each of its imports, however they are
/// grouped; of two under one name, the first one stays.
pub proof fn law_import_declaration(n: NodeV, s: ScopeV, f: Option<nat>) -> (all: Seq<Import>)
    requires
        n.kind == "import_declaration"@,
    ensures
        walk::gathered(
            all,
            n.children.filter(syntax::is_named()),
            (),
            import_steps(),
            an_import(),
        ),
        go::with_node(n, s, f) == with_back(s, all),
{
    lemma_imports(n.children, s)
}

/// Whether two scopes have the same imports.
pub open spec fn same_imports(a: ScopeV, b: ScopeV) -> bool {
    a.imports == b.imports && a.globs == b.globs
}

/// From node to node, wherever an import declaration is read.
pub open spec fn decl_steps() -> spec_fn(NodeV, ()) -> (Seq<NodeV>, ()) {
    |n: NodeV, w: ()|
        if n.kind == "import_declaration"@ {
            (Seq::empty(), ())
        } else if is_function(n) {
            (inner_nodes(n), ())
        } else {
            (n.children, ())
        }
}

/// An import declaration.
pub open spec fn a_declaration() -> spec_fn(NodeV, ()) -> Option<NodeV> {
    |n: NodeV, w: ()|
        if n.kind == "import_declaration"@ {
            Some(n)
        } else {
            None
        }
}

/// A scope with the imports of declarations, one declaration after another.
pub open spec fn with_declarations(s: ScopeV, lists: Seq<Seq<Import>>) -> ScopeV
    decreases lists.len(),
{
    if lists.len() == 0 {
        s
    } else {
        with_back(with_declarations(s, lists.drop_last()), lists.last())
    }
}

/// Whether lists of imports are those of declarations, one by one.
pub open spec fn are_imports_of(lists: Seq<Seq<Import>>, decls: Seq<NodeV>) -> bool {
    &&& lists.len() == decls.len()
    &&& forall|i: int|
        0 <= i < lists.len() ==> walk::gathered(
            #[trigger] lists[i],
            decls[i].children.filter(syntax::is_named()),
            (),
            import_steps(),
            an_import(),
        )
}

/// What nodes import.
struct Imported {
    decls: Seq<NodeV>,
    lists: Seq<Seq<Import>>,
}

proof fn lemma_same_back(a: ScopeV, b: ScopeV, list: Seq<Import>)
    requires
        same_imports(a, b),
    ensures
        same_imports(with_back(a, list), with_back(b, list)),
    decreases list.len(),
{
    if list.len() > 0 {
        lemma_same_back(with_one(a, list.last()), with_one(b, list.last()), list.drop_last());
    }
}

proof fn lemma_same_declarations(a: ScopeV, b: ScopeV, lists: Seq<Seq<Import>>)
    requires
        same_imports(a, b),
    ensures
        same_imports(with_declarations(a, lists), with_declarations(b, lists)),
    decreases lists.len(),
{
    if lists.len() > 0 {
        lemma_same_declarations(a, b, lists.drop_last());
        lemma_same_back(
            with_declarations(a, lists.drop_last()),
            with_declarations(b, lists.drop_last()),
            lists.last(),
        );
    }
}

proof fn lemma_declarations_add(s: ScopeV, a: Seq<Seq<Import>>, b: Seq<Seq<Import>>)
    ensures
        with_declarations(s, a + b) == with_declarations(with_declarations(s, a), b),
    decreases b.len(),
{
    if b.len() == 0 {
        assert(a + b =~= a);
    } else {
        lemma_declarations_add(s, a, b.drop_last());
        assert((a + b).drop_last() =~= a + b.drop_last());
        assert((a + b).last() == b.last());
    }
}

proof fn lemma_keeps_imports(
    s: ScopeV,
    f: Option<nat>,
    line: usize,
    bindings: Seq<(Seq<char>, BindingV)>,
)
    ensures
        same_imports(s, go::with_bindings(s, f, line, bindings)),
    decreases bindings.len(),
{
    if bindings.len() > 0 {
        lemma_keeps_imports(s, f, line, bindings.drop_last());
    }
}

proof fn lemma_decl(n: NodeV, s: ScopeV, f: Option<nat>) -> (r: Imported)
    ensures
        walk::gathered(r.decls, decl_steps()(n, ()).0, (), decl_steps(), a_declaration()),
        are_imports_of(r.lists, walk::some_of(a_declaration()(n, ())) + r.decls),
        same_imports(go::with_node(n, s, f), with_declarations(s, r.lists)),
    decreases n, 1int,
{
    lemma_decl_kinds();
    syntax::lemma_field_child(n, "body"@);
    walk::lemma_gathered_none((), decl_steps(), a_declaration());
    let own = walk::some_of(a_declaration()(n, ()));
    let line = syntax::line_of(n.start_row);
    if n.kind == "import_declaration"@ {
        let all = law_import_declaration(n, s, f);
        let lists = seq![all];
        let none = Seq::<NodeV>::empty();
        assert(own + none =~= seq![n]);
        assert(lists.drop_last() =~= Seq::empty());
        assert(with_declarations(s, lists.drop_last()) == s);
        Imported { decls: none, lists }
    } else {
        let s1 = if is_function(n) {
            ScopeV { fns: s.fns.push(go::fn_scope(n)), ..s }
        } else if n.kind == "short_var_declaration"@ {
            resolve::scope::with_binding(s, f, line, go::short_var_binding(n))
        } else if n.kind == "var_spec"@ {
            lemma_keeps_imports(s, f, line, go::var_spec_bindings(n));
            go::with_bindings(s, f, line, go::var_spec_bindings(n))
        } else if n.kind == "call_expression"@ {
            resolve::scope::with_call(s, f, line, go::call_of(n))
        } else {
            s
        };
        assert(same_imports(s, s1));
        let r = if is_function(n) {
            match syntax::field_child(n, "body"@) {
                Some(body) => lemma_decls(body.children, s1, Some(s.fns.len())),
                None => Imported { decls: Seq::empty(), lists: Seq::empty() },
            }
        } else {
            lemma_decls(n.children, s1, f)
        };
        lemma_same_declarations(s, s1, r.lists);
        assert(own + r.decls =~= r.decls);
        r
    }
}

proof fn lemma_decl_kinds()
    ensures
        "import_declaration"@ != "function_declaration"@,
        "import_declaration"@ != "method_declaration"@,
        "import_declaration"@ != "short_var_declaration"@,
        "import_declaration"@ != "var_spec"@,
        "import_declaration"@ != "call_expression"@,
{
    reveal_strlit("import_declaration");
    reveal_strlit("function_declaration");
    reveal_strlit("method_declaration");
    reveal_strlit("short_var_declaration");
    reveal_strlit("var_spec");
    reveal_strlit("call_expression");
    assert("import_declaration"@[0] == 'i' && "function_declaration"@[0] == 'f'
        && "method_declaration"@[0] == 'm' && "short_var_declaration"@[0] == 's' && "var_spec"@[0]
        == 'v' && "call_expression"@[0] == 'c');
}

proof fn lemma_decls(nodes: Seq<NodeV>, s: ScopeV, f: Option<nat>) -> (r: Imported)
    ensures
        walk::gathered(r.decls, nodes, (), decl_steps(), a_declaration()),
        are_imports_of(r.lists, r.decls),
        same_imports(go::with_nodes(nodes, s, f), with_declarations(s, r.lists)),
    decreases nodes, 0int,
{
    if nodes.len() == 0 {
        assert(nodes =~= Seq::empty());
        walk::lemma_gathered_none((), decl_steps(), a_declaration());
        Imported { decls: Seq::empty(), lists: Seq::empty() }
    } else {
        let init = nodes.drop_last();
        let n = nodes.last();
        let a = lemma_decls(init, s, f);
        let s1 = go::with_nodes(init, s, f);
        let b = lemma_decl(n, s1, f);
        walk::lemma_gathered_push(init, n, (), decl_steps(), a_declaration(), a.decls, b.decls);
        assert(init.push(n) =~= nodes);
        let more = walk::some_of(a_declaration()(n, ())) + b.decls;
        let r = Imported { decls: a.decls + more, lists: a.lists + b.lists };
        assert forall|i: int| 0 <= i < r.lists.len() implies walk::gathered(
            #[trigger] r.lists[i],
            r.decls[i].children.filter(syntax::is_named()),
            (),
            import_steps(),
            an_import(),
        ) by {
            if i < a.lists.len() {
                assert(r.lists[i] == a.lists[i]);
                assert(r.decls[i] == a.decls[i]);
            } else {
                let k = i - a.lists.len();
                assert(r.lists[i] == b.lists[k]);
                assert(r.decls[i] == more[k]);
            }
        }
        lemma_declarations_add(s, a.lists, b.lists);
        lemma_same_declarations(s1, with_declarations(s, a.lists), b.lists);
        r
    }
}

/// The imports of a file are those of its import declarations, one declaration after another.
pub proof fn law_imports(root: NodeV) -> (r: (Seq<NodeV>, Seq<Seq<Import>>))
    ensures
        walk::gathered(r.0, seq![root], (), decl_steps(), a_declaration()),
        are_imports_of(r.1, r.0),
        same_imports(
            go::file_scope(root),
            with_declarations(resolve::scope::empty_scope(), r.1),
        ),
{
    let s = resolve::scope::empty_scope();
    let b = lemma_decls(seq![root], s, None);
    let none = Seq::<NodeV>::empty();
    assert(seq![root].drop_last() =~= none);
    assert(go::with_nodes(none, s, None) == s);
    assert(go::with_nodes(seq![root], s, None) == go::file_scope(root));
    (b.decls, b.lists)
}

} // verus!
