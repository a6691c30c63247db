//! What the nodes of a Rust file define, call and import, said of the syntax tree.

use vstd::prelude::*;
use crate::path;
use crate::resolve;
use crate::resolve::rust;
use crate::resolve::rust::OwnerV;
use crate::resolve::rust_scope::inner_nodes;
use crate::resolve::scope::{BindingV, ScopeV};
use crate::resolve::{CalleeV, DefIdV, DefKindV, DefV, ReceiverV};
use crate::syntax;
use crate::syntax::NodeV;
use crate::text;
use crate::walk;

verus! {

broadcast use vstd::string::group_string_axioms;

// ---------------------------------------------------------------------------
// Types, paths, callees and bindings
// ---------------------------------------------------------------------------

/// The base name of a type is that of what it refers to, or is made of: references and type
/// arguments make no difference, `dyn` and `impl` give the trait, a path gives its last segment,
/// and a smart pointer what it points to.
pub proof fn law_base_type(n: NodeV, inner: NodeV)
    ensures
        n.kind == "type_identifier"@ ==> rust::base_type_spec(n) == Some(syntax::content(n)),
        n.kind == "reference_type"@ && syntax::field_child(n, "type"@) == Some(inner)
            ==> rust::base_type_spec(n) == rust::base_type_spec(inner),
        (n.kind == "dynamic_type"@ || n.kind == "abstract_type"@) && syntax::field_child(
            n,
            "trait"@,
        ) == Some(inner) ==> rust::base_type_spec(n) == rust::base_type_spec(inner),
        n.kind == "scoped_type_identifier"@ && syntax::field_child(n, "name"@) == Some(inner)
            ==> rust::base_type_spec(n) == Some(syntax::content(inner)),
        n.kind == "generic_type"@ && syntax::field_child(n, "type"@) == Some(inner) ==> (
        match rust::base_type_spec(inner) {
            Some(base) => if is_smart_pointer(base) && pointee(n) is Some {
                rust::base_type_spec(n) == pointee(n)
            } else {
                rust::base_type_spec(n) == Some(base)
            },
            None => rust::base_type_spec(n) is None,
        }),
{
    lemma_type_kinds();
}

/// Whether a type only points to another one.
pub open spec fn is_smart_pointer(name: Seq<char>) -> bool {
    name == "Box"@ || name == "Rc"@ || name == "Arc"@
}

/// The base name of the first type argument.
pub open spec fn pointee(n: NodeV) -> Option<Seq<char>> {
    match syntax::field_child(n, "type_arguments"@) {
        Some(args) => match syntax::first_named(args) {
            Some(a) => rust::base_type_spec(a),
            None => None,
        },
        None => None,
    }
}

proof fn lemma_type_kinds()
    ensures
        "type_identifier"@ != "generic_type"@,
        "type_identifier"@ != "reference_type"@,
        "type_identifier"@ != "dynamic_type"@,
        "type_identifier"@ != "abstract_type"@,
        "type_identifier"@ != "scoped_type_identifier"@,
        "generic_type"@ != "reference_type"@,
        "generic_type"@ != "dynamic_type"@,
        "generic_type"@ != "abstract_type"@,
        "generic_type"@ != "scoped_type_identifier"@,
        "reference_type"@ != "dynamic_type"@,
        "reference_type"@ != "abstract_type"@,
        "reference_type"@ != "scoped_type_identifier"@,
        "dynamic_type"@ != "scoped_type_identifier"@,
        "abstract_type"@ != "scoped_type_identifier"@,
{
    reveal_strlit("type_identifier");
    reveal_strlit("generic_type");
    reveal_strlit("reference_type");
    reveal_strlit("dynamic_type");
    reveal_strlit("abstract_type");
    reveal_strlit("scoped_type_identifier");
    assert("type_identifier"@[0] == 't' && "generic_type"@[0] == 'g' && "reference_type"@[0] == 'r'
        && "dynamic_type"@[0] == 'd' && "abstract_type"@[0] == 'a' && "scoped_type_identifier"@[0]
        == 's');
}

/// The segments of a path.
pub open spec fn segments(n: NodeV) -> Seq<Seq<char>> {
    rust::with_path(n, Seq::empty())
}

/// A text as a segment: `crate`, `self`, `super` and nothing at all are none.
pub open spec fn as_segment(s: Seq<char>) -> Seq<Seq<char>> {
    if s.len() == 0 || s == "crate"@ || s == "self"@ || s == "super"@ {
        Seq::empty()
    } else {
        seq![s]
    }
}

proof fn lemma_segment(path: Seq<Seq<char>>, s: Seq<char>)
    ensures
        rust::with_segment(path, s) == path + as_segment(s),
{
    assert(rust::with_segment(path, s) =~= path + as_segment(s));
}

proof fn lemma_with_path(n: NodeV, path: Seq<Seq<char>>)
    ensures
        rust::with_path(n, path) == path + segments(n),
    decreases n,
{
    syntax::lemma_field_child(n, "path"@);
    syntax::lemma_field_child(n, "type"@);
    let none = Seq::<Seq<char>>::empty();
    if n.kind == "scoped_identifier"@ || n.kind == "scoped_type_identifier"@ {
        let (front, front0) = match syntax::field_child(n, "path"@) {
            Some(p) => {
                lemma_with_path(p, path);
                lemma_with_path(p, none);
                (rust::with_path(p, path), rust::with_path(p, none))
            },
            None => (path, none),
        };
        assert(front =~= path + front0);
        if let Some(m) = syntax::field_child(n, "name"@) {
            lemma_segment(front, syntax::content(m));
            lemma_segment(front0, syntax::content(m));
        }
        assert(rust::with_path(n, path) =~= path + segments(n));
    } else if n.kind == "generic_type"@ {
        if let Some(t) = syntax::field_child(n, "type"@) {
            lemma_with_path(t, path);
            lemma_with_path(t, none);
        }
        assert(rust::with_path(n, path) =~= path + segments(n));
    } else {
        lemma_segment(path, syntax::content(n));
        lemma_segment(none, syntax::content(n));
        assert(rust::with_path(n, path) =~= path + segments(n));
    }
}

/// The segments of a path are those of what stands before the last `::`, and then the name
/// behind it. Type arguments are no segments.
pub proof fn law_segments(n: NodeV, front: NodeV, name: NodeV)
    ensures
        n.kind == "identifier"@ || n.kind == "type_identifier"@ ==> segments(n) == as_segment(
            syntax::content(n),
        ),
        (n.kind == "scoped_identifier"@ || n.kind == "scoped_type_identifier"@)
            && syntax::field_child(n, "path"@) == Some(front) && syntax::field_child(n, "name"@)
            == Some(name) ==> segments(n) == segments(front) + as_segment(syntax::content(name)),
        (n.kind == "scoped_identifier"@ || n.kind == "scoped_type_identifier"@)
            && syntax::field_child(n, "path"@) is None && syntax::field_child(n, "name"@) == Some(
            name,
        ) ==> segments(n) == as_segment(syntax::content(name)),
        n.kind == "generic_type"@ && syntax::field_child(n, "type"@) == Some(front) ==> segments(n)
            == segments(front),
{
    lemma_path_kinds();
    let none = Seq::<Seq<char>>::empty();
    lemma_segment(none, syntax::content(n));
    lemma_segment(none, syntax::content(name));
    lemma_segment(segments(front), syntax::content(name));
    assert(none + as_segment(syntax::content(n)) =~= as_segment(syntax::content(n)));
    assert(none + as_segment(syntax::content(name)) =~= as_segment(syntax::content(name)));
}

proof fn lemma_path_kinds()
    ensures
        "identifier"@ != "scoped_identifier"@,
        "identifier"@ != "scoped_type_identifier"@,
        "identifier"@ != "generic_type"@,
        "type_identifier"@ != "scoped_identifier"@,
        "type_identifier"@ != "scoped_type_identifier"@,
        "type_identifier"@ != "generic_type"@,
        "generic_type"@ != "scoped_identifier"@,
        "generic_type"@ != "scoped_type_identifier"@,
        "identifier"@ != "generic_function"@,
        "identifier"@ != "field_expression"@,
        "scoped_identifier"@ != "generic_function"@,
        "scoped_identifier"@ != "field_expression"@,
        "generic_function"@ != "field_expression"@,
        "identifier"@ != "self"@,
        "identifier"@ != "call_expression"@,
        "identifier"@ != "struct_expression"@,
        "scoped_identifier"@ != "call_expression"@,
        "scoped_identifier"@ != "struct_expression"@,
        "call_expression"@ != "struct_expression"@,
{
    reveal_strlit("identifier");
    reveal_strlit("scoped_identifier");
    reveal_strlit("type_identifier");
    reveal_strlit("scoped_type_identifier");
    reveal_strlit("generic_type");
    reveal_strlit("generic_function");
    reveal_strlit("field_expression");
    reveal_strlit("self");
    reveal_strlit("call_expression");
    reveal_strlit("struct_expression");
    assert("identifier"@[0] == 'i' && "scoped_identifier"@[0] == 's' && "type_identifier"@[0] == 't'
        && "scoped_type_identifier"@[0] == 's' && "generic_type"@[0] == 'g'
        && "generic_function"@[0] == 'g' && "field_expression"@[0] == 'f' && "self"@[0] == 's'
        && "call_expression"@[0] == 'c' && "struct_expression"@[1] == 't'
        && "scoped_identifier"@[1] == 'c');
}

/// What a path is a call of: of a bare name with one segment, of a path with several.
pub open spec fn called_path(segs: Seq<Seq<char>>) -> Option<CalleeV> {
    if segs.len() == 0 {
        None
    } else if segs.len() == 1 {
        Some(CalleeV::Bare(segs[0]))
    } else {
        Some(CalleeV::Path(segs))
    }
}

/// What a method is called on: `self`, a variable, or anything else.
pub open spec fn receiver_of(value: NodeV) -> ReceiverV {
    if value.kind == "self"@ {
        ReceiverV::SelfRecv
    } else if value.kind == "identifier"@ {
        ReceiverV::Var(syntax::content(value))
    } else {
        ReceiverV::Opaque(text::first_line_spec(syntax::content(value)))
    }
}

/// What a call calls: a name, a path, or a method on what stands before the dot. Type arguments
/// make no difference.
pub proof fn law_callee(n: NodeV, f: NodeV, x: NodeV, y: NodeV)
    requires
        syntax::field_child(n, "function"@) == Some(f),
    ensures
        f.kind == "identifier"@ ==> rust::call_of(n) == Some(CalleeV::Bare(syntax::content(f))),
        f.kind == "scoped_identifier"@ ==> rust::call_of(n) == called_path(segments(f)),
        f.kind == "field_expression"@ && syntax::field_child(f, "value"@) == Some(x)
            && syntax::field_child(f, "field"@) == Some(y) ==> rust::call_of(n) == Some(
            CalleeV::Method { receiver: receiver_of(x), name: syntax::content(y) },
        ),
        f.kind == "generic_function"@ && syntax::field_child(f, "function"@) == Some(x)
            ==> rust::call_of(n) == rust::callee_of(x),
        rust::call_of(n) == rust::callee_of(f),
{
    lemma_path_kinds();
}

/// What a `let` binds its variable to: its type, where one is written; else what its value is:
/// a function, the result of a call, or a struct.
pub proof fn law_let(n: NodeV, var: NodeV, value: NodeV)
    requires
        syntax::field_child(n, "pattern"@) == Some(var),
    ensures
        var.kind != "identifier"@ ==> rust::let_binding(n) is None,
        var.kind == "identifier"@ ==> {
            let name = syntax::content(var);
            match rust::field_type(n, "type"@) {
                Some(t) => rust::let_binding(n) == Some((name, BindingV::Typed(t))),
                None => syntax::field_child(n, "value"@) == Some(value) ==> {
                    &&& value.kind == "identifier"@ ==> rust::let_binding(n) == Some(
                        (name, BindingV::FnValue(CalleeV::Bare(syntax::content(value)))),
                    )
                    &&& value.kind == "scoped_identifier"@ ==> rust::let_binding(n) == (
                    match called_path(segments(value)) {
                        Some(c) => Some((name, BindingV::FnValue(c))),
                        None => None,
                    })
                    &&& value.kind == "call_expression"@ ==> rust::let_binding(n) == (
                    match rust::call_of(value) {
                        Some(c) => Some((name, BindingV::Call(c))),
                        None => None,
                    })
                    &&& value.kind == "struct_expression"@ ==> (
                    match syntax::field_child(value, "name"@) {
                        Some(ty) => segments(ty).len() > 0 ==> rust::let_binding(n) == Some(
                            (name, BindingV::Typed(segments(ty).last())),
                        ),
                        None => rust::let_binding(n) is None,
                    })
                },
            }
        },
{
    lemma_path_kinds();
}

/// A trait that a node names.
pub open spec fn a_trait() -> spec_fn(NodeV, ()) -> Option<Seq<char>> {
    |n: NodeV, w: ()|
        if n.named {
            rust::base_type_spec(n)
        } else {
            None
        }
}

/// The traits of a list of bounds are what its nodes name.
pub proof fn law_traits(nodes: Seq<NodeV>)
    ensures
        walk::gathered(rust::traits_of(nodes), nodes, (), walk::no_steps(), a_trait()),
    decreases nodes.len(),
{
    walk::lemma_gathered_none((), walk::no_steps(), a_trait());
    if nodes.len() == 0 {
        assert(nodes =~= Seq::empty());
        assert(rust::traits_of(nodes) =~= Seq::empty());
    } else {
        let init = nodes.drop_last();
        let n = nodes.last();
        law_traits(init);
        walk::lemma_gathered_push(
            init,
            n,
            (),
            walk::no_steps(),
            a_trait(),
            rust::traits_of(init),
            Seq::empty(),
        );
        assert(init.push(n) =~= nodes);
        assert(rust::traits_of(nodes) =~= rust::traits_of(init) + (walk::some_of(a_trait()(n, ()))
            + Seq::empty()));
    }
}

/// A type and the traits that it is bound by: the name in a field of a node of a kind, and what
/// its bounds name.
pub open spec fn a_bound(kind: Seq<char>, field: Seq<char>) -> spec_fn(NodeV, ()) -> Option<
    (Seq<char>, Seq<Seq<char>>),
> {
    |n: NodeV, w: ()|
        match (syntax::field_child(n, field), syntax::field_child(n, "bounds"@)) {
            (Some(name), Some(bounds)) => if n.named && n.kind == kind {
                Some((syntax::content(name), rust::traits_of(bounds.children)))
            } else {
                None
            },
            _ => None,
        }
}

/// Bounds with more of them: those of a type that has some already come behind these.
pub open spec fn with_pairs(
    m: Map<Seq<char>, Seq<Seq<char>>>,
    pairs: Seq<(Seq<char>, Seq<Seq<char>>)>,
) -> Map<Seq<char>, Seq<Seq<char>>>
    decreases pairs.len(),
{
    if pairs.len() == 0 {
        m
    } else {
        let init = with_pairs(m, pairs.drop_last());
        let (name, traits) = pairs.last();
        let before = if init.contains_key(name) {
            init[name]
        } else {
            Seq::empty()
        };
        if traits.len() == 0 {
            init
        } else {
            init.insert(name, before + traits)
        }
    }
}

proof fn lemma_all_bounds(
    m: Map<Seq<char>, Seq<Seq<char>>>,
    nodes: Seq<NodeV>,
    kind: Seq<char>,
    field: Seq<char>,
) -> (pairs: Seq<(Seq<char>, Seq<Seq<char>>)>)
    ensures
        walk::gathered(pairs, nodes, (), walk::no_steps(), a_bound(kind, field)),
        rust::with_all_bounds(m, nodes, kind, field) == with_pairs(m, pairs),
    decreases nodes.len(),
{
    let value = a_bound(kind, field);
    walk::lemma_gathered_none((), walk::no_steps(), value);
    if nodes.len() == 0 {
        assert(nodes =~= Seq::empty());
        Seq::empty()
    } else {
        let init = nodes.drop_last();
        let n = nodes.last();
        let a = lemma_all_bounds(m, init, kind, field);
        walk::lemma_gathered_push(init, n, (), walk::no_steps(), value, a, Seq::empty());
        assert(init.push(n) =~= nodes);
        let own = walk::some_of(value(n, ()));
        let all = a + (own + Seq::empty());
        if own.len() > 0 {
            assert(all.drop_last() =~= a);
            assert(all.last() == own[0]);
            assert(Seq::<Seq<char>>::empty() + own[0].1 =~= own[0].1);
        } else {
            assert(all =~= a);
        }
        all
    }
}

proof fn lemma_where_bounds(m: Map<Seq<char>, Seq<Seq<char>>>, nodes: Seq<NodeV>) -> (lists: Seq<
    Seq<(Seq<char>, Seq<Seq<char>>)>,
>)
    ensures
        are_where_bounds(lists, nodes.filter(|n: NodeV| n.kind == "where_clause"@)),
        rust::with_where_bounds(m, nodes) == with_pairs(m, walk::joined(lists)),
    decreases nodes.len(),
{
    reveal(Seq::filter);
    let keep = |n: NodeV| n.kind == "where_clause"@;
    if nodes.len() == 0 {
        assert(nodes.filter(keep) =~= Seq::empty());
        Seq::empty()
    } else {
        let init = nodes.drop_last();
        let n = nodes.last();
        let a = lemma_where_bounds(m, init);
        if keep(n) {
            let before = rust::with_where_bounds(m, init);
            let b = lemma_all_bounds(before, n.children, "where_predicate"@, "left"@);
            let lists = a.push(b);
            assert(lists.drop_last() =~= a);
            lemma_pairs_add(m, walk::joined(a), b);
            let kept = init.filter(keep);
            assert(nodes.filter(keep) == kept.push(n));
            assert forall|i: int| 0 <= i < lists.len() implies walk::gathered(
                #[trigger] lists[i],
                kept.push(n)[i].children,
                (),
                walk::no_steps(),
                a_bound("where_predicate"@, "left"@),
            ) by {
                if i < a.len() {
                    assert(lists[i] == a[i]);
                }
            }
            lists
        } else {
            assert(nodes.filter(keep) == init.filter(keep));
            a
        }
    }
}

proof fn lemma_pairs_add(
    m: Map<Seq<char>, Seq<Seq<char>>>,
    a: Seq<(Seq<char>, Seq<Seq<char>>)>,
    b: Seq<(Seq<char>, Seq<Seq<char>>)>,
)
    ensures
        with_pairs(m, a + b) == with_pairs(with_pairs(m, a), b),
    decreases b.len(),
{
    if b.len() == 0 {
        assert(a + b =~= a);
    } else {
        lemma_pairs_add(m, a, b.drop_last());
        assert((a + b).drop_last() =~= a + b.drop_last());
        assert((a + b).last() == b.last());
    }
}

/// Whether lists of bounds are those of `where` clauses, clause by clause.
pub open spec fn are_where_bounds(
    lists: Seq<Seq<(Seq<char>, Seq<Seq<char>>)>>,
    clauses: Seq<NodeV>,
) -> bool {
    &&& lists.len() == clauses.len()
    &&& forall|i: int|
        0 <= i < lists.len() ==> walk::gathered(
            #[trigger] lists[i],
            clauses[i].children,
            (),
            walk::no_steps(),
            a_bound("where_predicate"@, "left"@),
        )
}

/// The bounds of a function are those of its type parameters, and then those of its `where`
/// clauses: `fn f<T: W>(..)` and `where T: W` both bind `T` to `W`.
pub proof fn law_bounds(n: NodeV) -> (r: (
    Seq<(Seq<char>, Seq<Seq<char>>)>,
    Seq<Seq<(Seq<char>, Seq<Seq<char>>)>>,
))
    ensures
        walk::gathered(
            r.0,
            match syntax::field_child(n, "type_parameters"@) {
                Some(list) => list.children,
                None => Seq::empty(),
            },
            (),
            walk::no_steps(),
            a_bound("type_parameter"@, "name"@),
        ),
        are_where_bounds(r.1, n.children.filter(|c: NodeV| c.kind == "where_clause"@)),
        rust::bounds_of(n) == with_pairs(Map::empty(), r.0 + walk::joined(r.1)),
{
    let value = a_bound("type_parameter"@, "name"@);
    let a = match syntax::field_child(n, "type_parameters"@) {
        Some(list) => lemma_all_bounds(
            Map::empty(),
            list.children,
            "type_parameter"@,
            "name"@,
        ),
        None => {
            walk::lemma_gathered_none((), walk::no_steps(), value);
            Seq::empty()
        },
    };
    let b = lemma_where_bounds(with_pairs(Map::empty(), a), n.children);
    lemma_pairs_add(Map::empty(), a, walk::joined(b));
    (a, b)
}

// ---------------------------------------------------------------------------
// Definitions
// ---------------------------------------------------------------------------

/// The module that a definition stands in, and the `impl` block or trait.
pub type Home = (Seq<Seq<char>>, OwnerV);

/// The text of the node in the field `name`.
pub open spec fn name_of(n: NodeV) -> Option<Seq<char>> {
    match syntax::field_child(n, "name"@) {
        Some(m) => Some(syntax::content(m)),
        None => None,
    }
}

/// From node to node, wherever a definition may stand: into the bodies of functions, modules,
/// `impl` blocks and traits.
pub open spec fn def_steps() -> spec_fn(NodeV, Home) -> (Seq<NodeV>, Home) {
    |n: NodeV, h: Home|
        if n.kind == "function_item"@ {
            (inner_nodes(n), (h.0, OwnerV::Free))
        } else if n.kind == "mod_item"@ && name_of(n) is Some {
            (inner_nodes(n), (h.0.push(name_of(n)->Some_0), OwnerV::Free))
        } else if n.kind == "impl_item"@ && rust::field_type(n, "type"@) is Some {
            (
                inner_nodes(n),
                (
                    h.0,
                    OwnerV::Impl {
                        ty: rust::field_type(n, "type"@)->Some_0,
                        of_trait: rust::field_type(n, "trait"@),
                    },
                ),
            )
        } else if n.kind == "trait_item"@ && name_of(n) is Some {
            (inner_nodes(n), (h.0, OwnerV::Trait(name_of(n)->Some_0)))
        } else {
            (Seq::empty(), h)
        }
}

/// A definition: a function in the module, the `impl` block or the trait that it stands in, or a
/// signature in a trait.
pub open spec fn a_definition(file: Seq<char>) -> spec_fn(NodeV, Home) -> Option<DefV> {
    |n: NodeV, h: Home|
        {
            let id = DefIdV { file, line: syntax::line_of(n.start_row) };
            let ret = rust::field_type(n, "return_type"@);
            match name_of(n) {
                None => None,
                Some(name) => if n.kind == "function_item"@ {
                    match h.1 {
                        OwnerV::Free => Some(
                            DefV {
                                name,
                                qualified: h.0.push(name),
                                kind: DefKindV::Function,
                                ret,
                                id,
                            },
                        ),
                        OwnerV::Impl { ty, of_trait } => Some(
                            DefV {
                                name,
                                qualified: h.0.push(ty).push(name),
                                kind: DefKindV::Method { receiver: ty, via_trait: of_trait },
                                ret: self_is(ret, ty),
                                id,
                            },
                        ),
                        OwnerV::Trait(tr) => Some(
                            DefV {
                                name,
                                qualified: h.0.push(tr).push(name),
                                kind: DefKindV::Method { receiver: tr, via_trait: None },
                                ret: self_is(ret, tr),
                                id,
                            },
                        ),
                    }
                } else if n.kind == "function_signature_item"@ {
                    match h.1 {
                        OwnerV::Trait(tr) => Some(
                            DefV {
                                name,
                                qualified: h.0.push(tr).push(name),
                                kind: DefKindV::InterfaceMethod { interface: tr },
                                ret,
                                id,
                            },
                        ),
                        _ => None,
                    }
                } else {
                    None
                },
            }
        }
}

/// A return type, in which `Self` stands for a type.
pub open spec fn self_is(ret: Option<Seq<char>>, ty: Seq<char>) -> Option<Seq<char>> {
    if ret == Some("Self"@) {
        Some(ty)
    } else {
        ret
    }
}

proof fn lemma_def_kinds()
    ensures
        "function_item"@ != "function_signature_item"@,
        "mod_item"@ != "function_item"@,
        "impl_item"@ != "function_item"@,
        "trait_item"@ != "function_item"@,
        "mod_item"@ != "function_signature_item"@,
        "impl_item"@ != "function_signature_item"@,
        "trait_item"@ != "function_signature_item"@,
        "mod_item"@ != "impl_item"@,
        "mod_item"@ != "trait_item"@,
        "impl_item"@ != "trait_item"@,
{
    reveal_strlit("function_item");
    reveal_strlit("function_signature_item");
    reveal_strlit("mod_item");
    reveal_strlit("impl_item");
    reveal_strlit("trait_item");
    assert("function_item"@.len() == 13 && "function_signature_item"@.len() == 23
        && "mod_item"@.len() == 8 && "impl_item"@.len() == 9 && "trait_item"@.len() == 10);
}

proof fn lemma_defs_of(n: NodeV, file: Seq<char>, h: Home) -> (lower: Seq<DefV>)
    ensures
        walk::gathered(
            lower,
            def_steps()(n, h).0,
            def_steps()(n, h).1,
            def_steps(),
            a_definition(file),
        ),
        rust::defs_of(n, file, h.0, h.1) == walk::some_of(a_definition(file)(n, h)) + lower,
    decreases n, 1int,
{
    lemma_def_kinds();
    syntax::lemma_field_child(n, "body"@);
    let h2 = def_steps()(n, h).1;
    let own = walk::some_of(a_definition(file)(n, h));
    walk::lemma_gathered_none(h2, def_steps(), a_definition(file));
    let none = Seq::<DefV>::empty();
    let lower = if def_steps()(n, h).0.len() == 0 {
        assert(def_steps()(n, h).0 =~= Seq::empty());
        none
    } else {
        let body = syntax::field_child(n, "body"@)->Some_0;
        lemma_defs_below(body.children, file, h2);
        rust::defs_below(body.children, file, h2.0, h2.1)
    };
    assert(rust::defs_below(Seq::empty(), file, h2.0, h2.1) =~= none);
    if let Some(body) = syntax::field_child(n, "body"@) {
        if body.children.len() == 0 {
            assert(body.children =~= Seq::empty());
        }
    }
    assert(rust::defs_of(n, file, h.0, h.1) =~= own + lower);
    lower
}

proof fn lemma_defs_below(nodes: Seq<NodeV>, file: Seq<char>, h: Home)
    ensures
        walk::gathered(
            rust::defs_below(nodes, file, h.0, h.1),
            nodes,
            h,
            def_steps(),
            a_definition(file),
        ),
    decreases nodes, 0int,
{
    if nodes.len() == 0 {
        assert(nodes =~= Seq::empty());
        assert(rust::defs_below(nodes, file, h.0, h.1) =~= Seq::empty());
        walk::lemma_gathered_none(h, def_steps(), a_definition(file));
    } else {
        let init = nodes.drop_last();
        let n = nodes.last();
        lemma_defs_below(init, file, h);
        let lower = lemma_defs_of(n, file, h);
        walk::lemma_gathered_push(
            init,
            n,
            h,
            def_steps(),
            a_definition(file),
            rust::defs_below(init, file, h.0, h.1),
            lower,
        );
        assert(init.push(n) =~= nodes);
    }
}

/// The definitions of a file are its functions and signatures, wherever they stand, in the order
/// of the text, each once: with the path of modules, type and name, with the type or trait that
/// they belong to, with what they return, and with their line.
pub proof fn law_definitions(root: NodeV, file: Seq<char>)
    ensures
        walk::gathered(
            rust::tree_defs(root, file),
            root.children,
            (rust::modules_of(file), OwnerV::Free),
            def_steps(),
            a_definition(file),
        ),
{
    lemma_defs_below(root.children, file, (rust::modules_of(file), OwnerV::Free));
}

/// From node to node, everywhere.
pub open spec fn all_steps() -> spec_fn(NodeV, ()) -> (Seq<NodeV>, ()) {
    |n: NodeV, w: ()| (n.children, ())
}

/// An `impl` of a trait for a type.
pub open spec fn an_impl() -> spec_fn(NodeV, ()) -> Option<(Seq<char>, Seq<char>)> {
    |n: NodeV, w: ()|
        match (rust::field_type(n, "type"@), rust::field_type(n, "trait"@)) {
            (Some(ty), Some(tr)) => if n.kind == "impl_item"@ {
                Some((ty, tr))
            } else {
                None
            },
            _ => None,
        }
}

proof fn lemma_impls_below(nodes: Seq<NodeV>)
    ensures
        walk::gathered(rust::impls_below(nodes), nodes, (), all_steps(), an_impl()),
    decreases nodes, 0int,
{
    if nodes.len() == 0 {
        assert(nodes =~= Seq::empty());
        assert(rust::impls_below(nodes) =~= Seq::empty());
        walk::lemma_gathered_none((), all_steps(), an_impl());
    } else {
        let init = nodes.drop_last();
        let n = nodes.last();
        lemma_impls_below(init);
        lemma_impls_of(n);
        walk::lemma_gathered_push(
            init,
            n,
            (),
            all_steps(),
            an_impl(),
            rust::impls_below(init),
            rust::impls_below(n.children),
        );
        assert(init.push(n) =~= nodes);
        assert(rust::impls_of(n) =~= walk::some_of(an_impl()(n, ())) + rust::impls_below(
            n.children,
        ));
    }
}

proof fn lemma_impls_of(n: NodeV)
    ensures
        walk::gathered(rust::impls_below(n.children), n.children, (), all_steps(), an_impl()),
    decreases n, 1int,
{
    lemma_impls_below(n.children);
}

/// The `impl Trait for Type` blocks of a file are those anywhere in it, with or without methods,
/// each with its type and its trait.
pub proof fn law_impls(root: NodeV)
    ensures
        walk::gathered(rust::impls_of(root), seq![root], (), all_steps(), an_impl()),
{
    lemma_impls_below(seq![root]);
    assert(seq![root].drop_last() =~= Seq::empty());
    assert(rust::impls_below(seq![root].drop_last()) =~= Seq::empty());
    assert(rust::impls_below(seq![root]) =~= rust::impls_of(root));
}

/// The modules that the place of a file stands for are the directories below the last `src`:
/// nothing, if there is none.
pub proof fn law_modules_below_src(dirs: Seq<Seq<char>>)
    ensures
        ({
            let mods = rust::after_src(dirs);
            let n = dirs.len() - mods.len();
            &&& mods.len() <= dirs.len()
            &&& !mods.contains("src"@)
            &&& dirs.contains("src"@) ==> n > 0 && dirs[n - 1] == "src"@ && dirs.skip(n) == mods
            &&& !dirs.contains("src"@) ==> mods.len() == 0
        }),
    decreases dirs.len(),
{
    let mods = rust::after_src(dirs);
    if dirs.contains("src"@) && dirs.last() != "src"@ {
        let init = dirs.drop_last();
        let i = dirs.index_of("src"@);
        assert(init[i] == "src"@);
        law_modules_below_src(init);
        let below = rust::after_src(init);
        let n = init.len() - below.len();
        assert(mods == below.push(dirs.last()));
        assert(dirs.skip(n) =~= mods) by {
            assert forall|k: int| 0 <= k < mods.len() implies dirs.skip(n)[k] == mods[k] by {
                if k < below.len() {
                    assert(init.skip(n)[k] == below[k]);
                }
            }
        }
        if mods.contains("src"@) {
            let k = mods.index_of("src"@);
            if k < below.len() {
                assert(below[k] == "src"@);
            }
        }
    } else if dirs.contains("src"@) {
        assert(dirs.skip(dirs.len() as int) =~= mods);
    }
}

/// The module of a file is that of its directories and its own name, unless the file stands for
/// its directory: `lib`, `main` and `mod` do.
pub proof fn law_module_of_file(file: Seq<char>, stem: Seq<char>)
    requires
        path::file_stem_spec(file) == Some(stem),
    ensures
        ({
            let dirs = rust::after_src(path::dir_names_spec(file));
            if stem == "lib"@ || stem == "main"@ || stem == "mod"@ {
                rust::modules_of(file) == dirs
            } else {
                rust::modules_of(file) == dirs.push(stem)
            }
        }),
{
}

// ---------------------------------------------------------------------------
// Imports
// ---------------------------------------------------------------------------

/// An import: a name for a path, or a path of which everything is imported.
pub enum Import {
    Name(Seq<char>, Seq<Seq<char>>),
    All(Seq<Seq<char>>),
}

/// From tree to tree in a `use` declaration, with the segments that stand before each.
pub open spec fn use_steps() -> spec_fn(NodeV, Seq<Seq<char>>) -> (Seq<NodeV>, Seq<Seq<char>>) {
    |n: NodeV, prefix: Seq<Seq<char>>|
        if n.kind == "scoped_use_list"@ {
            (
                match syntax::field_child(n, "list"@) {
                    Some(list) => list.children.filter(syntax::is_named()),
                    None => Seq::empty(),
                },
                match syntax::field_child(n, "path"@) {
                    Some(p) => prefix + segments(p),
                    None => prefix,
                },
            )
        } else if n.kind == "use_list"@ {
            (n.children.filter(syntax::is_named()), prefix)
        } else {
            (Seq::empty(), prefix)
        }
}

/// A path under its last segment.
pub open spec fn under_last(path: Seq<Seq<char>>) -> Option<Import> {
    if path.len() > 0 {
        Some(Import::Name(path.last(), path))
    } else {
        None
    }
}

/// What a `use` tree imports: a path under its last segment or under an alias, or everything in
/// it.
pub open spec fn an_import() -> spec_fn(NodeV, Seq<Seq<char>>) -> Option<Import> {
    |n: NodeV, prefix: Seq<Seq<char>>|
        {
            let path = match syntax::field_child(n, "path"@) {
                Some(p) => prefix + segments(p),
                None => prefix,
            };
            if n.kind == "identifier"@ || n.kind == "crate"@ || n.kind == "self"@ || n.kind
                == "super"@ {
                under_last(prefix + as_segment(syntax::content(n)))
            } else if n.kind == "scoped_identifier"@ {
                under_last(prefix + segments(n))
            } else if n.kind == "use_as_clause"@ {
                match syntax::field_child(n, "alias"@) {
                    Some(alias) => Some(Import::Name(syntax::content(alias), path)),
                    None => None,
                }
            } else if n.kind == "use_wildcard"@ {
                match syntax::first_named(n) {
                    Some(p) => Some(Import::All(prefix + segments(p))),
                    None => Some(Import::All(prefix)),
                }
            } else {
                None
            }
        }
}

/// A scope with an import: of two under one name, the later one stays.
pub open spec fn with_one(s: ScopeV, i: Import) -> ScopeV {
    match i {
        Import::Name(name, path) => ScopeV { imports: s.imports.insert(name, path), ..s },
        Import::All(path) => ScopeV { globs: s.globs.push(path), ..s },
    }
}

/// A scope with imports, one after another.
pub open spec fn with_imports(s: ScopeV, imports: Seq<Import>) -> ScopeV
    decreases imports.len(),
{
    if imports.len() == 0 {
        s
    } else {
        with_one(with_imports(s, imports.drop_last()), imports.last())
    }
}

proof fn lemma_imports_add(s: ScopeV, a: Seq<Import>, b: Seq<Import>)
    ensures
        with_imports(s, a + b) == with_imports(with_imports(s, a), b),
    decreases b.len(),
{
    if b.len() == 0 {
        assert(a + b =~= a);
    } else {
        lemma_imports_add(s, a, b.drop_last());
        assert((a + b).drop_last() =~= a + b.drop_last());
        assert((a + b).last() == b.last());
    }
}

proof fn lemma_use_kinds()
    ensures
        "scoped_use_list"@ != "use_list"@,
        "scoped_use_list"@ != "identifier"@,
        "scoped_use_list"@ != "crate"@,
        "scoped_use_list"@ != "self"@,
        "scoped_use_list"@ != "super"@,
        "scoped_use_list"@ != "scoped_identifier"@,
        "scoped_use_list"@ != "use_as_clause"@,
        "scoped_use_list"@ != "use_wildcard"@,
        "use_list"@ != "identifier"@,
        "use_list"@ != "crate"@,
        "use_list"@ != "self"@,
        "use_list"@ != "super"@,
        "use_list"@ != "scoped_identifier"@,
        "use_list"@ != "use_as_clause"@,
        "use_list"@ != "use_wildcard"@,
{
    reveal_strlit("scoped_use_list");
    reveal_strlit("identifier");
    reveal_strlit("crate");
    reveal_strlit("self");
    reveal_strlit("super");
    reveal_strlit("scoped_identifier");
    reveal_strlit("use_as_clause");
    reveal_strlit("use_wildcard");
    reveal_strlit("use_list");
    assert("scoped_use_list"@.len() == 15 && "identifier"@.len() == 10 && "crate"@.len() == 5
        && "self"@.len() == 4 && "super"@.len() == 5 && "scoped_identifier"@.len() == 17
        && "use_as_clause"@.len() == 13 && "use_wildcard"@.len() == 12 && "use_list"@.len() == 8);
}

proof fn lemma_use(n: NodeV, prefix: Seq<Seq<char>>, s: ScopeV) -> (lower: Seq<Import>)
    ensures
        walk::gathered(
            lower,
            use_steps()(n, prefix).0,
            use_steps()(n, prefix).1,
            use_steps(),
            an_import(),
        ),
        rust::with_use(n, prefix, s) == with_imports(
            s,
            walk::some_of(an_import()(n, prefix)) + lower,
        ),
    decreases n, 1int,
{
    lemma_use_kinds();
    syntax::lemma_field_child(n, "list"@);
    let own = walk::some_of(an_import()(n, prefix));
    let after = use_steps()(n, prefix).1;
    walk::lemma_gathered_none(after, use_steps(), an_import());
    lemma_segment(prefix, syntax::content(n));
    lemma_with_path(n, prefix);
    if let Some(p) = syntax::field_child(n, "path"@) {
        lemma_with_path(p, prefix);
    }
    if let Some(p) = syntax::first_named(n) {
        lemma_with_path(p, prefix);
    }
    if n.kind == "scoped_use_list"@ && syntax::field_child(n, "list"@) is Some {
        let list = syntax::field_child(n, "list"@)->Some_0;
        assert(after == rust::with_path_field(n, prefix));
        let lower = lemma_uses(list.children, after, s);
        assert(own + lower =~= lower);
        assert(use_steps()(n, prefix).0 == list.children.filter(syntax::is_named()));
        lower
    } else if n.kind == "use_list"@ {
        let lower = lemma_uses(n.children, prefix, s);
        assert(own + lower =~= lower);
        assert(use_steps()(n, prefix).0 == n.children.filter(syntax::is_named()));
        lower
    } else {
        let lower = Seq::<Import>::empty();
        assert(use_steps()(n, prefix).0 =~= Seq::empty());
        assert(own + lower =~= own);
        if own.len() > 0 {
            assert(own.drop_last() =~= Seq::empty());
            assert(with_imports(s, own.drop_last()) == s);
            assert(with_imports(s, own) == with_one(s, own[0]));
        }
        lower
    }
}

proof fn lemma_uses(nodes: Seq<NodeV>, prefix: Seq<Seq<char>>, s: ScopeV) -> (all: Seq<Import>)
    ensures
        walk::gathered(all, nodes.filter(syntax::is_named()), prefix, use_steps(), an_import()),
        rust::with_uses(nodes, prefix, s) == with_imports(s, all),
    decreases nodes, 0int,
{
    reveal(Seq::filter);
    let named = syntax::is_named();
    if nodes.len() == 0 {
        assert(nodes.filter(named) =~= Seq::empty());
        walk::lemma_gathered_none(prefix, use_steps(), an_import());
        Seq::empty()
    } else {
        let init = nodes.drop_last();
        let n = nodes.last();
        let a = lemma_uses(init, prefix, s);
        if n.named {
            let s1 = rust::with_uses(init, prefix, s);
            let lower = lemma_use(n, prefix, s1);
            walk::lemma_gathered_push(
                init.filter(named),
                n,
                prefix,
                use_steps(),
                an_import(),
                a,
                lower,
            );
            let b = walk::some_of(an_import()(n, prefix)) + lower;
            lemma_imports_add(s, a, b);
            assert(nodes.filter(named) == init.filter(named).push(n));
            a + b
        } else {
            assert(nodes.filter(named) == init.filter(named));
            a
        }
    }
}

/// From node to node, wherever a `use` declaration is read: into the bodies of `impl` blocks,
/// traits and functions, and everywhere else.
pub open spec fn decl_steps() -> spec_fn(NodeV, ()) -> (Seq<NodeV>, ()) {
    |n: NodeV, w: ()|
        if n.kind == "use_declaration"@ {
            (Seq::empty(), ())
        } else if n.kind == "impl_item"@ || n.kind == "trait_item"@ || n.kind
            == "function_item"@ {
            (inner_nodes(n), ())
        } else {
            (n.children, ())
        }
}

/// The tree of a `use` declaration.
pub open spec fn a_use() -> spec_fn(NodeV, ()) -> Option<NodeV> {
    |n: NodeV, w: ()|
        if n.kind == "use_declaration"@ {
            syntax::field_child(n, "argument"@)
        } else {
            None
        }
}

/// Whether lists of imports are those of `use` trees, tree by tree.
pub open spec fn are_imports_of(lists: Seq<Seq<Import>>, trees: Seq<NodeV>) -> bool {
    &&& lists.len() == trees.len()
    &&& forall|i: int|
        0 <= i < lists.len() ==> walk::gathered(
            #[trigger] lists[i],
            seq![trees[i]],
            Seq::<Seq<char>>::empty(),
            use_steps(),
            an_import(),
        )
}

/// What nodes import.
struct Imported {
    trees: Seq<NodeV>,
    lists: Seq<Seq<Import>>,
}

/// Whether two scopes have the same imports.
spec fn same_imports(a: ScopeV, b: ScopeV) -> bool {
    a.imports == b.imports && a.globs == b.globs
}

proof fn lemma_same_imports(a: ScopeV, b: ScopeV, imports: Seq<Import>)
    requires
        same_imports(a, b),
    ensures
        same_imports(with_imports(a, imports), with_imports(b, imports)),
    decreases imports.len(),
{
    if imports.len() > 0 {
        lemma_same_imports(a, b, imports.drop_last());
    }
}

proof fn lemma_decl(
    n: NodeV,
    s: ScopeV,
    f: Option<nat>,
    it: Option<Seq<char>>,
    tn: Option<Seq<char>>,
) -> (r: Imported)
    ensures
        walk::gathered(r.trees, decl_steps()(n, ()).0, (), decl_steps(), a_use()),
        are_imports_of(r.lists, walk::some_of(a_use()(n, ())) + r.trees),
        same_imports(
            rust::with_node(n, s, f, it, tn),
            with_imports(s, walk::joined(r.lists)),
        ),
    decreases n, 1int,
{
    lemma_decl_kinds();
    syntax::lemma_field_child(n, "body"@);
    let own = walk::some_of(a_use()(n, ()));
    walk::lemma_gathered_none((), decl_steps(), a_use());
    let nothing = Imported { trees: Seq::empty(), lists: Seq::empty() };
    if n.kind == "use_declaration"@ {
        match syntax::field_child(n, "argument"@) {
            Some(arg) => {
                let none = Seq::<Seq<char>>::empty();
                let lower = lemma_use(arg, none, s);
                let imports = walk::some_of(an_import()(arg, none)) + lower;
                walk::lemma_gathered_none(none, use_steps(), an_import());
                walk::lemma_gathered_push(
                    Seq::empty(),
                    arg,
                    none,
                    use_steps(),
                    an_import(),
                    Seq::empty(),
                    lower,
                );
                assert(Seq::<NodeV>::empty().push(arg) =~= seq![arg]);
                assert(Seq::<Import>::empty() + imports =~= imports);
                assert(own + nothing.trees =~= seq![arg]);
                let lists = seq![imports];
                assert(lists.drop_last() =~= Seq::empty());
                assert(walk::joined(lists.drop_last()) =~= Seq::empty());
                assert(walk::joined(lists) =~= imports);
                Imported { trees: Seq::empty(), lists }
            },
            None => {
                assert(own + nothing.trees =~= Seq::empty());
                nothing
            },
        }
    } else {
        let s1 = if n.kind == "function_item"@ {
            ScopeV { fns: s.fns.push(rust::fn_scope(n, it, tn)), ..s }
        } else if n.kind == "let_declaration"@ {
            resolve::scope::with_binding(s, f, syntax::line_of(n.start_row), rust::let_binding(n))
        } else if n.kind == "call_expression"@ {
            resolve::scope::with_call(s, f, syntax::line_of(n.start_row), rust::call_of(n))
        } else {
            s
        };
        assert(same_imports(s, s1));
        let r = if n.kind == "impl_item"@ || n.kind == "trait_item"@ || n.kind
            == "function_item"@ {
            match syntax::field_child(n, "body"@) {
                Some(body) => {
                    if n.kind == "impl_item"@ {
                        lemma_decls(
                            body.children,
                            s1,
                            f,
                            rust::field_type(n, "type"@),
                            rust::field_type(n, "trait"@),
                        )
                    } else if n.kind == "trait_item"@ {
                        lemma_decls(body.children, s1, f, name_of(n), None)
                    } else {
                        lemma_decls(body.children, s1, Some(s.fns.len()), it, tn)
                    }
                },
                None => nothing,
            }
        } else {
            lemma_decls(n.children, s1, f, it, tn)
        };
        lemma_same_imports(s, s1, walk::joined(r.lists));
        assert(own + r.trees =~= r.trees);
        r
    }
}

proof fn lemma_decl_kinds()
    ensures
        "use_declaration"@ != "impl_item"@,
        "use_declaration"@ != "trait_item"@,
        "use_declaration"@ != "function_item"@,
        "impl_item"@ != "trait_item"@,
        "impl_item"@ != "function_item"@,
        "trait_item"@ != "function_item"@,
        "let_declaration"@ != "function_item"@,
        "call_expression"@ != "function_item"@,
        "call_expression"@ != "let_declaration"@,
        "impl_item"@ != "let_declaration"@,
        "impl_item"@ != "call_expression"@,
        "trait_item"@ != "let_declaration"@,
        "trait_item"@ != "call_expression"@,
{
    reveal_strlit("use_declaration");
    reveal_strlit("impl_item");
    reveal_strlit("trait_item");
    reveal_strlit("function_item");
    reveal_strlit("let_declaration");
    reveal_strlit("call_expression");
    assert("use_declaration"@[0] == 'u' && "impl_item"@[0] == 'i' && "trait_item"@[0] == 't'
        && "function_item"@[0] == 'f' && "let_declaration"@[0] == 'l' && "call_expression"@[0]
        == 'c');
}

proof fn lemma_decls(
    nodes: Seq<NodeV>,
    s: ScopeV,
    f: Option<nat>,
    it: Option<Seq<char>>,
    tn: Option<Seq<char>>,
) -> (r: Imported)
    ensures
        walk::gathered(r.trees, nodes, (), decl_steps(), a_use()),
        are_imports_of(r.lists, r.trees),
        same_imports(
            rust::with_nodes(nodes, s, f, it, tn),
            with_imports(s, walk::joined(r.lists)),
        ),
    decreases nodes, 0int,
{
    if nodes.len() == 0 {
        assert(nodes =~= Seq::empty());
        walk::lemma_gathered_none((), decl_steps(), a_use());
        Imported { trees: Seq::empty(), lists: Seq::empty() }
    } else {
        let init = nodes.drop_last();
        let n = nodes.last();
        let a = lemma_decls(init, s, f, it, tn);
        let s1 = rust::with_nodes(init, s, f, it, tn);
        let b = lemma_decl(n, s1, f, it, tn);
        walk::lemma_gathered_push(init, n, (), decl_steps(), a_use(), a.trees, b.trees);
        assert(init.push(n) =~= nodes);
        let own = walk::some_of(a_use()(n, ()));
        let more = own + b.trees;
        let r = Imported { trees: a.trees + more, lists: a.lists + b.lists };
        assert forall|i: int| 0 <= i < r.lists.len() implies walk::gathered(
            #[trigger] r.lists[i],
            seq![r.trees[i]],
            Seq::<Seq<char>>::empty(),
            use_steps(),
            an_import(),
        ) by {
            if i < a.lists.len() {
                assert(r.lists[i] == a.lists[i]);
                assert(r.trees[i] == a.trees[i]);
            } else {
                let k = i - a.lists.len();
                assert(r.lists[i] == b.lists[k]);
                assert(r.trees[i] == more[k]);
            }
        }
        walk::lemma_joined(a.lists, b.lists);
        lemma_imports_add(s, walk::joined(a.lists), walk::joined(b.lists));
        lemma_same_imports(s1, with_imports(s, walk::joined(a.lists)), walk::joined(b.lists));
        r
    }
}

/// The imports of a file are those of its `use` declarations, wherever they stand, in the order
/// of the text; of two under one name, the later one stays.
pub proof fn law_imports(root: NodeV) -> (r: (Seq<NodeV>, Seq<Seq<Import>>))
    ensures
        walk::gathered(r.0, seq![root], (), decl_steps(), a_use()),
        are_imports_of(r.1, r.0),
        ({
            let all = with_imports(resolve::scope::empty_scope(), walk::joined(r.1));
            &&& rust::file_scope(root).imports == all.imports
            &&& rust::file_scope(root).globs == all.globs
        }),
{
    let s = resolve::scope::empty_scope();
    let b = lemma_decls(seq![root], s, None, None, None);
    let none = Seq::<NodeV>::empty();
    assert(seq![root].drop_last() =~= none);
    assert(rust::with_nodes(none, s, None, None, None) == s);
    assert(rust::with_nodes(seq![root], s, None, None, None) == rust::file_scope(root));
    (b.trees, b.lists)
}

} // verus!
