//! What the scope of a Rust file holds, said of the places in its syntax tree.

use vstd::prelude::*;
use crate::resolve::rust;
use crate::resolve::scope;
use crate::resolve::scope::{BindingV, FnScopeV, ScopeV};
use crate::resolve::CalleeV;
use crate::syntax;
use crate::syntax::NodeV;
use crate::walk;

verus! {

broadcast use vstd::string::group_string_axioms;

/// The type of the `impl` block, or the name of the trait, that a function stands in, and the
/// trait that the block is for.
pub type Within = (Option<Seq<char>>, Option<Seq<char>>);

/// The nodes in the body of a node.
pub open spec fn inner_nodes(n: NodeV) -> Seq<NodeV> {
    match syntax::field_child(n, "body"@) {
        Some(body) => body.children,
        None => Seq::empty(),
    }
}

/// From node to node, wherever a function may stand: everywhere but in imports. `impl` blocks
/// and traits are what the functions in their bodies stand in.
pub open spec fn fn_steps() -> spec_fn(NodeV, Within) -> (Seq<NodeV>, Within) {
    |n: NodeV, w: Within|
        if n.kind == "use_declaration"@ {
            (Seq::empty(), w)
        } else if n.kind == "impl_item"@ {
            (inner_nodes(n), (rust::field_type(n, "type"@), rust::field_type(n, "trait"@)))
        } else if n.kind == "trait_item"@ {
            (
                inner_nodes(n),
                (
                    match syntax::field_child(n, "name"@) {
                        Some(m) => Some(syntax::content(m)),
                        None => None,
                    },
                    None,
                ),
            )
        } else if n.kind == "function_item"@ {
            (inner_nodes(n), w)
        } else {
            (n.children, w)
        }
}

/// From node to node, as long as it is the same function that they stand in.
pub open spec fn body_steps() -> spec_fn(NodeV, ()) -> (Seq<NodeV>, ()) {
    |n: NodeV, w: ()|
        if n.kind == "use_declaration"@ || n.kind == "function_item"@ {
            (Seq::empty(), ())
        } else if n.kind == "impl_item"@ || n.kind == "trait_item"@ {
            (inner_nodes(n), ())
        } else {
            (n.children, ())
        }
}

/// A function, with what it stands in.
pub open spec fn a_function() -> spec_fn(NodeV, Within) -> Option<(NodeV, Within)> {
    |n: NodeV, w: Within|
        if n.kind == "function_item"@ {
            Some((n, w))
        } else {
            None
        }
}

/// A call: what is called, and the line.
pub open spec fn a_call() -> spec_fn(NodeV, ()) -> Option<(CalleeV, usize)> {
    |n: NodeV, w: ()|
        match rust::call_of(n) {
            Some(c) => if n.kind == "call_expression"@ {
                Some((c, syntax::line_of(n.start_row)))
            } else {
                None
            },
            None => None,
        }
}

/// A binding: the line, the variable, and what it is bound to.
pub open spec fn a_binding() -> spec_fn(NodeV, ()) -> Option<(usize, Seq<char>, BindingV)> {
    |n: NodeV, w: ()|
        match rust::let_binding(n) {
            Some((var, b)) => if n.kind == "let_declaration"@ {
                Some((syntax::line_of(n.start_row), var, b))
            } else {
                None
            },
            None => None,
        }
}

/// A parameter: the variable and the base name of its type.
pub open spec fn a_param() -> spec_fn(NodeV, ()) -> Option<(Seq<char>, Seq<char>)> {
    |n: NodeV, w: ()|
        match (syntax::field_child(n, "pattern"@), rust::field_type(n, "type"@)) {
            (Some(pat), Some(t)) => if n.named && n.kind == "parameter"@ && pat.kind
                == "identifier"@ {
                Some((syntax::content(pat), t))
            } else {
                None
            },
            _ => None,
        }
}

/// The nodes in the list of parameters of a function.
pub open spec fn param_nodes(n: NodeV) -> Seq<NodeV> {
    match syntax::field_child(n, "parameters"@) {
        Some(list) => list.children,
        None => Seq::empty(),
    }
}

/// Whether a scope is that of a function: its line, what it stands in, its parameters, and the
/// calls and bindings anywhere in its body that are not those of a function in it.
pub open spec fn is_scope_of(s: FnScopeV, f: (NodeV, Within)) -> bool {
    &&& s.line == syntax::line_of(f.0.start_row)
    &&& s.impl_type == f.1.0
    &&& s.trait_name == f.1.1
    &&& s.bounds == rust::bounds_of(f.0)
    &&& walk::gathered(s.params, param_nodes(f.0), (), walk::no_steps(), a_param())
    &&& walk::gathered(s.calls, inner_nodes(f.0), (), body_steps(), a_call())
    &&& walk::gathered(s.bindings, inner_nodes(f.0), (), body_steps(), a_binding())
}

/// Whether scopes are those of functions.
pub open spec fn are_scopes_of(fns: Seq<FnScopeV>, found: Seq<(NodeV, Within)>) -> bool {
    &&& fns.len() == found.len()
    &&& forall|i: int| 0 <= i < fns.len() ==> is_scope_of(#[trigger] fns[i], found[i])
}

/// What a walk brings into a scope.
struct Brought {
    calls: Seq<(CalleeV, usize)>,
    bindings: Seq<(usize, Seq<char>, BindingV)>,
    found: Seq<(NodeV, Within)>,
    fns: Seq<FnScopeV>,
}

/// The functions of a scope with calls and bindings more in one of them.
spec fn grown(
    fns: Seq<FnScopeV>,
    f: Option<nat>,
    calls: Seq<(CalleeV, usize)>,
    bindings: Seq<(usize, Seq<char>, BindingV)>,
) -> Seq<FnScopeV> {
    match f {
        Some(f) => fns.update(
            f as int,
            FnScopeV {
                calls: fns[f as int].calls + calls,
                bindings: fns[f as int].bindings + bindings,
                ..fns[f as int]
            },
        ),
        None => fns,
    }
}

/// Whether the function that nodes stand in is one of a scope.
spec fn is_in(f: Option<nat>, s: ScopeV) -> bool {
    f matches Some(i) ==> i < s.fns.len()
}

proof fn lemma_kinds()
    ensures
        "let_declaration"@ != "call_expression"@,
        "function_item"@ != "call_expression"@,
        "function_item"@ != "let_declaration"@,
        "use_declaration"@ != "call_expression"@,
        "use_declaration"@ != "let_declaration"@,
        "use_declaration"@ != "function_item"@,
        "impl_item"@ != "call_expression"@,
        "impl_item"@ != "let_declaration"@,
        "impl_item"@ != "function_item"@,
        "impl_item"@ != "use_declaration"@,
        "trait_item"@ != "call_expression"@,
        "trait_item"@ != "let_declaration"@,
        "trait_item"@ != "function_item"@,
        "trait_item"@ != "use_declaration"@,
{
    reveal_strlit("let_declaration");
    reveal_strlit("call_expression");
    reveal_strlit("function_item");
    reveal_strlit("use_declaration");
    reveal_strlit("impl_item");
    reveal_strlit("trait_item");
    assert("let_declaration"@[0] == 'l' && "call_expression"@[0] == 'c' && "function_item"@[0]
        == 'f' && "use_declaration"@[0] == 'u' && "impl_item"@[0] == 'i' && "trait_item"@[0]
        == 't');
}

proof fn lemma_use_keeps_fns(n: NodeV, prefix: Seq<Seq<char>>, s: ScopeV)
    ensures
        rust::with_use(n, prefix, s).fns == s.fns,
    decreases n, 1int,
{
    syntax::lemma_field_child(n, "list"@);
    if n.kind == "scoped_use_list"@ {
        if let Some(list) = syntax::field_child(n, "list"@) {
            lemma_uses_keep_fns(list.children, rust::with_path_field(n, prefix), s);
        }
    } else if n.kind == "use_list"@ {
        lemma_uses_keep_fns(n.children, prefix, s);
    }
}

proof fn lemma_uses_keep_fns(nodes: Seq<NodeV>, prefix: Seq<Seq<char>>, s: ScopeV)
    ensures
        rust::with_uses(nodes, prefix, s).fns == s.fns,
    decreases nodes, 0int,
{
    if nodes.len() > 0 {
        lemma_uses_keep_fns(nodes.drop_last(), prefix, s);
        let init = rust::with_uses(nodes.drop_last(), prefix, s);
        lemma_use_keeps_fns(nodes.last(), prefix, init);
    }
}

/// The parameters of a function are those of its list.
pub proof fn law_params(nodes: Seq<NodeV>)
    ensures
        walk::gathered(rust::params_of(nodes), nodes, (), walk::no_steps(), a_param()),
    decreases nodes.len(),
{
    if nodes.len() == 0 {
        walk::lemma_gathered_none((), walk::no_steps(), a_param());
        assert(nodes =~= Seq::empty());
        assert(rust::params_of(nodes) =~= Seq::empty());
    } else {
        let init = nodes.drop_last();
        law_params(init);
        walk::lemma_gathered_none((), walk::no_steps(), a_param());
        walk::lemma_gathered_push(
            init,
            nodes.last(),
            (),
            walk::no_steps(),
            a_param(),
            rust::params_of(init),
            Seq::empty(),
        );
        assert(init.push(nodes.last()) =~= nodes);
        assert(rust::params_of(nodes) =~= rust::params_of(init) + (walk::some_of(
            a_param()(nodes.last(), ()),
        ) + Seq::empty()));
    }
}

/// Whether what is brought is found by walks from nodes.
spec fn is_found(b: Brought, nodes: Seq<NodeV>, fn_nodes: Seq<NodeV>, w: Within) -> bool {
    &&& walk::gathered(b.calls, nodes, (), body_steps(), a_call())
    &&& walk::gathered(b.bindings, nodes, (), body_steps(), a_binding())
    &&& walk::gathered(b.found, fn_nodes, w, fn_steps(), a_function())
    &&& are_scopes_of(b.fns, b.found)
}

proof fn lemma_nothing(w: Within) -> (b: Brought)
    ensures
        is_found(b, Seq::empty(), Seq::empty(), w),
        b.calls == Seq::<(CalleeV, usize)>::empty(),
        b.bindings == Seq::<(usize, Seq<char>, BindingV)>::empty(),
        b.found == Seq::<(NodeV, Within)>::empty(),
        b.fns == Seq::<FnScopeV>::empty(),
{
    walk::lemma_gathered_none((), body_steps(), a_call());
    walk::lemma_gathered_none((), body_steps(), a_binding());
    walk::lemma_gathered_none(w, fn_steps(), a_function());
    Brought {
        calls: Seq::empty(),
        bindings: Seq::empty(),
        found: Seq::empty(),
        fns: Seq::empty(),
    }
}

/// What a node brings into a scope.
proof fn lemma_node(n: NodeV, s: ScopeV, f: Option<nat>, w: Within) -> (b: Brought)
    requires
        is_in(f, s),
    ensures
        walk::gathered(b.calls, body_steps()(n, ()).0, (), body_steps(), a_call()),
        walk::gathered(b.bindings, body_steps()(n, ()).0, (), body_steps(), a_binding()),
        walk::gathered(b.found, fn_steps()(n, w).0, fn_steps()(n, w).1, fn_steps(), a_function()),
        are_scopes_of(b.fns, walk::some_of(a_function()(n, w)) + b.found),
        rust::with_node(n, s, f, w.0, w.1).fns == grown(
            s.fns,
            f,
            walk::some_of(a_call()(n, ())) + b.calls,
            walk::some_of(a_binding()(n, ())) + b.bindings,
        ) + b.fns,
    decreases n, 1int,
{
    lemma_kinds();
    syntax::lemma_field_child(n, "body"@);
    let own_calls = walk::some_of(a_call()(n, ()));
    let own_bindings = walk::some_of(a_binding()(n, ()));
    let own = walk::some_of(a_function()(n, w));
    if n.kind == "use_declaration"@ {
        if let Some(arg) = syntax::field_child(n, "argument"@) {
            lemma_use_keeps_fns(arg, Seq::empty(), s);
        }
        let b = lemma_nothing(w);
        assert(rust::with_node(n, s, f, w.0, w.1).fns == s.fns);
        assert(own_calls + b.calls =~= Seq::empty());
        assert(own_bindings + b.bindings =~= Seq::empty());
        assert(own + b.found =~= Seq::empty());
        lemma_grown_none(s.fns, f);
        assert(s.fns + b.fns =~= s.fns);
        b
    } else if n.kind == "impl_item"@ || n.kind == "trait_item"@ {
        let w2 = fn_steps()(n, w).1;
        let b = match syntax::field_child(n, "body"@) {
            Some(body) => lemma_nodes(body.children, s, f, w2),
            None => {
                lemma_grown_none(s.fns, f);
                assert(s.fns + Seq::<FnScopeV>::empty() =~= s.fns);
                lemma_nothing(w2)
            },
        };
        assert(own_calls + b.calls =~= b.calls);
        assert(own_bindings + b.bindings =~= b.bindings);
        assert(own + b.found =~= b.found);
        b
    } else if n.kind == "function_item"@ {
        let scope = rust::fn_scope(n, w.0, w.1);
        let s1 = ScopeV { fns: s.fns.push(scope), ..s };
        let k = s.fns.len();
        let b = match syntax::field_child(n, "body"@) {
            Some(body) => lemma_nodes(body.children, s1, Some(k), w),
            None => {
                lemma_grown_none(s1.fns, Some(k));
                assert(s1.fns + Seq::<FnScopeV>::empty() =~= s1.fns);
                lemma_nothing(w)
            },
        };
        let filled = FnScopeV { calls: b.calls, bindings: b.bindings, ..scope };
        assert(scope.calls + b.calls =~= b.calls);
        assert(scope.bindings + b.bindings =~= b.bindings);
        law_params(param_nodes(n));
        if syntax::field_child(n, "parameters"@) is None {
            assert(rust::params_of(param_nodes(n)) =~= Seq::empty());
        }
        assert(is_scope_of(filled, (n, w)));
        let fns = seq![filled] + b.fns;
        let none = lemma_nothing(w);
        assert(own_calls + none.calls =~= Seq::empty());
        assert(own_bindings + none.bindings =~= Seq::empty());
        lemma_grown_none(s.fns, f);
        assert(grown(s1.fns, Some(k), b.calls, b.bindings) + b.fns =~= s.fns + fns);
        let all = own + b.found;
        assert forall|i: int| 0 <= i < fns.len() implies is_scope_of(
            #[trigger] fns[i],
            all[i],
        ) by {
            if i > 0 {
                assert(is_scope_of(b.fns[i - 1], b.found[i - 1]));
                assert(fns[i] == b.fns[i - 1]);
                assert(all[i] == b.found[i - 1]);
            }
        }
        Brought { found: b.found, fns, calls: none.calls, bindings: none.bindings }
    } else {
        let line = syntax::line_of(n.start_row);
        let s1 = if n.kind == "let_declaration"@ {
            scope::with_binding(s, f, line, rust::let_binding(n))
        } else if n.kind == "call_expression"@ {
            scope::with_call(s, f, line, rust::call_of(n))
        } else {
            s
        };
        assert(s1.fns =~= grown(s.fns, f, own_calls, own_bindings)) by {
            if let Some(i) = f {
                let fun = s.fns[i as int];
                assert(fun.calls + Seq::empty() =~= fun.calls);
                assert(fun.bindings + Seq::empty() =~= fun.bindings);
                if own_calls.len() > 0 {
                    assert(fun.calls + own_calls =~= fun.calls.push(own_calls[0]));
                }
                if own_bindings.len() > 0 {
                    assert(fun.bindings + own_bindings =~= fun.bindings.push(own_bindings[0]));
                }
            }
        }
        let b = lemma_nodes(n.children, s1, f, w);
        lemma_grown_twice(s.fns, f, own_calls, own_bindings, b.calls, b.bindings);
        assert(own + b.found =~= b.found);
        b
    }
}

proof fn lemma_grown_none(fns: Seq<FnScopeV>, f: Option<nat>)
    requires
        f matches Some(i) ==> i < fns.len(),
    ensures
        grown(fns, f, Seq::empty(), Seq::empty()) == fns,
{
    if let Some(i) = f {
        let fun = fns[i as int];
        assert(fun.calls + Seq::empty() =~= fun.calls);
        assert(fun.bindings + Seq::empty() =~= fun.bindings);
        assert(grown(fns, f, Seq::empty(), Seq::empty()) =~= fns);
    }
}

proof fn lemma_grown_twice(
    fns: Seq<FnScopeV>,
    f: Option<nat>,
    calls: Seq<(CalleeV, usize)>,
    bindings: Seq<(usize, Seq<char>, BindingV)>,
    more_calls: Seq<(CalleeV, usize)>,
    more_bindings: Seq<(usize, Seq<char>, BindingV)>,
)
    requires
        f matches Some(i) ==> i < fns.len(),
    ensures
        grown(grown(fns, f, calls, bindings), f, more_calls, more_bindings) == grown(
            fns,
            f,
            calls + more_calls,
            bindings + more_bindings,
        ),
{
    if let Some(i) = f {
        let fun = fns[i as int];
        assert((fun.calls + calls) + more_calls =~= fun.calls + (calls + more_calls));
        assert((fun.bindings + bindings) + more_bindings =~= fun.bindings + (bindings
            + more_bindings));
        assert(grown(grown(fns, f, calls, bindings), f, more_calls, more_bindings) =~= grown(
            fns,
            f,
            calls + more_calls,
            bindings + more_bindings,
        ));
    }
}

/// What nodes bring into a scope.
proof fn lemma_nodes(nodes: Seq<NodeV>, s: ScopeV, f: Option<nat>, w: Within) -> (b: Brought)
    requires
        is_in(f, s),
    ensures
        is_found(b, nodes, nodes, w),
        rust::with_nodes(nodes, s, f, w.0, w.1).fns == grown(s.fns, f, b.calls, b.bindings) + b.fns,
    decreases nodes, 0int,
{
    if nodes.len() == 0 {
        assert(nodes =~= Seq::empty());
        lemma_grown_none(s.fns, f);
        assert(s.fns + Seq::<FnScopeV>::empty() =~= s.fns);
        lemma_nothing(w)
    } else {
        let init = nodes.drop_last();
        let n = nodes.last();
        let a = lemma_nodes(init, s, f, w);
        let s1 = rust::with_nodes(init, s, f, w.0, w.1);
        let b = lemma_node(n, s1, f, w);
        assert(init.push(n) =~= nodes);
        walk::lemma_gathered_push(init, n, (), body_steps(), a_call(), a.calls, b.calls);
        walk::lemma_gathered_push(init, n, (), body_steps(), a_binding(), a.bindings, b.bindings);
        walk::lemma_gathered_push(init, n, w, fn_steps(), a_function(), a.found, b.found);
        let own_calls = walk::some_of(a_call()(n, ()));
        let own_bindings = walk::some_of(a_binding()(n, ()));
        let own = walk::some_of(a_function()(n, w));
        let calls = own_calls + b.calls;
        let bindings = own_bindings + b.bindings;
        let r = Brought {
            calls: a.calls + calls,
            bindings: a.bindings + bindings,
            found: a.found + (own + b.found),
            fns: a.fns + b.fns,
        };
        lemma_grown_twice(s.fns, f, a.calls, a.bindings, calls, bindings);
        assert(grown(grown(s.fns, f, a.calls, a.bindings) + a.fns, f, calls, bindings) + b.fns
            =~= grown(s.fns, f, r.calls, r.bindings) + r.fns) by {
            if let Some(i) = f {
                assert((grown(s.fns, f, a.calls, a.bindings) + a.fns)[i as int] == grown(
                    s.fns,
                    f,
                    a.calls,
                    a.bindings,
                )[i as int]);
                let one = grown(
                    grown(s.fns, f, a.calls, a.bindings) + a.fns,
                    f,
                    calls,
                    bindings,
                );
                let two = grown(s.fns, f, r.calls, r.bindings) + a.fns;
                assert(one[i as int] == two[i as int]);
                assert(one =~= two);
            }
        }
        assert forall|i: int| 0 <= i < r.fns.len() implies is_scope_of(
            #[trigger] r.fns[i],
            r.found[i],
        ) by {
            if i < a.fns.len() {
                assert(is_scope_of(a.fns[i], a.found[i]));
            } else {
                let j = i - a.fns.len();
                assert(is_scope_of(b.fns[j], (own + b.found)[j]));
                assert(r.found[i] == (own + b.found)[j]);
            }
        }
        r
    }
}

/// The scope of a file has the functions that are anywhere in its tree, in their order, each
/// once, with what it stands in; and each has its parameters, and the calls and bindings that
/// are anywhere in its body, in their order, each once, but for those of a function in it.
pub proof fn law_scope_has_functions(root: NodeV) -> (found: Seq<(NodeV, Within)>)
    ensures
        walk::gathered(found, seq![root], (None, None), fn_steps(), a_function()),
        are_scopes_of(rust::file_scope(root).fns, found),
{
    let s = scope::empty_scope();
    let b = lemma_nodes(seq![root], s, None, (None, None));
    let none = Seq::<NodeV>::empty();
    assert(seq![root].drop_last() =~= none);
    assert(rust::with_nodes(none, s, None, None, None) == s);
    assert(rust::with_nodes(seq![root], s, None, None, None) == rust::file_scope(root));
    assert(s.fns + b.fns =~= b.fns);
    b.found
}

/// No call is lost: a call anywhere in the body of a function, in the arguments or the
/// receiver of another call too, is one of the calls of that function, with its line.
pub proof fn law_every_call_is_recorded(root: NodeV, p: Seq<nat>, q: Seq<nat>)
    requires
        walk::found_at(seq![root], (None, None), fn_steps(), a_function(), p) is Some,
        ({
            let f = walk::found_at(seq![root], (None, None), fn_steps(), a_function(), p)->Some_0;
            walk::at(inner_nodes(f.0), (), body_steps(), q) matches Some((m, _)) && m.kind
                == "call_expression"@ && rust::call_of(m) is Some
        }),
    ensures
        ({
            let f = walk::found_at(seq![root], (None, None), fn_steps(), a_function(), p)->Some_0;
            let m = walk::at(inner_nodes(f.0), (), body_steps(), q)->Some_0.0;
            exists|k: int|
                0 <= k < rust::file_scope(root).fns.len() && is_scope_of(
                    #[trigger] rust::file_scope(root).fns[k],
                    f,
                ) && rust::file_scope(root).fns[k].calls.contains(
                    (rust::call_of(m)->Some_0, syntax::line_of(m.start_row)),
                )
        }),
{
    let f = walk::found_at(seq![root], (None, None), fn_steps(), a_function(), p)->Some_0;
    let found = law_scope_has_functions(root);
    walk::lemma_found(found, seq![root], (None, None), fn_steps(), a_function(), p);
    let k = found.index_of(f);
    let fns = rust::file_scope(root).fns;
    assert(is_scope_of(fns[k], found[k]));
    assert(walk::found_at(inner_nodes(f.0), (), body_steps(), a_call(), q) is Some);
    walk::lemma_found(fns[k].calls, inner_nodes(f.0), (), body_steps(), a_call(), q);
}

} // verus!
