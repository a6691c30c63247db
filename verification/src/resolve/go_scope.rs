//! What the scope of a Go file holds, said of the places in its syntax tree.

use vstd::prelude::*;
use crate::resolve::CalleeV;
use crate::resolve::go;
use crate::resolve::scope;
use crate::resolve::scope::{BindingV, FnScopeV, ScopeV};
use crate::syntax;
use crate::syntax::NodeV;
use crate::walk;

verus! {

broadcast use vstd::string::group_string_axioms;

/// Whether a node is a function or a method.
pub open spec fn is_function(n: NodeV) -> bool {
    n.kind == "function_declaration"@ || n.kind == "method_declaration"@
}

/// The nodes in the body of a node.
pub open spec fn inner_nodes(n: NodeV) -> Seq<NodeV> {
    match syntax::field_child(n, "body"@) {
        Some(body) => body.children,
        None => Seq::empty(),
    }
}

/// From node to node, wherever a function may stand: everywhere but in imports.
pub open spec fn fn_steps() -> spec_fn(NodeV, ()) -> (Seq<NodeV>, ()) {
    |n: NodeV, w: ()|
        if n.kind == "import_declaration"@ {
            (Seq::empty(), ())
        } else if is_function(n) {
            (inner_nodes(n), ())
        } else {
            (n.children, ())
        }
}

/// From node to node, as long as it is the same function that they stand in.
pub open spec fn body_steps() -> spec_fn(NodeV, ()) -> (Seq<NodeV>, ()) {
    |n: NodeV, w: ()|
        if n.kind == "import_declaration"@ || is_function(n) {
            (Seq::empty(), ())
        } else {
            (n.children, ())
        }
}

/// A function or a method.
pub open spec fn a_function() -> spec_fn(NodeV, ()) -> Option<NodeV> {
    |n: NodeV, w: ()|
        if is_function(n) {
            Some(n)
        } else {
            None
        }
}

/// A call: what is called, and the line.
pub open spec fn a_call() -> spec_fn(NodeV, ()) -> Option<(CalleeV, usize)> {
    |n: NodeV, w: ()|
        match go::call_of(n) {
            Some(c) => if n.kind == "call_expression"@ {
                Some((c, syntax::line_of(n.start_row)))
            } else {
                None
            },
            None => None,
        }
}

/// Variables and what they are bound to, with a line.
pub open spec fn on_line(line: usize, bindings: Seq<(Seq<char>, BindingV)>) -> Seq<
    (usize, Seq<char>, BindingV),
> {
    bindings.map_values(|b: (Seq<char>, BindingV)| (line, b.0, b.1))
}

/// The bindings of a declaration: the line, the variable, and what it is bound to, of each.
pub open spec fn some_bindings() -> spec_fn(NodeV, ()) -> Option<
    Seq<(usize, Seq<char>, BindingV)>,
> {
    |n: NodeV, w: ()|
        {
            let line = syntax::line_of(n.start_row);
            if n.kind == "short_var_declaration"@ {
                match go::short_var_binding(n) {
                    Some((var, b)) => Some(seq![(line, var, b)]),
                    None => None,
                }
            } else if n.kind == "var_spec"@ {
                Some(on_line(line, go::var_spec_bindings(n)))
            } else {
                None
            }
        }
}

/// From the declaration of parameters to the nodes in it, with the base name of their type.
pub open spec fn param_steps() -> spec_fn(NodeV, Option<Seq<char>>) -> (
    Seq<NodeV>,
    Option<Seq<char>>,
) {
    |n: NodeV, ty: Option<Seq<char>>|
        if ty is None && n.named && n.kind == "parameter_declaration"@ && go::field_type(
            n,
            "type"@,
        ) is Some {
            (n.children, go::field_type(n, "type"@))
        } else {
            (Seq::empty(), None)
        }
}

/// A parameter: a name in a declaration, and its type.
pub open spec fn a_param() -> spec_fn(NodeV, Option<Seq<char>>) -> Option<(Seq<char>, Seq<char>)> {
    |n: NodeV, ty: Option<Seq<char>>|
        match ty {
            Some(ty) => if n.label == Some("name"@) && n.kind == "identifier"@ {
                Some((syntax::content(n), ty))
            } else {
                None
            },
            None => None,
        }
}

/// The nodes of the list of parameters in a field.
pub open spec fn list_nodes(n: NodeV, field: Seq<char>) -> Seq<NodeV> {
    match syntax::field_child(n, field) {
        Some(list) => list.children,
        None => Seq::empty(),
    }
}

/// The nodes of the lists of parameters of a function: of a method, first that of its
/// receiver.
pub open spec fn param_nodes(n: NodeV) -> Seq<NodeV> {
    if n.kind == "method_declaration"@ {
        list_nodes(n, "receiver"@) + list_nodes(n, "parameters"@)
    } else {
        list_nodes(n, "parameters"@)
    }
}

/// Whether a scope is that of a function: its line, its receiver and parameters, and the calls
/// and bindings anywhere in its body that are not those of a function in it.
pub open spec fn is_scope_of(s: FnScopeV, f: NodeV) -> bool {
    &&& s.line == syntax::line_of(f.start_row)
    &&& s.impl_type is None
    &&& s.trait_name is None
    &&& s.bounds == Map::<Seq<char>, Seq<Seq<char>>>::empty()
    &&& walk::gathered(s.params, param_nodes(f), None, param_steps(), a_param())
    &&& walk::gathered(s.calls, inner_nodes(f), (), body_steps(), a_call())
    &&& exists|lists: Seq<Seq<(usize, Seq<char>, BindingV)>>| #[trigger]
        walk::gathered(lists, inner_nodes(f), (), body_steps(), some_bindings()) && s.bindings
            == walk::joined(lists)
}

/// Whether scopes are those of functions.
pub open spec fn are_scopes_of(fns: Seq<FnScopeV>, found: Seq<NodeV>) -> bool {
    &&& fns.len() == found.len()
    &&& forall|i: int| 0 <= i < fns.len() ==> is_scope_of(#[trigger] fns[i], found[i])
}

/// What a walk brings into a scope.
struct Brought {
    calls: Seq<(CalleeV, usize)>,
    lists: Seq<Seq<(usize, Seq<char>, BindingV)>>,
    found: Seq<NodeV>,
    fns: Seq<FnScopeV>,
}

/// The functions of a scope with calls and bindings more in one of them.
spec fn grown(
    fns: Seq<FnScopeV>,
    f: Option<nat>,
    calls: Seq<(CalleeV, usize)>,
    bindings: Seq<(usize, Seq<char>, BindingV)>,
) -> Seq<FnScopeV> {
    match f {
        Some(f) => fns.update(
            f as int,
            FnScopeV {
                calls: fns[f as int].calls + calls,
                bindings: fns[f as int].bindings + bindings,
                ..fns[f as int]
            },
        ),
        None => fns,
    }
}

/// Whether the function that nodes stand in is one of a scope.
spec fn is_in(f: Option<nat>, s: ScopeV) -> bool {
    f matches Some(i) ==> i < s.fns.len()
}

proof fn lemma_kinds()
    ensures
        "short_var_declaration"@ != "call_expression"@,
        "var_spec"@ != "call_expression"@,
        "short_var_declaration"@ != "var_spec"@,
        "function_declaration"@ != "call_expression"@,
        "function_declaration"@ != "var_spec"@,
        "function_declaration"@ != "short_var_declaration"@,
        "method_declaration"@ != "call_expression"@,
        "method_declaration"@ != "var_spec"@,
        "method_declaration"@ != "short_var_declaration"@,
        "import_declaration"@ != "call_expression"@,
        "import_declaration"@ != "var_spec"@,
        "import_declaration"@ != "short_var_declaration"@,
        "import_declaration"@ != "function_declaration"@,
        "import_declaration"@ != "method_declaration"@,
{
    reveal_strlit("short_var_declaration");
    reveal_strlit("call_expression");
    reveal_strlit("var_spec");
    reveal_strlit("function_declaration");
    reveal_strlit("method_declaration");
    reveal_strlit("import_declaration");
    assert("short_var_declaration"@[0] == 's' && "call_expression"@[0] == 'c' && "var_spec"@[0]
        == 'v' && "function_declaration"@[0] == 'f' && "method_declaration"@[0] == 'm'
        && "import_declaration"@[0] == 'i');
}

proof fn lemma_import_keeps_fns(n: NodeV, s: ScopeV)
    ensures
        go::with_import(n, s).fns == s.fns,
    decreases n, 1int,
{
    if n.kind == "import_spec_list"@ {
        lemma_imports_keep_fns(n.children, s);
    }
}

proof fn lemma_imports_keep_fns(nodes: Seq<NodeV>, s: ScopeV)
    ensures
        go::with_imports(nodes, s).fns == s.fns,
    decreases nodes, 0int,
{
    if nodes.len() > 0 {
        if nodes.last().named {
            lemma_import_keeps_fns(nodes.last(), s);
            lemma_imports_keep_fns(nodes.drop_last(), go::with_import(nodes.last(), s));
        } else {
            lemma_imports_keep_fns(nodes.drop_last(), s);
        }
    }
}

proof fn lemma_names(nodes: Seq<NodeV>, ty: Seq<char>)
    ensures
        walk::gathered(
            go::names_typed(nodes.filter(|c: NodeV| c.label == Some("name"@)), ty),
            nodes,
            Some(ty),
            param_steps(),
            a_param(),
        ),
    decreases nodes.len(),
{
    reveal(Seq::filter);
    let p = |c: NodeV| c.label == Some("name"@);
    walk::lemma_gathered_none(Some(ty), param_steps(), a_param());
    walk::lemma_gathered_none(None::<Seq<char>>, param_steps(), a_param());
    if nodes.len() == 0 {
        assert(nodes =~= Seq::empty());
        assert(nodes.filter(p) =~= Seq::empty());
        assert(go::names_typed(nodes.filter(p), ty) =~= Seq::empty());
    } else {
        let init = nodes.drop_last();
        let n = nodes.last();
        lemma_names(init, ty);
        let before = go::names_typed(init.filter(p), ty);
        walk::lemma_gathered_push(
            init,
            n,
            Some(ty),
            param_steps(),
            a_param(),
            before,
            Seq::empty(),
        );
        assert(init.push(n) =~= nodes);
        if p(n) {
            assert(nodes.filter(p) == init.filter(p).push(n));
            assert(init.filter(p).push(n).drop_last() =~= init.filter(p));
        } else {
            assert(nodes.filter(p) == init.filter(p));
        }
        assert(go::names_typed(nodes.filter(p), ty) =~= before + (walk::some_of(
            a_param()(n, Some(ty)),
        ) + Seq::empty()));
    }
}

/// The parameters of a list are the names in its declarations, each with the type of its
/// declaration.
pub proof fn law_params(nodes: Seq<NodeV>)
    ensures
        walk::gathered(go::params_of(nodes), nodes, None, param_steps(), a_param()),
    decreases nodes.len(),
{
    walk::lemma_gathered_none(None::<Seq<char>>, param_steps(), a_param());
    if nodes.len() == 0 {
        assert(nodes =~= Seq::empty());
        assert(go::params_of(nodes) =~= Seq::empty());
    } else {
        let init = nodes.drop_last();
        let n = nodes.last();
        law_params(init);
        let inner = param_steps()(n, None);
        let names = if inner.1 is Some {
            lemma_names(n.children, inner.1->Some_0);
            go::names_typed(syntax::labeled(n, "name"@), inner.1->Some_0)
        } else {
            Seq::empty()
        };
        walk::lemma_gathered_push(
            init,
            n,
            None,
            param_steps(),
            a_param(),
            go::params_of(init),
            names,
        );
        assert(init.push(n) =~= nodes);
        assert(go::params_of(nodes) =~= go::params_of(init) + (walk::some_of(
            a_param()(n, None),
        ) + names));
    }
}

proof fn lemma_params_add(a: Seq<NodeV>, b: Seq<NodeV>)
    ensures
        go::params_of(a + b) == go::params_of(a) + go::params_of(b),
    decreases b.len(),
{
    if b.len() == 0 {
        assert(a + b =~= a);
        assert(go::params_of(a) + go::params_of(b) =~= go::params_of(a));
    } else {
        lemma_params_add(a, b.drop_last());
        assert((a + b).drop_last() =~= a + b.drop_last());
        assert((a + b).last() == b.last());
        assert(go::params_of(a + b) =~= go::params_of(a) + go::params_of(b));
    }
}

proof fn lemma_fn_params(n: NodeV)
    ensures
        walk::gathered(go::fn_scope(n).params, param_nodes(n), None, param_steps(), a_param()),
{
    law_params(param_nodes(n));
    lemma_params_add(list_nodes(n, "receiver"@), list_nodes(n, "parameters"@));
    assert(go::params_of(Seq::empty()) =~= Seq::empty());
}

/// Whether what is brought is found by walks from nodes.
spec fn is_found(b: Brought, nodes: Seq<NodeV>, fn_nodes: Seq<NodeV>) -> bool {
    &&& walk::gathered(b.calls, nodes, (), body_steps(), a_call())
    &&& walk::gathered(b.lists, nodes, (), body_steps(), some_bindings())
    &&& walk::gathered(b.found, fn_nodes, (), fn_steps(), a_function())
    &&& are_scopes_of(b.fns, b.found)
}

proof fn lemma_nothing() -> (b: Brought)
    ensures
        is_found(b, Seq::empty(), Seq::empty()),
        b.calls == Seq::<(CalleeV, usize)>::empty(),
        b.lists == Seq::<Seq<(usize, Seq<char>, BindingV)>>::empty(),
        b.found == Seq::<NodeV>::empty(),
        b.fns == Seq::<FnScopeV>::empty(),
{
    walk::lemma_gathered_none((), body_steps(), a_call());
    walk::lemma_gathered_none((), body_steps(), some_bindings());
    walk::lemma_gathered_none((), fn_steps(), a_function());
    Brought { calls: Seq::empty(), lists: Seq::empty(), found: Seq::empty(), fns: Seq::empty() }
}

proof fn lemma_bindings(
    s: ScopeV,
    f: Option<nat>,
    line: usize,
    bindings: Seq<(Seq<char>, BindingV)>,
)
    requires
        is_in(f, s),
    ensures
        go::with_bindings(s, f, line, bindings).fns == grown(
            s.fns,
            f,
            Seq::empty(),
            on_line(line, bindings),
        ),
    decreases bindings.len(),
{
    if bindings.len() == 0 {
        assert(on_line(line, bindings) =~= Seq::empty());
        lemma_grown_none(s.fns, f);
    } else {
        let init = bindings.drop_last();
        lemma_bindings(s, f, line, init);
        assert(on_line(line, bindings) =~= on_line(line, init).push(
            (line, bindings.last().0, bindings.last().1),
        ));
        if let Some(i) = f {
            let fun = s.fns[i as int];
            assert(fun.bindings + on_line(line, bindings) =~= (fun.bindings + on_line(
                line,
                init,
            )).push((line, bindings.last().0, bindings.last().1)));
            assert(go::with_bindings(s, f, line, bindings).fns =~= grown(
                s.fns,
                f,
                Seq::empty(),
                on_line(line, bindings),
            ));
        }
    }
}

/// What a node brings into a scope.
proof fn lemma_node(n: NodeV, s: ScopeV, f: Option<nat>) -> (b: Brought)
    requires
        is_in(f, s),
    ensures
        walk::gathered(b.calls, body_steps()(n, ()).0, (), body_steps(), a_call()),
        walk::gathered(b.lists, body_steps()(n, ()).0, (), body_steps(), some_bindings()),
        walk::gathered(b.found, fn_steps()(n, ()).0, (), fn_steps(), a_function()),
        are_scopes_of(b.fns, walk::some_of(a_function()(n, ())) + b.found),
        go::with_node(n, s, f).fns == grown(
            s.fns,
            f,
            walk::some_of(a_call()(n, ())) + b.calls,
            walk::joined(walk::some_of(some_bindings()(n, ())) + b.lists),
        ) + b.fns,
    decreases n, 1int,
{
    lemma_kinds();
    syntax::lemma_field_child(n, "body"@);
    let own_calls = walk::some_of(a_call()(n, ()));
    let own_lists = walk::some_of(some_bindings()(n, ()));
    let own = walk::some_of(a_function()(n, ()));
    if n.kind == "import_declaration"@ {
        lemma_imports_keep_fns(n.children, s);
        let b = lemma_nothing();
        assert(own_calls + b.calls =~= Seq::empty());
        assert(own_lists + b.lists =~= Seq::empty());
        assert(own + b.found =~= Seq::empty());
        lemma_grown_none(s.fns, f);
        assert(s.fns + b.fns =~= s.fns);
        b
    } else if is_function(n) {
        let scope = go::fn_scope(n);
        let s1 = ScopeV { fns: s.fns.push(scope), ..s };
        let k = s.fns.len();
        let b = match syntax::field_child(n, "body"@) {
            Some(body) => lemma_nodes(body.children, s1, Some(k)),
            None => {
                lemma_grown_none(s1.fns, Some(k));
                assert(s1.fns + Seq::<FnScopeV>::empty() =~= s1.fns);
                lemma_nothing()
            },
        };
        let bindings = walk::joined(b.lists);
        let filled = FnScopeV { calls: b.calls, bindings, ..scope };
        assert(scope.calls + b.calls =~= b.calls);
        assert(scope.bindings + bindings =~= bindings);
        lemma_fn_params(n);
        assert(walk::gathered(b.lists, inner_nodes(n), (), body_steps(), some_bindings()));
        assert(is_scope_of(filled, n));
        let fns = seq![filled] + b.fns;
        let none = lemma_nothing();
        assert(own_calls + none.calls =~= Seq::empty());
        assert(own_lists + none.lists =~= Seq::empty());
        lemma_grown_none(s.fns, f);
        assert(grown(s1.fns, Some(k), b.calls, bindings) + b.fns =~= s.fns + fns);
        let all = own + b.found;
        assert forall|i: int| 0 <= i < fns.len() implies is_scope_of(
            #[trigger] fns[i],
            all[i],
        ) by {
            if i > 0 {
                assert(is_scope_of(b.fns[i - 1], b.found[i - 1]));
                assert(fns[i] == b.fns[i - 1]);
                assert(all[i] == b.found[i - 1]);
            }
        }
        Brought { found: b.found, fns, calls: none.calls, lists: none.lists }
    } else {
        let line = syntax::line_of(n.start_row);
        let s1 = if n.kind == "short_var_declaration"@ {
            scope::with_binding(s, f, line, go::short_var_binding(n))
        } else if n.kind == "var_spec"@ {
            lemma_bindings(s, f, line, go::var_spec_bindings(n));
            go::with_bindings(s, f, line, go::var_spec_bindings(n))
        } else if n.kind == "call_expression"@ {
            scope::with_call(s, f, line, go::call_of(n))
        } else {
            s
        };
        let own_bindings = walk::joined(own_lists);
        if own_lists.len() > 0 {
            assert(own_lists.drop_last() =~= Seq::empty());
            assert(walk::joined(own_lists.drop_last()) =~= Seq::empty());
            assert(own_bindings =~= own_lists[0]);
        }
        assert(s1.fns =~= grown(s.fns, f, own_calls, own_bindings)) by {
            if let Some(i) = f {
                let fun = s.fns[i as int];
                assert(fun.calls + Seq::empty() =~= fun.calls);
                assert(fun.bindings + Seq::empty() =~= fun.bindings);
                if own_calls.len() > 0 {
                    assert(fun.calls + own_calls =~= fun.calls.push(own_calls[0]));
                }
                if own_bindings.len() == 1 {
                    assert(fun.bindings + own_bindings =~= fun.bindings.push(own_bindings[0]));
                }
            }
        }
        let b = lemma_nodes(n.children, s1, f);
        lemma_grown_twice(
            s.fns,
            f,
            own_calls,
            own_bindings,
            b.calls,
            walk::joined(b.lists),
        );
        walk::lemma_joined(own_lists, b.lists);
        assert(own + b.found =~= b.found);
        b
    }
}

proof fn lemma_grown_none(fns: Seq<FnScopeV>, f: Option<nat>)
    requires
        f matches Some(i) ==> i < fns.len(),
    ensures
        grown(fns, f, Seq::empty(), Seq::empty()) == fns,
{
    if let Some(i) = f {
        let fun = fns[i as int];
        assert(fun.calls + Seq::empty() =~= fun.calls);
        assert(fun.bindings + Seq::empty() =~= fun.bindings);
        assert(grown(fns, f, Seq::empty(), Seq::empty()) =~= fns);
    }
}

proof fn lemma_grown_twice(
    fns: Seq<FnScopeV>,
    f: Option<nat>,
    calls: Seq<(CalleeV, usize)>,
    bindings: Seq<(usize, Seq<char>, BindingV)>,
    more_calls: Seq<(CalleeV, usize)>,
    more_bindings: Seq<(usize, Seq<char>, BindingV)>,
)
    requires
        f matches Some(i) ==> i < fns.len(),
    ensures
        grown(grown(fns, f, calls, bindings), f, more_calls, more_bindings) == grown(
            fns,
            f,
            calls + more_calls,
            bindings + more_bindings,
        ),
{
    if let Some(i) = f {
        let fun = fns[i as int];
        assert((fun.calls + calls) + more_calls =~= fun.calls + (calls + more_calls));
        assert((fun.bindings + bindings) + more_bindings =~= fun.bindings + (bindings
            + more_bindings));
        assert(grown(grown(fns, f, calls, bindings), f, more_calls, more_bindings) =~= grown(
            fns,
            f,
            calls + more_calls,
            bindings + more_bindings,
        ));
    }
}

/// What nodes bring into a scope.
proof fn lemma_nodes(nodes: Seq<NodeV>, s: ScopeV, f: Option<nat>) -> (b: Brought)
    requires
        is_in(f, s),
    ensures
        is_found(b, nodes, nodes),
        go::with_nodes(nodes, s, f).fns == grown(s.fns, f, b.calls, walk::joined(b.lists)) + b.fns,
    decreases nodes, 0int,
{
    if nodes.len() == 0 {
        assert(nodes =~= Seq::empty());
        lemma_grown_none(s.fns, f);
        assert(s.fns + Seq::<FnScopeV>::empty() =~= s.fns);
        lemma_nothing()
    } else {
        let init = nodes.drop_last();
        let n = nodes.last();
        let a = lemma_nodes(init, s, f);
        let s1 = go::with_nodes(init, s, f);
        let b = lemma_node(n, s1, f);
        assert(init.push(n) =~= nodes);
        walk::lemma_gathered_push(init, n, (), body_steps(), a_call(), a.calls, b.calls);
        walk::lemma_gathered_push(init, n, (), body_steps(), some_bindings(), a.lists, b.lists);
        walk::lemma_gathered_push(init, n, (), fn_steps(), a_function(), a.found, b.found);
        let own_calls = walk::some_of(a_call()(n, ()));
        let own_lists = walk::some_of(some_bindings()(n, ()));
        let own = walk::some_of(a_function()(n, ()));
        let calls = own_calls + b.calls;
        let lists = own_lists + b.lists;
        let bindings = walk::joined(lists);
        let r = Brought {
            calls: a.calls + calls,
            lists: a.lists + lists,
            found: a.found + (own + b.found),
            fns: a.fns + b.fns,
        };
        let all_bindings = walk::joined(r.lists);
        walk::lemma_joined(a.lists, lists);
        let a_bindings = walk::joined(a.lists);
        lemma_grown_twice(s.fns, f, a.calls, a_bindings, calls, bindings);
        assert(grown(grown(s.fns, f, a.calls, a_bindings) + a.fns, f, calls, bindings) + b.fns
            =~= grown(s.fns, f, r.calls, all_bindings) + r.fns) by {
            if let Some(i) = f {
                let first = grown(s.fns, f, a.calls, a_bindings);
                assert((first + a.fns)[i as int] == first[i as int]);
                let one = grown(first + a.fns, f, calls, bindings);
                let two = grown(s.fns, f, r.calls, all_bindings) + a.fns;
                assert(one[i as int] == two[i as int]);
                assert(one =~= two);
            }
        }
        assert forall|i: int| 0 <= i < r.fns.len() implies is_scope_of(
            #[trigger] r.fns[i],
            r.found[i],
        ) by {
            if i < a.fns.len() {
                assert(is_scope_of(a.fns[i], a.found[i]));
            } else {
                let j = i - a.fns.len();
                assert(is_scope_of(b.fns[j], (own + b.found)[j]));
                assert(r.found[i] == (own + b.found)[j]);
            }
        }
        r
    }
}

/// The scope of a file has the functions and methods that are anywhere in its tree, in their
/// order, each once; and each has its receiver and parameters, and the calls and bindings that
/// are anywhere in its body, in their order, each once, but for those of a function in it.
pub proof fn law_scope_has_functions(root: NodeV) -> (found: Seq<NodeV>)
    ensures
        walk::gathered(found, seq![root], (), fn_steps(), a_function()),
        are_scopes_of(go::file_scope(root).fns, found),
{
    let s = scope::empty_scope();
    let b = lemma_nodes(seq![root], s, None);
    let none = Seq::<NodeV>::empty();
    assert(seq![root].drop_last() =~= none);
    assert(go::with_nodes(none, s, None) == s);
    assert(go::with_nodes(seq![root], s, None) == go::file_scope(root));
    assert(s.fns + b.fns =~= b.fns);
    b.found
}

/// No call is lost: a call anywhere in the body of a function, in the arguments or the
/// receiver of another call too, is one of the calls of that function, with its line.
pub proof fn law_every_call_is_recorded(root: NodeV, p: Seq<nat>, q: Seq<nat>)
    requires
        walk::found_at(seq![root], (), fn_steps(), a_function(), p) is Some,
        ({
            let f = walk::found_at(seq![root], (), fn_steps(), a_function(), p)->Some_0;
            walk::at(inner_nodes(f), (), body_steps(), q) matches Some((m, _)) && m.kind
                == "call_expression"@ && go::call_of(m) is Some
        }),
    ensures
        ({
            let f = walk::found_at(seq![root], (), fn_steps(), a_function(), p)->Some_0;
            let m = walk::at(inner_nodes(f), (), body_steps(), q)->Some_0.0;
            exists|k: int|
                0 <= k < go::file_scope(root).fns.len() && is_scope_of(
                    #[trigger] go::file_scope(root).fns[k],
                    f,
                ) && go::file_scope(root).fns[k].calls.contains(
                    (go::call_of(m)->Some_0, syntax::line_of(m.start_row)),
                )
        }),
{
    let f = walk::found_at(seq![root], (), fn_steps(), a_function(), p)->Some_0;
    let found = law_scope_has_functions(root);
    walk::lemma_found(found, seq![root], (), fn_steps(), a_function(), p);
    let k = found.index_of(f);
    let fns = go::file_scope(root).fns;
    assert(is_scope_of(fns[k], found[k]));
    assert(walk::found_at(inner_nodes(f), (), body_steps(), a_call(), q) is Some);
    walk::lemma_found(fns[k].calls, inner_nodes(f), (), body_steps(), a_call(), q);
}

/// A parameter is known by its type: a name in a declaration of the list of parameters, or, of
/// a method, of the list of its receiver, is among the parameters, with the base name of the
/// type of that declaration.
pub proof fn law_param_is_known(n: NodeV, field: Seq<char>, i: int, j: int)
    requires
        is_function(n),
        field == "parameters"@ || (n.kind == "method_declaration"@ && field == "receiver"@),
        0 <= i < list_nodes(n, field).len(),
        ({
            let d = list_nodes(n, field)[i];
            &&& d.named && d.kind == "parameter_declaration"@
            &&& go::field_type(d, "type"@) is Some
            &&& 0 <= j < d.children.len()
            &&& d.children[j].label == Some("name"@) && d.children[j].kind == "identifier"@
        }),
    ensures
        ({
            let d = list_nodes(n, field)[i];
            go::fn_scope(n).params.contains(
                (syntax::content(d.children[j]), go::field_type(d, "type"@)->Some_0),
            )
        }),
{
    lemma_fn_params(n);
    let all = param_nodes(n);
    let d = list_nodes(n, field)[i];
    let k: int = if n.kind == "method_declaration"@ && field != "receiver"@ {
        list_nodes(n, "receiver"@).len() + i
    } else {
        i
    };
    assert(all[k] == d) by {
        lemma_kinds();
        reveal_strlit("function_declaration");
        reveal_strlit("method_declaration");
        reveal_strlit("parameters");
        reveal_strlit("receiver");
    }
    let p = seq![k as nat, j as nat];
    let rest = p.drop_first();
    assert(rest =~= seq![j as nat]);
    assert(walk::at(d.children, go::field_type(d, "type"@), param_steps(), rest) == Some(
        (d.children[j], go::field_type(d, "type"@)),
    ));
    assert(walk::at(all, None, param_steps(), p) == Some(
        (d.children[j], go::field_type(d, "type"@)),
    ));
    walk::lemma_found(go::fn_scope(n).params, all, None, param_steps(), a_param(), p);
}

} // verus!
