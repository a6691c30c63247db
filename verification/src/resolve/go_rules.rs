//! What Go calls lead to, said of the definitions of a project.

use vstd::prelude::*;
use crate::path;
use crate::resolve;
use crate::resolve::go;
use crate::resolve::go::CtxV;
use crate::resolve::pick;
use crate::resolve::pick::{
    is_call_at, is_first_param, is_last_binding, is_unbound, lemma_binding, lemma_param,
    lemma_shown_name,
};
use crate::resolve::scope;
use crate::resolve::scope::{BindingV, FnScopeV, ScopeV};
use crate::resolve::{CallV, CalleeV, Confidence, DefKindV, DefV, IndexV, ReceiverV};
use crate::syntax::NodeV;
use crate::text;

verus! {

broadcast use vstd::string::group_string_axioms;

/// Whether two paths have exactly `k` segments in common at their ends.
pub open spec fn share(a: Seq<Seq<char>>, b: Seq<Seq<char>>, k: nat) -> bool {
    &&& k <= a.len() && k <= b.len()
    &&& forall|i: int| 1 <= i <= k ==> #[trigger] a[a.len() - i] == b[b.len() - i]
    &&& k < a.len() && k < b.len() ==> a[a.len() - k - 1] != b[b.len() - k - 1]
}

/// The overlap of two paths is how many segments they have in common at their ends.
pub proof fn law_overlap(a: Seq<Seq<char>>, b: Seq<Seq<char>>)
    ensures
        share(a, b, go::overlap(a, b)),
    decreases a.len(),
{
    if a.len() > 0 && b.len() > 0 && a.last() == b.last() {
        let x = a.drop_last();
        let y = b.drop_last();
        law_overlap(x, y);
        let k = go::overlap(x, y);
        assert forall|i: int| 1 <= i <= k + 1 implies #[trigger] a[a.len() - i] == b[b.len()
            - i] by {
            if i > 1 {
                assert(x[x.len() - (i - 1)] == y[y.len() - (i - 1)]);
            }
        }
        if k + 1 < a.len() && k + 1 < b.len() {
            assert(x[x.len() - k - 1] != y[y.len() - k - 1]);
        }
    }
}

/// The directory of a definition: its path without its name, and, of a method or a signature,
/// without the type.
pub open spec fn directory(d: DefV) -> Seq<Seq<char>> {
    let n: int = if d.kind == DefKindV::Function {
        1
    } else {
        2
    };
    if d.qualified.len() >= n {
        d.qualified.subrange(0, d.qualified.len() - n)
    } else {
        Seq::empty()
    }
}

proof fn lemma_directory(d: DefV)
    ensures
        go::package_of(d) == directory(d),
{
    assert(go::package_of(d) =~= directory(d));
}

/// Whether the directory of a definition and an import end in the same segment.
pub open spec fn is_of_import(d: DefV, path: Seq<Seq<char>>) -> bool {
    directory(d).len() > 0 && path.len() > 0 && directory(d).last() == path.last()
}

/// Whether a definition is in a package that is imported.
pub open spec fn is_imported(s: ScopeV) -> spec_fn(DefV) -> bool {
    |d: DefV|
        {
            ||| exists|k: Seq<char>| #[trigger]
                s.imports.contains_key(k) && is_of_import(d, s.imports[k])
            ||| exists|i: int| 0 <= i < s.globs.len() && is_of_import(d, #[trigger] s.globs[i])
        }
}

proof fn lemma_reach(s: ScopeV)
    ensures
        go::reach_of(s) == is_imported(s),
        forall|d: DefV| #[trigger]
            go::in_dot_import(d, s.globs) <==> exists|i: int|
                0 <= i < s.globs.len() && is_of_import(d, #[trigger] s.globs[i]),
{
    assert forall|d: DefV, p: Seq<Seq<char>>|
        go::overlap(go::package_of(d), p) > 0 <==> #[trigger] is_of_import(d, p) by {
        lemma_directory(d);
    }
    assert forall|d: DefV| #[trigger] go::in_dot_import(d, s.globs) <==> exists|i: int|
        0 <= i < s.globs.len() && is_of_import(d, #[trigger] s.globs[i]) by {
        if go::in_dot_import(d, s.globs) {
            let i = choose|i: int|
                0 <= i < s.globs.len() && go::overlap(go::package_of(d), #[trigger] s.globs[i]) > 0;
            assert(is_of_import(d, s.globs[i]));
        }
        if exists|i: int| 0 <= i < s.globs.len() && is_of_import(d, #[trigger] s.globs[i]) {
            let i = choose|i: int|
                0 <= i < s.globs.len() && is_of_import(d, #[trigger] s.globs[i]);
            assert(go::overlap(go::package_of(d), s.globs[i]) > 0);
        }
    }
    assert forall|d: DefV| #[trigger] go::reach_of(s)(d) == is_imported(s)(d) by {
        assert(go::in_dot_import(d, s.globs) <==> exists|i: int|
            0 <= i < s.globs.len() && is_of_import(d, #[trigger] s.globs[i]));
        if exists|k: Seq<char>| #[trigger]
            s.imports.contains_key(k) && go::overlap(go::package_of(d), s.imports[k]) > 0 {
            let k = choose|k: Seq<char>| #[trigger]
                s.imports.contains_key(k) && go::overlap(go::package_of(d), s.imports[k]) > 0;
            assert(is_of_import(d, s.imports[k]));
        }
        if exists|k: Seq<char>| #[trigger]
            s.imports.contains_key(k) && is_of_import(d, s.imports[k]) {
            let k = choose|k: Seq<char>| #[trigger]
                s.imports.contains_key(k) && is_of_import(d, s.imports[k]);
            assert(go::overlap(go::package_of(d), s.imports[k]) > 0);
        }
    }
    assert(go::reach_of(s) =~= is_imported(s));
}

/// The methods of a type with a name.
pub open spec fn methods_of(ty: Seq<char>, name: Seq<char>) -> spec_fn(DefV) -> bool {
    |d: DefV|
        d.name == name && match d.kind {
            DefKindV::Method { receiver, .. } => receiver == ty,
            _ => false,
        }
}

/// A method of a type is picked among the methods of that type with its name.
pub proof fn law_method_of_type(ty: Seq<char>, name: Seq<char>, ctx: CtxV)
    requires
        ctx.index.defs.len() <= usize::MAX,
    ensures
        pick::is_pick(
            ctx.index.defs,
            go::method_of(ty, name, ctx),
            methods_of(ty, name),
            true,
            ctx.file,
            is_imported(ctx.scope),
        ),
{
    let defs = ctx.index.defs;
    let p = |i: usize| scope::is_method_of(defs[i as int], ty);
    lemma_reach(ctx.scope);
    pick::lemma_selected(defs, name, p, methods_of(ty, name));
    pick::law_rank_picks(
        defs,
        resolve::positions(defs, name).filter(p),
        methods_of(ty, name),
        true,
        ctx.file,
        is_imported(ctx.scope),
    );
}

/// Where a bare name is looked for: among the functions of the file, then of its directory, then
/// of the packages that are imported with a dot, then everywhere.
pub open spec fn bare_sorts(name: Seq<char>, ctx: CtxV) -> Seq<spec_fn(DefV) -> bool> {
    let globs = ctx.scope.globs;
    seq![
        |d: DefV| d.name == name && d.kind == DefKindV::Function && d.id.file == ctx.file,
        |d: DefV|
            d.name == name && d.kind == DefKindV::Function && pick::same_directory(
                d.id.file,
                ctx.file,
            ),
        |d: DefV|
            d.name == name && d.kind == DefKindV::Function && exists|i: int|
                0 <= i < globs.len() && is_of_import(d, #[trigger] globs[i]),
        |d: DefV| d.name == name,
    ]
}

/// A bare name that is no variable leads to a function of the file with that name; without one,
/// to one of its directory; without that, to what a dot import brings; and else to the nearest
/// definition with that name.
pub proof fn law_bare_name_is_picked(name: Seq<char>, line: usize, ctx: CtxV)
    requires
        ctx.index.defs.len() <= usize::MAX,
        is_unbound(ctx.fun, name, line),
    ensures
        ({
            let hits = go::targets(CalleeV::Bare(name), line, 0, ctx);
            hits.len() <= 1 && pick::is_pick_of_first(
                ctx.index.defs,
                if hits.len() > 0 {
                    Some(hits[0])
                } else {
                    None
                },
                bare_sorts(name, ctx),
                ctx.file,
                is_imported(ctx.scope),
            )
        }),
{
    let defs = ctx.index.defs;
    let sorts = bare_sorts(name, ctx);
    let reach = is_imported(ctx.scope);
    let all = resolve::positions(defs, name);
    lemma_binding(ctx.fun, name, line, 0);
    lemma_reach(ctx.scope);
    let a = go::in_file(all, ctx);
    let b = go::in_package(all, ctx);
    let c = go::through_dots(all, ctx);
    pick::lemma_selected(
        defs,
        name,
        |i: usize|
            defs[i as int].id.file == ctx.file && defs[i as int].kind == DefKindV::Function,
        sorts[0],
    );
    pick::lemma_selected(
        defs,
        name,
        |i: usize|
            defs[i as int].kind == DefKindV::Function && path::parent_spec(defs[i as int].id.file)
                == path::parent_spec(ctx.file),
        sorts[1],
    );
    pick::lemma_selected(
        defs,
        name,
        |i: usize|
            defs[i as int].kind == DefKindV::Function && go::in_dot_import(
                defs[i as int],
                ctx.scope.globs,
            ),
        sorts[2],
    );
    pick::lemma_named(defs, name);
    assert(pick::are_positions(defs, all, sorts[3]));
    pick::lemma_some(defs, a, sorts[0]);
    pick::lemma_some(defs, b, sorts[1]);
    pick::lemma_some(defs, c, sorts[2]);
    pick::law_rank_picks(defs, a, sorts[0], false, ctx.file, reach);
    pick::law_rank_picks(defs, b, sorts[1], false, ctx.file, reach);
    pick::law_rank_picks(defs, c, sorts[2], false, ctx.file, reach);
    pick::law_rank_picks(defs, all, sorts[3], false, ctx.file, reach);
    let s1 = sorts.drop_first();
    let s2 = s1.drop_first();
    let s3 = s2.drop_first();
    assert(s1[0] == sorts[1] && s2[0] == sorts[2] && s3[0] == sorts[3]);
    reveal_with_fuel(pick::is_pick_of_first, 5);
}

/// A name that is bound to a function leads to what that function is, wherever that leads
/// anywhere.
pub proof fn law_bound_name_leads_on(
    name: Seq<char>,
    line: usize,
    depth: nat,
    ctx: CtxV,
    i: int,
    inner: CalleeV,
)
    requires
        depth < 4,
        is_last_binding(ctx.fun, name, line, i),
        ctx.fun.bindings[i].2 == BindingV::FnValue(inner),
        go::targets(inner, line, depth + 1, ctx).len() > 0,
    ensures
        go::targets(CalleeV::Bare(name), line, depth, ctx) == seq![
            go::targets(inner, line, depth + 1, ctx)[0],
        ],
{
    lemma_binding(ctx.fun, name, line, i);
}

/// Whether a variable is known to be of a type: its last binding has it, or, where that is a
/// call, what is called returns it; or the variable is the receiver or a parameter of it.
pub open spec fn is_of_type(var: Seq<char>, line: usize, ctx: CtxV, ty: Seq<char>) -> bool {
    ||| exists|i: int| #[trigger]
        is_last_binding(ctx.fun, var, line, i) && ctx.fun.bindings[i].2 == BindingV::Typed(ty)
    ||| exists|i: int, callee: CalleeV|
        #![trigger is_last_binding(ctx.fun, var, line, i), go::targets(callee, line, 1, ctx)]
        is_last_binding(ctx.fun, var, line, i) && ctx.fun.bindings[i].2 == BindingV::Call(callee)
            && go::targets(callee, line, 1, ctx).len() > 0 && ctx.index.defs[go::targets(
            callee,
            line,
            1,
            ctx,
        )[0].0 as int].ret == Some(ty)
    ||| is_unbound(ctx.fun, var, line) && exists|i: int| #[trigger]
        is_first_param(ctx.fun, var, i) && ctx.fun.params[i].1 == ty
}

proof fn lemma_type(var: Seq<char>, line: usize, ctx: CtxV, ty: Seq<char>)
    requires
        is_of_type(var, line, ctx, ty),
    ensures
        go::type_of_var(var, line, 0, ctx) == Some(ty),
{
    if exists|i: int| #[trigger]
        is_last_binding(ctx.fun, var, line, i) && ctx.fun.bindings[i].2 == BindingV::Typed(ty) {
        let i = choose|i: int| #[trigger]
            is_last_binding(ctx.fun, var, line, i) && ctx.fun.bindings[i].2 == BindingV::Typed(ty);
        lemma_binding(ctx.fun, var, line, i);
    } else if is_unbound(ctx.fun, var, line) && exists|i: int| #[trigger]
        is_first_param(ctx.fun, var, i) && ctx.fun.params[i].1 == ty {
        let i = choose|i: int| #[trigger]
            is_first_param(ctx.fun, var, i) && ctx.fun.params[i].1 == ty;
        lemma_binding(ctx.fun, var, line, 0);
        lemma_param(ctx.fun.params, var, i);
    } else {
        let (i, callee) = choose|i: int, callee: CalleeV|
            #![trigger is_last_binding(ctx.fun, var, line, i), go::targets(callee, line, 1, ctx)]
            is_last_binding(ctx.fun, var, line, i) && ctx.fun.bindings[i].2 == BindingV::Call(
                callee,
            ) && go::targets(callee, line, 1, ctx).len() > 0 && ctx.index.defs[go::targets(
                callee,
                line,
                1,
                ctx,
            )[0].0 as int].ret == Some(ty);
        lemma_binding(ctx.fun, var, line, i);
    }
}

/// A variable that is bound to the result of a call of which nothing more is known is of the type
/// that the name of the call tells: `NewServer()` and `pkg.NewServer()` make a `Server`.
pub proof fn law_constructed(
    var: Seq<char>,
    line: usize,
    ctx: CtxV,
    i: int,
    callee: CalleeV,
    ty: Seq<char>,
)
    requires
        is_last_binding(ctx.fun, var, line, i),
        ctx.fun.bindings[i].2 == BindingV::Call(callee),
        go::targets(callee, line, 1, ctx).len() == 0,
        pick::shown_name(callee) == "New"@ + ty,
        text::capitalized(ty),
    ensures
        go::type_of_var(var, line, 0, ctx) == Some(ty),
{
    lemma_binding(ctx.fun, var, line, i);
    lemma_shown_name(callee);
    let name = "New"@ + ty;
    assert(name.take("New"@.len() as int) =~= "New"@);
    assert(name.skip("New"@.len() as int) =~= ty);
}

proof fn lemma_method_targets(receiver: ReceiverV, name: Seq<char>, line: usize, ctx: CtxV)
    ensures
        go::targets(CalleeV::Method { receiver, name }, line, 0, ctx) == (
        match go::receiver_targets(receiver, name, line, 0, ctx) {
            Some(hits) => hits,
            None => scope::at_most_one(
                go::pick_ranked(resolve::positions(ctx.index.defs, name), true, ctx),
            ),
        }),
{
    assert(go::targets(CalleeV::Method { receiver, name }, line, 0, ctx) == go::method_targets(
        receiver,
        name,
        line,
        0,
        ctx,
    ));
}

/// A selector call on a variable, a receiver or a parameter of a known type leads to the method
/// of that type: to the only one, exactly, where there is just one.
pub proof fn law_typed_receiver(
    var: Seq<char>,
    name: Seq<char>,
    line: usize,
    ctx: CtxV,
    ty: Seq<char>,
)
    requires
        ctx.index.defs.len() <= usize::MAX,
        is_of_type(var, line, ctx, ty),
        exists|j: int|
            0 <= j < ctx.index.defs.len() && methods_of(ty, name)(#[trigger] ctx.index.defs[j]),
    ensures
        ({
            let hits = go::targets(
                CalleeV::Method { receiver: ReceiverV::Var(var), name },
                line,
                0,
                ctx,
            );
            hits.len() == 1 && pick::is_pick(
                ctx.index.defs,
                Some(hits[0]),
                methods_of(ty, name),
                true,
                ctx.file,
                is_imported(ctx.scope),
            )
        }),
{
    lemma_type(var, line, ctx, ty);
    law_method_of_type(ty, name, ctx);
    lemma_method_targets(ReceiverV::Var(var), name, line, ctx);
}

/// Whether a type has a method for each signature of an interface.
pub open spec fn covers(defs: Seq<DefV>, ty: Seq<char>, iface: Seq<char>) -> bool {
    forall|j: int|
        0 <= j < defs.len() && (#[trigger] defs[j]).kind == (DefKindV::InterfaceMethod {
            interface: iface,
        }) ==> exists|k: int|
            0 <= k < defs.len() && methods_of(ty, defs[j].name)(#[trigger] defs[k])
}

proof fn lemma_covers(defs: Seq<DefV>, ty: Seq<char>, iface: Seq<char>)
    requires
        defs.len() <= usize::MAX,
    ensures
        go::implements(defs, ty, iface) <==> covers(defs, ty, iface),
{
    assert forall|name: Seq<char>| #[trigger]
        go::has_method(defs, ty, name) <==> exists|k: int|
            0 <= k < defs.len() && methods_of(ty, name)(#[trigger] defs[k]) by {
        let p = |i: usize| scope::is_method_of(defs[i as int], ty);
        pick::lemma_selected(defs, name, p, methods_of(ty, name));
        pick::lemma_some(
            defs,
            resolve::positions(defs, name).filter(p),
            methods_of(ty, name),
        );
    }
    if go::implements(defs, ty, iface) {
        assert forall|j: int|
            0 <= j < defs.len() && (#[trigger] defs[j]).kind == (DefKindV::InterfaceMethod {
                interface: iface,
            }) implies exists|k: int|
            0 <= k < defs.len() && methods_of(ty, defs[j].name)(#[trigger] defs[k]) by {
            assert(scope::is_signature_of(defs[j], iface));
            assert(go::has_method(defs, ty, defs[j].name));
        }
    }
    if covers(defs, ty, iface) {
        assert forall|j: int|
            0 <= j < defs.len() && #[trigger] scope::is_signature_of(
                defs[j],
                iface,
            ) implies go::has_method(defs, ty, defs[j].name) by {
            assert(defs[j].kind == (DefKindV::InterfaceMethod { interface: iface }));
        }
    }
}

/// Whether a definition is a method with a name of a type that has a method for each signature of
/// an interface.
pub open spec fn is_answer(defs: Seq<DefV>, name: Seq<char>, iface: Seq<char>, t: usize) -> bool {
    t < defs.len() && defs[t as int].name == name && match defs[t as int].kind {
        DefKindV::Method { receiver, .. } => covers(defs, receiver, iface),
        _ => false,
    }
}

/// A selector call on what is of an interface leads to the methods of the types that have a
/// method for each of its signatures, and to nothing else: a single one is exact, and each of
/// several is a guess. Where no type has them all, it leads to the signature.
pub proof fn law_interface_receiver(
    var: Seq<char>,
    name: Seq<char>,
    line: usize,
    ctx: CtxV,
    iface: Seq<char>,
    t: usize,
)
    requires
        ctx.index.defs.len() <= usize::MAX,
        is_of_type(var, line, ctx, iface),
        forall|j: int|
            0 <= j < ctx.index.defs.len() ==> !methods_of(iface, name)(
                #[trigger] ctx.index.defs[j],
            ),
        exists|j: int|
            0 <= j < ctx.index.defs.len() && (#[trigger] ctx.index.defs[j]).name == name
                && ctx.index.defs[j].kind == (DefKindV::InterfaceMethod { interface: iface }),
    ensures
        ({
            let defs = ctx.index.defs;
            let hits = go::targets(
                CalleeV::Method { receiver: ReceiverV::Var(var), name },
                line,
                0,
                ctx,
            );
            let found = exists|k: int| 0 <= k < hits.len() && (#[trigger] hits[k]).0 == t;
            &&& hits.len() > 0
            &&& forall|k: int|
                0 <= k < hits.len() ==> ((#[trigger] hits[k]).1 == Confidence::Exact <==> hits.len()
                    == 1)
            &&& (exists|u: usize| #[trigger] is_answer(defs, name, iface, u)) ==> (found
                <==> is_answer(defs, name, iface, t))
            &&& (forall|u: usize| !#[trigger] is_answer(defs, name, iface, u)) ==> hits.len() == 1
                && defs[hits[0].0 as int].kind == (DefKindV::InterfaceMethod { interface: iface })
        }),
{
    let defs = ctx.index.defs;
    let cands = resolve::positions(defs, name);
    let kind = DefKindV::InterfaceMethod { interface: iface };
    lemma_type(var, line, ctx, iface);
    law_method_of_type(iface, name, ctx);
    if let Some((u, _)) = go::method_of(iface, name, ctx) {
        assert(methods_of(iface, name)(defs[u as int]));
    }
    let p = |i: usize| scope::is_signature_of(defs[i as int], iface);
    let cand = |d: DefV| d.name == name && d.kind == kind;
    pick::lemma_selected(defs, name, p, cand);
    pick::lemma_some(defs, cands.filter(p), cand);
    let j = choose|j: int|
        0 <= j < defs.len() && (#[trigger] defs[j]).name == name && defs[j].kind == kind;
    assert(cand(defs[j]));
    assert(cands.filter(p).len() > 0);
    go::law_interface_dispatch_expands(iface, name, ctx);
    assert forall|u: usize| #[trigger]
        is_answer(defs, name, iface, u) <==> go::answers_interface(defs, iface, name, u) by {
        if u < defs.len() {
            if let DefKindV::Method { receiver, .. } = defs[u as int].kind {
                lemma_covers(defs, receiver, iface);
            }
        }
    }
    let q = |i: usize| go::answers_interface(defs, iface, name, i);
    let hits = go::interface_targets(iface, name, ctx);
    if exists|u: usize| #[trigger] is_answer(defs, name, iface, u) {
        let u = choose|u: usize| #[trigger] is_answer(defs, name, iface, u);
        assert(go::answers_interface(defs, iface, name, u));
        assert(q(u) <==> resolve::has_target(hits, u));
        assert(q(t) <==> resolve::has_target(hits, t));
    } else {
        assert forall|u: usize| !#[trigger] go::answers_interface(defs, iface, name, u) by {
            assert(!is_answer(defs, name, iface, u));
        }
    }
    lemma_method_targets(ReceiverV::Var(var), name, line, ctx);
}

/// The functions with a name in a directory that shares `k` segments with an import.
pub open spec fn functions_at(name: Seq<char>, path: Seq<Seq<char>>, k: nat) -> spec_fn(
    DefV,
) -> bool {
    |d: DefV|
        k > 0 && d.name == name && d.kind == DefKindV::Function && share(directory(d), path, k)
}

/// A selector call on an imported package leads to a function of the directory that shares most
/// segments with the path of the import. A function that no such directory has is external.
pub proof fn law_package_call(v: Seq<char>, name: Seq<char>, line: usize, ctx: CtxV) -> (k: nat)
    requires
        ctx.index.defs.len() <= usize::MAX,
        is_unbound(ctx.fun, v, line),
        forall|i: int| 0 <= i < ctx.fun.params.len() ==> (#[trigger] ctx.fun.params[i]).0 != v,
        ctx.scope.imports.contains_key(v),
    ensures
        ({
            let hits = go::targets(
                CalleeV::Method { receiver: ReceiverV::Var(v), name },
                line,
                0,
                ctx,
            );
            let path = ctx.scope.imports[v];
            &&& hits.len() <= 1
            &&& pick::is_pick(
                ctx.index.defs,
                if hits.len() > 0 {
                    Some(hits[0])
                } else {
                    None
                },
                functions_at(name, path, k),
                false,
                ctx.file,
                is_imported(ctx.scope),
            )
            &&& forall|j: int, m: nat|
                0 <= j < ctx.index.defs.len() && functions_at(name, path, m)(
                    #[trigger] ctx.index.defs[j],
                ) && #[trigger] share(directory(ctx.index.defs[j]), path, m) ==> m <= k
        }),
{
    let defs = ctx.index.defs;
    let path = ctx.scope.imports[v];
    let cands = resolve::positions(defs, name);
    let k = go::deepest(defs, cands, path);
    lemma_binding(ctx.fun, v, line, 0);
    lemma_no_param(ctx.fun.params, v);
    lemma_method_targets(ReceiverV::Var(v), name, line, ctx);
    lemma_reach(ctx.scope);
    lemma_deepest(defs, cands, path);
    let p = |i: usize|
        defs[i as int].kind == DefKindV::Function && go::overlap(
            go::package_of(defs[i as int]),
            path,
        ) == k;
    let cand = functions_at(name, path, k);
    assert forall|d: DefV, m: nat|
        #[trigger] share(directory(d), path, m) implies go::overlap(go::package_of(d), path)
        == m by {
        lemma_directory(d);
        law_overlap(directory(d), path);
        lemma_share_once(directory(d), path, m, go::overlap(directory(d), path));
    }
    assert forall|d: DefV| share(directory(d), path, #[trigger] go::overlap(go::package_of(d), path)) by {
        lemma_directory(d);
        law_overlap(directory(d), path);
    }
    if k > 0 {
        pick::lemma_selected(defs, name, p, cand);
        pick::law_rank_picks(
            defs,
            cands.filter(p),
            cand,
            false,
            ctx.file,
            is_imported(ctx.scope),
        );
    }
    assert forall|j: int, m: nat|
        0 <= j < defs.len() && functions_at(name, path, m)(#[trigger] defs[j]) && #[trigger] share(
            directory(defs[j]),
            path,
            m,
        ) implies m <= k by {
        pick::lemma_named(defs, name);
        let i = j as usize;
        assert(cands.contains(i));
        let x = cands.index_of(i);
        assert(go::overlap(go::package_of(defs[cands[x] as int]), path) <= k);
    }
    k
}

proof fn lemma_no_param(params: Seq<(Seq<char>, Seq<char>)>, v: Seq<char>)
    requires
        forall|i: int| 0 <= i < params.len() ==> (#[trigger] params[i]).0 != v,
    ensures
        scope::param_type_spec(params, v) is None,
    decreases params.len(),
{
    if params.len() > 0 {
        let rest = params.drop_first();
        assert forall|i: int| 0 <= i < rest.len() implies (#[trigger] rest[i]).0 != v by {
            assert(params[i + 1].0 != v);
        }
        lemma_no_param(rest, v);
    }
}

proof fn lemma_deepest(defs: Seq<DefV>, cands: Seq<usize>, path: Seq<Seq<char>>)
    ensures
        forall|x: int|
            0 <= x < cands.len() && defs[(#[trigger] cands[x]) as int].kind == DefKindV::Function
                ==> go::overlap(go::package_of(defs[cands[x] as int]), path) <= go::deepest(
                defs,
                cands,
                path,
            ),
    decreases cands.len(),
{
    if cands.len() > 0 {
        let init = cands.drop_last();
        lemma_deepest(defs, init, path);
        assert forall|x: int|
            0 <= x < cands.len() && defs[(#[trigger] cands[x]) as int].kind
                == DefKindV::Function implies go::overlap(
            go::package_of(defs[cands[x] as int]),
            path,
        ) <= go::deepest(defs, cands, path) by {
            if x < init.len() {
                assert(init[x] == cands[x]);
            }
        }
    }
}

proof fn lemma_share_once(a: Seq<Seq<char>>, b: Seq<Seq<char>>, k: nat, m: nat)
    requires
        share(a, b, k),
        share(a, b, m),
    ensures
        k == m,
{
    if k < m {
        assert(a[a.len() - (k + 1)] == b[b.len() - (k + 1)]);
    }
    if m < k {
        assert(a[a.len() - (m + 1)] == b[b.len() - (m + 1)]);
    }
}

/// A method call on what is no variable leads to the nearest definition with that name, methods
/// before functions.
pub proof fn law_unknown_receiver(shown: Seq<char>, name: Seq<char>, line: usize, ctx: CtxV)
    requires
        ctx.index.defs.len() <= usize::MAX,
    ensures
        ({
            let hits = go::targets(
                CalleeV::Method { receiver: ReceiverV::Opaque(shown), name },
                line,
                0,
                ctx,
            );
            hits.len() <= 1 && pick::is_pick(
                ctx.index.defs,
                if hits.len() > 0 {
                    Some(hits[0])
                } else {
                    None
                },
                |d: DefV| d.name == name,
                true,
                ctx.file,
                is_imported(ctx.scope),
            )
        }),
{
    let defs = ctx.index.defs;
    lemma_reach(ctx.scope);
    assert(go::targets(
        CalleeV::Method { receiver: ReceiverV::Opaque(shown), name },
        line,
        0,
        ctx,
    ) == go::method_targets(ReceiverV::Opaque(shown), name, line, 0, ctx));
    pick::lemma_named(defs, name);
    pick::law_rank_picks(
        defs,
        resolve::positions(defs, name),
        |d: DefV| d.name == name,
        true,
        ctx.file,
        is_imported(ctx.scope),
    );
}

proof fn lemma_fn_calls(calls: Seq<(CalleeV, usize)>, caller: usize, ctx: CtxV, call: CallV)
    ensures
        go::fn_calls(calls, caller, ctx).contains(call) <==> exists|m: int|
            0 <= m < calls.len() && is_call_at(
                call,
                caller,
                #[trigger] calls[m],
                go::targets(calls[m].0, calls[m].1, 0, ctx),
            ),
    decreases calls.len(),
{
    if calls.len() > 0 {
        let init = calls.drop_last();
        let n = calls.len() - 1;
        let (callee, line) = calls.last();
        let hits = go::targets(callee, line, 0, ctx);
        let before = go::fn_calls(init, caller, ctx);
        let site = resolve::site_calls(caller, resolve::callee_name(callee), line, hits);
        lemma_fn_calls(init, caller, ctx, call);
        lemma_shown_name(callee);
        pick::law_site_calls(caller, resolve::callee_name(callee), line, hits, call);
        let all = go::fn_calls(calls, caller, ctx);
        assert(all == before + site);
        if all.contains(call) {
            let k = all.index_of(call);
            if k < before.len() {
                assert(before[k] == call);
                let m = choose|m: int|
                    0 <= m < init.len() && is_call_at(
                        call,
                        caller,
                        #[trigger] init[m],
                        go::targets(init[m].0, init[m].1, 0, ctx),
                    );
                assert(calls[m] == init[m]);
            } else {
                assert(site[k - before.len()] == call);
                assert(calls[n] == (callee, line));
            }
        }
        if exists|m: int|
            0 <= m < calls.len() && is_call_at(
                call,
                caller,
                #[trigger] calls[m],
                go::targets(calls[m].0, calls[m].1, 0, ctx),
            ) {
            let m = choose|m: int|
                0 <= m < calls.len() && is_call_at(
                    call,
                    caller,
                    #[trigger] calls[m],
                    go::targets(calls[m].0, calls[m].1, 0, ctx),
                );
            if m < n {
                assert(init[m] == calls[m]);
                assert(all[before.index_of(call)] == call);
            } else {
                assert(all[before.len() + site.index_of(call)] == call);
            }
        }
    }
}

/// Whether a call is one of a function of a file: the function is defined where it starts, and
/// the call is that of one of its call sites.
pub open spec fn is_call_of(
    call: CallV,
    fun: FnScopeV,
    file: Seq<char>,
    s: ScopeV,
    index: IndexV,
) -> bool {
    pick::is_last_at(index.defs, file, fun.line, call.caller) && exists|m: int|
        0 <= m < fun.calls.len() && is_call_at(
            call,
            call.caller,
            #[trigger] fun.calls[m],
            go::targets(fun.calls[m].0, fun.calls[m].1, 0, CtxV { file, scope: s, fun, index }),
        )
}

proof fn lemma_scope_calls(
    fns: Seq<FnScopeV>,
    file: Seq<char>,
    s: ScopeV,
    index: IndexV,
    call: CallV,
)
    requires
        index.defs.len() <= usize::MAX,
    ensures
        go::scope_calls(fns, file, s, index).contains(call) <==> exists|k: int|
            0 <= k < fns.len() && is_call_of(call, #[trigger] fns[k], file, s, index),
    decreases fns.len(),
{
    if fns.len() > 0 {
        let init = fns.drop_last();
        let n = fns.len() - 1;
        let fun = fns.last();
        let before = go::scope_calls(init, file, s, index);
        let all = go::scope_calls(fns, file, s, index);
        let ctx = CtxV { file, scope: s, fun, index };
        let at = resolve::def_at(index.defs, resolve::positions_in(index.defs, file), fun.line);
        lemma_scope_calls(init, file, s, index, call);
        pick::law_definition_at_line(index.defs, file, fun.line);
        let own = match at {
            Some(caller) => {
                lemma_fn_calls(fun.calls, caller, ctx, call);
                go::fn_calls(fun.calls, caller, ctx)
            },
            None => Seq::empty(),
        };
        assert(all =~= before + own);
        assert(own.contains(call) <==> is_call_of(call, fun, file, s, index)) by {
            if let Some(caller) = at {
                if is_call_of(call, fun, file, s, index) {
                    assert(call.caller == caller);
                }
            }
        }
        if all.contains(call) {
            let k = all.index_of(call);
            if k < before.len() {
                assert(before[k] == call);
                let j = choose|j: int|
                    0 <= j < init.len() && is_call_of(call, #[trigger] init[j], file, s, index);
                assert(fns[j] == init[j]);
            } else {
                assert(own[k - before.len()] == call);
                assert(fns[n] == fun);
            }
        }
        if exists|k: int|
            0 <= k < fns.len() && is_call_of(call, #[trigger] fns[k], file, s, index) {
            let k = choose|k: int|
                0 <= k < fns.len() && is_call_of(call, #[trigger] fns[k], file, s, index);
            if k < n {
                assert(init[k] == fns[k]);
                assert(all[before.index_of(call)] == call);
            } else {
                assert(all[before.len() + own.index_of(call)] == call);
            }
        }
    }
}

/// The calls of a file are those of the call sites in its functions, as far as these are
/// indexed: one for each target of a site, or one without a target, and no others.
pub proof fn law_calls_of_a_file(
    root: NodeV,
    file: Seq<char>,
    index: IndexV,
    call: CallV,
)
    requires
        index.defs.len() <= usize::MAX,
    ensures
        go::tree_calls(root, file, index).contains(call) <==> exists|k: int|
            0 <= k < go::file_scope(root).fns.len() && is_call_of(
                call,
                #[trigger] go::file_scope(root).fns[k],
                file,
                go::file_scope(root),
                index,
            ),
{
    let s = go::file_scope(root);
    lemma_scope_calls(s.fns, file, s, index, call);
}

} // verus!
