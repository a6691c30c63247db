//! What Rust calls lead to, said of the definitions of a project.

use vstd::prelude::*;
use crate::order;
use crate::resolve;
use crate::resolve::pick;
use crate::resolve::pick::{
    is_call_at, is_first_param, is_last_binding, is_unbound, lemma_binding, lemma_param,
    lemma_shown_name,
};
use crate::resolve::rust;
use crate::resolve::rust::CtxV;
use crate::resolve::scope;
use crate::resolve::scope::{BindingV, FnScopeV, ScopeV};
use crate::resolve::{CallV, CalleeV, Confidence, DefKindV, DefV, IndexV, ReceiverV};
use crate::syntax::NodeV;
use crate::text;

verus! {

broadcast use vstd::string::group_string_axioms;

/// Whether a definition, or the module that it stands in, is imported, or all of that module.
pub open spec fn is_imported(s: ScopeV) -> spec_fn(DefV) -> bool {
    |d: DefV|
        {
            let module = if d.qualified.len() > 0 {
                d.qualified.drop_last()
            } else {
                d.qualified
            };
            ||| exists|k: Seq<char>| #[trigger]
                s.imports.contains_key(k) && (text::has_suffix(d.qualified, s.imports[k])
                    || text::has_suffix(module, s.imports[k]))
            ||| exists|i: int| 0 <= i < s.globs.len() && text::has_suffix(module, #[trigger] s.globs[i])
        }
}

proof fn lemma_reach(s: ScopeV)
    ensures
        rust::reach_of(s) == is_imported(s),
{
    assert forall|d: DefV| #[trigger] rust::reach_of(s)(d) == is_imported(s)(d) by {
        if rust::imported(s, d) {
            if exists|k: Seq<char>| #[trigger]
                s.imports.contains_key(k) && (text::has_suffix(d.qualified, s.imports[k])
                    || text::has_suffix(rust::front(d.qualified), s.imports[k])) {
            } else {
                let i = choose|i: int|
                    0 <= i < s.globs.len() && #[trigger] text::has_suffix(
                        rust::front(d.qualified),
                        s.globs[i],
                    );
                assert(text::has_suffix(rust::front(d.qualified), s.globs[i]));
            }
        }
        if is_imported(s)(d) {
            if exists|k: Seq<char>| #[trigger]
                s.imports.contains_key(k) && (text::has_suffix(d.qualified, s.imports[k])
                    || text::has_suffix(rust::front(d.qualified), s.imports[k])) {
            } else {
                let i = choose|i: int|
                    0 <= i < s.globs.len() && text::has_suffix(
                        rust::front(d.qualified),
                        #[trigger] s.globs[i],
                    );
                assert(text::has_suffix(rust::front(d.qualified), s.globs[i]));
            }
        }
    }
    assert(rust::reach_of(s) =~= is_imported(s));
}

/// The methods of a type with a name.
pub open spec fn methods_of(ty: Seq<char>, name: Seq<char>) -> spec_fn(DefV) -> bool {
    |d: DefV|
        d.name == name && match d.kind {
            DefKindV::Method { receiver, .. } => receiver == ty,
            _ => false,
        }
}

/// The definitions that a path leads to: those whose own path ends in it.
pub open spec fn ending_in(path: Seq<Seq<char>>) -> spec_fn(DefV) -> bool {
    |d: DefV| path.len() > 0 && d.name == path.last() && text::has_suffix(d.qualified, path)
}

/// A path as it reads without imports: what its first segment is imported as stands for it.
pub open spec fn full_path(segs: Seq<Seq<char>>, s: ScopeV) -> Seq<Seq<char>> {
    if segs.len() > 0 && s.imports.contains_key(segs[0]) {
        s.imports[segs[0]] + segs.skip(1)
    } else {
        segs
    }
}

/// Where a bare name is looked for: among the functions of the file, then in what is imported
/// under it, then in the modules of which everything is imported, then everywhere.
pub open spec fn bare_sorts(name: Seq<char>, ctx: CtxV) -> Seq<spec_fn(DefV) -> bool> {
    let imports = ctx.scope.imports;
    let globs = ctx.scope.globs;
    seq![
        |d: DefV| d.name == name && d.id.file == ctx.file && d.kind == DefKindV::Function,
        |d: DefV|
            imports.contains_key(name) && text::has_suffix(d.qualified, imports[name]) && d.name
                == (if imports[name].len() > 0 {
                imports[name].last()
            } else {
                name
            }),
        |d: DefV|
            d.name == name && d.qualified.len() > 0 && d.qualified.last() == name && exists|i: int|
                0 <= i < globs.len() && text::has_suffix(
                    d.qualified.drop_last(),
                    #[trigger] globs[i],
                ),
        |d: DefV| d.name == name,
    ]
}

/// A method of a type is picked among the methods of that type with its name.
pub proof fn law_method_of_type(ty: Seq<char>, name: Seq<char>, ctx: CtxV)
    requires
        ctx.index.defs.len() <= usize::MAX,
    ensures
        pick::is_pick(
            ctx.index.defs,
            rust::method_of(ty, name, ctx),
            methods_of(ty, name),
            true,
            ctx.file,
            is_imported(ctx.scope),
        ),
{
    let defs = ctx.index.defs;
    let p = |i: usize| scope::is_method_of(defs[i as int], ty);
    lemma_reach(ctx.scope);
    pick::lemma_selected(defs, name, p, methods_of(ty, name));
    pick::law_rank_picks(
        defs,
        resolve::positions(defs, name).filter(p),
        methods_of(ty, name),
        true,
        ctx.file,
        is_imported(ctx.scope),
    );
}

/// A qualified path leads to a definition whose own path ends in it, once what its first segment
/// is imported as stands for that; and to none if there is no such definition.
pub proof fn law_path_is_picked(segs: Seq<Seq<char>>, line: usize, ctx: CtxV)
    requires
        ctx.index.defs.len() <= usize::MAX,
    ensures
        ({
            let hits = rust::targets(CalleeV::Path(segs), line, 0, ctx);
            hits.len() <= 1 && pick::is_pick(
                ctx.index.defs,
                if hits.len() > 0 {
                    Some(hits[0])
                } else {
                    None
                },
                ending_in(full_path(segs, ctx.scope)),
                false,
                ctx.file,
                is_imported(ctx.scope),
            )
        }),
{
    let defs = ctx.index.defs;
    let path = full_path(segs, ctx.scope);
    if segs.len() > 0 {
        assert(segs.drop_first() =~= segs.skip(1));
    }
    assert(path == rust::expanded(segs, ctx.scope));
    lemma_reach(ctx.scope);
    if path.len() > 0 {
        let p = |i: usize| text::has_suffix(defs[i as int].qualified, path);
        pick::lemma_selected(defs, path.last(), p, ending_in(path));
        pick::law_rank_picks(
            defs,
            resolve::positions(defs, path.last()).filter(p),
            ending_in(path),
            false,
            ctx.file,
            is_imported(ctx.scope),
        );
    }
}

/// A bare name that is no variable leads to a function of the file with that name; without one,
/// to what is imported under it; without that, to what a glob import brings; and else to the
/// nearest definition with that name.
pub proof fn law_bare_name_is_picked(name: Seq<char>, line: usize, ctx: CtxV)
    requires
        ctx.index.defs.len() <= usize::MAX,
        is_unbound(ctx.fun, name, line),
    ensures
        ({
            let hits = rust::targets(CalleeV::Bare(name), line, 0, ctx);
            hits.len() <= 1 && pick::is_pick_of_first(
                ctx.index.defs,
                if hits.len() > 0 {
                    Some(hits[0])
                } else {
                    None
                },
                bare_sorts(name, ctx),
                ctx.file,
                is_imported(ctx.scope),
            )
        }),
{
    let defs = ctx.index.defs;
    let sorts = bare_sorts(name, ctx);
    let reach = is_imported(ctx.scope);
    let all = resolve::positions(defs, name);
    lemma_binding(ctx.fun, name, line, 0);
    lemma_reach(ctx.scope);
    let a = rust::in_file(all, ctx);
    let b = rust::through_import(name, ctx);
    let c = rust::through_globs(all, name, ctx);
    pick::lemma_selected(
        defs,
        name,
        |i: usize|
            ctx.index.defs[i as int].id.file == ctx.file && ctx.index.defs[i as int].kind
                == DefKindV::Function,
        sorts[0],
    );
    let imports = ctx.scope.imports;
    if imports.contains_key(name) {
        let path = imports[name];
        let target = if path.len() > 0 {
            path.last()
        } else {
            name
        };
        pick::lemma_selected(
            defs,
            target,
            |i: usize| text::has_suffix(defs[i as int].qualified, path),
            sorts[1],
        );
    } else {
        assert(pick::are_positions(defs, b, sorts[1]));
    }
    let p = |i: usize| rust::in_glob(ctx.index.defs[i as int].qualified, name, ctx.scope.globs);
    assert forall|i: usize|
        i < defs.len() && (#[trigger] defs[i as int]).name == name implies p(i) == sorts[2](
        defs[i as int],
    ) by {
        let q = defs[i as int].qualified;
        let globs = ctx.scope.globs;
        if p(i) {
            let k = choose|k: int|
                0 <= k < globs.len() && q.len() > (#[trigger] globs[k]).len() && text::has_suffix(
                    q.drop_last(),
                    globs[k],
                ) && q.last() == name;
            assert(text::has_suffix(q.drop_last(), globs[k]));
        }
        if sorts[2](defs[i as int]) {
            let k = choose|k: int|
                0 <= k < globs.len() && text::has_suffix(q.drop_last(), #[trigger] globs[k]);
            assert(q.len() > globs[k].len());
        }
    }
    pick::lemma_selected(defs, name, p, sorts[2]);
    pick::lemma_named(defs, name);
    assert(pick::are_positions(defs, all, sorts[3]));
    pick::lemma_some(defs, a, sorts[0]);
    pick::lemma_some(defs, b, sorts[1]);
    pick::lemma_some(defs, c, sorts[2]);
    pick::law_rank_picks(defs, a, sorts[0], false, ctx.file, reach);
    pick::law_rank_picks(defs, b, sorts[1], false, ctx.file, reach);
    pick::law_rank_picks(defs, c, sorts[2], false, ctx.file, reach);
    pick::law_rank_picks(defs, all, sorts[3], false, ctx.file, reach);
    let s1 = sorts.drop_first();
    let s2 = s1.drop_first();
    let s3 = s2.drop_first();
    assert(s1[0] == sorts[1] && s2[0] == sorts[2] && s3[0] == sorts[3]);
    reveal_with_fuel(pick::is_pick_of_first, 5);
}

/// A name that is bound to a function leads to what that function is, wherever that leads
/// anywhere.
pub proof fn law_bound_name_leads_on(
    name: Seq<char>,
    line: usize,
    depth: nat,
    ctx: CtxV,
    i: int,
    inner: CalleeV,
)
    requires
        depth < 4,
        is_last_binding(ctx.fun, name, line, i),
        ctx.fun.bindings[i].2 == BindingV::FnValue(inner),
        rust::targets(inner, line, depth + 1, ctx).len() > 0,
    ensures
        rust::targets(CalleeV::Bare(name), line, depth, ctx) == seq![
            rust::targets(inner, line, depth + 1, ctx)[0],
        ],
{
    lemma_binding(ctx.fun, name, line, i);
}

/// Whether a variable is known to be of a type: its last binding has it, or, where that is a
/// call, what is called returns it; or the variable is a parameter of it.
pub open spec fn is_of_type(var: Seq<char>, line: usize, ctx: CtxV, ty: Seq<char>) -> bool {
    ||| exists|i: int| #[trigger]
        is_last_binding(ctx.fun, var, line, i) && ctx.fun.bindings[i].2 == BindingV::Typed(ty)
    ||| exists|i: int, callee: CalleeV|
        #![trigger is_last_binding(ctx.fun, var, line, i), rust::targets(callee, line, 1, ctx)]
        is_last_binding(ctx.fun, var, line, i) && ctx.fun.bindings[i].2 == BindingV::Call(callee)
            && rust::targets(callee, line, 1, ctx).len() > 0 && ctx.index.defs[rust::targets(
            callee,
            line,
            1,
            ctx,
        )[0].0 as int].ret == Some(ty)
    ||| is_unbound(ctx.fun, var, line) && exists|i: int| #[trigger]
        is_first_param(ctx.fun, var, i) && ctx.fun.params[i].1 == ty
}

proof fn lemma_type(var: Seq<char>, line: usize, ctx: CtxV, ty: Seq<char>)
    requires
        is_of_type(var, line, ctx, ty),
    ensures
        rust::type_of_var(var, line, 0, ctx) == Some(ty),
{
    if exists|i: int| #[trigger]
        is_last_binding(ctx.fun, var, line, i) && ctx.fun.bindings[i].2 == BindingV::Typed(ty) {
        let i = choose|i: int| #[trigger]
            is_last_binding(ctx.fun, var, line, i) && ctx.fun.bindings[i].2 == BindingV::Typed(ty);
        lemma_binding(ctx.fun, var, line, i);
    } else if is_unbound(ctx.fun, var, line) && exists|i: int| #[trigger]
        is_first_param(ctx.fun, var, i) && ctx.fun.params[i].1 == ty {
        let i = choose|i: int| #[trigger]
            is_first_param(ctx.fun, var, i) && ctx.fun.params[i].1 == ty;
        lemma_binding(ctx.fun, var, line, 0);
        lemma_param(ctx.fun.params, var, i);
    } else {
        let (i, callee) = choose|i: int, callee: CalleeV|
            #![trigger is_last_binding(ctx.fun, var, line, i), rust::targets(callee, line, 1, ctx)]
            is_last_binding(ctx.fun, var, line, i) && ctx.fun.bindings[i].2 == BindingV::Call(
                callee,
            ) && rust::targets(callee, line, 1, ctx).len() > 0 && ctx.index.defs[rust::targets(
                callee,
                line,
                1,
                ctx,
            )[0].0 as int].ret == Some(ty);
        lemma_binding(ctx.fun, var, line, i);
    }
}

/// A variable that is bound to the result of a call of which nothing more is known is of the type
/// that the call is written on: `Foo::new(..)` makes a `Foo`.
pub proof fn law_constructed(
    var: Seq<char>,
    line: usize,
    ctx: CtxV,
    i: int,
    segs: Seq<Seq<char>>,
)
    requires
        is_last_binding(ctx.fun, var, line, i),
        ctx.fun.bindings[i].2 == BindingV::Call(CalleeV::Path(segs)),
        rust::targets(CalleeV::Path(segs), line, 1, ctx).len() == 0,
        segs.len() >= 2,
        text::capitalized(segs[segs.len() - 2]),
    ensures
        rust::type_of_var(var, line, 0, ctx) == Some(segs[segs.len() - 2]),
{
    lemma_binding(ctx.fun, var, line, i);
}

/// Whether a type is no trait as far as a method is concerned: nothing implements it, and it has
/// no signature of the method.
pub open spec fn is_no_trait(ty: Seq<char>, name: Seq<char>, index: IndexV) -> bool {
    &&& forall|i: int| 0 <= i < index.impls.len() ==> (#[trigger] index.impls[i]).1 != ty
    &&& forall|j: int|
        0 <= j < index.defs.len() && (#[trigger] index.defs[j]).name == name
            ==> index.defs[j].kind != (DefKindV::InterfaceMethod { interface: ty })
}

/// A method call on a variable of a known type leads to the method of that type: to the only
/// one, exactly, where there is just one.
pub proof fn law_typed_receiver(
    var: Seq<char>,
    name: Seq<char>,
    line: usize,
    ctx: CtxV,
    ty: Seq<char>,
)
    requires
        ctx.index.defs.len() <= usize::MAX,
        is_of_type(var, line, ctx, ty),
        is_no_trait(ty, name, ctx.index),
        exists|j: int| 0 <= j < ctx.index.defs.len() && methods_of(ty, name)(#[trigger] ctx.index.defs[j]),
    ensures
        ({
            let hits = rust::targets(
                CalleeV::Method { receiver: ReceiverV::Var(var), name },
                line,
                0,
                ctx,
            );
            hits.len() == 1 && pick::is_pick(
                ctx.index.defs,
                Some(hits[0]),
                methods_of(ty, name),
                true,
                ctx.file,
                is_imported(ctx.scope),
            )
        }),
{
    lemma_type(var, line, ctx, ty);
    lemma_no_dispatch(ty, name, ctx);
    law_method_of_type(ty, name, ctx);
    lemma_method_targets(ReceiverV::Var(var), name, line, ctx);
}

proof fn lemma_method_targets(receiver: ReceiverV, name: Seq<char>, line: usize, ctx: CtxV)
    ensures
        ({
            let hits = rust::receiver_targets(receiver, name, line, 0, ctx);
            rust::targets(CalleeV::Method { receiver, name }, line, 0, ctx) == (if hits.len() > 0 {
                hits
            } else {
                scope::at_most_one(
                    rust::pick_ranked(resolve::positions(ctx.index.defs, name), true, ctx),
                )
            })
        }),
{
    assert(rust::targets(CalleeV::Method { receiver, name }, line, 0, ctx)
        == rust::method_targets(receiver, name, line, 0, ctx));
}

proof fn lemma_no_dispatch(ty: Seq<char>, name: Seq<char>, ctx: CtxV)
    requires
        ctx.index.defs.len() <= usize::MAX,
        is_no_trait(ty, name, ctx.index),
    ensures
        rust::dispatched(ty, name, ctx).len() == 0,
{
    let defs = ctx.index.defs;
    let p = |i: usize| scope::is_signature_of(defs[i as int], ty);
    let none = |d: DefV| false;
    pick::lemma_selected(defs, name, p, none);
    pick::lemma_some(defs, resolve::positions(defs, name).filter(p), none);
}

/// Whether a definition is what a type has for a call through a trait: the method that its
/// `impl` of the trait defines, or else, if there is none, the default of the trait.
pub open spec fn is_answer(
    defs: Seq<DefV>,
    name: Seq<char>,
    ty: Seq<char>,
    tr: Seq<char>,
    t: usize,
) -> bool {
    let own = DefKindV::Method { receiver: ty, via_trait: Some(tr) };
    let default = DefKindV::Method { receiver: tr, via_trait: None };
    &&& t < defs.len() && defs[t as int].name == name
    &&& if exists|j: int| 0 <= j < defs.len() && (#[trigger] defs[j]).name == name && defs[j].kind == own {
        defs[t as int].kind == own && forall|j: int|
            0 <= j < t ==> !((#[trigger] defs[j]).name == name && defs[j].kind == own)
    } else {
        defs[t as int].kind == default && forall|j: int|
            0 <= j < t ==> !((#[trigger] defs[j]).name == name && defs[j].kind == default)
    }
}

proof fn lemma_first(defs: Seq<DefV>, name: Seq<char>, p: spec_fn(usize) -> bool, kind: DefKindV)
    requires
        defs.len() <= usize::MAX,
        forall|i: usize| i < defs.len() ==> p(i) == ((#[trigger] defs[i as int]).kind == kind),
    ensures
        match order::first_where(resolve::positions(defs, name), p) {
            Some(t) => t < defs.len() && defs[t as int].name == name && defs[t as int].kind == kind
                && forall|j: int|
                0 <= j < t ==> !((#[trigger] defs[j]).name == name && defs[j].kind == kind),
            None => forall|j: int|
                0 <= j < defs.len() ==> !((#[trigger] defs[j]).name == name && defs[j].kind
                    == kind),
        },
{
    let all = resolve::positions(defs, name);
    let kept = all.filter(p);
    let cand = |d: DefV| d.name == name && d.kind == kind;
    pick::lemma_selected(defs, name, p, cand);
    pick::lemma_some(defs, kept, cand);
    resolve::lemma_positions(defs, name);
    lemma_filter_ascending(all, p);
    if kept.len() > 0 {
        let t = kept[0];
        assert(kept.contains(t));
        assert forall|j: int| 0 <= j < t implies !((#[trigger] defs[j]).name == name
            && defs[j].kind == kind) by {
            if defs[j].name == name && defs[j].kind == kind {
                assert(cand(defs[j]));
                assert(kept.contains(j as usize));
                let k = kept.index_of(j as usize);
                if k > 0 {
                    assert(kept[0] < kept[k]);
                }
            }
        }
    } else {
        assert forall|j: int| 0 <= j < defs.len() implies !((#[trigger] defs[j]).name == name
            && defs[j].kind == kind) by {
            assert(!cand(defs[j]));
        }
    }
}

proof fn lemma_filter_ascending(s: Seq<usize>, p: spec_fn(usize) -> bool)
    requires
        forall|k: int, m: int| 0 <= k < m < s.len() ==> #[trigger] s[k] < #[trigger] s[m],
    ensures
        forall|k: int, m: int|
            0 <= k < m < s.filter(p).len() ==> #[trigger] s.filter(p)[k] < #[trigger] s.filter(
                p,
            )[m],
    decreases s.len(),
{
    reveal(Seq::filter);
    if s.len() > 0 {
        let init = s.drop_last();
        assert forall|k: int, m: int| 0 <= k < m < init.len() implies #[trigger] init[k]
            < #[trigger] init[m] by {
            assert(s[k] < s[m]);
        }
        lemma_filter_ascending(init, p);
        let kept = init.filter(p);
        let all = s.filter(p);
        assert forall|k: int, m: int| 0 <= k < m < all.len() implies #[trigger] all[k]
            < #[trigger] all[m] by {
            if m < kept.len() {
                assert(kept[k] < kept[m]);
            } else {
                assert(kept.contains(kept[k]));
                order::lemma_filter_keeps(init, p, kept[k]);
                let i = init.index_of(kept[k]);
                assert(s[i] < s[s.len() - 1]);
            }
        }
    }
}

proof fn lemma_answer(defs: Seq<DefV>, name: Seq<char>, ty: Seq<char>, tr: Seq<char>, t: usize)
    requires
        defs.len() <= usize::MAX,
    ensures
        rust::dispatch_target(defs, resolve::positions(defs, name), ty, tr) == Some(t)
            <==> is_answer(defs, name, ty, tr, t),
{
    let own = DefKindV::Method { receiver: ty, via_trait: Some(tr) };
    let default = DefKindV::Method { receiver: tr, via_trait: None };
    let p = |i: usize| rust::is_override_of(defs[i as int], ty, tr);
    let q = |i: usize| rust::is_default_of(defs[i as int], tr);
    lemma_first(defs, name, p, own);
    lemma_first(defs, name, q, default);
    let all = resolve::positions(defs, name);
    match order::first_where(all, p) {
        Some(u) => {
            assert(defs[u as int].name == name && defs[u as int].kind == own);
            if is_answer(defs, name, ty, tr, t) {
                if t < u {
                    assert(!(defs[t as int].name == name && defs[t as int].kind == own));
                }
                if u < t {
                    assert(!(defs[u as int].name == name && defs[u as int].kind == own));
                }
            }
        },
        None => {
            if let Some(u) = order::first_where(all, q) {
                if is_answer(defs, name, ty, tr, t) {
                    if t < u {
                        assert(!(defs[t as int].name == name && defs[t as int].kind == default));
                    }
                    if u < t {
                        assert(!(defs[u as int].name == name && defs[u as int].kind == default));
                    }
                }
            }
        },
    }
}

/// Whether a trait has a method, as a signature or with a default.
pub open spec fn declares(defs: Seq<DefV>, tr: Seq<char>, name: Seq<char>) -> bool {
    exists|j: int|
        0 <= j < defs.len() && (#[trigger] defs[j]).name == name && (defs[j].kind
            == (DefKindV::InterfaceMethod { interface: tr }) || defs[j].kind
            == (DefKindV::Method { receiver: tr, via_trait: None }))
}

/// A method call on a variable whose type is a trait that has the method leads to what each type
/// with an `impl` of the trait has for it: what the `impl` defines, or else the default. It
/// leads to nothing else. A single target is exact, and each of several is a guess.
pub proof fn law_trait_receiver(
    var: Seq<char>,
    name: Seq<char>,
    line: usize,
    ctx: CtxV,
    tr: Seq<char>,
    t: usize,
)
    requires
        ctx.index.defs.len() <= usize::MAX,
        is_of_type(var, line, ctx, tr),
        declares(ctx.index.defs, tr, name),
        exists|i: int, u: usize|
            0 <= i < ctx.index.impls.len() && (#[trigger] ctx.index.impls[i]).1 == tr && #[trigger]
            is_answer(ctx.index.defs, name, ctx.index.impls[i].0, tr, u),
    ensures
        ({
            let hits = rust::targets(
                CalleeV::Method { receiver: ReceiverV::Var(var), name },
                line,
                0,
                ctx,
            );
            &&& (exists|k: int| 0 <= k < hits.len() && (#[trigger] hits[k]).0 == t) <==> exists|i: int|
                0 <= i < ctx.index.impls.len() && (#[trigger] ctx.index.impls[i]).1 == tr
                    && is_answer(ctx.index.defs, name, ctx.index.impls[i].0, tr, t)
            &&& forall|k: int|
                0 <= k < hits.len() ==> ((#[trigger] hits[k]).1 == Confidence::Exact <==> hits.len()
                    == 1)
        }),
{
    let defs = ctx.index.defs;
    let impls = ctx.index.impls;
    let cands = resolve::positions(defs, name);
    lemma_type(var, line, ctx, tr);
    let hits = rust::dispatched(tr, name, ctx);
    let d = |i: usize|
        scope::is_signature_of(defs[i as int], tr) || rust::is_default_of(defs[i as int], tr);
    let cand = |x: DefV|
        x.name == name && (x.kind == (DefKindV::InterfaceMethod { interface: tr }) || x.kind
            == (DefKindV::Method { receiver: tr, via_trait: None }));
    pick::lemma_selected(defs, name, d, cand);
    pick::lemma_some(defs, cands.filter(d), cand);
    let j = choose|j: int|
        0 <= j < defs.len() && (#[trigger] defs[j]).name == name && (defs[j].kind
            == (DefKindV::InterfaceMethod { interface: tr }) || defs[j].kind
            == (DefKindV::Method { receiver: tr, via_trait: None }));
    assert(cand(defs[j]));
    rust::law_trait_dispatch_expands(tr, name, ctx);
    let (i0, u0) = choose|i: int, u: usize|
        0 <= i < impls.len() && (#[trigger] impls[i]).1 == tr && #[trigger] is_answer(
            defs,
            name,
            impls[i].0,
            tr,
            u,
        );
    lemma_answer(defs, name, impls[i0].0, tr, u0);
    assert(rust::answers_dispatch(defs, cands, impls, tr, u0));
    lemma_answers(defs, name, impls, tr, t);
    let p = |x: usize| rust::answers_dispatch(defs, cands, impls, tr, x);
    assert(p(u0) <==> resolve::has_target(hits, u0));
    assert(p(t) <==> resolve::has_target(hits, t));
    lemma_method_targets(ReceiverV::Var(var), name, line, ctx);
}

proof fn lemma_answers(
    defs: Seq<DefV>,
    name: Seq<char>,
    impls: Seq<(Seq<char>, Seq<char>)>,
    tr: Seq<char>,
    t: usize,
)
    requires
        defs.len() <= usize::MAX,
    ensures
        rust::answers_dispatch(defs, resolve::positions(defs, name), impls, tr, t) <==> exists|i: int|
            0 <= i < impls.len() && (#[trigger] impls[i]).1 == tr && is_answer(
                defs,
                name,
                impls[i].0,
                tr,
                t,
            ),
{
    let cands = resolve::positions(defs, name);
    assert forall|i: int| 0 <= i < impls.len() implies (rust::dispatch_target(
        defs,
        cands,
        (#[trigger] impls[i]).0,
        tr,
    ) == Some(t) <==> is_answer(defs, name, impls[i].0, tr, t)) by {
        lemma_answer(defs, name, impls[i].0, tr, t);
    }
}

/// A method call on a variable whose type is a trait that nothing implements leads to the
/// signature of the method in the trait.
pub proof fn law_trait_without_impls(
    var: Seq<char>,
    name: Seq<char>,
    line: usize,
    ctx: CtxV,
    tr: Seq<char>,
)
    requires
        ctx.index.defs.len() <= usize::MAX,
        is_of_type(var, line, ctx, tr),
        forall|i: int| 0 <= i < ctx.index.impls.len() ==> (#[trigger] ctx.index.impls[i]).1 != tr,
        exists|j: int|
            0 <= j < ctx.index.defs.len() && (#[trigger] ctx.index.defs[j]).name == name
                && ctx.index.defs[j].kind == (DefKindV::InterfaceMethod { interface: tr }),
    ensures
        ({
            let hits = rust::targets(
                CalleeV::Method { receiver: ReceiverV::Var(var), name },
                line,
                0,
                ctx,
            );
            &&& hits.len() == 1 && hits[0].1 == Confidence::Exact
            &&& hits[0].0 < ctx.index.defs.len()
            &&& ctx.index.defs[hits[0].0 as int].name == name
            &&& ctx.index.defs[hits[0].0 as int].kind == (DefKindV::InterfaceMethod {
                interface: tr,
            })
        }),
{
    let defs = ctx.index.defs;
    let cands = resolve::positions(defs, name);
    let kind = DefKindV::InterfaceMethod { interface: tr };
    lemma_type(var, line, ctx, tr);
    let d = |i: usize|
        scope::is_signature_of(defs[i as int], tr) || rust::is_default_of(defs[i as int], tr);
    let cand = |x: DefV|
        x.name == name && (x.kind == kind || x.kind == (DefKindV::Method {
            receiver: tr,
            via_trait: None,
        }));
    pick::lemma_selected(defs, name, d, cand);
    pick::lemma_some(defs, cands.filter(d), cand);
    let j = choose|j: int|
        0 <= j < defs.len() && (#[trigger] defs[j]).name == name && defs[j].kind == kind;
    assert(cand(defs[j]));
    lemma_first(defs, name, |i: usize| scope::is_signature_of(defs[i as int], tr), kind);
    lemma_method_targets(ReceiverV::Var(var), name, line, ctx);
}

/// A method call on a variable of a type parameter leads where the first of its bounds that
/// leads anywhere leads: through that trait, or to its method.
pub proof fn law_bounded_receiver(
    var: Seq<char>,
    name: Seq<char>,
    line: usize,
    ctx: CtxV,
    ty: Seq<char>,
    k: int,
)
    requires
        is_of_type(var, line, ctx, ty),
        rust::dispatched_or_method(ty, name, ctx).len() == 0,
        ctx.fun.bounds.contains_key(ty),
        0 <= k < ctx.fun.bounds[ty].len(),
        rust::dispatched_or_method(ctx.fun.bounds[ty][k], name, ctx).len() > 0,
        forall|j: int|
            0 <= j < k ==> rust::dispatched_or_method(
                #[trigger] ctx.fun.bounds[ty][j],
                name,
                ctx,
            ).len() == 0,
    ensures
        rust::targets(CalleeV::Method { receiver: ReceiverV::Var(var), name }, line, 0, ctx)
            == rust::dispatched_or_method(ctx.fun.bounds[ty][k], name, ctx),
{
    lemma_type(var, line, ctx, ty);
    lemma_bounds(ctx.fun.bounds[ty], 0, k as nat, name, ctx);
    lemma_method_targets(ReceiverV::Var(var), name, line, ctx);
}

proof fn lemma_bounds(bounds: Seq<Seq<char>>, i: nat, k: nat, name: Seq<char>, ctx: CtxV)
    requires
        i <= k < bounds.len(),
        rust::dispatched_or_method(bounds[k as int], name, ctx).len() > 0,
        forall|j: int|
            i <= j < k ==> rust::dispatched_or_method(#[trigger] bounds[j], name, ctx).len() == 0,
    ensures
        rust::bounds_targets(bounds, i, name, ctx) == rust::dispatched_or_method(
            bounds[k as int],
            name,
            ctx,
        ),
    decreases k - i,
{
    if i < k {
        lemma_bounds(bounds, i + 1, k, name, ctx);
    }
}

/// A call on `self` leads to the method of the type that the function is implemented for; where
/// that has none, to that of the trait.
pub proof fn law_self_receiver(name: Seq<char>, line: usize, ctx: CtxV, ty: Seq<char>)
    requires
        ctx.index.defs.len() <= usize::MAX,
        ctx.fun.impl_type == Some(ty) && (exists|j: int|
            0 <= j < ctx.index.defs.len() && methods_of(ty, name)(#[trigger] ctx.index.defs[j]))
            || ctx.fun.trait_name == Some(ty) && (exists|j: int|
            0 <= j < ctx.index.defs.len() && methods_of(ty, name)(#[trigger] ctx.index.defs[j]))
            && (ctx.fun.impl_type matches Some(own) ==> forall|j: int|
            0 <= j < ctx.index.defs.len() ==> !methods_of(own, name)(#[trigger] ctx.index.defs[j])),
    ensures
        ({
            let hits = rust::targets(
                CalleeV::Method { receiver: ReceiverV::SelfRecv, name },
                line,
                0,
                ctx,
            );
            hits.len() == 1 && pick::is_pick(
                ctx.index.defs,
                Some(hits[0]),
                methods_of(ty, name),
                true,
                ctx.file,
                is_imported(ctx.scope),
            )
        }),
{
    law_method_of_type(ty, name, ctx);
    lemma_method_targets(ReceiverV::SelfRecv, name, line, ctx);
    if let Some(own) = ctx.fun.impl_type {
        law_method_of_type(own, name, ctx);
        if forall|j: int|
            0 <= j < ctx.index.defs.len() ==> !methods_of(own, name)(#[trigger] ctx.index.defs[j]) {
            if let Some((t, _)) = rust::method_of(own, name, ctx) {
                assert(methods_of(own, name)(ctx.index.defs[t as int]));
            }
        }
    }
}

/// A method call on what is no variable leads to the nearest definition with that name, methods
/// before functions.
pub proof fn law_unknown_receiver(shown: Seq<char>, name: Seq<char>, line: usize, ctx: CtxV)
    requires
        ctx.index.defs.len() <= usize::MAX,
    ensures
        ({
            let hits = rust::targets(
                CalleeV::Method { receiver: ReceiverV::Opaque(shown), name },
                line,
                0,
                ctx,
            );
            hits.len() <= 1 && pick::is_pick(
                ctx.index.defs,
                if hits.len() > 0 {
                    Some(hits[0])
                } else {
                    None
                },
                |d: DefV| d.name == name,
                true,
                ctx.file,
                is_imported(ctx.scope),
            )
        }),
{
    let defs = ctx.index.defs;
    lemma_reach(ctx.scope);
    lemma_method_targets(ReceiverV::Opaque(shown), name, line, ctx);
    pick::lemma_named(defs, name);
    pick::law_rank_picks(
        defs,
        resolve::positions(defs, name),
        |d: DefV| d.name == name,
        true,
        ctx.file,
        is_imported(ctx.scope),
    );
}

proof fn lemma_fn_calls(calls: Seq<(CalleeV, usize)>, caller: usize, ctx: CtxV, call: CallV)
    ensures
        rust::fn_calls(calls, caller, ctx).contains(call) <==> exists|m: int|
            0 <= m < calls.len() && is_call_at(
                call,
                caller,
                #[trigger] calls[m],
                rust::targets(calls[m].0, calls[m].1, 0, ctx),
            ),
    decreases calls.len(),
{
    if calls.len() > 0 {
        let init = calls.drop_last();
        let n = calls.len() - 1;
        let (callee, line) = calls.last();
        let hits = rust::targets(callee, line, 0, ctx);
        let before = rust::fn_calls(init, caller, ctx);
        let site = resolve::site_calls(caller, resolve::callee_name(callee), line, hits);
        lemma_fn_calls(init, caller, ctx, call);
        lemma_shown_name(callee);
        pick::law_site_calls(caller, resolve::callee_name(callee), line, hits, call);
        let all = rust::fn_calls(calls, caller, ctx);
        assert(all == before + site);
        if all.contains(call) {
            let k = all.index_of(call);
            if k < before.len() {
                assert(before[k] == call);
                let m = choose|m: int|
                    0 <= m < init.len() && is_call_at(
                        call,
                        caller,
                        #[trigger] init[m],
                        rust::targets(init[m].0, init[m].1, 0, ctx),
                    );
                assert(calls[m] == init[m]);
            } else {
                assert(site[k - before.len()] == call);
                assert(calls[n] == (callee, line));
            }
        }
        if exists|m: int|
            0 <= m < calls.len() && is_call_at(
                call,
                caller,
                #[trigger] calls[m],
                rust::targets(calls[m].0, calls[m].1, 0, ctx),
            ) {
            let m = choose|m: int|
                0 <= m < calls.len() && is_call_at(
                    call,
                    caller,
                    #[trigger] calls[m],
                    rust::targets(calls[m].0, calls[m].1, 0, ctx),
                );
            if m < n {
                assert(init[m] == calls[m]);
                assert(all[before.index_of(call)] == call);
            } else {
                assert(all[before.len() + site.index_of(call)] == call);
            }
        }
    }
}

/// Whether a call is one of a function of a file: the function is defined where it starts, and
/// the call is that of one of its call sites.
pub open spec fn is_call_of(
    call: CallV,
    fun: FnScopeV,
    file: Seq<char>,
    s: ScopeV,
    index: IndexV,
) -> bool {
    pick::is_last_at(index.defs, file, fun.line, call.caller) && exists|m: int|
        0 <= m < fun.calls.len() && is_call_at(
            call,
            call.caller,
            #[trigger] fun.calls[m],
            rust::targets(fun.calls[m].0, fun.calls[m].1, 0, CtxV { file, scope: s, fun, index }),
        )
}

proof fn lemma_scope_calls(
    fns: Seq<FnScopeV>,
    file: Seq<char>,
    s: ScopeV,
    index: IndexV,
    call: CallV,
)
    requires
        index.defs.len() <= usize::MAX,
    ensures
        rust::scope_calls(fns, file, s, index).contains(call) <==> exists|k: int|
            0 <= k < fns.len() && is_call_of(call, #[trigger] fns[k], file, s, index),
    decreases fns.len(),
{
    if fns.len() > 0 {
        let init = fns.drop_last();
        let n = fns.len() - 1;
        let fun = fns.last();
        let before = rust::scope_calls(init, file, s, index);
        let all = rust::scope_calls(fns, file, s, index);
        let ctx = CtxV { file, scope: s, fun, index };
        let at = resolve::def_at(index.defs, resolve::positions_in(index.defs, file), fun.line);
        lemma_scope_calls(init, file, s, index, call);
        pick::law_definition_at_line(index.defs, file, fun.line);
        let own = match at {
            Some(caller) => {
                lemma_fn_calls(fun.calls, caller, ctx, call);
                rust::fn_calls(fun.calls, caller, ctx)
            },
            None => Seq::empty(),
        };
        assert(all =~= before + own);
        assert(own.contains(call) <==> is_call_of(call, fun, file, s, index)) by {
            if let Some(caller) = at {
                if is_call_of(call, fun, file, s, index) {
                    assert(call.caller == caller);
                }
            }
        }
        if all.contains(call) {
            let k = all.index_of(call);
            if k < before.len() {
                assert(before[k] == call);
                let j = choose|j: int|
                    0 <= j < init.len() && is_call_of(call, #[trigger] init[j], file, s, index);
                assert(fns[j] == init[j]);
            } else {
                assert(own[k - before.len()] == call);
                assert(fns[n] == fun);
            }
        }
        if exists|k: int|
            0 <= k < fns.len() && is_call_of(call, #[trigger] fns[k], file, s, index) {
            let k = choose|k: int|
                0 <= k < fns.len() && is_call_of(call, #[trigger] fns[k], file, s, index);
            if k < n {
                assert(init[k] == fns[k]);
                assert(all[before.index_of(call)] == call);
            } else {
                assert(all[before.len() + own.index_of(call)] == call);
            }
        }
    }
}

/// The calls of a file are those of the call sites in its functions, as far as these are
/// indexed: one for each target of a site, or one without a target, and no others.
pub proof fn law_calls_of_a_file(
    root: NodeV,
    file: Seq<char>,
    index: IndexV,
    call: CallV,
)
    requires
        index.defs.len() <= usize::MAX,
    ensures
        rust::tree_calls(root, file, index).contains(call) <==> exists|k: int|
            0 <= k < rust::file_scope(root).fns.len() && is_call_of(
                call,
                #[trigger] rust::file_scope(root).fns[k],
                file,
                rust::file_scope(root),
                index,
            ),
{
    let s = rust::file_scope(root);
    lemma_scope_calls(s.fns, file, s, index, call);
}

} // verus!
