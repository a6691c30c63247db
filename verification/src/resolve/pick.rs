//! Which definition is picked of several, said of the definitions themselves.

use vstd::prelude::*;
use crate::order;
use crate::path;
use crate::resolve;
use crate::resolve::graph;
use crate::resolve::graph::KeyV;
use crate::resolve::scope;
use crate::resolve::scope::FnScopeV;
use crate::resolve::{CallV, CalleeV, Confidence, DefIdV, DefV, IndexV};
use crate::text;

verus! {

broadcast use vstd::string::group_string_axioms;

/// Whether two files are in the same directory.
pub open spec fn same_directory(a: Seq<char>, b: Seq<char>) -> bool {
    path::parent_spec(a) == path::parent_spec(b)
}

/// Whether a definition is nearer to a file than another one: in it, or else in its directory,
/// or else in reach through its imports, where the other one is not.
pub open spec fn nearer(a: DefV, b: DefV, file: Seq<char>, reach: spec_fn(DefV) -> bool) -> bool {
    let here = |d: DefV| d.id.file == file;
    let beside = |d: DefV| d.id.file == file || same_directory(d.id.file, file);
    let reached = |d: DefV| d.id.file == file || same_directory(d.id.file, file) || reach(d);
    (here(a) && !here(b)) || (beside(a) && !beside(b)) || (reached(a) && !reached(b))
}

/// Whether a definition is to be preferred to another one: a method to what is none, where
/// methods are asked for, and else what is nearer.
pub open spec fn preferred(
    a: DefV,
    b: DefV,
    methods: bool,
    file: Seq<char>,
    reach: spec_fn(DefV) -> bool,
) -> bool {
    if methods && a.kind is Method != b.kind is Method {
        a.kind is Method
    } else {
        nearer(a, b, file, reach)
    }
}

/// Whether `hit` is picked rightly of the definitions of which `cand` holds: nothing if and only
/// if there are none; else one of them, before which no other one comes, exact if and
/// only if it is the only one.
pub open spec fn is_pick(
    defs: Seq<DefV>,
    hit: Option<(usize, Confidence)>,
    cand: spec_fn(DefV) -> bool,
    methods: bool,
    file: Seq<char>,
    reach: spec_fn(DefV) -> bool,
) -> bool {
    match hit {
        None => forall|j: int| 0 <= j < defs.len() ==> !cand(#[trigger] defs[j]),
        Some((t, c)) => {
            &&& t < defs.len()
            &&& cand(defs[t as int])
            &&& c == Confidence::Exact <==> forall|j: int|
                0 <= j < defs.len() && cand(#[trigger] defs[j]) ==> j == t
            &&& forall|j: int|
                0 <= j < defs.len() && cand(#[trigger] defs[j]) ==> !comes_first(
                    defs[j],
                    defs[t as int],
                    methods,
                    file,
                    reach,
                )
        },
    }
}

/// Whether a definition is picked before another one: the one to be preferred, and of two that
/// are as good, the one that is first by its place.
pub open spec fn comes_first(
    a: DefV,
    b: DefV,
    methods: bool,
    file: Seq<char>,
    reach: spec_fn(DefV) -> bool,
) -> bool {
    preferred(a, b, methods, file, reach) || (!preferred(b, a, methods, file, reach)
        && resolve::place_lt(a.id, b.id))
}

/// Whether positions are those of the definitions of which `cand` holds, each once.
pub open spec fn are_positions(
    defs: Seq<DefV>,
    cands: Seq<usize>,
    cand: spec_fn(DefV) -> bool,
) -> bool {
    &&& cands.no_duplicates()
    &&& forall|i: usize|
        #[trigger] cands.contains(i) <==> i < defs.len() && cand(defs[i as int])
}

proof fn lemma_filter_no_duplicates(s: Seq<usize>, p: spec_fn(usize) -> bool)
    requires
        s.no_duplicates(),
    ensures
        s.filter(p).no_duplicates(),
    decreases s.len(),
{
    reveal(Seq::filter);
    if s.len() > 0 {
        let init = s.drop_last();
        assert(init.no_duplicates());
        lemma_filter_no_duplicates(init, p);
        let kept = init.filter(p);
        if p(s.last()) && kept.contains(s.last()) {
            order::lemma_filter_keeps(init, p, s.last());
            let k = init.index_of(s.last());
            assert(s[k] == s[s.len() - 1]);
        }
    }
}

/// The positions of a name are those of the definitions with that name.
pub proof fn lemma_named(defs: Seq<DefV>, name: Seq<char>)
    requires
        defs.len() <= usize::MAX,
    ensures
        are_positions(defs, resolve::positions(defs, name), |d: DefV| d.name == name),
{
    let cands = resolve::positions(defs, name);
    resolve::lemma_positions(defs, name);
    assert forall|i: usize| #[trigger] cands.contains(i) <==> i < defs.len() && defs[i as int].name
        == name by {
        if cands.contains(i) {
            let k = cands.index_of(i);
            assert(cands[k] == i);
        }
        if i < defs.len() && defs[i as int].name == name {
            assert(cands.contains(i));
        }
    }
    assert forall|k: int, m: int|
        0 <= k < cands.len() && 0 <= m < cands.len() && k != m implies cands[k] != cands[m] by {
        if k < m {
            assert(cands[k] < cands[m]);
        } else {
            assert(cands[m] < cands[k]);
        }
    }
}

/// Some of the positions of a name are those of the definitions with that name of which more
/// holds.
pub proof fn lemma_selected(
    defs: Seq<DefV>,
    name: Seq<char>,
    p: spec_fn(usize) -> bool,
    cand: spec_fn(DefV) -> bool,
)
    requires
        defs.len() <= usize::MAX,
        forall|i: usize|
            i < defs.len() && (#[trigger] defs[i as int]).name == name ==> p(i) == cand(
                defs[i as int],
            ),
        forall|d: DefV| #[trigger] cand(d) ==> d.name == name,
    ensures
        are_positions(defs, resolve::positions(defs, name).filter(p), cand),
{
    let all = resolve::positions(defs, name);
    let kept = all.filter(p);
    lemma_named(defs, name);
    lemma_filter_no_duplicates(all, p);
    assert forall|i: usize| #[trigger] kept.contains(i) <==> i < defs.len() && cand(
        defs[i as int],
    ) by {
        order::lemma_filter_keeps(all, p, i);
        assert(all.contains(i) <==> i < defs.len() && defs[i as int].name == name);
    }
}

/// There are positions if and only if there are such definitions.
pub proof fn lemma_some(defs: Seq<DefV>, cands: Seq<usize>, cand: spec_fn(DefV) -> bool)
    requires
        defs.len() <= usize::MAX,
        are_positions(defs, cands, cand),
    ensures
        cands.len() == 0 <==> forall|j: int| 0 <= j < defs.len() ==> !cand(#[trigger] defs[j]),
{
    if cands.len() > 0 {
        assert(cands.contains(cands[0]));
        assert(cand(defs[cands[0] as int]));
    } else {
        assert forall|j: int| 0 <= j < defs.len() implies !cand(#[trigger] defs[j]) by {
            assert(!cands.contains(j as usize));
        }
    }
}

proof fn lemma_not_first(d: DefV, methods: bool, file: Seq<char>, reach: spec_fn(DefV) -> bool)
    ensures
        !comes_first(d, d, methods, file, reach),
{
    text::lemma_text_order(d.id.file, d.id.file, d.id.file);
}

/// What is ranked first is picked rightly: same file > same directory > imported > anywhere.
pub proof fn law_rank_picks(
    defs: Seq<DefV>,
    cands: Seq<usize>,
    cand: spec_fn(DefV) -> bool,
    methods: bool,
    file: Seq<char>,
    reach: spec_fn(DefV) -> bool,
)
    requires
        defs.len() <= usize::MAX,
        are_positions(defs, cands, cand),
    ensures
        is_pick(
            defs,
            scope::ranked(defs, cands, methods, file, reach),
            cand,
            methods,
            file,
            reach,
        ),
{
    lemma_some(defs, cands, cand);
    if cands.len() > 0 {
        scope::lemma_best(defs, cands, methods, file, reach);
        let (t, c) = scope::ranked(defs, cands, methods, file, reach)->Some_0;
        if cands.len() == 1 {
            assert(cands[0] == t);
        }
        assert(cands.contains(t));
        let only = forall|j: int|
            0 <= j < defs.len() && cand(#[trigger] defs[j]) ==> j == t;
        if cands.len() == 1 {
            assert forall|j: int| 0 <= j < defs.len() && cand(#[trigger] defs[j]) implies j
                == t by {
                assert(cands.contains(j as usize));
                assert(cands[cands.index_of(j as usize)] == cands[0]);
            }
        } else {
            assert(cands.contains(cands[0]) && cands.contains(cands[1]));
            assert(cands[0] != cands[1]);
            assert(cand(defs[cands[0] as int]) && cand(defs[cands[1] as int]));
            assert(!only);
        }
        assert forall|j: int| 0 <= j < defs.len() && cand(#[trigger] defs[j]) implies !comes_first(
            defs[j],
            defs[t as int],
            methods,
            file,
            reach,
        ) by {
            assert(cands.contains(j as usize));
            let k = cands.index_of(j as usize);
            if cands.len() == 1 {
                assert(cands[k] == t);
                lemma_not_first(defs[t as int], methods, file, reach);
            } else {
                assert(!scope::better(
                    defs[cands[k] as int],
                    defs[t as int],
                    methods,
                    file,
                    reach,
                ));
            }
        }
    }
}

/// Whether `hit` is picked rightly of the definitions of the first sort of which there are any.
pub open spec fn is_pick_of_first(
    defs: Seq<DefV>,
    hit: Option<(usize, Confidence)>,
    sorts: Seq<spec_fn(DefV) -> bool>,
    file: Seq<char>,
    reach: spec_fn(DefV) -> bool,
) -> bool
    decreases sorts.len(),
{
    if sorts.len() <= 1 {
        sorts.len() == 1 && is_pick(defs, hit, sorts[0], false, file, reach)
    } else if exists|j: int| 0 <= j < defs.len() && sorts[0](#[trigger] defs[j]) {
        is_pick(defs, hit, sorts[0], false, file, reach)
    } else {
        is_pick_of_first(defs, hit, sorts.drop_first(), file, reach)
    }
}

/// The calls of a call site tell the same caller, name and line: one for each target, or one
/// without a target.
pub proof fn law_site_calls(
    caller: usize,
    name: Seq<char>,
    line: usize,
    hits: Seq<(usize, Confidence)>,
    call: CallV,
)
    ensures
        resolve::site_calls(caller, name, line, hits).contains(call) <==> {
            &&& call.caller == caller && call.callee_display == name && call.line == line
            &&& match call.target {
                Some(t) => hits.contains(t),
                None => hits.len() == 0,
            }
        },
        resolve::site_calls(caller, name, line, hits).len() == (if hits.len() == 0 {
            1
        } else {
            hits.len()
        }),
{
    let calls = resolve::site_calls(caller, name, line, hits);
    if calls.contains(call) {
        let k = calls.index_of(call);
        if hits.len() > 0 {
            assert(call.target == Some(hits[k]));
        }
    }
    if call.caller == caller && call.callee_display == name && call.line == line {
        match call.target {
            Some(t) => {
                if hits.contains(t) {
                    let k = hits.index_of(t);
                    assert(calls[k] == call);
                }
            },
            None => {
                if hits.len() == 0 {
                    assert(calls[0] == call);
                }
            },
        }
    }
}

/// The positions of a file are those of its definitions, in ascending order.
pub proof fn law_positions_in_file(defs: Seq<DefV>, file: Seq<char>)
    requires
        defs.len() <= usize::MAX,
    ensures
        forall|k: int|
            0 <= k < resolve::positions_in(defs, file).len() ==> (#[trigger] resolve::positions_in(
                defs,
                file,
            )[k]) < defs.len() && defs[resolve::positions_in(defs, file)[k] as int].id.file == file,
        forall|k: int, m: int|
            0 <= k < m < resolve::positions_in(defs, file).len() ==> #[trigger]
            resolve::positions_in(defs, file)[k] < #[trigger] resolve::positions_in(defs, file)[m],
        forall|i: usize|
            i < defs.len() && (#[trigger] defs[i as int]).id.file == file
                ==> resolve::positions_in(defs, file).contains(i),
    decreases defs.len(),
{
    if defs.len() > 0 {
        let init = defs.drop_last();
        law_positions_in_file(init, file);
        let p = resolve::positions_in(defs, file);
        let q = resolve::positions_in(init, file);
        assert forall|i: usize|
            i < defs.len() && (#[trigger] defs[i as int]).id.file == file implies p.contains(i) by {
            if i < init.len() {
                assert(init[i as int].id.file == file);
                let k = q.index_of(i);
                assert(p[k] == i);
            } else {
                assert(p[p.len() - 1] == i);
            }
        }
    }
}

/// Whether `t` is the last definition of a file that starts in a line.
pub open spec fn is_last_at(defs: Seq<DefV>, file: Seq<char>, line: usize, t: usize) -> bool {
    &&& t < defs.len()
    &&& defs[t as int].id.file == file && defs[t as int].id.line == line
    &&& forall|j: int|
        t < j < defs.len() ==> !((#[trigger] defs[j]).id.file == file && defs[j].id.line == line)
}

/// A function is known by where it starts: its definition is the last one of its file in its
/// line.
pub proof fn law_definition_at_line(defs: Seq<DefV>, file: Seq<char>, line: usize)
    requires
        defs.len() <= usize::MAX,
    ensures
        match resolve::def_at(defs, resolve::positions_in(defs, file), line) {
            Some(t) => is_last_at(defs, file, line, t),
            None => forall|j: int|
                0 <= j < defs.len() ==> !((#[trigger] defs[j]).id.file == file && defs[j].id.line
                    == line),
        },
{
    let here = resolve::positions_in(defs, file);
    law_positions_in_file(defs, file);
    lemma_def_at(defs, here, line);
    match resolve::def_at(defs, here, line) {
        Some(t) => {
            let k = choose|k: int|
                0 <= k < here.len() && here[k] == t && forall|m: int|
                    k < m < here.len() ==> defs[(#[trigger] here[m]) as int].id.line != line;
            assert forall|j: int| t < j < defs.len() implies !((#[trigger] defs[j]).id.file == file
                && defs[j].id.line == line) by {
                if defs[j].id.file == file && defs[j].id.line == line {
                    let i = j as usize;
                    assert(defs[i as int].id.file == file);
                    let m = here.index_of(i);
                    assert(here[m] == i);
                    if m < k {
                        assert(here[m] < here[k]);
                    }
                }
            }
        },
        None => {
            assert forall|j: int| 0 <= j < defs.len() implies !((#[trigger] defs[j]).id.file == file
                && defs[j].id.line == line) by {
                if defs[j].id.file == file && defs[j].id.line == line {
                    let i = j as usize;
                    assert(defs[i as int].id.file == file);
                    let m = here.index_of(i);
                    assert(defs[here[m] as int].id.line != line);
                }
            }
        },
    }
}

proof fn lemma_def_at(defs: Seq<DefV>, here: Seq<usize>, line: usize)
    ensures
        match resolve::def_at(defs, here, line) {
            Some(t) => defs[t as int].id.line == line && exists|k: int|
                0 <= k < here.len() && here[k] == t && forall|m: int|
                    k < m < here.len() ==> defs[(#[trigger] here[m]) as int].id.line != line,
            None => forall|m: int|
                0 <= m < here.len() ==> defs[(#[trigger] here[m]) as int].id.line != line,
        },
    decreases here.len(),
{
    if here.len() > 0 {
        let n = here.len() - 1;
        if defs[here.last() as int].id.line == line {
            assert(here[n] == here.last());
        } else {
            let init = here.drop_last();
            lemma_def_at(defs, init, line);
            match resolve::def_at(defs, init, line) {
                Some(t) => {
                    let k = choose|k: int|
                        0 <= k < init.len() && init[k] == t && forall|m: int|
                            k < m < init.len() ==> defs[(#[trigger] init[m]) as int].id.line
                                != line;
                    assert(here[k] == t);
                    assert forall|m: int| k < m < here.len() implies defs[(
                    #[trigger] here[m]) as int].id.line != line by {
                        if m < n {
                            assert(init[m] == here[m]);
                        }
                    }
                },
                None => {
                    assert forall|m: int| 0 <= m < here.len() implies defs[(
                    #[trigger] here[m]) as int].id.line != line by {
                        if m < n {
                            assert(init[m] == here[m]);
                        }
                    }
                },
            }
        }
    }
}

/// Whether a variable has no binding at or before a line.
pub open spec fn is_unbound(f: FnScopeV, var: Seq<char>, line: usize) -> bool {
    forall|j: int|
        0 <= j < f.bindings.len() ==> !((#[trigger] f.bindings[j]).1 == var && f.bindings[j].0
            <= line)
}

/// Whether the binding at a position is the last one of a variable at or before a line.
pub open spec fn is_last_binding(f: FnScopeV, var: Seq<char>, line: usize, i: int) -> bool {
    &&& 0 <= i < f.bindings.len()
    &&& f.bindings[i].1 == var && f.bindings[i].0 <= line
    &&& forall|j: int|
        i < j < f.bindings.len() ==> !((#[trigger] f.bindings[j]).1 == var && f.bindings[j].0
            <= line)
}

/// Whether the parameter at a position is the first one with a name.
pub open spec fn is_first_param(f: FnScopeV, var: Seq<char>, i: int) -> bool {
    &&& 0 <= i < f.params.len()
    &&& f.params[i].0 == var
    &&& forall|j: int| 0 <= j < i ==> (#[trigger] f.params[j]).0 != var
}

/// What the last binding of a variable is.
pub proof fn lemma_binding(f: FnScopeV, var: Seq<char>, line: usize, i: int)
    ensures
        is_unbound(f, var, line) ==> scope::last_binding_spec(f.bindings, var, line) is None,
        is_last_binding(f, var, line, i) ==> scope::last_binding_spec(f.bindings, var, line)
            == Some(f.bindings[i].2),
{
    scope::law_last_binding_wins(f.bindings, var, line);
    match scope::last_binding_spec(f.bindings, var, line) {
        Some(b) => {
            let k = choose|k: int|
                0 <= k < f.bindings.len() && #[trigger] f.bindings[k].2 == b && f.bindings[k].1
                    == var && f.bindings[k].0 <= line && forall|j: int|
                    k < j < f.bindings.len() ==> !((#[trigger] f.bindings[j]).1 == var
                        && f.bindings[j].0 <= line);
            assert(f.bindings[k].1 == var);
            if is_last_binding(f, var, line, i) {
                if i < k {
                    assert(!(f.bindings[k].1 == var && f.bindings[k].0 <= line));
                }
                if k < i {
                    assert(!(f.bindings[i].1 == var && f.bindings[i].0 <= line));
                }
            }
        },
        None => {},
    }
}

/// What the type of a parameter is.
pub proof fn lemma_param(params: Seq<(Seq<char>, Seq<char>)>, var: Seq<char>, i: int)
    requires
        0 <= i < params.len(),
        params[i].0 == var,
        forall|j: int| 0 <= j < i ==> (#[trigger] params[j]).0 != var,
    ensures
        scope::param_type_spec(params, var) == Some(params[i].1),
    decreases i,
{
    if i > 0 {
        let rest = params.drop_first();
        assert(params[0].0 != var);
        assert forall|j: int| 0 <= j < i - 1 implies (#[trigger] rest[j]).0 != var by {
            assert(params[j + 1].0 != var);
        }
        assert(rest[i - 1] == params[i]);
        lemma_param(rest, var, i - 1);
    }
}

/// What a callee is shown as: its name without what it is called on.
pub open spec fn shown_name(c: CalleeV) -> Seq<char> {
    match c {
        CalleeV::Bare(n) => n,
        CalleeV::Path(segs) => if segs.len() > 0 {
            segs.last()
        } else {
            Seq::empty()
        },
        CalleeV::Method { name, .. } => name,
    }
}

/// The name of a callee is what it is shown as.
pub proof fn lemma_shown_name(c: CalleeV)
    ensures
        resolve::callee_name(c) == shown_name(c),
{
    reveal_strlit("");
    assert(""@ =~= Seq::<char>::empty());
}

/// Whether a call is one that the call site at a position of a function stands for: the line of
/// the site, what is called there, and one of its targets, or none where there is none.
pub open spec fn is_call_at(
    call: CallV,
    caller: usize,
    site: (CalleeV, usize),
    hits: Seq<(usize, Confidence)>,
) -> bool {
    &&& call.caller == caller
    &&& call.callee_display == shown_name(site.0)
    &&& call.line == site.1
    &&& match call.target {
        Some(t) => hits.contains(t),
        None => hits.len() == 0,
    }
}

/// Of two places in one file the one in the earlier line comes first, and of two files the one
/// with the smaller path; no two places come before each other.
pub proof fn law_order_of_places(a: DefIdV, b: DefIdV)
    ensures
        a.file == b.file ==> (resolve::place_lt(a, b) <==> a.line < b.line),
        a.file != b.file ==> (resolve::place_lt(a, b) <==> text::text_lt(a.file, b.file)),
        !(resolve::place_lt(a, b) && resolve::place_lt(b, a)),
        a != b ==> resolve::place_lt(a, b) || resolve::place_lt(b, a),
{
    text::lemma_text_order(a.file, b.file, a.file);
}

/// The calls at a node come in the order of their lines, and in one line in the order of what is
/// called.
pub proof fn law_order_of_calls(index: IndexV, calls: Seq<CallV>, key: KeyV, i: int, j: int)
    requires
        calls.len() <= usize::MAX,
    ensures
        ({
            let fwd = graph::graph_with(index, calls).fwd;
            fwd.contains_key(key) && 0 <= i < j < fwd[key].len() ==> {
                let a = calls[fwd[key][i] as int];
                let b = calls[fwd[key][j] as int];
                a.line <= b.line && (a.line == b.line ==> !text::text_lt(
                    b.callee_display,
                    a.callee_display,
                ))
            }
        }),
        ({
            let rev = graph::graph_with(index, calls).rev;
            rev.contains_key(key) && 0 <= i < j < rev[key].len() ==> {
                let a = calls[rev[key][i] as int];
                let b = calls[rev[key][j] as int];
                a.line <= b.line && (a.line == b.line ==> !text::text_lt(
                    b.callee_display,
                    a.callee_display,
                ))
            }
        }),
{
    graph::law_edges_of_a_node(index, calls, key);
    let lt = graph::by_site(calls);
    let fwd = graph::graph_with(index, calls).fwd;
    let rev = graph::graph_with(index, calls).rev;
    if fwd.contains_key(key) && 0 <= i < j < fwd[key].len() {
        assert(!lt(fwd[key][j], fwd[key][i]));
    }
    if rev.contains_key(key) && 0 <= i < j < rev[key].len() {
        assert(!lt(rev[key][j], rev[key][i]));
    }
}

} // verus!
