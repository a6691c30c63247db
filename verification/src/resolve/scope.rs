//! What a file has in scope, and the ranking of candidates: the parts that the dedicated
//! resolvers share.

use vstd::prelude::*;
use crate::order::filter_positions;
use crate::path;
use crate::path::same_parent;
use crate::resolve;
use crate::resolve::{
    Callee, CalleeV, Confidence, Def, DefIndex, DefKind, DefKindV, DefV, place_before,
};
use crate::text;
use crate::text::str_eq;

verus! {

broadcast use vstd::string::group_string_axioms;

// ── Maps from names to lists of names ────────────────────────────────────────

/// A map from names to lists of names; a later entry hides an earlier one.
#[derive(Debug)]
pub struct NameMap {
    entries: Vec<(String, Vec<String>)>,
}

/// What a list of entries maps to what.
pub open spec fn map_of(entries: Seq<(Seq<char>, Seq<Seq<char>>)>) -> Map<
    Seq<char>,
    Seq<Seq<char>>,
>
    decreases entries.len(),
{
    if entries.len() == 0 {
        Map::empty()
    } else {
        map_of(entries.drop_last()).insert(entries.last().0, entries.last().1)
    }
}

spec fn entries_view(entries: Seq<(String, Vec<String>)>) -> Seq<(Seq<char>, Seq<Seq<char>>)> {
    entries.map_values(|e: (String, Vec<String>)| (e.0@, text::views(e.1@)))
}

impl View for NameMap {
    type V = Map<Seq<char>, Seq<Seq<char>>>;

    closed spec fn view(&self) -> Map<Seq<char>, Seq<Seq<char>>> {
        map_of(entries_view(self.entries@))
    }
}

/// The position of the last entry with a key.
spec fn last_at(entries: Seq<(Seq<char>, Seq<Seq<char>>)>, key: Seq<char>) -> Option<nat>
    decreases entries.len(),
{
    if entries.len() == 0 {
        None
    } else if entries.last().0 == key {
        Some((entries.len() - 1) as nat)
    } else {
        last_at(entries.drop_last(), key)
    }
}

proof fn lemma_last_at(entries: Seq<(Seq<char>, Seq<Seq<char>>)>, key: Seq<char>)
    ensures
        map_of(entries).contains_key(key) <==> last_at(entries, key) is Some,
        last_at(entries, key) matches Some(i) ==> i < entries.len() && entries[i as int].0 == key
            && map_of(entries)[key] == entries[i as int].1,
    decreases entries.len(),
{
    if entries.len() > 0 {
        lemma_last_at(entries.drop_last(), key);
    }
}

impl NameMap {
    pub fn new() -> (r: Self)
        ensures
            r@ == Map::<Seq<char>, Seq<Seq<char>>>::empty(),
    {
        NameMap { entries: Vec::new() }
    }

    pub fn insert(&mut self, key: String, value: Vec<String>)
        ensures
            final(self)@ == old(self)@.insert(key@, text::views(value@)),
    {
        let ghost before = entries_view(self.entries@);
        self.entries.push((key, value));
        assert(entries_view(self.entries@) =~= before.push((key@, text::views(value@))));
        assert(entries_view(self.entries@).drop_last() =~= before);
    }

    /// The position of the last entry with a key.
    fn position(&self, key: &str) -> (r: Option<usize>)
        ensures
            (match r {
                Some(i) => Some(i as nat),
                None => None,
            }) == last_at(entries_view(self.entries@), key@),
            r matches Some(i) ==> i < self.entries@.len(),
    {
        let ghost es = entries_view(self.entries@);
        let mut i: usize = self.entries.len();
        assert(es.take(i as int) =~= es);
        while i > 0
            invariant
                i <= self.entries@.len(),
                es == entries_view(self.entries@),
                last_at(es, key@) == last_at(es.take(i as int), key@),
            decreases i,
        {
            assert(es.take(i as int).drop_last() =~= es.take(i - 1));
            assert(es.take(i as int).last() == es[i - 1]);
            i -= 1;
            if str_eq(self.entries[i].0.as_str(), key) {
                return Some(i);
            }
        }
        None
    }

    pub fn get(&self, key: &str) -> (r: Option<&Vec<String>>)
        ensures
            r is Some <==> self@.contains_key(key@),
            r matches Some(v) ==> text::views(v@) == self@[key@],
    {
        proof {
            lemma_last_at(entries_view(self.entries@), key@);
        }
        match self.position(key) {
            Some(i) => Some(&self.entries[i].1),
            None => None,
        }
    }

    /// The values of the map.
    pub fn values(&self) -> (r: Vec<&Vec<String>>)
        ensures
            forall|i: int|
                0 <= i < r@.len() ==> holds(self@, text::views((#[trigger] r@[i])@)),
            forall|k: Seq<char>| #[trigger]
                self@.contains_key(k) ==> exists|i: int|
                    0 <= i < r@.len() && text::views((#[trigger] r@[i])@) == self@[k],
    {
        let ghost es = entries_view(self.entries@);
        let mut out: Vec<&Vec<String>> = Vec::new();
        let ghost mut at: Seq<int> = Seq::empty();
        let mut i: usize = 0;
        while i < self.entries.len()
            invariant
                i <= self.entries@.len(),
                es == entries_view(self.entries@),
                at.len() == out@.len(),
                forall|k: int|
                    0 <= k < at.len() ==> 0 <= (#[trigger] at[k]) < i && last_at(es, es[at[k]].0)
                        == Some(at[k] as nat) && es[at[k]].1 == text::views(out@[k]@),
                forall|j: int|
                    0 <= j < i && last_at(es, (#[trigger] es[j]).0) == Some(j as nat)
                        ==> at.contains(j),
            decreases self.entries@.len() - i,
        {
            let ghost seen = at;
            let last: Option<usize> = self.position(self.entries[i].0.as_str());
            assert(es[i as int].0 == self.entries@[i as int].0@);
            let is_last: bool = match last {
                Some(k) => k == i,
                None => false,
            };
            if is_last {
                out.push(&self.entries[i].1);
                proof {
                    at = at.push(i as int);
                    assert(es[i as int].1 == text::views(self.entries@[i as int].1@));
                }
                assert(at.contains(i as int)) by {
                    assert(at[at.len() - 1] == i as int);
                }
                assert forall|j: int|
                    0 <= j < i && last_at(es, (#[trigger] es[j]).0) == Some(
                        j as nat,
                    ) implies at.contains(j) by {
                    let k = seen.index_of(j);
                    assert(at[k] == j);
                }
            }
            i += 1;
        }
        proof {
            assert forall|i: int| 0 <= i < out@.len() implies holds(
                self@,
                text::views((#[trigger] out@[i])@),
            ) by {
                lemma_last_at(es, es[at[i]].0);
                assert(self@.contains_key(es[at[i]].0));
            }
            assert forall|k: Seq<char>| #[trigger] self@.contains_key(k) implies exists|i: int|
                0 <= i < out@.len() && text::views((#[trigger] out@[i])@) == self@[k] by {
                lemma_last_at(es, k);
                let j = last_at(es, k)->Some_0 as int;
                assert(es[j].0 == k);
                let n = at.index_of(j);
                assert(text::views(out@[n]@) == self@[k]);
            }
        }
        out
    }
}

/// Whether a list is a value of the map.
pub open spec fn holds(m: Map<Seq<char>, Seq<Seq<char>>>, v: Seq<Seq<char>>) -> bool {
    exists|k: Seq<char>| #[trigger] m.contains_key(k) && m[k] == v
}

// ── Scopes ───────────────────────────────────────────────────────────────────

/// What a local variable is bound to.
#[derive(Debug)]
pub enum Binding {
    /// `let f = foo;` / `f := helper` — variable holds a function value.
    FnValue(Callee),
    /// `let x: Foo = ...` / `x := &Server{}`.
    Typed(String),
    /// `let x = make();` / `x := f()` — type comes from the callee's return type at
    /// resolve time.
    Call(Callee),
}

/// View of a [`Binding`].
#[verifier::ext_equal]
pub enum BindingV {
    FnValue(CalleeV),
    Typed(Seq<char>),
    Call(CalleeV),
}

impl View for Binding {
    type V = BindingV;

    open spec fn view(&self) -> BindingV {
        match *self {
            Binding::FnValue(c) => BindingV::FnValue(c@),
            Binding::Typed(t) => BindingV::Typed(t@),
            Binding::Call(c) => BindingV::Call(c@),
        }
    }
}

#[derive(Debug)]
pub struct FnScope {
    /// Start line of the function — matches `Def.id.line`.
    pub line: usize,
    /// Enclosing impl's type (or trait name for trait default methods).
    pub impl_type: Option<String>,
    /// Trait name when inside `impl Trait for Type`.
    pub trait_name: Option<String>,
    /// (var, type) pairs from the receiver and the parameter list.
    pub params: Vec<(String, String)>,
    /// type parameter → trait bounds, from `<T: W>` and `where T: W`.
    pub bounds: NameMap,
    /// (line, var, binding) in document order.
    pub bindings: Vec<(usize, String, Binding)>,
    /// (callee, call-site line) in document order.
    pub calls: Vec<(Callee, usize)>,
}

/// View of a [`FnScope`].
#[verifier::ext_equal]
pub struct FnScopeV {
    pub line: usize,
    pub impl_type: Option<Seq<char>>,
    pub trait_name: Option<Seq<char>>,
    pub params: Seq<(Seq<char>, Seq<char>)>,
    pub bounds: Map<Seq<char>, Seq<Seq<char>>>,
    pub bindings: Seq<(usize, Seq<char>, BindingV)>,
    pub calls: Seq<(CalleeV, usize)>,
}

pub open spec fn bindings_view(v: Seq<(usize, String, Binding)>) -> Seq<
    (usize, Seq<char>, BindingV),
> {
    v.map_values(|b: (usize, String, Binding)| (b.0, b.1@, b.2@))
}

pub open spec fn calls_view(v: Seq<(Callee, usize)>) -> Seq<(CalleeV, usize)> {
    v.map_values(|c: (Callee, usize)| (c.0@, c.1))
}

impl View for FnScope {
    type V = FnScopeV;

    open spec fn view(&self) -> FnScopeV {
        FnScopeV {
            line: self.line,
            impl_type: text::opt_view(self.impl_type),
            trait_name: text::opt_view(self.trait_name),
            params: resolve::pairs_view(self.params@),
            bounds: self.bounds@,
            bindings: bindings_view(self.bindings@),
            calls: calls_view(self.calls@),
        }
    }
}

#[derive(Debug)]
pub struct FileScope {
    /// local name → full path segments (aliases included).
    pub imports: NameMap,
    /// Paths of which everything is imported.
    pub globs: Vec<Vec<String>>,
    pub fns: Vec<FnScope>,
}

/// View of a [`FileScope`].
#[verifier::ext_equal]
pub struct ScopeV {
    pub imports: Map<Seq<char>, Seq<Seq<char>>>,
    pub globs: Seq<Seq<Seq<char>>>,
    pub fns: Seq<FnScopeV>,
}

pub open spec fn globs_view(v: Seq<Vec<String>>) -> Seq<Seq<Seq<char>>> {
    v.map_values(|g: Vec<String>| text::views(g@))
}

impl View for FileScope {
    type V = ScopeV;

    open spec fn view(&self) -> ScopeV {
        ScopeV {
            imports: self.imports@,
            globs: globs_view(self.globs@),
            fns: text::views(self.fns@),
        }
    }
}

/// A scope with nothing in it.
pub open spec fn empty_scope() -> ScopeV {
    ScopeV { imports: Map::empty(), globs: Seq::empty(), fns: Seq::empty() }
}

/// A scope with one more binding in a function.
pub open spec fn with_binding(
    s: ScopeV,
    f: Option<nat>,
    line: usize,
    binding: Option<(Seq<char>, BindingV)>,
) -> ScopeV {
    match (f, binding) {
        (Some(f), Some((var, b))) => {
            let fun = s.fns[f as int];
            ScopeV {
                fns: s.fns.update(
                    f as int,
                    FnScopeV { bindings: fun.bindings.push((line, var, b)), ..fun },
                ),
                ..s
            }
        },
        _ => s,
    }
}

/// A scope with one more call in a function.
pub open spec fn with_call(
    s: ScopeV,
    f: Option<nat>,
    line: usize,
    callee: Option<CalleeV>,
) -> ScopeV {
    match (f, callee) {
        (Some(f), Some(c)) => {
            let fun = s.fns[f as int];
            ScopeV {
                fns: s.fns.update(
                    f as int,
                    FnScopeV { calls: fun.calls.push((c, line)), ..fun },
                ),
                ..s
            }
        },
        _ => s,
    }
}

impl FileScope {
    pub(crate) fn empty() -> (r: Self)
        ensures
            r@ == empty_scope(),
    {
        let r = FileScope { imports: NameMap::new(), globs: Vec::new(), fns: Vec::new() };
        assert(r@.globs =~= Seq::empty());
        assert(r@.fns =~= Seq::empty());
        r
    }

    pub(crate) fn push_glob(&mut self, path: Vec<String>)
        ensures
            final(self)@ == (ScopeV {
                globs: old(self)@.globs.push(text::views(path@)),
                ..old(self)@
            }),
            final(self).fns == old(self).fns,
    {
        let ghost before = self@;
        self.globs.push(path);
        assert(self@.globs =~= before.globs.push(text::views(path@)));
    }

    pub(crate) fn push_fn(&mut self, fun: FnScope)
        ensures
            final(self)@ == (ScopeV { fns: old(self)@.fns.push(fun@), ..old(self)@ }),
            final(self).fns@.len() == old(self).fns@.len() + 1,
    {
        let ghost before = self@;
        self.fns.push(fun);
        assert(self@.fns =~= before.fns.push(fun@));
    }

    pub(crate) fn push_binding(&mut self, f: usize, line: usize, var: String, b: Binding)
        requires
            f < old(self).fns@.len(),
        ensures
            final(self)@ == with_binding(old(self)@, Some(f as nat), line, Some((var@, b@))),
            final(self).fns@.len() == old(self).fns@.len(),
    {
        let ghost before = self@;
        let ghost fun = self.fns@[f as int]@;
        let ghost view = (line, var@, b@);
        let ghost old_list = self.fns@[f as int].bindings@;
        self.fns[f].bindings.push((line, var, b));
        assert(bindings_view(self.fns@[f as int].bindings@) =~= bindings_view(old_list).push(view));
        assert(self@.fns =~= with_binding(before, Some(f as nat), line, Some((var@, b@))).fns);
    }

    pub(crate) fn push_call(&mut self, f: usize, line: usize, callee: Callee)
        requires
            f < old(self).fns@.len(),
        ensures
            final(self)@ == with_call(old(self)@, Some(f as nat), line, Some(callee@)),
            final(self).fns@.len() == old(self).fns@.len(),
    {
        let ghost before = self@;
        let ghost view = (callee@, line);
        let ghost old_list = self.fns@[f as int].calls@;
        self.fns[f].calls.push((callee, line));
        assert(calls_view(self.fns@[f as int].calls@) =~= calls_view(old_list).push(view));
        assert(self@.fns =~= with_call(before, Some(f as nat), line, Some(callee@)).fns);
    }
}

/// The most recent binding of a variable at or before a line.
pub open spec fn last_binding_spec(
    bindings: Seq<(usize, Seq<char>, BindingV)>,
    var: Seq<char>,
    line: usize,
) -> Option<BindingV>
    decreases bindings.len(),
{
    if bindings.len() == 0 {
        None
    } else if bindings.last().0 <= line && bindings.last().1 == var {
        Some(bindings.last().2)
    } else {
        last_binding_spec(bindings.drop_last(), var, line)
    }
}

/// Most recent binding of `var` at or before `line` in this function.
pub(crate) fn last_binding<'a>(fun: &'a FnScope, var: &str, line: usize) -> (r: Option<&'a Binding>)
    ensures
        text::opt_view(r) == last_binding_spec(fun@.bindings, var@, line),
{
    let ghost all = fun@.bindings;
    let mut n: usize = fun.bindings.len();
    assert(all.take(n as int) =~= all);
    while n > 0
        invariant
            n <= fun.bindings@.len(),
            all == fun@.bindings,
            last_binding_spec(all, var@, line) == last_binding_spec(
                all.take(n as int),
                var@,
                line,
            ),
        decreases n,
    {
        assert(all.take(n as int).drop_last() =~= all.take(n - 1));
        assert(all.take(n as int).last() == all[n - 1]);
        n -= 1;
        let b: &(usize, String, Binding) = &fun.bindings[n];
        if b.0 <= line && str_eq(b.1.as_str(), var) {
            return Some(&b.2);
        }
    }
    None
}

/// The last binding before the call wins: what is found is a binding of the variable at or
/// before the line, and none behind it in the list is one. Nothing is found only where
/// there is no such binding.
pub proof fn law_last_binding_wins(
    bindings: Seq<(usize, Seq<char>, BindingV)>,
    var: Seq<char>,
    line: usize,
)
    ensures
        match last_binding_spec(bindings, var, line) {
            Some(b) => exists|i: int|
                0 <= i < bindings.len() && #[trigger] bindings[i].2 == b && bindings[i].1 == var
                    && bindings[i].0 <= line && forall|j: int|
                    i < j < bindings.len() ==> !((#[trigger] bindings[j]).1 == var && bindings[j].0
                        <= line),
            None => forall|j: int|
                0 <= j < bindings.len() ==> !((#[trigger] bindings[j]).1 == var && bindings[j].0
                    <= line),
        },
    decreases bindings.len(),
{
    if bindings.len() > 0 {
        let init = bindings.drop_last();
        let n = bindings.len() - 1;
        if bindings.last().0 <= line && bindings.last().1 == var {
            assert(bindings[n].2 == bindings.last().2);
        } else {
            law_last_binding_wins(init, var, line);
            match last_binding_spec(init, var, line) {
                Some(b) => {
                    let i = choose|i: int|
                        0 <= i < init.len() && #[trigger] init[i].2 == b && init[i].1 == var
                            && init[i].0 <= line && forall|j: int|
                            i < j < init.len() ==> !((#[trigger] init[j]).1 == var && init[j].0
                                <= line);
                    assert(bindings[i].2 == b);
                    assert forall|j: int| i < j < bindings.len() implies !((
                    #[trigger] bindings[j]).1 == var && bindings[j].0 <= line) by {
                        if j < n {
                            assert(init[j] == bindings[j]);
                        }
                    }
                },
                None => {
                    assert forall|j: int| 0 <= j < bindings.len() implies !((
                    #[trigger] bindings[j]).1 == var && bindings[j].0 <= line) by {
                        if j < n {
                            assert(init[j] == bindings[j]);
                        }
                    }
                },
            }
        }
    }
}

/// The type of the first parameter with a name.
pub open spec fn param_type_spec(params: Seq<(Seq<char>, Seq<char>)>, var: Seq<char>) -> Option<
    Seq<char>,
>
    decreases params.len(),
{
    if params.len() == 0 {
        None
    } else if params[0].0 == var {
        Some(params[0].1)
    } else {
        param_type_spec(params.drop_first(), var)
    }
}

/// The type of the first parameter with a name.
pub(crate) fn param_type(fun: &FnScope, var: &str) -> (r: Option<String>)
    ensures
        text::opt_view(r) == param_type_spec(fun@.params, var@),
{
    let ghost all = fun@.params;
    let mut i: usize = 0;
    assert(all.skip(0) =~= all);
    while i < fun.params.len()
        invariant
            i <= fun.params@.len(),
            all == fun@.params,
            param_type_spec(all, var@) == param_type_spec(all.skip(i as int), var@),
        decreases fun.params@.len() - i,
    {
        assert(all.skip(i as int)[0] == all[i as int]);
        assert(all.skip(i as int).drop_first() =~= all.skip(i + 1));
        if str_eq(fun.params[i].0.as_str(), var) {
            return Some(fun.params[i].1.clone());
        }
        i += 1;
    }
    None
}

// ── Ranking ──────────────────────────────────────────────────────────────────

/// Whether definitions are in reach through the imports of a file.
pub trait Reach {
    spec fn reach(&self) -> spec_fn(DefV) -> bool;

    fn is_imported(&self, d: &Def) -> (r: bool)
        ensures
            r == (self.reach())(d@),
    ;
}

/// How far a definition is from a file: in it, in its directory, in reach through its
/// imports, or anywhere else.
pub open spec fn locality_spec(d: DefV, file: Seq<char>, reach: spec_fn(DefV) -> bool) -> nat {
    if d.id.file == file {
        0
    } else if path::parent_spec(d.id.file) == path::parent_spec(file) {
        1
    } else if reach(d) {
        2
    } else {
        3
    }
}

/// What a definition that is no method is set back by, where methods are preferred.
pub open spec fn penalty(d: DefV, prefer_methods: bool) -> nat {
    if prefer_methods && !(d.kind is Method) {
        1
    } else {
        0
    }
}

/// Whether one definition is a better candidate than another: by kind, then by locality,
/// then by place.
pub open spec fn better(
    a: DefV,
    b: DefV,
    prefer_methods: bool,
    file: Seq<char>,
    reach: spec_fn(DefV) -> bool,
) -> bool {
    if penalty(a, prefer_methods) != penalty(b, prefer_methods) {
        penalty(a, prefer_methods) < penalty(b, prefer_methods)
    } else if locality_spec(a, file, reach) != locality_spec(b, file, reach) {
        locality_spec(a, file, reach) < locality_spec(b, file, reach)
    } else {
        resolve::place_lt(a.id, b.id)
    }
}

/// The first of the candidates that no other one is better than.
pub open spec fn best(
    defs: Seq<DefV>,
    cands: Seq<usize>,
    prefer_methods: bool,
    file: Seq<char>,
    reach: spec_fn(DefV) -> bool,
) -> usize
    decreases cands.len(),
{
    if cands.len() <= 1 {
        cands[0]
    } else {
        let b = best(defs, cands.drop_last(), prefer_methods, file, reach);
        if better(defs[cands.last() as int], defs[b as int], prefer_methods, file, reach) {
            cands.last()
        } else {
            b
        }
    }
}

/// The candidate that is picked. A single one is exact; the best of several is a guess.
pub open spec fn ranked(
    defs: Seq<DefV>,
    cands: Seq<usize>,
    prefer_methods: bool,
    file: Seq<char>,
    reach: spec_fn(DefV) -> bool,
) -> Option<(usize, Confidence)> {
    if cands.len() == 0 {
        None
    } else if cands.len() == 1 {
        Some((cands[0], Confidence::Exact))
    } else {
        Some((best(defs, cands, prefer_methods, file, reach), Confidence::Guess))
    }
}

proof fn lemma_better_order(
    a: DefV,
    b: DefV,
    c: DefV,
    prefer_methods: bool,
    file: Seq<char>,
    reach: spec_fn(DefV) -> bool,
)
    ensures
        better(a, b, prefer_methods, file, reach) && better(b, c, prefer_methods, file, reach)
            ==> better(a, c, prefer_methods, file, reach),
        !better(a, a, prefer_methods, file, reach),
{
    text::lemma_text_order(a.id.file, b.id.file, c.id.file);
}

/// The best of the candidates is one of them, and none is better.
pub proof fn lemma_best(
    defs: Seq<DefV>,
    cands: Seq<usize>,
    prefer_methods: bool,
    file: Seq<char>,
    reach: spec_fn(DefV) -> bool,
)
    requires
        cands.len() > 0,
    ensures
        cands.contains(best(defs, cands, prefer_methods, file, reach)),
        forall|k: int|
            0 <= k < cands.len() ==> !better(
                defs[(#[trigger] cands[k]) as int],
                defs[best(defs, cands, prefer_methods, file, reach) as int],
                prefer_methods,
                file,
                reach,
            ),
    decreases cands.len(),
{
    let t = best(defs, cands, prefer_methods, file, reach);
    if cands.len() == 1 {
        assert(cands[0] == t);
        let d = defs[t as int];
        lemma_better_order(d, d, d, prefer_methods, file, reach);
    } else {
        let init = cands.drop_last();
        let b = best(defs, init, prefer_methods, file, reach);
        let x = cands.last();
        lemma_best(defs, init, prefer_methods, file, reach);
        if t == x {
            assert(cands[cands.len() - 1] == t);
        } else {
            let k = init.index_of(b);
            assert(cands[k] == t);
        }
        assert forall|k: int| 0 <= k < cands.len() implies !better(
            defs[(#[trigger] cands[k]) as int],
            defs[t as int],
            prefer_methods,
            file,
            reach,
        ) by {
            let c = defs[cands[k] as int];
            lemma_better_order(c, defs[x as int], defs[b as int], prefer_methods, file, reach);
            lemma_better_order(c, c, c, prefer_methods, file, reach);
            if k < init.len() {
                assert(init[k] == cands[k]);
            }
        }
    }
}

/// Nothing is picked from no candidates, a single candidate is exact, and one of several
/// is a guess.
pub proof fn law_rank_confidence(
    defs: Seq<DefV>,
    cands: Seq<usize>,
    prefer_methods: bool,
    file: Seq<char>,
    reach: spec_fn(DefV) -> bool,
)
    ensures
        ranked(defs, cands, prefer_methods, file, reach) is None <==> cands.len() == 0,
        ranked(defs, cands, prefer_methods, file, reach) matches Some((t, conf)) ==> {
            &&& cands.contains(t)
            &&& conf == Confidence::Exact <==> cands.len() == 1
        },
{
    if cands.len() == 1 {
        assert(cands[0] == ranked(defs, cands, prefer_methods, file, reach)->Some_0.0);
    } else if cands.len() > 1 {
        lemma_best(defs, cands, prefer_methods, file, reach);
    }
}

/// Where methods are not preferred, no candidate is closer than the one that is picked:
/// same file > same directory > imported > anywhere.
pub proof fn law_rank_goes_by_locality(
    defs: Seq<DefV>,
    cands: Seq<usize>,
    file: Seq<char>,
    reach: spec_fn(DefV) -> bool,
    k: int,
)
    requires
        0 <= k < cands.len(),
    ensures
        ranked(defs, cands, false, file, reach) matches Some((t, _)) && locality_spec(
            defs[t as int],
            file,
            reach,
        ) <= locality_spec(defs[cands[k] as int], file, reach),
{
    lemma_best(defs, cands, false, file, reach);
}

/// Where methods are preferred, a method is picked if there is one; and of what is as
/// good in that respect, no candidate is closer than the one that is picked.
pub proof fn law_rank_prefers_methods(
    defs: Seq<DefV>,
    cands: Seq<usize>,
    file: Seq<char>,
    reach: spec_fn(DefV) -> bool,
    k: int,
)
    requires
        0 <= k < cands.len(),
    ensures
        ranked(defs, cands, true, file, reach) matches Some((t, _)) && {
            let picked = defs[t as int];
            let other = defs[cands[k] as int];
            &&& other.kind is Method ==> picked.kind is Method
            &&& other.kind is Method == picked.kind is Method ==> locality_spec(
                picked,
                file,
                reach,
            ) <= locality_spec(other, file, reach)
        },
{
    lemma_best(defs, cands, true, file, reach);
}

fn locality<C: Reach>(d: &Def, file: &str, ctx: &C) -> (r: usize)
    ensures
        r == locality_spec(d@, file@, ctx.reach()),
{
    if str_eq(d.id.file.as_str(), file) {
        0
    } else if same_parent(d.id.file.as_str(), file) {
        1
    } else if ctx.is_imported(d) {
        2
    } else {
        3
    }
}

fn is_better<C: Reach>(a: &Def, b: &Def, prefer_methods: bool, file: &str, ctx: &C) -> (r: bool)
    ensures
        r == better(a@, b@, prefer_methods, file@, ctx.reach()),
{
    if prefer_methods {
        let pa: bool = !matches!(a.kind, DefKind::Method { .. });
        let pb: bool = !matches!(b.kind, DefKind::Method { .. });
        if pa != pb {
            return pb;
        }
    }
    let la: usize = locality(a, file, ctx);
    let lb: usize = locality(b, file, ctx);
    if la != lb {
        la < lb
    } else {
        place_before(&a.id, &b.id)
    }
}

/// Pick the best candidate. A single candidate is Exact; several rank by
/// locality (same file > same dir > imported > anywhere) and yield a Guess.
pub(crate) fn rank<C: Reach>(
    cands: &Vec<usize>,
    prefer_methods: bool,
    file: &str,
    index: &DefIndex,
    ctx: &C,
) -> (r: Option<(usize, Confidence)>)
    requires
        forall|k: int| 0 <= k < cands@.len() ==> (#[trigger] cands@[k]) < index.defs@.len(),
    ensures
        r == ranked(index@.defs, cands@, prefer_methods, file@, ctx.reach()),
        r matches Some((t, _)) ==> t < index.defs@.len(),
{
    if cands.len() == 0 {
        return None;
    }
    if cands.len() == 1 {
        return Some((cands[0], Confidence::Exact));
    }
    let ghost defs = index@.defs;
    let mut b: usize = cands[0];
    let mut i: usize = 1;
    while i < cands.len()
        invariant
            1 <= i <= cands@.len(),
            defs == index@.defs,
            forall|k: int| 0 <= k < cands@.len() ==> (#[trigger] cands@[k]) < index.defs@.len(),
            b < index.defs@.len(),
            b == best(defs, cands@.take(i as int), prefer_methods, file@, ctx.reach()),
        decreases cands@.len() - i,
    {
        assert(cands@.take(i + 1).drop_last() =~= cands@.take(i as int));
        assert(cands@.take(i + 1).last() == cands@[i as int]);
        let c: usize = cands[i];
        if is_better(&index.defs[c], &index.defs[b], prefer_methods, file, ctx) {
            b = c;
        }
        i += 1;
    }
    assert(cands@.take(i as int) =~= cands@);
    Some((b, Confidence::Guess))
}

// ── Selecting candidates ─────────────────────────────────────────────────────

/// Whether all positions are those of definitions.
pub open spec fn known(v: Seq<usize>, n: nat) -> bool {
    forall|k: int| 0 <= k < v.len() ==> (#[trigger] v[k]) < n
}

/// Whether all targets are definitions.
pub open spec fn hits_known(v: Seq<(usize, Confidence)>, n: nat) -> bool {
    forall|k: int| 0 <= k < v.len() ==> (#[trigger] v[k]).0 < n
}

/// A list of at most one.
pub open spec fn at_most_one(hit: Option<(usize, Confidence)>) -> Seq<(usize, Confidence)> {
    match hit {
        Some(h) => seq![h],
        None => Seq::empty(),
    }
}

/// Whether a definition is a method of a type.
pub open spec fn is_method_of(d: DefV, ty: Seq<char>) -> bool {
    match d.kind {
        DefKindV::Method { receiver, .. } => receiver == ty,
        _ => false,
    }
}

/// Whether a definition is a signature of a trait or interface.
pub open spec fn is_signature_of(d: DefV, tr: Seq<char>) -> bool {
    match d.kind {
        DefKindV::InterfaceMethod { interface } => interface == tr,
        _ => false,
    }
}

/// The candidates of which `keep` holds.
pub(crate) fn select<F: Fn(usize) -> bool>(
    index: &DefIndex,
    cands: &Vec<usize>,
    keep: F,
    Ghost(p): Ghost<spec_fn(usize) -> bool>,
) -> (r: Vec<usize>)
    requires
        known(cands@, index.defs@.len()),
        forall|a: usize| a < index.defs@.len() ==> #[trigger] call_requires(keep, (a,)),
        forall|a: usize, c: bool| #[trigger] call_ensures(keep, (a,), c) ==> c == p(a),
    ensures
        r@ == cands@.filter(p),
        known(r@, index.defs@.len()),
{
    proof {
        resolve::lemma_filter_bound(cands@, p, index.defs@.len());
    }
    filter_positions(cands, keep, Ghost(p))
}

/// The methods of a type among the candidates.
pub(crate) fn methods_of(index: &DefIndex, cands: &Vec<usize>, ty: &str) -> (r: Vec<usize>)
    requires
        known(cands@, index.defs@.len()),
    ensures
        r@ == cands@.filter(|i: usize| is_method_of(index@.defs[i as int], ty@)),
        known(r@, index.defs@.len()),
{
    let defs: &Vec<Def> = &index.defs;
    let keep = |i: usize| -> (r: bool)
        requires
            i < defs@.len(),
        ensures
            r == is_method_of(text::views(defs@)[i as int], ty@),
        {
            match &defs[i].kind {
                DefKind::Method { receiver, .. } => str_eq(receiver.as_str(), ty),
                _ => false,
            }
        };
    select(
        index,
        cands,
        keep,
        Ghost(|i: usize| is_method_of(index@.defs[i as int], ty@)),
    )
}

/// The signatures of a trait or interface among the candidates.
pub(crate) fn signatures_of(index: &DefIndex, cands: &Vec<usize>, tr: &str) -> (r: Vec<usize>)
    requires
        known(cands@, index.defs@.len()),
    ensures
        r@ == cands@.filter(|i: usize| is_signature_of(index@.defs[i as int], tr@)),
        known(r@, index.defs@.len()),
{
    let defs: &Vec<Def> = &index.defs;
    let keep = |i: usize| -> (r: bool)
        requires
            i < defs@.len(),
        ensures
            r == is_signature_of(text::views(defs@)[i as int], tr@),
        {
            match &defs[i].kind {
                DefKind::InterfaceMethod { interface } => str_eq(interface.as_str(), tr),
                _ => false,
            }
        };
    select(
        index,
        cands,
        keep,
        Ghost(|i: usize| is_signature_of(index@.defs[i as int], tr@)),
    )
}

pub(crate) fn one(hit: Option<(usize, Confidence)>) -> (r: Vec<(usize, Confidence)>)
    ensures
        r@ == at_most_one(hit),
{
    let mut out: Vec<(usize, Confidence)> = Vec::new();
    if let Some(h) = hit {
        out.push(h);
    }
    assert(out@ =~= at_most_one(hit));
    out
}

} // verus!
