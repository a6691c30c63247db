//! Call-site → definition resolution.
//!
//! Each language gets a `Resolver` that knows how to (1) index definitions and
//! (2) resolve call sites against the project-wide index, following imports,
//! aliases, qualified paths, local value bindings, and (heuristically) method
//! receivers. Languages without a dedicated resolver fall back to
//! `fallback::NameResolver`, which matches calls and definitions by name.

pub mod fallback;
pub mod go;
pub mod go_defs;
pub mod go_rules;
pub mod go_scope;
pub mod graph;
pub mod pick;
pub mod project;
pub mod rust;
pub mod rust_defs;
pub mod rust_rules;
pub mod rust_scope;
pub mod scope;

use vstd::prelude::*;
use vstd::hash_map::StringHashMap;
use crate::files::{FileV, SourceFile};
use crate::order;
use crate::order::{filter_positions, sort_positions};
use crate::runner;
use crate::syntax::utf8_text;
use crate::text;
use crate::text::{
    clone_opt, clone_strings, contains_text, decimal, ends_with, is_capitalized, nth_line,
    push_string, rsplit_once, split, str_eq, str_lt, trim,
};

verus! {

broadcast use vstd::string::group_string_axioms;

/// Identity of a definition: where it lives.
#[derive(Debug, PartialEq, Eq, Hash, PartialOrd, Ord)]
pub struct DefId {
    pub file: String,
    pub line: usize,
}

/// View of a [`DefId`].
#[verifier::ext_equal]
pub struct DefIdV {
    pub file: Seq<char>,
    pub line: usize,
}

impl View for DefId {
    type V = DefIdV;

    open spec fn view(&self) -> DefIdV {
        DefIdV { file: self.file@, line: self.line }
    }
}

impl Clone for DefId {
    fn clone(&self) -> (r: Self)
        ensures
            r@ == self@,
    {
        DefId { file: self.file.clone(), line: self.line }
    }
}

#[derive(Debug, PartialEq, Eq)]
pub enum DefKind {
    Function,
    /// Method on a type; `receiver` is the impl/class type name (e.g. "Foo").
    /// `via_trait` is the trait being implemented when the method lives in an
    /// `impl Trait for Type` block — the implements-relation that dispatch needs.
    Method { receiver: String, via_trait: Option<String> },
    /// Signature inside an interface/trait declaration — a dispatch point,
    /// not a body. Calls through it expand to implementing methods.
    InterfaceMethod { interface: String },
}

/// View of a [`DefKind`].
#[verifier::ext_equal]
pub enum DefKindV {
    Function,
    Method { receiver: Seq<char>, via_trait: Option<Seq<char>> },
    InterfaceMethod { interface: Seq<char> },
}

impl View for DefKind {
    type V = DefKindV;

    open spec fn view(&self) -> DefKindV {
        match *self {
            DefKind::Function => DefKindV::Function,
            DefKind::Method { receiver, via_trait } => DefKindV::Method {
                receiver: receiver@,
                via_trait: text::opt_view(via_trait),
            },
            DefKind::InterfaceMethod { interface } => DefKindV::InterfaceMethod {
                interface: interface@,
            },
        }
    }
}

impl Clone for DefKind {
    fn clone(&self) -> (r: Self)
        ensures
            r@ == self@,
    {
        match self {
            DefKind::Function => DefKind::Function,
            DefKind::Method { receiver, via_trait } => DefKind::Method {
                receiver: receiver.clone(),
                via_trait: clone_opt(via_trait),
            },
            DefKind::InterfaceMethod { interface } => DefKind::InterfaceMethod {
                interface: interface.clone(),
            },
        }
    }
}

#[derive(Debug)]
pub struct Def {
    /// Bare name, e.g. "new".
    pub name: String,
    /// Module path + impl type + name, e.g. ["util", "Foo", "new"].
    pub qualified: Vec<String>,
    pub kind: DefKind,
    /// Bare name of the (first) return type, when it's a nameable type —
    /// feeds `x := f(); x.m()` inference.
    pub ret: Option<String>,
    pub id: DefId,
}

/// View of a [`Def`].
#[verifier::ext_equal]
pub struct DefV {
    pub name: Seq<char>,
    pub qualified: Seq<Seq<char>>,
    pub kind: DefKindV,
    pub ret: Option<Seq<char>>,
    pub id: DefIdV,
}

impl View for Def {
    type V = DefV;

    open spec fn view(&self) -> DefV {
        DefV {
            name: self.name@,
            qualified: text::views(self.qualified@),
            kind: self.kind@,
            ret: text::opt_view(self.ret),
            id: self.id@,
        }
    }
}

impl Clone for Def {
    fn clone(&self) -> (r: Self)
        ensures
            r@ == self@,
    {
        Def {
            name: self.name.clone(),
            qualified: clone_strings(&self.qualified),
            kind: self.kind.clone(),
            ret: clone_opt(&self.ret),
            id: self.id.clone(),
        }
    }
}

/// The positions of the definitions with a name, in ascending order.
pub open spec fn positions(defs: Seq<DefV>, name: Seq<char>) -> Seq<usize>
    decreases defs.len(),
{
    if defs.len() == 0 {
        Seq::empty()
    } else {
        let init = positions(defs.drop_last(), name);
        if defs.last().name == name {
            init.push((defs.len() - 1) as usize)
        } else {
            init
        }
    }
}

/// The positions of a name are exactly those of the definitions that have it.
pub proof fn lemma_positions(defs: Seq<DefV>, name: Seq<char>)
    requires
        defs.len() <= usize::MAX,
    ensures
        forall|k: int|
            0 <= k < positions(defs, name).len() ==> (#[trigger] positions(defs, name)[k])
                < defs.len() && defs[positions(defs, name)[k] as int].name == name,
        forall|k: int, m: int|
            0 <= k < m < positions(defs, name).len() ==> #[trigger] positions(defs, name)[k]
                < #[trigger] positions(defs, name)[m],
        forall|i: usize|
            i < defs.len() && #[trigger] defs[i as int].name == name ==> positions(
                defs,
                name,
            ).contains(i),
    decreases defs.len(),
{
    if defs.len() > 0 {
        let init = defs.drop_last();
        lemma_positions(init, name);
        let p = positions(defs, name);
        let q = positions(init, name);
        assert forall|i: usize|
            i < defs.len() && #[trigger] defs[i as int].name == name implies p.contains(i) by {
            if i < init.len() {
                assert(init[i as int].name == name);
                let k = q.index_of(i);
                assert(p[k] == i);
            } else {
                assert(p[p.len() - 1] == i);
            }
        }
    }
}

/// All definitions of a project.
pub struct DefIndex {
    pub defs: Vec<Def>,
    /// bare name -> indices into `defs`
    pub by_name: StringHashMap<Vec<usize>>,
    /// (type, trait) implements-relations from `impl Trait for Type` blocks.
    /// Separate from method defs so empty impls (all defaults) still count.
    pub impls: Vec<(String, String)>,
}

/// View of a [`DefIndex`].
#[verifier::ext_equal]
pub struct IndexV {
    pub defs: Seq<DefV>,
    pub impls: Seq<(Seq<char>, Seq<char>)>,
}

/// The views of a list of pairs of strings.
pub open spec fn pairs_view(v: Seq<(String, String)>) -> Seq<(Seq<char>, Seq<char>)> {
    v.map_values(|p: (String, String)| (p.0@, p.1@))
}

impl View for DefIndex {
    type V = IndexV;

    open spec fn view(&self) -> IndexV {
        IndexV { defs: text::views(self.defs@), impls: pairs_view(self.impls@) }
    }
}

impl Default for DefIndex {
    fn default() -> (r: Self)
        ensures
            r.wf(),
            r@ == (IndexV { defs: Seq::empty(), impls: Seq::empty() }),
    {
        let r = DefIndex { defs: Vec::new(), by_name: StringHashMap::new(), impls: Vec::new() };
        assert(r@.defs =~= Seq::empty());
        assert(r@.impls =~= Seq::empty());
        r
    }
}

impl DefIndex {
    /// The map leads from each name to the positions of the definitions that have it.
    pub open spec fn wf(self) -> bool {
        forall|name: Seq<char>|
            {
                &&& #[trigger] self.by_name@.contains_key(name) ==> self.by_name@[name]@
                    == positions(self@.defs, name)
                &&& !self.by_name@.contains_key(name) ==> positions(self@.defs, name).len() == 0
            }
    }

    pub fn push(&mut self, def: Def)
        requires
            old(self).wf(),
        ensures
            final(self).wf(),
            final(self)@ == (IndexV { defs: old(self)@.defs.push(def@), ..old(self)@ }),
    {
        let ghost before = *self;
        let ghost view = def@;
        let mut list: Vec<usize> = match self.by_name.get(def.name.as_str()) {
            Some(v) => copy_positions(v),
            None => Vec::new(),
        };
        assert(list@ =~= positions(self@.defs, def.name@)) by {
            assert(self.by_name@.contains_key(def.name@) || !self.by_name@.contains_key(def.name@));
        }
        list.push(self.defs.len());
        self.by_name.insert(def.name.clone(), list);
        self.defs.push(def);
        proof {
            assert(self@.defs =~= before@.defs.push(view));
            assert(self@.defs.drop_last() =~= before@.defs);
            assert forall|name: Seq<char>|
                {
                    &&& #[trigger] self.by_name@.contains_key(name) ==> self.by_name@[name]@
                        == positions(self@.defs, name)
                    &&& !self.by_name@.contains_key(name) ==> positions(self@.defs, name).len()
                        == 0
                } by {
                assert(before.by_name@.contains_key(name) || !before.by_name@.contains_key(name));
            }
        }
    }

    /// The positions of the definitions with a name.
    pub(crate) fn named(&self, name: &str) -> (r: Vec<usize>)
        requires
            self.wf(),
        ensures
            r@ == positions(self@.defs, name@),
            forall|k: int| 0 <= k < r@.len() ==> (#[trigger] r@[k]) < self.defs@.len(),
    {
        proof {
            assert(self.by_name@.contains_key(name@) || !self.by_name@.contains_key(name@));
            assert(self.defs@.len() == self@.defs.len());
            assert(self.defs.len() <= usize::MAX);
            lemma_positions(self@.defs, name@);
        }
        match self.by_name.get(name) {
            Some(v) => copy_positions(v),
            None => {
                let none: Vec<usize> = Vec::new();
                assert(none@ =~= positions(self@.defs, name@));
                none
            },
        }
    }
}

fn copy_positions(v: &Vec<usize>) -> (r: Vec<usize>)
    ensures
        r@ == v@,
{
    let mut out: Vec<usize> = Vec::new();
    let mut i: usize = 0;
    while i < v.len()
        invariant
            i <= v@.len(),
            out@ =~= v@.take(i as int),
        decreases v@.len() - i,
    {
        out.push(v[i]);
        i += 1;
    }
    assert(out@ =~= v@);
    out
}

/// Receiver of a method call.
#[derive(Debug, PartialEq, Eq)]
pub enum Receiver {
    SelfRecv,
    Var(String),
    /// Anything we can't classify; keeps raw text for display.
    Opaque(String),
}

/// View of a [`Receiver`].
#[verifier::ext_equal]
pub enum ReceiverV {
    SelfRecv,
    Var(Seq<char>),
    Opaque(Seq<char>),
}

impl View for Receiver {
    type V = ReceiverV;

    open spec fn view(&self) -> ReceiverV {
        match *self {
            Receiver::SelfRecv => ReceiverV::SelfRecv,
            Receiver::Var(s) => ReceiverV::Var(s@),
            Receiver::Opaque(s) => ReceiverV::Opaque(s@),
        }
    }
}

/// A callee expression, structurally classified.
#[derive(Debug, PartialEq, Eq)]
pub enum Callee {
    /// `foo()`
    Bare(String),
    /// `a::b::foo()`, `Foo::new()`
    Path(Vec<String>),
    /// `x.foo()`, `self.foo()`
    Method { receiver: Receiver, name: String },
}

/// View of a [`Callee`].
#[verifier::ext_equal]
pub enum CalleeV {
    Bare(Seq<char>),
    Path(Seq<Seq<char>>),
    Method { receiver: ReceiverV, name: Seq<char> },
}

impl View for Callee {
    type V = CalleeV;

    open spec fn view(&self) -> CalleeV {
        match *self {
            Callee::Bare(s) => CalleeV::Bare(s@),
            Callee::Path(segs) => CalleeV::Path(text::views(segs@)),
            Callee::Method { receiver, name } => CalleeV::Method {
                receiver: receiver@,
                name: name@,
            },
        }
    }
}

/// The bare name of a callee; that of an empty path is empty.
pub open spec fn callee_name(c: CalleeV) -> Seq<char> {
    match c {
        CalleeV::Bare(n) => n,
        CalleeV::Path(segs) => if segs.len() > 0 {
            segs.last()
        } else {
            ""@
        },
        CalleeV::Method { name, .. } => name,
    }
}

impl Callee {
    /// Bare name used for display and name-keyed lookups.
    pub fn name(&self) -> (r: &str)
        ensures
            r@ == callee_name(self@),
    {
        match self {
            Callee::Bare(n) => n.as_str(),
            Callee::Path(segs) => if segs.len() > 0 {
                assert(text::views(segs@).last() == segs@[segs@.len() - 1]@);
                segs[segs.len() - 1].as_str()
            } else {
                ""
            },
            Callee::Method { name, .. } => name.as_str(),
        }
    }
}

#[derive(Debug, Clone, Copy, PartialEq, Eq, Structural)]
pub enum Confidence {
    Exact,
    /// Best-ranked of several candidates — rendered with a '?' marker.
    Guess,
}

#[derive(Debug)]
pub struct ResolvedCall {
    /// Index into `DefIndex.defs` of the enclosing (calling) function.
    pub caller: usize,
    /// Bare callee name for display.
    pub callee_display: String,
    /// Line of the call site.
    pub line: usize,
    /// Resolved definition, or None for external/unknown callees.
    pub target: Option<(usize, Confidence)>,
}

/// View of a [`ResolvedCall`].
#[verifier::ext_equal]
pub struct CallV {
    pub caller: usize,
    pub callee_display: Seq<char>,
    pub line: usize,
    pub target: Option<(usize, Confidence)>,
}

impl View for ResolvedCall {
    type V = CallV;

    open spec fn view(&self) -> CallV {
        CallV {
            caller: self.caller,
            callee_display: self.callee_display@,
            line: self.line,
            target: self.target,
        }
    }
}

impl Clone for ResolvedCall {
    fn clone(&self) -> (r: Self)
        ensures
            r@ == self@,
    {
        ResolvedCall {
            caller: self.caller,
            callee_display: self.callee_display.clone(),
            line: self.line,
            target: self.target,
        }
    }
}

// ── Resolvers ────────────────────────────────────────────────────────────────

/// Whether all definitions that the calls speak of are in an index of `n`.
pub open spec fn calls_known(calls: Seq<CallV>, n: nat) -> bool {
    forall|i: int|
        0 <= i < calls.len() ==> (#[trigger] calls[i]).caller < n && (calls[i].target matches Some(
            t,
        ) ==> t.0 < n)
}

pub trait Resolver {
    /// The definitions of a file.
    spec fn defs_spec(&self, file: Seq<char>, source: Seq<u8>) -> Seq<DefV>;

    /// The implements-relations of a file.
    spec fn impls_spec(&self, file: Seq<char>, source: Seq<u8>) -> Seq<(Seq<char>, Seq<char>)>;

    /// The resolved calls of a file.
    spec fn calls_spec(&self, file: Seq<char>, source: Seq<u8>, index: IndexV) -> Seq<CallV>;

    /// Phase 1: definitions in one file (feeds the project index).
    fn collect_defs(&self, file: &str, source: &[u8]) -> (r: Vec<Def>)
        ensures
            text::views(r@) == self.defs_spec(file@, source@),
    ;

    /// Phase 1b: explicit implements-relations (`impl Trait for Type`).
    /// Languages with structural conformance (Go) don't need this.
    fn collect_impls(&self, file: &str, source: &[u8]) -> (r: Vec<(String, String)>)
        ensures
            pairs_view(r@) == self.impls_spec(file@, source@),
    ;

    /// Phase 2: call sites in one file, resolved against the full project index.
    fn resolve_calls(&self, file: &str, source: &[u8], index: &DefIndex) -> (r: Vec<ResolvedCall>)
        requires
            index.wf(),
        ensures
            text::views(r@) == self.calls_spec(file@, source@, index@),
            calls_known(text::views(r@), index@.defs.len()),
    ;
}

/// The resolver of a language.
pub enum AnyResolver {
    Go(go::GoResolver),
    Rust(rust::RustResolver),
    Name(fallback::NameResolver),
}

impl Resolver for AnyResolver {
    open spec fn defs_spec(&self, file: Seq<char>, source: Seq<u8>) -> Seq<DefV> {
        match self {
            AnyResolver::Go(r) => r.defs_spec(file, source),
            AnyResolver::Rust(r) => r.defs_spec(file, source),
            AnyResolver::Name(r) => r.defs_spec(file, source),
        }
    }

    open spec fn impls_spec(&self, file: Seq<char>, source: Seq<u8>) -> Seq<
        (Seq<char>, Seq<char>),
    > {
        match self {
            AnyResolver::Go(r) => r.impls_spec(file, source),
            AnyResolver::Rust(r) => r.impls_spec(file, source),
            AnyResolver::Name(r) => r.impls_spec(file, source),
        }
    }

    open spec fn calls_spec(&self, file: Seq<char>, source: Seq<u8>, index: IndexV) -> Seq<CallV> {
        match self {
            AnyResolver::Go(r) => r.calls_spec(file, source, index),
            AnyResolver::Rust(r) => r.calls_spec(file, source, index),
            AnyResolver::Name(r) => r.calls_spec(file, source, index),
        }
    }

    fn collect_defs(&self, file: &str, source: &[u8]) -> (r: Vec<Def>) {
        match self {
            AnyResolver::Go(r) => r.collect_defs(file, source),
            AnyResolver::Rust(r) => r.collect_defs(file, source),
            AnyResolver::Name(r) => r.collect_defs(file, source),
        }
    }

    fn collect_impls(&self, file: &str, source: &[u8]) -> (r: Vec<(String, String)>) {
        match self {
            AnyResolver::Go(r) => r.collect_impls(file, source),
            AnyResolver::Rust(r) => r.collect_impls(file, source),
            AnyResolver::Name(r) => r.collect_impls(file, source),
        }
    }

    fn resolve_calls(&self, file: &str, source: &[u8], index: &DefIndex) -> (r: Vec<
        ResolvedCall,
    >) {
        match self {
            AnyResolver::Go(r) => r.resolve_calls(file, source, index),
            AnyResolver::Rust(r) => r.resolve_calls(file, source, index),
            AnyResolver::Name(r) => r.resolve_calls(file, source, index),
        }
    }
}

/// The definitions of a file in a language.
pub open spec fn defs_in(lang_name: Seq<char>, file: Seq<char>, source: Seq<u8>) -> Seq<DefV> {
    if lang_name == "go"@ {
        go::GoResolver.defs_spec(file, source)
    } else if lang_name == "rust"@ {
        rust::RustResolver.defs_spec(file, source)
    } else {
        fallback::file_defs(fallback::fallback_language(lang_name), file, source)
    }
}

/// The implements-relations of a file in a language.
pub open spec fn impls_in(lang_name: Seq<char>, file: Seq<char>, source: Seq<u8>) -> Seq<
    (Seq<char>, Seq<char>),
> {
    if lang_name == "rust"@ {
        rust::RustResolver.impls_spec(file, source)
    } else {
        Seq::empty()
    }
}

/// The resolved calls of a file in a language.
pub open spec fn calls_in(
    lang_name: Seq<char>,
    file: Seq<char>,
    source: Seq<u8>,
    index: IndexV,
) -> Seq<CallV> {
    if lang_name == "go"@ {
        go::GoResolver.calls_spec(file, source, index)
    } else if lang_name == "rust"@ {
        rust::RustResolver.calls_spec(file, source, index)
    } else {
        fallback::file_calls(fallback::fallback_language(lang_name), file, source, index)
    }
}

/// The resolver of the language with the given name. Languages without a dedicated
/// resolver get one that goes by names.
pub fn resolver_for(lang_name: &str) -> (r: AnyResolver)
    ensures
        forall|file: Seq<char>, source: Seq<u8>| #[trigger]
            r.defs_spec(file, source) == defs_in(lang_name@, file, source),
        forall|file: Seq<char>, source: Seq<u8>| #[trigger]
            r.impls_spec(file, source) == impls_in(lang_name@, file, source),
        forall|file: Seq<char>, source: Seq<u8>, index: IndexV| #[trigger]
            r.calls_spec(file, source, index) == calls_in(lang_name@, file, source, index),
{
    proof {
        reveal_strlit("go");
        reveal_strlit("rust");
        assert("go"@.len() == 2 && "rust"@.len() == 4);
    }
    if str_eq(lang_name, "go") {
        AnyResolver::Go(go::GoResolver)
    } else if str_eq(lang_name, "rust") {
        AnyResolver::Rust(rust::RustResolver)
    } else {
        AnyResolver::Name(fallback::NameResolver::new(lang_name))
    }
}

/// The positions of the definitions of a file, in ascending order.
pub open spec fn positions_in(defs: Seq<DefV>, file: Seq<char>) -> Seq<usize>
    decreases defs.len(),
{
    if defs.len() == 0 {
        Seq::empty()
    } else {
        let init = positions_in(defs.drop_last(), file);
        if defs.last().id.file == file {
            init.push((defs.len() - 1) as usize)
        } else {
            init
        }
    }
}

/// The last of the given definitions that starts in a line.
pub open spec fn def_at(defs: Seq<DefV>, here: Seq<usize>, line: usize) -> Option<usize>
    decreases here.len(),
{
    if here.len() == 0 {
        None
    } else if defs[here.last() as int].id.line == line {
        Some(here.last())
    } else {
        def_at(defs, here.drop_last(), line)
    }
}

/// The calls that a call site stands for: one for each target, and one without a target
/// where there is none.
pub open spec fn site_calls(
    caller: usize,
    name: Seq<char>,
    line: usize,
    hits: Seq<(usize, Confidence)>,
) -> Seq<CallV> {
    if hits.len() == 0 {
        seq![CallV { caller, callee_display: name, line, target: None }]
    } else {
        hits.map_values(
            |t: (usize, Confidence)|
                CallV { caller, callee_display: name, line, target: Some(t) },
        )
    }
}

/// The positions of the definitions of a file.
pub(crate) fn find_in_file(index: &DefIndex, file: &str) -> (r: Vec<usize>)
    ensures
        r@ == positions_in(index@.defs, file@),
        forall|k: int| 0 <= k < r@.len() ==> (#[trigger] r@[k]) < index.defs@.len(),
{
    let ghost defs = index@.defs;
    let mut out: Vec<usize> = Vec::new();
    let mut i: usize = 0;
    while i < index.defs.len()
        invariant
            i <= index.defs@.len(),
            defs == index@.defs,
            out@ == positions_in(defs.take(i as int), file@),
            forall|k: int| 0 <= k < out@.len() ==> (#[trigger] out@[k]) < index.defs@.len(),
        decreases index.defs@.len() - i,
    {
        assert(defs.take(i + 1).drop_last() =~= defs.take(i as int));
        assert(defs.take(i + 1).last() == index.defs@[i as int]@);
        if str_eq(index.defs[i].id.file.as_str(), file) {
            out.push(i);
        }
        i += 1;
    }
    assert(defs.take(i as int) =~= defs);
    out
}

/// The last of the given definitions that starts in a line.
pub(crate) fn find_at(index: &DefIndex, here: &Vec<usize>, line: usize) -> (r: Option<usize>)
    requires
        forall|k: int| 0 <= k < here@.len() ==> (#[trigger] here@[k]) < index.defs@.len(),
    ensures
        r == def_at(index@.defs, here@, line),
        r matches Some(i) ==> i < index.defs@.len(),
{
    let mut n: usize = here.len();
    assert(here@.take(n as int) =~= here@);
    while n > 0
        invariant
            n <= here@.len(),
            forall|k: int| 0 <= k < here@.len() ==> (#[trigger] here@[k]) < index.defs@.len(),
            def_at(index@.defs, here@, line) == def_at(index@.defs, here@.take(n as int), line),
        decreases n,
    {
        assert(here@.take(n as int).drop_last() =~= here@.take(n - 1));
        assert(here@.take(n as int).last() == here@[n - 1]);
        n -= 1;
        assert(index@.defs[here@[n as int] as int] == index.defs@[here@[n as int] as int]@);
        if index.defs[here[n]].id.line == line {
            return Some(here[n]);
        }
    }
    None
}

/// Appends the calls that a call site stands for.
pub(crate) fn push_site(
    out: &mut Vec<ResolvedCall>,
    caller: usize,
    name: &str,
    line: usize,
    hits: &Vec<(usize, Confidence)>,
    Ghost(n): Ghost<nat>,
)
    requires
        caller < n,
        forall|k: int| 0 <= k < hits@.len() ==> (#[trigger] hits@[k]).0 < n,
        calls_known(text::views(old(out)@), n),
    ensures
        text::views(final(out)@) == text::views(old(out)@) + site_calls(
            caller,
            name@,
            line,
            hits@,
        ),
        calls_known(text::views(final(out)@), n),
{
    let ghost before = text::views(out@);
    let ghost all = site_calls(caller, name@, line, hits@);
    if hits.len() == 0 {
        out.push(
            ResolvedCall { caller, callee_display: name.to_string(), line, target: None },
        );
        assert(text::views(out@) =~= before + all);
        return;
    }
    let mut i: usize = 0;
    assert(text::views(out@) =~= before + all.take(0));
    while i < hits.len()
        invariant
            i <= hits@.len(),
            hits@.len() > 0,
            caller < n,
            all == site_calls(caller, name@, line, hits@),
            forall|k: int| 0 <= k < hits@.len() ==> (#[trigger] hits@[k]).0 < n,
            text::views(out@) == before + all.take(i as int),
            calls_known(text::views(out@), n),
        decreases hits@.len() - i,
    {
        let ghost now = text::views(out@);
        let call = ResolvedCall {
            caller,
            callee_display: name.to_string(),
            line,
            target: Some(hits[i]),
        };
        let ghost view = call@;
        out.push(call);
        assert(text::views(out@) =~= now.push(view));
        i += 1;
        assert(text::views(out@) =~= before + all.take(i as int));
    }
    assert(all.take(i as int) =~= all);
}

// ── definition queries ───────────────────────────────────────────────────────

/// Whether a segment of a path names something, and is no keyword for a place.
pub open spec fn is_segment(s: Seq<char>) -> bool {
    s.len() > 0 && s != "crate"@ && s != "self"@ && s != "super"@
}

/// The segments of a path with `::`.
pub open spec fn path_segments(expr: Seq<char>) -> Seq<Seq<char>> {
    text::split_spec(expr, "::"@).filter(|s: Seq<char>| is_segment(s))
}

/// Whether a definition is what `recv.name` asks for: a method, of the type `recv` where
/// that looks like a type; or a function of the package `recv` where it does not.
pub open spec fn answers_dotted(d: DefV, recv: Seq<char>) -> bool {
    let recv_is_type = recv != "self"@ && text::capitalized(recv);
    match d.kind {
        DefKindV::Method { receiver, .. } => !recv_is_type || receiver == recv,
        DefKindV::InterfaceMethod { interface } => !recv_is_type || interface == recv,
        DefKindV::Function => !recv_is_type && d.qualified.len() >= 2
            && d.qualified[d.qualified.len() - 2] == recv,
    }
}

/// The definitions that a name, a path or a method expression asks for.
pub open spec fn query_candidates(defs: Seq<DefV>, expr: Seq<char>) -> Seq<usize> {
    if text::find_text(expr, 0, "::"@) is Some {
        let segs = path_segments(expr);
        if segs.len() == 0 {
            Seq::empty()
        } else {
            positions(defs, segs.last()).filter(
                |i: usize| text::has_suffix(defs[i as int].qualified, segs),
            )
        }
    } else {
        match text::rsplit_once_spec(expr, '.') {
            Some((recv, name)) => positions(defs, name).filter(
                |i: usize| answers_dotted(defs[i as int], recv),
            ),
            None => positions(defs, expr),
        }
    }
}

/// The order of definitions by file and line.
pub open spec fn place_lt(a: DefIdV, b: DefIdV) -> bool {
    text::text_lt(a.file, b.file) || (a.file == b.file && a.line < b.line)
}

/// The order of positions by the place of the definition.
pub open spec fn by_place(defs: Seq<DefV>) -> spec_fn(usize, usize) -> bool {
    |a: usize, b: usize| place_lt(defs[a as int].id, defs[b as int].id)
}

/// Targets with the confidence in them: one alone is exact, several are guesses.
pub open spec fn graded(targets: Seq<usize>) -> Seq<(usize, Confidence)> {
    if targets.len() == 1 {
        seq![(targets[0], Confidence::Exact)]
    } else {
        targets.map_values(|i: usize| (i, Confidence::Guess))
    }
}

/// The order of positions by the place of the definition is a strict weak order.
pub proof fn lemma_place_order(defs: Seq<DefV>)
    ensures
        order::is_order(by_place(defs)),
{
    let lt = by_place(defs);
    assert forall|a: usize, b: usize| #[trigger] lt(a, b) implies !lt(b, a) by {
        let file = defs[a as int].id.file;
        text::lemma_text_order(file, defs[b as int].id.file, file);
    }
    assert forall|a: usize, b: usize, c: usize|
        !(#[trigger] lt(a, b)) && !(#[trigger] lt(b, c)) implies !lt(a, c) by {
        let (x, y, z) = (defs[a as int].id.file, defs[b as int].id.file, defs[c as int].id.file);
        text::lemma_text_order(x, y, z);
        text::lemma_text_order(y, z, x);
        text::lemma_text_order(z, y, x);
        text::lemma_text_order(x, z, y);
        text::lemma_text_order(y, x, z);
    }
}

/// Whether the targets are those that `p` holds of, each of them once. One alone is
/// exact, and of several each is a guess.
pub open spec fn are_graded(hits: Seq<(usize, Confidence)>, p: spec_fn(usize) -> bool) -> bool {
    &&& forall|t: usize| #[trigger] p(t) <==> has_target(hits, t)
    &&& forall|i: int, j: int|
        0 <= i < j < hits.len() ==> (#[trigger] hits[i]).0 != (#[trigger] hits[j]).0
    &&& forall|i: int|
        0 <= i < hits.len() ==> ((#[trigger] hits[i]).1 == Confidence::Exact <==> hits.len() == 1)
}

/// Whether a definition is among the targets.
pub open spec fn has_target(hits: Seq<(usize, Confidence)>, t: usize) -> bool {
    exists|i: int| 0 <= i < hits.len() && (#[trigger] hits[i]).0 == t
}

/// Sorting targets and grading them keeps them.
pub proof fn lemma_graded(
    targets: Seq<usize>,
    lt: spec_fn(usize, usize) -> bool,
    p: spec_fn(usize) -> bool,
)
    requires
        targets.no_duplicates(),
        forall|t: usize| #[trigger] targets.contains(t) <==> p(t),
    ensures
        are_graded(graded(order::stable_sort(targets, lt)), p),
{
    let sorted = order::stable_sort(targets, lt);
    let hits = graded(sorted);
    order::law_sort_orders(targets, lt);
    targets.to_multiset_ensures();
    sorted.to_multiset_ensures();
    targets.lemma_multiset_has_no_duplicates();
    sorted.lemma_multiset_has_no_duplicates_conv();
    assert forall|t: usize| #[trigger] p(t) <==> has_target(hits, t) by {
        assert(targets.contains(t) <==> p(t));
        assert(targets.to_multiset().contains(t) <==> sorted.to_multiset().contains(t));
        if p(t) {
            assert(hits[sorted.index_of(t)].0 == t);
        }
        if has_target(hits, t) {
            let i = choose|i: int| 0 <= i < hits.len() && (#[trigger] hits[i]).0 == t;
            assert(sorted[i] == t);
            assert(sorted.contains(t));
        }
    }
}

pub(crate) fn place_before(a: &DefId, b: &DefId) -> (r: bool)
    ensures
        r == place_lt(a@, b@),
{
    str_lt(a.file.as_str(), b.file.as_str()) || (str_eq(a.file.as_str(), b.file.as_str()) && a.line
        < b.line)
}

/// The positions in the order of file and line.
pub(crate) fn sort_by_place(v: &Vec<usize>, index: &DefIndex) -> (r: Vec<usize>)
    requires
        forall|k: int| 0 <= k < v@.len() ==> (#[trigger] v@[k]) < index.defs@.len(),
    ensures
        r@ == order::stable_sort(v@, by_place(index@.defs)),
{
    let defs: &Vec<Def> = &index.defs;
    let less = |a: usize, b: usize| -> (r: bool)
        requires
            a < defs@.len(),
            b < defs@.len(),
        ensures
            r == place_lt(text::views(defs@)[a as int].id, text::views(defs@)[b as int].id),
        { place_before(&defs[a].id, &defs[b].id) };
    proof {
        lemma_place_order(index@.defs);
    }
    sort_positions(v, less, Ghost(by_place(index@.defs)))
}

/// Targets with the confidence in them.
pub(crate) fn grade(targets: &Vec<usize>) -> (r: Vec<(usize, Confidence)>)
    ensures
        r@ == graded(targets@),
{
    let mut out: Vec<(usize, Confidence)> = Vec::new();
    if targets.len() == 1 {
        out.push((targets[0], Confidence::Exact));
        assert(out@ =~= graded(targets@));
        return out;
    }
    let mut i: usize = 0;
    while i < targets.len()
        invariant
            i <= targets@.len(),
            out@ =~= targets@.take(i as int).map_values(|i: usize| (i, Confidence::Guess)),
        decreases targets@.len() - i,
    {
        out.push((targets[i], Confidence::Guess));
        i += 1;
    }
    assert(targets@.take(i as int) =~= targets@);
    out
}

/// The segments of a path with `::`.
fn segments_of(expr: &str) -> (r: Vec<String>)
    ensures
        text::views(r@) == path_segments(expr@),
{
    proof {
        reveal_strlit("::");
    }
    let parts: Vec<String> = split(expr, "::");
    let ghost all = text::views(parts@);
    let ghost p = |s: Seq<char>| is_segment(s);
    let mut out: Vec<String> = Vec::new();
    let mut i: usize = 0;
    proof {
        reveal(Seq::filter);
        assert(text::views(out@) =~= all.take(0).filter(p));
    }
    while i < parts.len()
        invariant
            i <= parts@.len(),
            all == text::views(parts@),
            p == (|s: Seq<char>| is_segment(s)),
            text::views(out@) == all.take(i as int).filter(p),
        decreases parts@.len() - i,
    {
        let s: &str = parts[i].as_str();
        proof {
            reveal(Seq::filter);
            assert(all.take(i + 1).drop_last() =~= all.take(i as int));
            assert(all.take(i + 1).last() == s@);
        }
        if !s.is_empty() && !str_eq(s, "crate") && !str_eq(s, "self") && !str_eq(s, "super") {
            push_string(&mut out, parts[i].clone());
        }
        i += 1;
    }
    assert(all.take(i as int) =~= all);
    out
}

/// Context-free resolution of a textual query against the definition index.
/// `a::b::f` / `Foo::method` match by qualified-path suffix; `x.method` /
/// `self.method` match methods by name (filtered to a receiver type when the
/// receiver looks like one) plus, for a lowercase qualifier, functions in a
/// matching package (Go's `util.Helper`); a bare name matches any definition.
pub fn resolve_def_query(expr: &str, index: &DefIndex) -> (r: Vec<(usize, Confidence)>)
    requires
        index.wf(),
    ensures
        r@ == def_hits(index@.defs, expr@),
{
    let defs: &Vec<Def> = &index.defs;
    let ghost dv = index@.defs;
    let candidates: Vec<usize> = if contains_text(expr, "::") {
        let segs: Vec<String> = segments_of(expr);
        if segs.len() == 0 {
            Vec::new()
        } else {
            let name: &str = segs[segs.len() - 1].as_str();
            assert(text::views(segs@).last() == name@);
            let named: Vec<usize> = index.named(name);
            let segs_ref: &Vec<String> = &segs;
            let keep = |i: usize| -> (r: bool)
                requires
                    i < defs@.len(),
                ensures
                    r == text::has_suffix(
                        text::views(defs@)[i as int].qualified,
                        text::views(segs_ref@),
                    ),
                {
                    assert(text::views(defs[i as int].qualified@).take(
                        defs[i as int].qualified@.len() as int,
                    ) =~= text::views(defs[i as int].qualified@));
                    ends_with(&defs[i].qualified, defs[i].qualified.len(), segs_ref)
                };
            filter_positions(
                &named,
                keep,
                Ghost(|i: usize| text::has_suffix(dv[i as int].qualified, text::views(segs@))),
            )
        }
    } else {
        match rsplit_once(expr, '.') {
            Some((recv, name)) => {
                let recv_is_type: bool = !str_eq(recv.as_str(), "self") && is_capitalized(
                    recv.as_str(),
                );
                let named: Vec<usize> = index.named(name.as_str());
                let recv_ref: &String = &recv;
                let keep = |i: usize| -> (r: bool)
                    requires
                        i < defs@.len(),
                        recv_is_type == (recv_ref@ != "self"@ && text::capitalized(recv_ref@)),
                    ensures
                        r == answers_dotted(text::views(defs@)[i as int], recv_ref@),
                    {
                        match &defs[i].kind {
                            DefKind::Method { receiver, .. } => !recv_is_type || str_eq(
                                receiver.as_str(),
                                recv_ref.as_str(),
                            ),
                            DefKind::InterfaceMethod { interface } => !recv_is_type || str_eq(
                                interface.as_str(),
                                recv_ref.as_str(),
                            ),
                            DefKind::Function => {
                                let q: &Vec<String> = &defs[i].qualified;
                                !recv_is_type && q.len() >= 2 && str_eq(
                                    q[q.len() - 2].as_str(),
                                    recv_ref.as_str(),
                                )
                            },
                        }
                    };
                filter_positions(
                    &named,
                    keep,
                    Ghost(|i: usize| answers_dotted(dv[i as int], recv@)),
                )
            },
            None => index.named(expr),
        }
    };
    proof {
        assert(dv.len() == defs.len());
        lemma_query_candidates(dv, expr@);
        assert(candidates@ =~= query_candidates(dv, expr@));
    }
    grade(&sort_by_place(&candidates, index))
}

pub proof fn lemma_filter_bound(s: Seq<usize>, p: spec_fn(usize) -> bool, n: nat)
    requires
        forall|k: int| 0 <= k < s.len() ==> (#[trigger] s[k]) < n,
    ensures
        forall|k: int| 0 <= k < s.filter(p).len() ==> (#[trigger] s.filter(p)[k]) < n,
    decreases s.len(),
{
    reveal(Seq::filter);
    if s.len() > 0 {
        let init = s.drop_last();
        assert forall|k: int| 0 <= k < init.len() implies (#[trigger] init[k]) < n by {
            assert(s[k] < n);
        }
        lemma_filter_bound(init, p, n);
        assert(s.last() == s[s.len() - 1]);
        let f = init.filter(p);
        assert forall|k: int| 0 <= k < s.filter(p).len() implies (#[trigger] s.filter(p)[k])
            < n by {
            if k < f.len() {
                assert(f[k] < n);
            }
        }
    }
}

proof fn lemma_query_candidates(defs: Seq<DefV>, expr: Seq<char>)
    requires
        defs.len() <= usize::MAX,
    ensures
        forall|k: int|
            0 <= k < query_candidates(defs, expr).len() ==> (#[trigger] query_candidates(
                defs,
                expr,
            )[k]) < defs.len(),
{
    if text::find_text(expr, 0, "::"@) is Some {
        let segs = path_segments(expr);
        if segs.len() > 0 {
            lemma_positions(defs, segs.last());
            lemma_filter_bound(
                positions(defs, segs.last()),
                |i: usize| text::has_suffix(defs[i as int].qualified, segs),
                defs.len(),
            );
        }
    } else {
        match text::rsplit_once_spec(expr, '.') {
            Some((recv, name)) => {
                lemma_positions(defs, name);
                lemma_filter_bound(
                    positions(defs, name),
                    |i: usize| answers_dotted(defs[i as int], recv),
                    defs.len(),
                );
            },
            None => {
                lemma_positions(defs, expr);
            },
        }
    }
}

// ── `ctsq def` ────────────────────────────────────────────────────────────────

/// What the first file with a name holds.
pub open spec fn source_of(files: Seq<FileV>, file: Seq<char>) -> Option<Seq<u8>>
    decreases files.len(),
{
    if files.len() == 0 {
        None
    } else if files[0].file == file {
        files[0].source
    } else {
        source_of(files.drop_first(), file)
    }
}

/// The line of a definition, without the white space around it.
pub open spec fn line_text(files: Seq<FileV>, id: DefIdV) -> Seq<char> {
    match source_of(files, id.file) {
        Some(source) => if vstd::utf8::valid_utf8(source) {
            match text::line_at(
                vstd::utf8::decode_utf8(source),
                if id.line > 0 {
                    (id.line - 1) as nat
                } else {
                    0
                },
            ) {
                Some(line) => text::trimmed(line),
                None => ""@,
            }
        } else {
            ""@
        },
        None => ""@,
    }
}

/// The line that shows a definition; one that is a guess is marked.
pub open spec fn def_line(files: Seq<FileV>, d: DefV, conf: Confidence) -> Seq<char> {
    d.id.file + ":"@ + text::decimal_digits(d.id.line as nat) + ": "@ + line_text(files, d.id) + (
    if conf == Confidence::Guess {
        "  ?"@
    } else {
        ""@
    })
}

/// The definitions that an expression asks for, in the order of their places.
pub open spec fn def_hits(defs: Seq<DefV>, expr: Seq<char>) -> Seq<(usize, Confidence)> {
    graded(order::stable_sort(query_candidates(defs, expr), by_place(defs)))
}

/// The definitions that an expression asks for come in the order of their places. One
/// alone is exact, and of several each is a guess.
pub proof fn law_hits_in_order(defs: Seq<DefV>, expr: Seq<char>)
    ensures
        forall|i: int, j: int|
            0 <= i < j < def_hits(defs, expr).len() ==> !place_lt(
                defs[(#[trigger] def_hits(defs, expr)[j]).0 as int].id,
                defs[(#[trigger] def_hits(defs, expr)[i]).0 as int].id,
            ),
        forall|i: int|
            0 <= i < def_hits(defs, expr).len() ==> ((#[trigger] def_hits(defs, expr)[i]).1
                == Confidence::Exact <==> def_hits(defs, expr).len() == 1),
{
    let candidates = query_candidates(defs, expr);
    let sorted = order::stable_sort(candidates, by_place(defs));
    let hits = def_hits(defs, expr);
    lemma_place_order(defs);
    order::law_sort_orders(candidates, by_place(defs));
    assert forall|i: int, j: int| 0 <= i < j < hits.len() implies !place_lt(
        defs[(#[trigger] hits[j]).0 as int].id,
        defs[(#[trigger] hits[i]).0 as int].id,
    ) by {
        assert(!by_place(defs)(sorted[j], sorted[i]));
    }
}

/// The hits are the candidates.
pub proof fn lemma_hits(defs: Seq<DefV>, expr: Seq<char>, i: usize)
    ensures
        has_target(def_hits(defs, expr), i) <==> query_candidates(defs, expr).contains(i),
{
    let candidates = query_candidates(defs, expr);
    let sorted = order::stable_sort(candidates, by_place(defs));
    let hits = def_hits(defs, expr);
    order::law_sort_orders(candidates, by_place(defs));
    candidates.to_multiset_ensures();
    sorted.to_multiset_ensures();
    assert(sorted.to_multiset().contains(i) <==> candidates.to_multiset().contains(i));
    if candidates.contains(i) {
        let k = sorted.index_of(i);
        assert(hits[k].0 == i);
    }
    if has_target(hits, i) {
        let k = choose|k: int| 0 <= k < hits.len() && (#[trigger] hits[k]).0 == i;
        assert(sorted[k] == i);
    }
}

/// A bare name asks for every definition that has it, and for nothing else.
pub proof fn law_bare_name_finds_all(defs: Seq<DefV>, name: Seq<char>, i: usize)
    requires
        defs.len() <= usize::MAX,
        i < defs.len(),
        text::find_text(name, 0, "::"@) is None,
        text::last_index(name, '.') is None,
    ensures
        defs[i as int].name == name <==> has_target(def_hits(defs, name), i),
{
    lemma_hits(defs, name, i);
    assert(query_candidates(defs, name) == positions(defs, name));
    lemma_positions(defs, name);
    if positions(defs, name).contains(i) {
        let m = positions(defs, name).index_of(i);
        assert(positions(defs, name)[m] == i);
    }
}

/// A path asks for the definitions whose own path ends in its segments, and for nothing
/// else.
pub proof fn law_path_finds_endings(defs: Seq<DefV>, expr: Seq<char>, i: usize)
    requires
        defs.len() <= usize::MAX,
        i < defs.len(),
        text::find_text(expr, 0, "::"@) is Some,
    ensures
        has_target(def_hits(defs, expr), i) <==> ({
            let segs = path_segments(expr);
            &&& segs.len() > 0
            &&& defs[i as int].name == segs.last()
            &&& text::has_suffix(defs[i as int].qualified, segs)
        }),
{
    let segs = path_segments(expr);
    lemma_hits(defs, expr, i);
    if segs.len() > 0 {
        let named = positions(defs, segs.last());
        let p = |i: usize| text::has_suffix(defs[i as int].qualified, segs);
        lemma_positions(defs, segs.last());
        assert(query_candidates(defs, expr) == named.filter(p));
        order::lemma_filter_keeps(named, p, i);
        if named.contains(i) {
            let m = named.index_of(i);
            assert(named[m] == i);
        }
    }
}

proof fn lemma_first_colons(p: Seq<char>, s: Seq<char>, i: nat)
    requires
        !p.contains(':'),
        i <= p.len(),
        p.len() + 2 <= s.len(),
        s.take(p.len() as int) == p,
        s.subrange(p.len() as int, p.len() as int + 2) == "::"@,
    ensures
        text::find_text(s, i, "::"@) == Some(p.len()),
    decreases p.len() - i,
{
    reveal_strlit("::");
    if i < p.len() {
        assert(s.take(p.len() as int)[i as int] == s[i as int]);
        assert(p.contains(p[i as int]));
        assert(s.subrange(i as int, i as int + 2)[0] == s[i as int]);
        lemma_first_colons(p, s, i + 1);
    }
}

/// A path with one more segment in front has the segments of the path, with that segment
/// in front. `crate`, `self`, `super` and nothing at all are no segments.
pub proof fn law_segment_in_front(p: Seq<char>, expr: Seq<char>)
    requires
        !p.contains(':'),
    ensures
        path_segments(p + "::"@ + expr) == (if is_segment(p) {
            seq![p]
        } else {
            Seq::empty()
        }) + path_segments(expr),
        text::find_text(p + "::"@ + expr, 0, "::"@) is Some,
{
    reveal_strlit("::");
    let sep = "::"@;
    let head = p + sep;
    let s = head + expr;
    assert(s.take(p.len() as int) =~= p);
    assert(s.subrange(p.len() as int, p.len() as int + 2) =~= sep);
    lemma_first_colons(p, s, 0);
    text::lemma_split_shifted(head, expr, 0, sep);
    assert(s.subrange(0, p.len() as int) =~= p);
    let keep = |s: Seq<char>| is_segment(s);
    let rest = text::split_spec(expr, sep);
    assert(text::split_spec(s, sep) == seq![p] + rest);
    Seq::filter_distributes_over_add(seq![p], rest, keep);
    reveal(Seq::filter);
    assert(seq![p].drop_last() =~= Seq::empty());
    assert(seq![p].drop_last().filter(keep) =~= Seq::empty());
    assert(seq![p].filter(keep) =~= if is_segment(p) {
        seq![p]
    } else {
        Seq::empty()
    });
}

/// `crate::`, `self::` or `super::` in front of a path changes nothing.
pub proof fn law_root_in_front_changes_nothing(defs: Seq<DefV>, root: Seq<char>, expr: Seq<char>)
    requires
        root == "crate"@ || root == "self"@ || root == "super"@,
        text::find_text(expr, 0, "::"@) is Some,
    ensures
        def_hits(defs, root + "::"@ + expr) == def_hits(defs, expr),
{
    reveal_strlit("crate");
    reveal_strlit("self");
    reveal_strlit("super");
    assert(!root.contains(':'));
    law_segment_in_front(root, expr);
    assert(path_segments(root + "::"@ + expr) =~= path_segments(expr));
}

proof fn lemma_bare_segments(name: Seq<char>)
    requires
        text::find_text(name, 0, "::"@) is None,
        path_segments(name).len() > 0,
    ensures
        path_segments(name) == seq![name],
{
    reveal_strlit("::");
    let keep = |s: Seq<char>| is_segment(s);
    let one = text::split_spec(name, "::"@);
    assert(name.subrange(0, name.len() as int) =~= name);
    assert(one =~= seq![name]);
    reveal(Seq::filter);
    assert(one.drop_last() =~= Seq::empty());
    assert(one.drop_last().filter(keep) =~= Seq::empty());
    assert(one.filter(keep) =~= seq![name]);
}

/// A longer path only narrows what is found: what a path asks for, every path or bare name
/// asks for, too, whose segments it ends in. (Without any segment nothing is asked for.)
pub proof fn law_longer_path_narrows(
    defs: Seq<DefV>,
    longer: Seq<char>,
    expr: Seq<char>,
    i: usize,
)
    requires
        defs.len() <= usize::MAX,
        i < defs.len(),
        text::find_text(longer, 0, "::"@) is Some,
        text::find_text(expr, 0, "::"@) is Some || text::last_index(expr, '.') is None,
        path_segments(expr).len() > 0,
        text::has_suffix(path_segments(longer), path_segments(expr)),
    ensures
        has_target(def_hits(defs, longer), i) ==> has_target(def_hits(defs, expr), i),
{
    let long = path_segments(longer);
    let short = path_segments(expr);
    let q = defs[i as int].qualified;
    law_path_finds_endings(defs, longer, i);
    if has_target(def_hits(defs, longer), i) {
        let n = long.len() - short.len();
        assert(long.skip(n)[short.len() - 1] == long[n + short.len() - 1]);
        assert(long.last() == short.last());
        if text::find_text(expr, 0, "::"@) is Some {
            law_path_finds_endings(defs, expr, i);
            assert(q.skip(q.len() - short.len()) =~= short) by {
                assert forall|k: int| 0 <= k < short.len() implies q[q.len() - short.len() + k]
                    == short[k] by {
                    assert(q.skip(q.len() - long.len())[n + k] == long[n + k]);
                    assert(long.skip(n)[k] == long[n + k]);
                }
            }
        } else {
            lemma_bare_segments(expr);
            law_bare_name_finds_all(defs, expr, i);
        }
    }
}

/// The lines that show the definitions of a project that an expression asks for.
pub open spec fn def_lines(files: Seq<FileV>, expr: Seq<char>) -> Result<
    Seq<Seq<char>>,
    Seq<char>,
> {
    let defs = graph::indexed(files).defs;
    let hits = def_hits(defs, expr);
    if hits.len() == 0 {
        Err("no definition found for '"@ + expr + "'"@)
    } else {
        Ok(
            hits.map_values(
                |h: (usize, Confidence)| def_line(files, defs[h.0 as int], h.1),
            ),
        )
    }
}

/// What the first file with a name holds.
fn find_source<'a>(files: &'a Vec<SourceFile>, file: &str) -> (r: Option<&'a Vec<u8>>)
    ensures
        (match r {
            Some(v) => Some(v@),
            None => None,
        }) == source_of(text::views(files@), file@),
{
    let ghost all = text::views(files@);
    let mut i: usize = 0;
    assert(all.skip(0) =~= all);
    while i < files.len()
        invariant
            i <= files@.len(),
            all == text::views(files@),
            source_of(all, file@) == source_of(all.skip(i as int), file@),
        decreases files@.len() - i,
    {
        assert(all.skip(i as int)[0] == files@[i as int]@);
        assert(all.skip(i as int).drop_first() =~= all.skip(i + 1));
        if str_eq(files[i].file.as_str(), file) {
            return match &files[i].source {
                Some(s) => Some(s),
                None => None,
            };
        }
        i += 1;
    }
    None
}

fn find_line(files: &Vec<SourceFile>, id: &DefId) -> (r: String)
    ensures
        r@ == line_text(text::views(files@), id@),
{
    if let Some(source) = find_source(files, id.file.as_str()) {
        if let Some(content) = utf8_text(source.as_slice()) {
            if let Some(line) = nth_line(content.as_str(), id.line.saturating_sub(1)) {
                return trim(line.as_str());
            }
        }
    }
    "".to_string()
}

fn show_def(files: &Vec<SourceFile>, d: &Def, conf: Confidence) -> (r: String)
    ensures
        r@ == def_line(text::views(files@), d@, conf),
{
    let mut line: String = d.id.file.clone();
    line.append(":");
    line.append(decimal(d.id.line).as_str());
    line.append(": ");
    line.append(find_line(files, &d.id).as_str());
    let mark: &str = match conf {
        Confidence::Guess => "  ?",
        Confidence::Exact => "",
    };
    line.append(mark);
    line
}

proof fn lemma_hits_known(defs: Seq<DefV>, expr: Seq<char>)
    requires
        defs.len() <= usize::MAX,
    ensures
        forall|k: int|
            0 <= k < def_hits(defs, expr).len() ==> (#[trigger] def_hits(defs, expr)[k]).0
                < defs.len(),
{
    let candidates = query_candidates(defs, expr);
    let sorted = order::stable_sort(candidates, by_place(defs));
    lemma_query_candidates(defs, expr);
    order::lemma_sort_bound(candidates, by_place(defs), defs.len());
    assert forall|k: int| 0 <= k < graded(sorted).len() implies (#[trigger] graded(sorted)[k]).0
        < defs.len() by {
        assert(sorted[k] < defs.len());
    }
}

/// Resolved definition locations for a name, qualified path, or method expression, line by
/// line.
pub fn run_def(expr: &str, files: &Vec<SourceFile>) -> (r: Result<Vec<String>, String>)
    ensures
        runner::lines_view(r) == def_lines(text::views(files@), expr@),
{
    let ghost fv = text::views(files@);
    let index: DefIndex = graph::build_index(files);
    let ghost defs = index@.defs;
    let hits: Vec<(usize, Confidence)> = resolve_def_query(expr, &index);
    if hits.len() == 0 {
        let mut message: String = "no definition found for '".to_string();
        message.append(expr);
        message.append("'");
        return Err(message);
    }
    let ghost want = hits@.map_values(
        |h: (usize, Confidence)| def_line(fv, defs[h.0 as int], h.1),
    );
    proof {
        assert(index.defs.len() == defs.len());
        lemma_hits_known(defs, expr@);
    }
    let mut out: Vec<String> = Vec::new();
    let mut i: usize = 0;
    assert(text::views(out@) =~= want.take(0));
    while i < hits.len()
        invariant
            i <= hits@.len(),
            fv == text::views(files@),
            defs == index@.defs,
            forall|k: int| 0 <= k < hits@.len() ==> (#[trigger] hits@[k]).0 < defs.len(),
            want == hits@.map_values(
                |h: (usize, Confidence)| def_line(fv, defs[h.0 as int], h.1),
            ),
            text::views(out@) == want.take(i as int),
        decreases hits@.len() - i,
    {
        let (k, conf) = hits[i];
        assert(hits@[i as int].0 < defs.len());
        assert(defs[k as int] == index.defs@[k as int]@);
        push_string(&mut out, show_def(files, &index.defs[k], conf));
        i += 1;
        assert(text::views(out@) =~= want.take(i as int));
    }
    assert(want.take(i as int) =~= want);
    Ok(out)
}

} // verus!
