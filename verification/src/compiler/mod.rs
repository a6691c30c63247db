//! Compilation of queries to tree-sitter patterns.

pub mod lang;
pub mod patterns;

use vstd::prelude::*;
use crate::compiler::lang::{Lang, Table, TsVariant, VariantV};
use crate::query::ast::{
    Atom, AtomV, Combinator, FieldAccess, FieldAccessV, NameMatch, NameMatchV, Query, QueryV,
    Selector, SelectorNode, SelectorNodeV, SelectorV, Sigil,
};
use crate::text;
use crate::text::{
    chars_of, clone_opt, clone_strings, decimal, join, opt_eq, push_string, starts_with, str_eq,
    strings_eq,
};

verus! {

broadcast use vstd::string::group_string_axioms;

/// A search: what is searched for strictly inside the node of a capture.
#[derive(Debug)]
pub struct Search {
    pub capture: String,
    pub pattern: String,
}

/// View of a [`Search`]: the capture and the pattern.
pub type SearchV = (Seq<char>, Seq<char>);

impl View for Search {
    type V = SearchV;

    open spec fn view(&self) -> SearchV {
        (self.capture@, self.pattern@)
    }
}

impl Clone for Search {
    fn clone(&self) -> (r: Self)
        ensures
            r@ == self@,
    {
        Search { capture: self.capture.clone(), pattern: self.pattern.clone() }
    }
}

/// Copies searches.
pub fn clone_searches(v: &Vec<Search>) -> (r: Vec<Search>)
    ensures
        text::views(r@) == text::views(v@),
{
    let mut out: Vec<Search> = Vec::new();
    extend_searches(&mut out, v);
    assert(text::views(out@) =~= text::views(v@));
    out
}

/// Appends searches to others.
fn extend_searches(v: &mut Vec<Search>, more: &Vec<Search>)
    ensures
        text::views(final(v)@) == text::views(old(v)@) + text::views(more@),
{
    let ghost all = text::views(v@) + text::views(more@);
    let ghost n = v@.len() as int;
    let mut i: usize = 0;
    assert(text::views(v@) =~= all.take(n));
    while i < more.len()
        invariant
            i <= more@.len(),
            n == old(v)@.len(),
            all == text::views(old(v)@) + text::views(more@),
            text::views(v@) == all.take(n + i),
        decreases more@.len() - i,
    {
        push_search(v, more[i].clone());
        i += 1;
        assert(all.take(n + i) =~= all.take(n + i - 1).push(all[n + i - 1]));
    }
    assert(all.take(n + i) =~= all);
}

/// Appends a search.
fn push_search(v: &mut Vec<Search>, s: Search)
    ensures
        text::views(final(v)@) == text::views(old(v)@).push(s@),
{
    let ghost before = v@;
    v.push(s);
    assert(text::views(v@) =~= text::views(before).push(s@));
}

/// Whether searches are the same.
fn searches_eq(a: &Vec<Search>, b: &Vec<Search>) -> (r: bool)
    ensures
        r == (text::views(a@) == text::views(b@)),
{
    let ghost x = text::views(a@);
    let ghost y = text::views(b@);
    assert(x.len() == a@.len() && y.len() == b@.len());
    if a.len() != b.len() {
        return false;
    }
    let mut i: usize = 0;
    while i < a.len()
        invariant
            i <= a@.len(),
            a@.len() == b@.len(),
            x == text::views(a@),
            y == text::views(b@),
            forall|k: int| 0 <= k < i ==> x[k] == y[k],
        decreases a@.len() - i,
    {
        assert(x[i as int] == a@[i as int]@ && y[i as int] == b@[i as int]@);
        if !(str_eq(a[i].capture.as_str(), b[i].capture.as_str()) && str_eq(
            a[i].pattern.as_str(),
            b[i].pattern.as_str(),
        )) {
            return false;
        }
        i += 1;
    }
    assert(x =~= y);
    true
}

/// Whether a search is in a list.
fn contains_search(v: &Vec<Search>, s: &Search) -> (r: bool)
    ensures
        r == text::views(v@).contains(s@),
{
    let ghost all = text::views(v@);
    let mut i: usize = 0;
    while i < v.len()
        invariant
            i <= v@.len(),
            all == text::views(v@),
            forall|k: int| 0 <= k < i ==> all[k] != s@,
        decreases v@.len() - i,
    {
        assert(all[i as int] == v@[i as int]@);
        if str_eq(v[i].capture.as_str(), s.capture.as_str()) && str_eq(
            v[i].pattern.as_str(),
            s.pattern.as_str(),
        ) {
            return true;
        }
        i += 1;
    }
    false
}

/// The searches without those that an earlier one repeats.
fn dedup_searches(v: &Vec<Search>) -> (r: Vec<Search>)
    ensures
        text::views(r@) == text::distinct(text::views(v@)),
{
    let ghost all = text::views(v@);
    let mut out: Vec<Search> = Vec::new();
    let mut i: usize = 0;
    assert(text::views(out@) =~= Seq::empty());
    while i < v.len()
        invariant
            i <= v@.len(),
            all == text::views(v@),
            text::views(out@) == text::distinct(all.take(i as int)),
        decreases v@.len() - i,
    {
        assert(all.take(i + 1).drop_last() =~= all.take(i as int));
        assert(all.take(i + 1).last() == v@[i as int]@);
        if !contains_search(&out, &v[i]) {
            push_search(&mut out, v[i].clone());
        }
        i += 1;
    }
    assert(all.take(i as int) =~= all);
    out
}

/// The compiled output of a query.
#[derive(Debug)]
pub enum CompiledQuery {
    /// A single tree-sitter pattern — executed directly.
    Simple(String),
    /// Two-phase scoped search: run `outer` to find container nodes, navigate each to
    /// `scope_field`, then search that subtree with `inner`.
    Scoped { outer: String, scope_field: String, inner: String },
    /// A pattern and the searches that are made inside the nodes of its matches.
    Searched { pattern: String, searches: Vec<Search> },
    /// Two-phase scoped search in the outermost nodes of the outer matches, where the
    /// patterns have searches or capture further nodes.
    ScopedSearch {
        outer: String,
        outer_searches: Vec<Search>,
        scope_field: String,
        inner: String,
        inner_searches: Vec<Search>,
    },
}

/// View of a [`CompiledQuery`].
#[verifier::ext_equal]
pub enum CompiledV {
    Simple(Seq<char>),
    Scoped { outer: Seq<char>, scope_field: Seq<char>, inner: Seq<char> },
    Searched { pattern: Seq<char>, searches: Seq<SearchV> },
    ScopedSearch {
        outer: Seq<char>,
        outer_searches: Seq<SearchV>,
        scope_field: Seq<char>,
        inner: Seq<char>,
        inner_searches: Seq<SearchV>,
    },
}

impl View for CompiledQuery {
    type V = CompiledV;

    open spec fn view(&self) -> CompiledV {
        match *self {
            CompiledQuery::Simple(s) => CompiledV::Simple(s@),
            CompiledQuery::Scoped { outer, scope_field, inner } => CompiledV::Scoped {
                outer: outer@,
                scope_field: scope_field@,
                inner: inner@,
            },
            CompiledQuery::Searched { pattern, searches } => CompiledV::Searched {
                pattern: pattern@,
                searches: text::views(searches@),
            },
            CompiledQuery::ScopedSearch {
                outer,
                outer_searches,
                scope_field,
                inner,
                inner_searches,
            } => CompiledV::ScopedSearch {
                outer: outer@,
                outer_searches: text::views(outer_searches@),
                scope_field: scope_field@,
                inner: inner@,
                inner_searches: text::views(inner_searches@),
            },
        }
    }
}

impl Clone for CompiledQuery {
    fn clone(&self) -> (r: Self)
        ensures
            r@ == self@,
    {
        match self {
            CompiledQuery::Simple(s) => CompiledQuery::Simple(s.clone()),
            CompiledQuery::Scoped { outer, scope_field, inner } => CompiledQuery::Scoped {
                outer: outer.clone(),
                scope_field: scope_field.clone(),
                inner: inner.clone(),
            },
            CompiledQuery::Searched { pattern, searches } => CompiledQuery::Searched {
                pattern: pattern.clone(),
                searches: clone_searches(searches),
            },
            CompiledQuery::ScopedSearch {
                outer,
                outer_searches,
                scope_field,
                inner,
                inner_searches,
            } => CompiledQuery::ScopedSearch {
                outer: outer.clone(),
                outer_searches: clone_searches(outer_searches),
                scope_field: scope_field.clone(),
                inner: inner.clone(),
                inner_searches: clone_searches(inner_searches),
            },
        }
    }
}

/// Whether a compiled query matches nothing because a part of it has no pattern.
pub open spec fn has_no_pattern(c: CompiledV) -> bool {
    match c {
        CompiledV::Simple(s) => s.len() == 0,
        CompiledV::Scoped { outer, inner, .. } => outer.len() == 0 || inner.len() == 0,
        CompiledV::Searched { pattern, .. } => pattern.len() == 0,
        CompiledV::ScopedSearch { outer, inner, .. } => outer.len() == 0 || inner.len() == 0,
    }
}

impl CompiledQuery {
    pub fn is_empty(&self) -> (r: bool)
        ensures
            r == has_no_pattern(self@),
    {
        match self {
            CompiledQuery::Simple(s) => s.as_str().is_empty(),
            CompiledQuery::Scoped { outer, inner, .. } => outer.as_str().is_empty()
                || inner.as_str().is_empty(),
            CompiledQuery::Searched { pattern, .. } => pattern.as_str().is_empty(),
            CompiledQuery::ScopedSearch { outer, inner, .. } => outer.as_str().is_empty()
                || inner.as_str().is_empty(),
        }
    }
}

// ---------------------------------------------------------------------------
// Identifiers of internal captures
// ---------------------------------------------------------------------------

/// The identifier after `id`; the last one is followed by the first one.
pub open spec fn next_id(id: usize) -> usize {
    if id == usize::MAX {
        0
    } else {
        (id + 1) as usize
    }
}

/// Takes the next identifier.
fn fresh_id(ids: &mut usize) -> (r: usize)
    ensures
        r == *old(ids),
        *final(ids) == next_id(*old(ids)),
{
    let id: usize = *ids;
    *ids = id.wrapping_add(1);
    id
}

// ---------------------------------------------------------------------------
// Fragment — structured intermediate representation of a compiled TS pattern.
//
// Serialised form:
//   the node alone:  (node_body) @outer_cap
//   otherwise:       ((node_body) @outer_cap marks siblings pred1 pred2 ...)
//
// `marks` are further captures of the node. `siblings` are the patterns of nodes
// that follow under the same parent. `inside` are the searches that are made in the
// nodes of the marks: tree-sitter patterns nest direct children only, so what may
// stand at any depth is searched for on its own. `deep_captures` says whether other
// nodes of the pattern than its own may have captures that are shown.
// `pending_name_match` is set for "self-name" nodes (e.g. identifier) where
// the node's own text IS the name. It is resolved against the outer_capture
// (provided by a Group) before emitting, producing a concrete predicate.
// ---------------------------------------------------------------------------

/// A fragment of a pattern.
pub struct Fragment {
    pub node_body: String,
    pub marks: String,
    pub siblings: String,
    pub predicates: Vec<String>,
    pub inside: Vec<Search>,
    pub deep_captures: bool,
    pub outer_capture: Option<String>,
    /// Deferred name predicate for nodes where the node itself is the name.
    /// Resolved when a Group provides outer_capture, or at emit time.
    pub pending_name_match: Option<NameMatch>,
    // Field routing — set from whichever TsVariant produced this fragment
    pub params_field: Option<&'static str>,
    pub params_container: Option<&'static str>,
    pub params_needs_bridge: bool,
    pub body_field: Option<&'static str>,
    pub body_container: Option<&'static str>,
}

/// View of a fragment of a pattern.
#[verifier::ext_equal]
pub struct FragmentV {
    pub node_body: Seq<char>,
    pub marks: Seq<char>,
    pub siblings: Seq<char>,
    pub predicates: Seq<Seq<char>>,
    pub inside: Seq<SearchV>,
    pub deep_captures: bool,
    pub outer_capture: Option<Seq<char>>,
    pub pending: Option<NameMatchV>,
    pub params_field: Option<Seq<char>>,
    pub params_container: Option<Seq<char>>,
    pub params_needs_bridge: bool,
    pub body_field: Option<Seq<char>>,
    pub body_container: Option<Seq<char>>,
}

impl View for Fragment {
    type V = FragmentV;

    open spec fn view(&self) -> FragmentV {
        FragmentV {
            node_body: self.node_body@,
            marks: self.marks@,
            siblings: self.siblings@,
            predicates: text::views(self.predicates@),
            inside: text::views(self.inside@),
            deep_captures: self.deep_captures,
            outer_capture: text::opt_view(self.outer_capture),
            pending: text::opt_view(self.pending_name_match),
            params_field: lang::opt_str(self.params_field),
            params_container: lang::opt_str(self.params_container),
            params_needs_bridge: self.params_needs_bridge,
            body_field: lang::opt_str(self.body_field),
            body_container: lang::opt_str(self.body_container),
        }
    }
}

/// A fragment that is a node and nothing more.
pub open spec fn plain_fragment(node: Seq<char>, pending: Option<NameMatchV>) -> FragmentV {
    FragmentV {
        node_body: node,
        marks: Seq::empty(),
        siblings: Seq::empty(),
        predicates: Seq::empty(),
        inside: Seq::empty(),
        deep_captures: false,
        outer_capture: None,
        pending,
        params_field: None,
        params_container: None,
        params_needs_bridge: false,
        body_field: None,
        body_container: None,
    }
}

/// How a character stands in a string of a pattern.
pub open spec fn escaped_char(c: char) -> Seq<char> {
    if c == '\\' {
        seq!['\\', '\\']
    } else if c == '"' {
        seq!['\\', '"']
    } else if c == '\n' {
        seq!['\\', 'n']
    } else {
        seq![c]
    }
}

/// How a text stands in a string of a pattern.
pub open spec fn escaped(s: Seq<char>) -> Seq<char>
    decreases s.len(),
{
    if s.len() == 0 {
        Seq::empty()
    } else {
        escaped(s.drop_last()) + escaped_char(s.last())
    }
}

/// The predicate that the text of a capture is as `nm` says.
pub open spec fn name_predicate_spec(cap: Seq<char>, nm: NameMatchV) -> Seq<char> {
    match nm {
        NameMatchV::Exact(s) => "(#eq? "@ + cap + " \""@ + escaped(s) + "\")"@,
        NameMatchV::Regex(s) => "(#match? "@ + cap + " \""@ + escaped(s) + "\")"@,
    }
}

/// A fragment whose pending name is a predicate on its capture, a new one if it has none.
pub open spec fn resolved(f: FragmentV, ids: usize) -> (FragmentV, usize) {
    match f.pending {
        None => (f, ids),
        Some(nm) => {
            let (cap, ids1) = match f.outer_capture {
                Some(c) => (c, ids),
                None => ("_nm"@ + text::decimal_digits(ids as nat), next_id(ids)),
            };
            (
                FragmentV {
                    predicates: f.predicates.push(name_predicate_spec("@"@ + cap, nm)),
                    outer_capture: Some(cap),
                    pending: None,
                    ..f
                },
                ids1,
            )
        },
    }
}

/// The text of a fragment on its own.
pub open spec fn emitted(f: FragmentV, ids: usize) -> (Seq<char>, usize) {
    let (g, ids1) = resolved(f, ids);
    let (cap, ids2) = match g.outer_capture {
        Some(c) => (c, ids1),
        None => ("_root"@ + text::decimal_digits(ids1 as nat), next_id(ids1)),
    };
    let with_cap = "("@ + g.node_body + ")"@ + " @"@ + cap + g.marks + g.siblings;
    if g.predicates.len() != 0 {
        ("("@ + with_cap + " "@ + text::join_spec(g.predicates, " "@) + ")"@, ids2)
    } else if g.siblings.len() != 0 {
        ("("@ + with_cap + ")"@, ids2)
    } else {
        (with_cap, ids2)
    }
}

/// The text of a fragment inside another one; its predicates are lifted.
pub open spec fn inlined(f: FragmentV) -> Seq<char> {
    match f.outer_capture {
        Some(cap) => "("@ + f.node_body + ")"@ + " @"@ + cap + f.marks + f.siblings,
        None => "("@ + f.node_body + ")"@ + f.marks + f.siblings,
    }
}

/// A text as it stands in a string of a pattern.
fn escape(s: &str) -> (r: String)
    ensures
        r@ == escaped(s@),
{
    let chars: Vec<char> = chars_of(s);
    let mut out: String = String::new();
    let mut i: usize = 0;
    assert(s@.take(0) =~= Seq::empty());
    while i < chars.len()
        invariant
            i <= chars@.len(),
            chars@ == s@,
            out@ == escaped(s@.take(i as int)),
        decreases chars@.len() - i,
    {
        let c: char = chars[i];
        assert(s@.take(i + 1).drop_last() =~= s@.take(i as int));
        assert(s@.take(i + 1).last() == c);
        let ghost before = out@;
        if c == '\\' || c == '"' {
            out.push('\\');
            out.push(c);
        } else if c == '\n' {
            out.push('\\');
            out.push('n');
        } else {
            out.push(c);
        }
        assert(out@ =~= before + escaped_char(c));
        i += 1;
    }
    assert(s@.take(i as int) =~= s@);
    out
}

fn name_predicate(cap: &str, nm: &NameMatch) -> (r: String)
    ensures
        r@ == name_predicate_spec(cap@, nm@),
{
    let (mut out, s): (String, &String) = match nm {
        NameMatch::Exact(s) => ("(#eq? ".to_string(), s),
        NameMatch::Regex(s) => ("(#match? ".to_string(), s),
    };
    out.append(cap);
    out.append(" \"");
    out.append(escape(s.as_str()).as_str());
    out.append("\")");
    out
}

/// `@` and the name of a capture.
fn at(cap: &str) -> (r: String)
    ensures
        r@ == "@"@ + cap@,
{
    let mut out: String = "@".to_string();
    out.append(cap);
    out
}

/// A prefix and a number.
fn numbered(prefix: &str, id: usize) -> (r: String)
    ensures
        r@ == prefix@ + text::decimal_digits(id as nat),
{
    let mut out: String = prefix.to_string();
    out.append(decimal(id).as_str());
    out
}

impl Fragment {
    fn copy(&self) -> (r: Self)
        ensures
            r@ == self@,
    {
        Fragment {
            node_body: self.node_body.clone(),
            marks: self.marks.clone(),
            siblings: self.siblings.clone(),
            predicates: clone_strings(&self.predicates),
            inside: clone_searches(&self.inside),
            deep_captures: self.deep_captures,
            outer_capture: clone_opt(&self.outer_capture),
            pending_name_match: match &self.pending_name_match {
                Some(m) => Some(m.clone()),
                None => None,
            },
            params_field: self.params_field,
            params_container: self.params_container,
            params_needs_bridge: self.params_needs_bridge,
            body_field: self.body_field,
            body_container: self.body_container,
        }
    }

    /// Resolve `pending_name_match` against the current `outer_capture` (or a fresh internal cap).
    fn resolve(&mut self, ids: &mut usize)
        ensures
            (final(self)@, *final(ids)) == resolved(old(self)@, *old(ids)),
    {
        let pending: Option<NameMatch> = self.pending_name_match.take();
        if let Some(nm) = pending {
            let cap: String = match &self.outer_capture {
                Some(c) => c.clone(),
                None => numbered("_nm", fresh_id(ids)),
            };
            push_string(&mut self.predicates, name_predicate(at(cap.as_str()).as_str(), &nm));
            self.outer_capture = Some(cap);
        }
    }

    fn emit(self, ids: &mut usize) -> (r: String)
        ensures
            (r@, *final(ids)) == emitted(self@, *old(ids)),
    {
        let mut frag = self;
        frag.resolve(ids);
        let cap: String = match &frag.outer_capture {
            Some(c) => c.clone(),
            None => numbered("_root", fresh_id(ids)),
        };
        let mut with_cap: String = "(".to_string();
        with_cap.append(frag.node_body.as_str());
        with_cap.append(")");
        with_cap.append(" @");
        with_cap.append(cap.as_str());
        with_cap.append(frag.marks.as_str());
        with_cap.append(frag.siblings.as_str());
        proof {
            reveal_strlit("");
            if frag.siblings@.len() == 0 {
                assert(frag.siblings@ =~= ""@);
            }
        }
        if frag.predicates.len() != 0 {
            let mut out: String = "(".to_string();
            out.append(with_cap.as_str());
            out.append(" ");
            out.append(join(&frag.predicates, " ").as_str());
            out.append(")");
            out
        } else if !str_eq(frag.siblings.as_str(), "") {
            let mut out: String = "(".to_string();
            out.append(with_cap.as_str());
            out.append(")");
            out
        } else {
            with_cap
        }
    }

    /// Produce the inline node string for use inside a field position (no outer predicates).
    fn inline(&self) -> (r: String)
        ensures
            r@ == inlined(self@),
    {
        let mut out: String = "(".to_string();
        out.append(self.node_body.as_str());
        out.append(")");
        if let Some(cap) = &self.outer_capture {
            out.append(" @");
            out.append(cap.as_str());
        }
        out.append(self.marks.as_str());
        out.append(self.siblings.as_str());
        out
    }

    /// Whether the fragment has captures that may be shown.
    fn is_captured(&self) -> (r: bool)
        ensures
            r == may_show(self@),
    {
        if self.deep_captures {
            return true;
        }
        proof {
            reveal_strlit("");
            if self.marks@.len() == 0 {
                assert(self.marks@ =~= ""@);
            }
        }
        if !str_eq(self.marks.as_str(), "") {
            return true;
        }
        self.is_shown()
    }

    /// Whether the capture of the node is shown.
    fn is_shown(&self) -> (r: bool)
        ensures
            r == node_shows(self@),
    {
        match &self.outer_capture {
            Some(c) => !starts_with(c.as_str(), "_"),
            None => false,
        }
    }

    /// Appends the predicates and the searches of another fragment.
    fn lift(&mut self, inner: &Fragment)
        ensures
            final(self)@ == lifted(old(self)@, inner@),
    {
        extend(&mut self.predicates, &inner.predicates);
        extend_searches(&mut self.inside, &inner.inside);
        self.deep_captures = self.deep_captures || inner.is_captured();
    }
}

/// Appends texts to others.
fn extend(v: &mut Vec<String>, more: &Vec<String>)
    ensures
        text::views(final(v)@) == text::views(old(v)@) + text::views(more@),
{
    let mut copy: Vec<String> = clone_strings(more);
    let ghost a = v@;
    let ghost b = copy@;
    v.append(&mut copy);
    assert(text::views(v@) =~= text::views(a) + text::views(b));
}

// ---------------------------------------------------------------------------
// Atoms
// ---------------------------------------------------------------------------

/// The pattern of a name that lies in the nodes of `path`, from the outermost on.
pub open spec fn along(path: Seq<(Seq<char>, Seq<char>)>, inner: Seq<char>) -> Seq<char>
    decreases path.len(),
{
    if path.len() == 0 {
        inner
    } else {
        "("@ + path[0].0 + " "@ + path[0].1 + ": "@ + along(path.drop_first(), inner) + ")"@
    }
}

/// The fragment of one variant of a known type.
pub open spec fn variant_fragment(v: VariantV, atom: AtomV, ids: usize) -> (FragmentV, usize) {
    let routed = FragmentV {
        params_field: v.params_field,
        params_container: v.params_container,
        params_needs_bridge: v.params_needs_bridge,
        body_field: v.body_field,
        body_container: v.body_container,
        ..plain_fragment(v.node, None)
    };
    let frag = match atom.name_match {
        Some(nm) => match v.name_field {
            Some(field) => {
                let cap = "@_n"@ + text::decimal_digits(ids as nat);
                let name = "("@ + v.name_node + ") "@ + cap;
                FragmentV {
                    node_body: v.node + " "@ + field + ": "@ + along(v.name_path, name),
                    predicates: seq![name_predicate_spec(cap, nm)],
                    ..routed
                }
            },
            None => if v.name_node == v.node {
                FragmentV { pending: Some(nm), ..routed }
            } else {
                routed
            },
        },
        None => match v.always_constraint {
            Some(c) => FragmentV { node_body: v.node + c, ..routed },
            None => routed,
        },
    };
    (frag, next_id(ids))
}

/// The fragments of the variants of a known type.
pub open spec fn variant_fragments(vs: Seq<VariantV>, atom: AtomV, ids: usize) -> (
    Seq<FragmentV>,
    usize,
)
    decreases vs.len(),
{
    if vs.len() == 0 {
        (Seq::empty(), ids)
    } else {
        let (init, ids1) = variant_fragments(vs.drop_last(), atom, ids);
        let (f, ids2) = variant_fragment(vs.last(), atom, ids1);
        (init.push(f), ids2)
    }
}

/// The fragments of an atom. Without a type it is any node; an unknown type is the name
/// of a node; a known one is what the language has for it, which may be nothing.
pub open spec fn atom_fragments(table: Table, atom: AtomV, ids: usize) -> (Seq<FragmentV>, usize) {
    match atom.node_type {
        None => (seq![plain_fragment("_"@, atom.name_match)], ids),
        Some(t) => match table(t, atom.sigil) {
            None => (seq![plain_fragment(t, atom.name_match)], ids),
            Some(vs) => variant_fragments(vs, atom, ids),
        },
    }
}

fn plain(node: String, pending_name_match: Option<NameMatch>) -> (r: Fragment)
    ensures
        r@ == plain_fragment(node@, text::opt_view(pending_name_match)),
{
    let r = Fragment {
        node_body: node,
        marks: String::new(),
        siblings: String::new(),
        predicates: Vec::new(),
        inside: Vec::new(),
        deep_captures: false,
        outer_capture: None,
        pending_name_match,
        params_field: None,
        params_container: None,
        params_needs_bridge: false,
        body_field: None,
        body_container: None,
    };
    assert(r@.predicates =~= Seq::empty());
    assert(r@.inside =~= Seq::empty());
    r
}

fn clone_name_match(nm: &Option<NameMatch>) -> (r: Option<NameMatch>)
    ensures
        text::opt_view(r) == text::opt_view(*nm),
{
    match nm {
        Some(m) => Some(m.clone()),
        None => None,
    }
}

fn compile_atom<L: Lang + ?Sized>(atom: &Atom, lang: &L, ids: &mut usize) -> (r: Vec<Fragment>)
    ensures
        (text::views(r@), *final(ids)) == atom_fragments(lang.table(), atom@, *old(ids)),
{
    let node_type: &String = match &atom.node_type {
        Some(t) => t,
        None => {
            let r: Vec<Fragment> = vec![compile_wildcard(atom)];
            assert(text::views(r@) =~= seq![plain_fragment("_"@, atom@.name_match)]);
            return r;
        },
    };
    match lang.resolve(node_type.as_str(), atom.sigil.as_ref()) {
        None => {
            let r: Vec<Fragment> = vec![compile_passthrough(node_type.as_str(), atom)];
            assert(text::views(r@) =~= seq![plain_fragment(node_type@, atom@.name_match)]);
            r
        },
        Some(variants) => {
            let mut r: Vec<Fragment> = Vec::new();
            let ghost vs = text::views(variants@);
            let mut i: usize = 0;
            assert(text::views(r@) =~= Seq::empty());
            while i < variants.len()
                invariant
                    i <= variants@.len(),
                    vs == text::views(variants@),
                    (text::views(r@), *ids) == variant_fragments(
                        vs.take(i as int),
                        atom@,
                        *old(ids),
                    ),
                decreases variants@.len() - i,
            {
                assert(vs.take(i + 1).drop_last() =~= vs.take(i as int));
                let f: Fragment = compile_variant(&variants[i], atom, ids);
                push_fragment(&mut r, f);
                i += 1;
            }
            assert(vs.take(i as int) =~= vs);
            r
        },
    }
}

/// Appends a fragment.
fn push_fragment(v: &mut Vec<Fragment>, f: Fragment)
    ensures
        text::views(final(v)@) == text::views(old(v)@).push(f@),
{
    let ghost before = v@;
    v.push(f);
    assert(text::views(v@) =~= text::views(before).push(f@));
}

fn compile_wildcard(atom: &Atom) -> (r: Fragment)
    ensures
        r@ == plain_fragment("_"@, atom@.name_match),
{
    plain("_".to_string(), clone_name_match(&atom.name_match))
}

/// Unknown / pass-through nodes: their text IS their name, same logic as self-name.
fn compile_passthrough(node_type: &str, atom: &Atom) -> (r: Fragment)
    ensures
        r@ == plain_fragment(node_type@, atom@.name_match),
{
    plain(node_type.to_string(), clone_name_match(&atom.name_match))
}

/// The pattern of a name that lies in the nodes of `path`.
fn wrap_along(path: &'static [(&'static str, &'static str)], inner: String) -> (r: String)
    ensures
        r@ == along(lang::path_view(path@), inner@),
{
    let ghost nodes = lang::path_view(path@);
    let mut out: String = inner;
    let mut i: usize = path.len();
    assert(nodes.skip(i as int) =~= Seq::empty());
    while i > 0
        invariant
            i <= path@.len(),
            nodes == lang::path_view(path@),
            out@ == along(nodes.skip(i as int), inner@),
        decreases i,
    {
        i -= 1;
        let mut wrapped: String = "(".to_string();
        wrapped.append(path[i].0);
        wrapped.append(" ");
        wrapped.append(path[i].1);
        wrapped.append(": ");
        wrapped.append(out.as_str());
        wrapped.append(")");
        out = wrapped;
        assert(nodes.skip(i as int).drop_first() =~= nodes.skip(i + 1));
    }
    assert(nodes.skip(0) =~= nodes);
    out
}

fn compile_variant(variant: &TsVariant, atom: &Atom, ids: &mut usize) -> (r: Fragment)
    ensures
        (r@, *final(ids)) == variant_fragment(variant@, atom@, *old(ids)),
{
    let id: usize = fresh_id(ids);
    let mut node_body: String = variant.node.to_string();
    let mut predicates: Vec<String> = Vec::new();
    let mut pending_name_match: Option<NameMatch> = None;
    assert(text::views(predicates@) =~= Seq::empty());
    match &atom.name_match {
        Some(nm) => {
            match variant.name_field {
                Some(name_field) => {
                    // Name lives in a child field — use an internal capture on that child.
                    let cap: String = numbered("@_n", id);
                    let mut inner: String = "(".to_string();
                    inner.append(variant.name_node);
                    inner.append(") ");
                    inner.append(cap.as_str());
                    node_body.append(" ");
                    node_body.append(name_field);
                    node_body.append(": ");
                    node_body.append(wrap_along(variant.name_path, inner).as_str());
                    push_string(&mut predicates, name_predicate(cap.as_str(), nm));
                    assert(text::views(predicates@) =~= seq![name_predicate_spec(cap@, nm@)]);
                },
                None => {
                    // The node itself IS the name (e.g. identifier). Defer predicate to resolve()
                    // so we can use the outer_capture provided by an enclosing Group. A node
                    // without an accessible name (e.g. arrow_function with name in parent)
                    // still matches, just unfiltered.
                    if str_eq(variant.name_node, variant.node) {
                        pending_name_match = Some(nm.clone());
                    }
                },
            }
        },
        None => {
            if let Some(constraint) = variant.always_constraint {
                node_body.append(constraint);
            }
        },
    }
    let inside: Vec<Search> = Vec::new();
    assert(text::views(inside@) =~= Seq::empty());
    Fragment {
        node_body,
        marks: String::new(),
        siblings: String::new(),
        inside,
        deep_captures: false,
        predicates,
        outer_capture: None,
        pending_name_match,
        params_field: variant.params_field,
        params_container: variant.params_container,
        params_needs_bridge: variant.params_needs_bridge,
        body_field: variant.body_field,
        body_container: variant.body_container,
    }
}

// ---------------------------------------------------------------------------
// Combination of fragments
// ---------------------------------------------------------------------------

/// The fragments with their names resolved, one after another.
pub open spec fn resolved_all(frags: Seq<FragmentV>, ids: usize) -> (Seq<FragmentV>, usize)
    decreases frags.len(),
{
    if frags.len() == 0 {
        (Seq::empty(), ids)
    } else {
        let (init, ids1) = resolved_all(frags.drop_last(), ids);
        let (f, ids2) = resolved(frags.last(), ids1);
        (init.push(f), ids2)
    }
}

/// Whether the capture of the node of a fragment is shown.
pub open spec fn node_shows(f: FragmentV) -> bool {
    match f.outer_capture {
        Some(c) => !text::has_prefix(c, "_"@),
        None => false,
    }
}

/// Whether a fragment has captures that may be shown.
pub open spec fn may_show(f: FragmentV) -> bool {
    f.deep_captures || f.marks.len() > 0 || node_shows(f)
}

/// A fragment with the predicates and the searches of another one that stands in it.
pub open spec fn lifted(f: FragmentV, inner: FragmentV) -> FragmentV {
    FragmentV {
        predicates: f.predicates + inner.predicates,
        inside: f.inside + inner.inside,
        deep_captures: f.deep_captures || may_show(inner),
        ..f
    }
}

/// `tail` joined to `head`: in it as a child, right behind it under the same parent, or
/// anywhere behind it there. (A descendant may be at any depth, and is searched for.)
pub open spec fn joined(head: FragmentV, tail: FragmentV, combinator: Combinator) -> FragmentV {
    let frag = lifted(head, tail);
    match combinator {
        Combinator::Child | Combinator::Descendant => FragmentV {
            node_body: head.node_body + " "@ + inlined(tail),
            ..frag
        },
        Combinator::Adjacent => FragmentV {
            siblings: head.siblings + " . "@ + inlined(tail),
            ..frag
        },
        Combinator::Sibling => FragmentV {
            siblings: head.siblings + " "@ + inlined(tail),
            ..frag
        },
    }
}

/// Every tail joined to every head.
pub open spec fn joined_all(
    heads: Seq<FragmentV>,
    tails: Seq<FragmentV>,
    combinator: Combinator,
) -> Seq<FragmentV>
    decreases heads.len(),
{
    if heads.len() == 0 {
        Seq::empty()
    } else {
        joined_all(heads.drop_last(), tails, combinator) + Seq::new(
            tails.len(),
            |j: int| joined(heads.last(), tails[j], combinator),
        )
    }
}

/// The searches of the fragments, one after another.
pub open spec fn all_inside(frags: Seq<FragmentV>) -> Seq<SearchV>
    decreases frags.len(),
{
    if frags.len() == 0 {
        Seq::empty()
    } else {
        all_inside(frags.drop_last()) + frags.last().inside
    }
}

/// The search for fragments at any depth: the name of the capture of the node that they are
/// inside, and the searches, first that for the fragments, then those inside them.
pub open spec fn search(frags: Seq<FragmentV>, ids: usize) -> (Seq<char>, Seq<SearchV>, usize) {
    let cap = "_in"@ + text::decimal_digits(ids as nat);
    let (pattern, ids1) = alternation(frags, next_id(ids));
    (cap, seq![(cap, pattern)] + all_inside(frags), ids1)
}

/// A fragment in whose node searches are made.
pub open spec fn searched(f: FragmentV, cap: Seq<char>, inside: Seq<SearchV>) -> FragmentV {
    FragmentV { marks: f.marks + " @"@ + cap, inside: f.inside + inside, ..f }
}

/// Fragments in whose nodes searches are made.
pub open spec fn searched_all(
    frags: Seq<FragmentV>,
    cap: Seq<char>,
    inside: Seq<SearchV>,
) -> Seq<FragmentV> {
    frags.map_values(|f: FragmentV| searched(f, cap, inside))
}

/// The fragments of a selector that a combinator joins to others. Where one of the two has
/// no pattern, they have none together.
pub open spec fn combined(
    frags: Seq<FragmentV>,
    more: Seq<FragmentV>,
    combinator: Combinator,
    ids: usize,
) -> (Seq<FragmentV>, usize) {
    if more.len() == 0 {
        (Seq::empty(), ids)
    } else if combinator == Combinator::Descendant {
        let (cap, inside, ids1) = search(more, ids);
        (searched_all(frags, cap, inside), ids1)
    } else {
        let (tails, ids1) = resolved_all(more, ids);
        (joined_all(frags, tails, combinator), ids1)
    }
}

/// A fragment in the node that holds it, where there is such a node. The marks are those of
/// that node, or else of the fragment.
pub open spec fn contained(
    container: Option<Seq<char>>,
    inner: FragmentV,
    marks: Seq<char>,
) -> Seq<char> {
    match container {
        Some(c) => "("@ + c + " "@ + inlined(inner) + ")"@ + marks,
        None => inlined(FragmentV { marks: inner.marks + marks, ..inner }),
    }
}

/// `inner` in the field of `outer` that a field access names. A fragment without such a
/// field drops out.
pub open spec fn injected(
    outer: FragmentV,
    field: Seq<char>,
    inner: FragmentV,
    marks: Seq<char>,
    preds: Seq<Seq<char>>,
) -> Option<FragmentV> {
    let frag = FragmentV {
        predicates: outer.predicates + inner.predicates + preds,
        ..lifted(outer, inner)
    };
    if field == "params"@ {
        match outer.params_field {
            None => None,
            Some(f) => {
                let value = contained(outer.params_container, inner, marks);
                Some(
                    FragmentV {
                        node_body: if outer.params_needs_bridge {
                            outer.node_body + " (_ "@ + f + ": "@ + value + ")"@
                        } else {
                            outer.node_body + " "@ + f + ": "@ + value
                        },
                        ..frag
                    },
                )
            },
        }
    } else {
        Some(
            FragmentV {
                node_body: outer.node_body + " "@ + field + ": "@ + contained(None, inner, marks),
                ..frag
            },
        )
    }
}

/// Each of the inner fragments in the field of `outer`, as far as there is one.
pub open spec fn injected_each(
    outer: FragmentV,
    field: Seq<char>,
    inner: Seq<FragmentV>,
    marks: Seq<char>,
    preds: Seq<Seq<char>>,
) -> Seq<FragmentV>
    decreases inner.len(),
{
    if inner.len() == 0 {
        Seq::empty()
    } else {
        let init = injected_each(outer, field, inner.drop_last(), marks, preds);
        match injected(outer, field, inner.last(), marks, preds) {
            Some(f) => init.push(f),
            None => init,
        }
    }
}

/// Each of the inner fragments in the field of each outer one.
pub open spec fn injected_all(
    outer: Seq<FragmentV>,
    field: Seq<char>,
    inner: Seq<FragmentV>,
    marks: Seq<char>,
    preds: Seq<Seq<char>>,
) -> Seq<FragmentV>
    decreases outer.len(),
{
    if outer.len() == 0 {
        Seq::empty()
    } else {
        injected_all(outer.drop_last(), field, inner, marks, preds) + injected_each(
            outer.last(),
            field,
            inner,
            marks,
            preds,
        )
    }
}

/// A fragment with the node of its body: the container of a body, or any node where there
/// is none. A fragment without a body drops out.
pub open spec fn embodied(
    outer: FragmentV,
    marks: Seq<char>,
    preds: Seq<Seq<char>>,
    inside: Seq<SearchV>,
) -> Option<FragmentV> {
    match outer.body_field {
        None => None,
        Some(f) => {
            let node = match outer.body_container {
                Some(c) => c,
                None => "_"@,
            };
            Some(
                FragmentV {
                    node_body: outer.node_body + " "@ + f + ": ("@ + node + ")"@ + marks,
                    predicates: outer.predicates + preds,
                    inside: outer.inside + inside,
                    ..outer
                },
            )
        },
    }
}

/// The fragments with the nodes of their bodies.
pub open spec fn embodied_all(
    outer: Seq<FragmentV>,
    marks: Seq<char>,
    preds: Seq<Seq<char>>,
    inside: Seq<SearchV>,
) -> Seq<FragmentV>
    decreases outer.len(),
{
    if outer.len() == 0 {
        Seq::empty()
    } else {
        let init = embodied_all(outer.drop_last(), marks, preds, inside);
        match embodied(outer.last(), marks, preds, inside) {
            Some(f) => init.push(f),
            None => init,
        }
    }
}

/// The predicates that the text of a capture matches each of the texts.
pub open spec fn text_predicates(cap: Seq<char>, texts: Seq<Seq<char>>) -> Seq<Seq<char>> {
    texts.map_values(|t: Seq<char>| name_predicate_spec(cap, NameMatchV::Regex(t)))
}

/// Whether a fragment is more than the name of a field.
pub open spec fn is_placed(f: FragmentV) -> bool {
    f.node_body != "field_identifier"@
}

/// The fragments that can stand among arguments or parameters: the name of a field cannot,
/// and drops out where there are others besides.
pub open spec fn placed(frags: Seq<FragmentV>) -> Seq<FragmentV> {
    let kept = frags.filter(|f: FragmentV| is_placed(f));
    if kept.len() == 0 {
        frags
    } else {
        kept
    }
}

/// What a field access makes of fragments. `inner` are the fragments in the field, or none
/// where the field itself is meant; the texts are matched on the node of the field. What
/// stands in a body may be at any depth in it.
pub open spec fn accessed(
    frags: Seq<FragmentV>,
    field: Seq<char>,
    inner: Option<Seq<FragmentV>>,
    texts: Seq<Seq<char>>,
    ids: usize,
) -> (Seq<FragmentV>, usize) {
    let (marks, preds, ids0) = if texts.len() == 0 {
        (Seq::empty(), Seq::empty(), ids)
    } else {
        let cap = "@_tx"@ + text::decimal_digits(ids as nat);
        (" "@ + cap, text_predicates(cap, texts), next_id(ids))
    };
    if field == "body"@ {
        match inner {
            None => (embodied_all(frags, marks, preds, Seq::empty()), ids0),
            Some(inner) => if inner.len() == 0 {
                (Seq::empty(), ids0)
            } else {
                let (cap, inside, ids1) = search(inner, ids0);
                (embodied_all(frags, marks + " @"@ + cap, preds, inside), ids1)
            },
        }
    } else {
        let (inner2, ids1) = resolved_all(
            match inner {
                Some(inner) => if field == "params"@ {
                    placed(inner)
                } else {
                    inner
                },
                None => seq![plain_fragment("_"@, None)],
            },
            ids0,
        );
        (injected_all(frags, field, inner2, marks, preds), ids1)
    }
}

/// A fragment of a group: it has the capture of the group, besides its own, and its pending
/// name is a predicate on it. Without a capture the name is tested on a new one.
pub open spec fn grouped(f: FragmentV, capture: Option<Seq<char>>, ids: usize) -> (
    FragmentV,
    usize,
) {
    match (f.pending, capture) {
        (None, Some(cap)) => (recaptured(f, cap), ids),
        (None, None) => (f, ids),
        (Some(nm), Some(cap)) => (named_by(f, cap, nm), ids),
        (Some(nm), None) => (
            named_by(f, "_nm"@ + text::decimal_digits(ids as nat), nm),
            next_id(ids),
        ),
    }
}

/// A fragment with one more capture.
pub open spec fn recaptured(f: FragmentV, cap: Seq<char>) -> FragmentV {
    FragmentV {
        outer_capture: Some(cap),
        marks: match f.outer_capture {
            Some(c) => " @"@ + c + f.marks,
            None => f.marks,
        },
        ..f
    }
}

/// A fragment with a capture that its name is tested on.
pub open spec fn named_by(f: FragmentV, cap: Seq<char>, nm: NameMatchV) -> FragmentV {
    FragmentV {
        predicates: f.predicates.push(name_predicate_spec("@"@ + cap, nm)),
        outer_capture: Some(cap),
        pending: None,
        ..f
    }
}

/// The fragments of a group.
pub open spec fn grouped_all(frags: Seq<FragmentV>, capture: Option<Seq<char>>, ids: usize) -> (
    Seq<FragmentV>,
    usize,
)
    decreases frags.len(),
{
    if frags.len() == 0 {
        (Seq::empty(), ids)
    } else {
        let (init, ids1) = grouped_all(frags.drop_last(), capture, ids);
        let (f, ids2) = grouped(frags.last(), capture, ids1);
        (init.push(f), ids2)
    }
}

/// Resolves the pending names of all fragments.
fn resolve_all(frags: &mut Vec<Fragment>, ids: &mut usize)
    ensures
        (text::views(final(frags)@), *final(ids)) == resolved_all(
            text::views(old(frags)@),
            *old(ids),
        ),
{
    let ghost all = text::views(frags@);
    let mut out: Vec<Fragment> = Vec::new();
    let mut i: usize = 0;
    assert(text::views(out@) =~= Seq::empty());
    while i < frags.len()
        invariant
            i <= frags@.len(),
            all == text::views(frags@),
            (text::views(out@), *ids) == resolved_all(all.take(i as int), *old(ids)),
        decreases frags@.len() - i,
    {
        assert(all.take(i + 1).drop_last() =~= all.take(i as int));
        let mut f: Fragment = frags[i].copy();
        f.resolve(ids);
        push_fragment(&mut out, f);
        i += 1;
    }
    assert(all.take(i as int) =~= all);
    *frags = out;
}

/// Every tail joined to every head.
fn join_all(heads: &Vec<Fragment>, tails: &Vec<Fragment>, combinator: Combinator) -> (r: Vec<
    Fragment,
>)
    ensures
        text::views(r@) == joined_all(text::views(heads@), text::views(tails@), combinator),
{
    let ghost hs = text::views(heads@);
    let ghost ts = text::views(tails@);
    let mut out: Vec<Fragment> = Vec::new();
    let mut i: usize = 0;
    assert(text::views(out@) =~= Seq::empty());
    while i < heads.len()
        invariant
            i <= heads@.len(),
            hs == text::views(heads@),
            ts == text::views(tails@),
            text::views(out@) == joined_all(hs.take(i as int), ts, combinator),
        decreases heads@.len() - i,
    {
        let ghost done = text::views(out@);
        let ghost each = Seq::new(ts.len(), |j: int| joined(hs[i as int], ts[j], combinator));
        let mut j: usize = 0;
        assert(text::views(out@) =~= done + each.take(0));
        while j < tails.len()
            invariant
                i < heads@.len(),
                j <= tails@.len(),
                hs == text::views(heads@),
                ts == text::views(tails@),
                each == Seq::new(ts.len(), |j: int| joined(hs[i as int], ts[j], combinator)),
                text::views(out@) == done + each.take(j as int),
            decreases tails@.len() - j,
        {
            let mut f: Fragment = heads[i].copy();
            let tail: String = tails[j].inline();
            match combinator {
                Combinator::Child | Combinator::Descendant => {
                    f.node_body.append(" ");
                    f.node_body.append(tail.as_str());
                },
                Combinator::Adjacent => {
                    f.siblings.append(" . ");
                    f.siblings.append(tail.as_str());
                },
                Combinator::Sibling => {
                    f.siblings.append(" ");
                    f.siblings.append(tail.as_str());
                },
            }
            f.lift(&tails[j]);
            push_fragment(&mut out, f);
            j += 1;
            assert(each.take(j as int) =~= each.take(j - 1).push(each[j - 1]));
            assert(text::views(out@) =~= done + each.take(j as int));
        }
        assert(each.take(j as int) =~= each);
        assert(hs.take(i + 1).drop_last() =~= hs.take(i as int));
        assert(hs.take(i + 1).last() == hs[i as int]);
        i += 1;
    }
    assert(hs.take(i as int) =~= hs);
    out
}

/// The searches of the fragments, one after another.
fn collect_inside(frags: &Vec<Fragment>) -> (r: Vec<Search>)
    ensures
        text::views(r@) == all_inside(text::views(frags@)),
{
    let ghost all = text::views(frags@);
    let mut out: Vec<Search> = Vec::new();
    let mut i: usize = 0;
    assert(text::views(out@) =~= all_inside(all.take(0)));
    while i < frags.len()
        invariant
            i <= frags@.len(),
            all == text::views(frags@),
            text::views(out@) == all_inside(all.take(i as int)),
        decreases frags@.len() - i,
    {
        assert(all.take(i + 1).drop_last() =~= all.take(i as int));
        assert(all.take(i + 1).last() == frags@[i as int]@);
        extend_searches(&mut out, &frags[i].inside);
        i += 1;
    }
    assert(all.take(i as int) =~= all);
    out
}

/// The search for fragments at any depth: the name of the capture of the node that they are
/// inside, and the searches.
fn make_search(frags: Vec<Fragment>, ids: &mut usize) -> (r: (String, Vec<Search>))
    ensures
        (r.0@, text::views(r.1@), *final(ids)) == search(text::views(frags@), *old(ids)),
{
    let capture: String = numbered("_in", fresh_id(ids));
    let below: Vec<Search> = collect_inside(&frags);
    let pattern: String = emit_alternation(frags, ids);
    let cap: String = capture.clone();
    let mut out: Vec<Search> = vec![Search { capture, pattern }];
    assert(text::views(out@) =~= seq![(cap@, pattern@)]);
    extend_searches(&mut out, &below);
    (cap, out)
}

/// Marks the nodes of fragments for searches.
fn search_all(frags: &Vec<Fragment>, cap: &str, inside: &Vec<Search>) -> (r: Vec<Fragment>)
    ensures
        text::views(r@) == searched_all(text::views(frags@), cap@, text::views(inside@)),
{
    let ghost all = text::views(frags@);
    let ghost done = searched_all(all, cap@, text::views(inside@));
    let mut out: Vec<Fragment> = Vec::new();
    let mut i: usize = 0;
    assert(text::views(out@) =~= done.take(0));
    while i < frags.len()
        invariant
            i <= frags@.len(),
            all == text::views(frags@),
            done == searched_all(all, cap@, text::views(inside@)),
            text::views(out@) == done.take(i as int),
        decreases frags@.len() - i,
    {
        let mut f: Fragment = frags[i].copy();
        f.marks.append(" @");
        f.marks.append(cap);
        extend_searches(&mut f.inside, inside);
        assert(done[i as int] == f@);
        push_fragment(&mut out, f);
        i += 1;
        assert(done.take(i as int) =~= done.take(i - 1).push(done[i - 1]));
    }
    assert(done.take(i as int) =~= done);
    out
}

/// The fragments of a selector that a combinator joins to others.
fn combine(
    frags: &Vec<Fragment>,
    more: Vec<Fragment>,
    combinator: Combinator,
    ids: &mut usize,
) -> (r: Vec<Fragment>)
    ensures
        (text::views(r@), *final(ids)) == combined(
            text::views(frags@),
            text::views(more@),
            combinator,
            *old(ids),
        ),
{
    let mut more = more;
    if more.len() == 0 {
        let none: Vec<Fragment> = Vec::new();
        assert(text::views(none@) =~= Seq::empty());
        none
    } else if combinator == Combinator::Descendant {
        let (cap, inside): (String, Vec<Search>) = make_search(more, ids);
        search_all(frags, cap.as_str(), &inside)
    } else {
        resolve_all(&mut more, ids);
        join_all(frags, &more, combinator)
    }
}

/// A fragment in the node that holds it, where there is such a node.
fn contain(container: Option<&'static str>, inner: &Fragment, marks: &str) -> (r: String)
    ensures
        r@ == contained(lang::opt_str(container), inner@, marks@),
{
    match container {
        Some(c) => {
            let mut out: String = "(".to_string();
            out.append(c);
            out.append(" ");
            out.append(inner.inline().as_str());
            out.append(")");
            out.append(marks);
            out
        },
        None => {
            let mut marked: Fragment = inner.copy();
            marked.marks.append(marks);
            marked.inline()
        },
    }
}

/// `inner` in the field of `outer` that a field access names.
fn inject_field(
    outer: &Fragment,
    field: &str,
    inner: &Fragment,
    marks: &str,
    preds: &Vec<String>,
) -> (r: Option<Fragment>)
    ensures
        text::opt_view(r) == injected(outer@, field@, inner@, marks@, text::views(preds@)),
{
    let mut out: Fragment = outer.copy();
    if str_eq(field, "params") {
        match outer.params_field {
            None => {
                return None;
            },
            Some(ts_field) => {
                let value: String = contain(outer.params_container, inner, marks);
                if outer.params_needs_bridge {
                    out.node_body.append(" (_ ");
                    out.node_body.append(ts_field);
                    out.node_body.append(": ");
                    out.node_body.append(value.as_str());
                    out.node_body.append(")");
                } else {
                    out.node_body.append(" ");
                    out.node_body.append(ts_field);
                    out.node_body.append(": ");
                    out.node_body.append(value.as_str());
                }
            },
        }
    } else {
        out.node_body.append(" ");
        out.node_body.append(field);
        out.node_body.append(": ");
        out.node_body.append(contain(None, inner, marks).as_str());
    }
    out.lift(inner);
    extend(&mut out.predicates, preds);
    Some(out)
}

/// Each of the inner fragments in the field of each outer one.
fn inject_all(
    outer: &Vec<Fragment>,
    field: &str,
    inner: &Vec<Fragment>,
    marks: &str,
    preds: &Vec<String>,
) -> (r: Vec<Fragment>)
    ensures
        text::views(r@) == injected_all(
            text::views(outer@),
            field@,
            text::views(inner@),
            marks@,
            text::views(preds@),
        ),
{
    let ghost os = text::views(outer@);
    let ghost is = text::views(inner@);
    let ghost ps = text::views(preds@);
    let mut out: Vec<Fragment> = Vec::new();
    let mut i: usize = 0;
    assert(text::views(out@) =~= Seq::empty());
    while i < outer.len()
        invariant
            i <= outer@.len(),
            os == text::views(outer@),
            is == text::views(inner@),
            ps == text::views(preds@),
            text::views(out@) == injected_all(os.take(i as int), field@, is, marks@, ps),
        decreases outer@.len() - i,
    {
        let ghost done = text::views(out@);
        let mut j: usize = 0;
        assert(text::views(out@) =~= done + injected_each(
            os[i as int],
            field@,
            is.take(0),
            marks@,
            ps,
        ));
        while j < inner.len()
            invariant
                i < outer@.len(),
                j <= inner@.len(),
                os == text::views(outer@),
                is == text::views(inner@),
                ps == text::views(preds@),
                text::views(out@) == done + injected_each(
                    os[i as int],
                    field@,
                    is.take(j as int),
                    marks@,
                    ps,
                ),
            decreases inner@.len() - j,
        {
            let ghost each = injected_each(os[i as int], field@, is.take(j as int), marks@, ps);
            assert(is.take(j + 1).drop_last() =~= is.take(j as int));
            match inject_field(&outer[i], field, &inner[j], marks, preds) {
                Some(f) => {
                    push_fragment(&mut out, f);
                    assert(text::views(out@) =~= done + each.push(f@));
                },
                None => {},
            }
            j += 1;
        }
        assert(is.take(j as int) =~= is);
        assert(os.take(i + 1).drop_last() =~= os.take(i as int));
        assert(os.take(i + 1).last() == os[i as int]);
        i += 1;
    }
    assert(os.take(i as int) =~= os);
    out
}

/// The fragments with the nodes of their bodies.
fn embody_all(
    outer: &Vec<Fragment>,
    marks: &str,
    preds: &Vec<String>,
    inside: &Vec<Search>,
) -> (r: Vec<Fragment>)
    ensures
        text::views(r@) == embodied_all(
            text::views(outer@),
            marks@,
            text::views(preds@),
            text::views(inside@),
        ),
{
    let ghost os = text::views(outer@);
    let mut out: Vec<Fragment> = Vec::new();
    let mut i: usize = 0;
    assert(text::views(out@) =~= Seq::empty());
    while i < outer.len()
        invariant
            i <= outer@.len(),
            os == text::views(outer@),
            text::views(out@) == embodied_all(
                os.take(i as int),
                marks@,
                text::views(preds@),
                text::views(inside@),
            ),
        decreases outer@.len() - i,
    {
        assert(os.take(i + 1).drop_last() =~= os.take(i as int));
        assert(os.take(i + 1).last() == outer@[i as int]@);
        if let Some(ts_field) = outer[i].body_field {
            let mut f: Fragment = outer[i].copy();
            f.node_body.append(" ");
            f.node_body.append(ts_field);
            f.node_body.append(": (");
            match outer[i].body_container {
                Some(c) => f.node_body.append(c),
                None => f.node_body.append("_"),
            }
            f.node_body.append(")");
            f.node_body.append(marks);
            extend(&mut f.predicates, preds);
            extend_searches(&mut f.inside, inside);
            push_fragment(&mut out, f);
        }
        i += 1;
    }
    assert(os.take(i as int) =~= os);
    out
}

/// The predicates that the text of a capture matches each of the texts.
fn match_texts(cap: &str, texts: &Vec<&String>) -> (r: Vec<String>)
    ensures
        text::views(r@) == text_predicates(cap@, text::views(texts@)),
{
    let ghost done = text_predicates(cap@, text::views(texts@));
    let mut out: Vec<String> = Vec::new();
    let mut i: usize = 0;
    assert(text::views(out@) =~= done.take(0));
    while i < texts.len()
        invariant
            i <= texts@.len(),
            done == text_predicates(cap@, text::views(texts@)),
            text::views(out@) == done.take(i as int),
        decreases texts@.len() - i,
    {
        let nm: NameMatch = NameMatch::Regex(texts[i].clone());
        assert(done[i as int] == name_predicate_spec(cap@, nm@));
        push_string(&mut out, name_predicate(cap, &nm));
        i += 1;
        assert(done.take(i as int) =~= done.take(i - 1).push(done[i - 1]));
    }
    assert(done.take(i as int) =~= done);
    out
}

/// The fragments that can stand among arguments or parameters.
fn place_all(frags: Vec<Fragment>) -> (r: Vec<Fragment>)
    ensures
        text::views(r@) == placed(text::views(frags@)),
{
    let ghost all = text::views(frags@);
    let ghost keep = |f: FragmentV| is_placed(f);
    let mut kept: Vec<Fragment> = Vec::new();
    let mut i: usize = 0;
    proof {
        reveal(Seq::filter);
        assert(text::views(kept@) =~= all.take(0).filter(keep));
    }
    while i < frags.len()
        invariant
            i <= frags@.len(),
            all == text::views(frags@),
            keep == (|f: FragmentV| is_placed(f)),
            text::views(kept@) == all.take(i as int).filter(keep),
        decreases frags@.len() - i,
    {
        proof {
            reveal(Seq::filter);
            assert(all.take(i + 1).drop_last() =~= all.take(i as int));
            assert(all.take(i + 1).last() == frags@[i as int]@);
        }
        if !str_eq(frags[i].node_body.as_str(), "field_identifier") {
            push_fragment(&mut kept, frags[i].copy());
        }
        i += 1;
    }
    assert(all.take(i as int) =~= all);
    assert(text::views(kept@).len() == kept@.len());
    if kept.len() == 0 {
        frags
    } else {
        kept
    }
}

/// What a field access makes of fragments.
fn access(
    frags: &Vec<Fragment>,
    field: &str,
    inner: Option<Vec<Fragment>>,
    texts: &Vec<&String>,
    ids: &mut usize,
) -> (r: Vec<Fragment>)
    ensures
        (text::views(r@), *final(ids)) == accessed(
            text::views(frags@),
            field@,
            inner_view(inner),
            text::views(texts@),
            *old(ids),
        ),
{
    let mut marks: String = String::new();
    let mut preds: Vec<String> = Vec::new();
    assert(marks@ =~= Seq::empty());
    assert(text::views(preds@) =~= Seq::empty());
    if texts.len() != 0 {
        let cap: String = numbered("@_tx", fresh_id(ids));
        marks = " ".to_string();
        marks.append(cap.as_str());
        preds = match_texts(cap.as_str(), texts);
    }
    if str_eq(field, "body") {
        match inner {
            None => {
                let inside: Vec<Search> = Vec::new();
                assert(text::views(inside@) =~= Seq::empty());
                embody_all(frags, marks.as_str(), &preds, &inside)
            },
            Some(inner) => {
                if inner.len() == 0 {
                    let none: Vec<Fragment> = Vec::new();
                    assert(text::views(none@) =~= Seq::empty());
                    none
                } else {
                    let (cap, inside): (String, Vec<Search>) = make_search(inner, ids);
                    marks.append(" @");
                    marks.append(cap.as_str());
                    embody_all(frags, marks.as_str(), &preds, &inside)
                }
            },
        }
    } else {
        let mut inner: Vec<Fragment> = match inner {
            Some(inner) => if str_eq(field, "params") {
                place_all(inner)
            } else {
                inner
            },
            None => {
                let any: Vec<Fragment> = vec![plain("_".to_string(), None)];
                assert(text::views(any@) =~= seq![plain_fragment("_"@, None)]);
                any
            },
        };
        // Resolve pending name matches in inner fragments before injecting.
        resolve_all(&mut inner, ids);
        inject_all(frags, field, &inner, marks.as_str(), &preds)
    }
}

spec fn inner_view(inner: Option<Vec<Fragment>>) -> Option<Seq<FragmentV>> {
    match inner {
        Some(v) => Some(text::views(v@)),
        None => None,
    }
}

/// Gives the fragments of a group its capture.
fn group_all(frags: Vec<Fragment>, capture: &Option<String>, ids: &mut usize) -> (r: Vec<Fragment>)
    ensures
        (text::views(r@), *final(ids)) == grouped_all(
            text::views(frags@),
            text::opt_view(*capture),
            *old(ids),
        ),
{
    let ghost all = text::views(frags@);
    let mut out: Vec<Fragment> = Vec::new();
    let mut i: usize = 0;
    assert(text::views(out@) =~= Seq::empty());
    while i < frags.len()
        invariant
            i <= frags@.len(),
            all == text::views(frags@),
            (text::views(out@), *ids) == grouped_all(
                all.take(i as int),
                text::opt_view(*capture),
                *old(ids),
            ),
        decreases frags@.len() - i,
    {
        assert(all.take(i + 1).drop_last() =~= all.take(i as int));
        let mut frag: Fragment = frags[i].copy();
        let pending: Option<NameMatch> = frag.pending_name_match.take();
        match pending {
            Some(nm) => {
                // Without a user-visible capture, the name is tested on an internal one.
                let cap: String = match capture {
                    Some(c) => c.clone(),
                    None => numbered("_nm", fresh_id(ids)),
                };
                push_string(&mut frag.predicates, name_predicate(at(cap.as_str()).as_str(), &nm));
                frag.outer_capture = Some(cap);
            },
            None => {
                if let Some(cap) = capture {
                    if let Some(c) = &frag.outer_capture {
                        let mut marks: String = " @".to_string();
                        marks.append(c.as_str());
                        marks.append(frag.marks.as_str());
                        frag.marks = marks;
                    }
                    frag.outer_capture = Some(cap.clone());
                }
            },
        }
        push_fragment(&mut out, frag);
        i += 1;
    }
    assert(all.take(i as int) =~= all);
    out
}

// ---------------------------------------------------------------------------
// Selectors and queries
// ---------------------------------------------------------------------------

/// The fragments of a node of a selector.
pub open spec fn node_fragments(table: Table, node: SelectorNodeV, ids: usize) -> (
    Seq<FragmentV>,
    usize,
)
    decreases node,
{
    match node {
        SelectorNodeV::Bare(atom) => atom_fragments(table, atom, ids),
        SelectorNodeV::Group { query, capture } => {
            let (inner, ids1) = query_fragments(table, *query, ids);
            grouped_all(inner, capture, ids1)
        },
    }
}

/// The text that a selector is, where it is one without a type, and nothing more.
pub open spec fn lone_text(sel: SelectorV) -> Option<Seq<char>> {
    match sel.node {
        SelectorNodeV::Bare(a) => match a.name_match {
            Some(NameMatchV::Exact(t)) => if a.sigil is None && a.node_type is None
                && sel.fields.len() == 0 {
                Some(t)
            } else {
                None
            },
            _ => None,
        },
        _ => None,
    }
}

/// A list with one more item, where there is one.
pub open spec fn with_some<T>(items: Seq<T>, item: Option<T>) -> Seq<T> {
    match item {
        Some(x) => items.push(x),
        None => items,
    }
}

/// The lone texts of the selectors in a tail.
pub open spec fn tail_texts(tail: Seq<(Combinator, SelectorV)>) -> Seq<Seq<char>>
    decreases tail.len(),
{
    if tail.len() == 0 {
        Seq::empty()
    } else {
        with_some(tail_texts(tail.drop_last()), lone_text(tail.last().1))
    }
}

/// The lone texts of the selectors in the query of a field access.
pub open spec fn field_texts(inner: Option<Box<QueryV>>) -> Seq<Seq<char>> {
    match inner {
        None => Seq::empty(),
        Some(q) => with_some(Seq::empty(), lone_text(q.head)) + tail_texts(q.tail),
    }
}

/// The fragments of the selectors in a tail that are no lone texts, joined to others.
pub open spec fn field_joined(
    table: Table,
    start: (Option<Seq<FragmentV>>, usize),
    tail: Seq<(Combinator, SelectorV)>,
) -> (Option<Seq<FragmentV>>, usize)
    decreases tail,
{
    if tail.len() == 0 {
        start
    } else {
        let (frags, ids) = field_joined(table, start, tail.drop_last());
        if lone_text(tail.last().1) is Some {
            (frags, ids)
        } else {
            let (more, ids1) = selector_fragments(table, tail.last().1, ids);
            match frags {
                None => (Some(more), ids1),
                Some(frags) => {
                    let (all, ids2) = combined(frags, more, tail.last().0, ids1);
                    (Some(all), ids2)
                },
            }
        }
    }
}

/// The fragments of what the query of a field access holds besides lone texts, if that is
/// anything.
pub open spec fn field_fragments(table: Table, inner: Option<Box<QueryV>>, ids: usize) -> (
    Option<Seq<FragmentV>>,
    usize,
)
    decreases inner,
{
    match inner {
        None => (None, ids),
        Some(q) => {
            let start = if lone_text(q.head) is Some {
                (None, ids)
            } else {
                let (frags, ids1) = selector_fragments(table, q.head, ids);
                (Some(frags), ids1)
            };
            field_joined(table, start, q.tail)
        },
    }
}

/// The fragments that a field access makes of others.
pub open spec fn access_fragments(
    table: Table,
    frags: Seq<FragmentV>,
    access: FieldAccessV,
    ids: usize,
) -> (Seq<FragmentV>, usize)
    decreases access,
{
    let (inner, ids1) = field_fragments(table, access.inner, ids);
    accessed(frags, access.field, inner, field_texts(access.inner), ids1)
}

/// The fragments that a list of field accesses makes of others.
pub open spec fn accesses_fragments(
    table: Table,
    start: (Seq<FragmentV>, usize),
    accesses: Seq<FieldAccessV>,
) -> (Seq<FragmentV>, usize)
    decreases accesses,
{
    if accesses.len() == 0 {
        start
    } else {
        let (frags, ids) = accesses_fragments(table, start, accesses.drop_last());
        access_fragments(table, frags, accesses.last(), ids)
    }
}

/// The fragments of a selector.
pub open spec fn selector_fragments(table: Table, sel: SelectorV, ids: usize) -> (
    Seq<FragmentV>,
    usize,
)
    decreases sel,
{
    accesses_fragments(table, node_fragments(table, sel.node, ids), sel.fields)
}

/// The fragments of a selector and of those that combinators join to it.
pub open spec fn joined_fragments(
    table: Table,
    start: (Seq<FragmentV>, usize),
    tail: Seq<(Combinator, SelectorV)>,
) -> (Seq<FragmentV>, usize)
    decreases tail,
{
    if tail.len() == 0 {
        start
    } else {
        let (frags, ids) = joined_fragments(table, start, tail.drop_last());
        let (more, ids1) = selector_fragments(table, tail.last().1, ids);
        combined(frags, more, tail.last().0, ids1)
    }
}

/// The fragments of a query.
pub open spec fn query_fragments(table: Table, q: QueryV, ids: usize) -> (Seq<FragmentV>, usize)
    decreases q,
{
    joined_fragments(table, selector_fragments(table, q.head, ids), q.tail)
}

fn compile_selector_node<L: Lang + ?Sized>(node: &SelectorNode, lang: &L, ids: &mut usize) -> (r: Vec<
    Fragment,
>)
    ensures
        (text::views(r@), *final(ids)) == node_fragments(lang.table(), node@, *old(ids)),
    decreases node,
{
    match node {
        SelectorNode::Bare(atom) => compile_atom(atom, lang, ids),
        SelectorNode::Group { query, capture } => {
            let inner: Vec<Fragment> = compile_query(query, lang, ids);
            group_all(inner, capture, ids)
        },
    }
}

fn apply_field_access<L: Lang + ?Sized>(
    frags: Vec<Fragment>,
    fa: &FieldAccess,
    lang: &L,
    ids: &mut usize,
) -> (r: Vec<Fragment>)
    ensures
        (text::views(r@), *final(ids)) == access_fragments(
            lang.table(),
            text::views(frags@),
            fa@,
            *old(ids),
        ),
    decreases fa,
{
    let inner: Option<Vec<Fragment>> = match &fa.inner {
        None => None,
        Some(query) => compile_field(query, lang, ids),
    };
    access(&frags, fa.field.as_str(), inner, &find_texts(fa), ids)
}

/// The text that a selector is, where it is one without a type, and nothing more.
fn find_text(sel: &Selector) -> (r: Option<&String>)
    ensures
        text::opt_view(r) == lone_text(sel@),
{
    match &sel.node {
        SelectorNode::Bare(a) => match &a.name_match {
            Some(NameMatch::Exact(t)) => if a.sigil.is_none() && a.node_type.is_none()
                && sel.fields.len() == 0 {
                Some(t)
            } else {
                None
            },
            _ => None,
        },
        _ => None,
    }
}

/// The lone texts of the selectors in the query of a field access.
fn find_texts(fa: &FieldAccess) -> (r: Vec<&String>)
    ensures
        text::views(r@) == field_texts(fa@.inner),
{
    let mut out: Vec<&String> = Vec::new();
    assert(text::views(out@) =~= Seq::empty());
    if let Some(query) = &fa.inner {
        if let Some(t) = find_text(&query.head) {
            out.push(t);
        }
        let ghost first = with_some(Seq::empty(), lone_text(query@.head));
        assert(text::views(out@) =~= first);
        let ghost tail = query@.tail;
        let mut i: usize = 0;
        assert(text::views(out@) =~= first + tail_texts(tail.take(0)));
        while i < query.tail.len()
            invariant
                i <= query.tail@.len(),
                tail == query@.tail,
                text::views(out@) == first + tail_texts(tail.take(i as int)),
            decreases query.tail@.len() - i,
        {
            assert(tail.take(i + 1).drop_last() =~= tail.take(i as int));
            assert(tail.take(i + 1).last() == (
                query.tail@[i as int].0,
                query.tail@[i as int].1@,
            ));
            let ghost before = text::views(out@);
            let ghost init = tail_texts(tail.take(i as int));
            if let Some(t) = find_text(&query.tail[i].1) {
                out.push(t);
                assert(text::views(out@) =~= before.push(t@));
                assert(text::views(out@) =~= first + init.push(t@));
            }
            i += 1;
        }
        assert(tail.take(i as int) =~= tail);
    }
    out
}

/// The fragments of what the query of a field access holds besides lone texts.
fn compile_field<L: Lang + ?Sized>(query: &Query, lang: &L, ids: &mut usize) -> (r: Option<
    Vec<Fragment>,
>)
    ensures
        (inner_view(r), *final(ids)) == field_fragments(
            lang.table(),
            Some(Box::new(query@)),
            *old(ids),
        ),
    decreases query,
{
    let mut frags: Option<Vec<Fragment>> = None;
    if find_text(&query.head).is_none() {
        frags = Some(compile_selector(&query.head, lang, ids));
    }
    let ghost start = (inner_view(frags), *ids);
    let ghost tail = query@.tail;
    let mut i: usize = 0;
    while i < query.tail.len()
        invariant
            i <= query.tail@.len(),
            tail == query@.tail,
            (inner_view(frags), *ids) == field_joined(lang.table(), start, tail.take(i as int)),
        decreases query.tail@.len() - i,
    {
        assert(tail.take(i + 1).drop_last() =~= tail.take(i as int));
        assert(tail.take(i + 1).last() == (query.tail@[i as int].0, query.tail@[i as int].1@));
        if find_text(&query.tail[i].1).is_none() {
            let more: Vec<Fragment> = compile_selector(&query.tail[i].1, lang, ids);
            frags = match &frags {
                None => Some(more),
                Some(f) => Some(combine(f, more, query.tail[i].0, ids)),
            };
        }
        i += 1;
    }
    assert(tail.take(i as int) =~= tail);
    frags
}

/// Applies the accesses from the one at `from` up to the one before `to`.
fn compile_accesses<L: Lang + ?Sized>(
    frags: Vec<Fragment>,
    fields: &Vec<FieldAccess>,
    from: usize,
    to: usize,
    lang: &L,
    ids: &mut usize,
) -> (r: Vec<Fragment>)
    requires
        from <= to <= fields@.len(),
    ensures
        (text::views(r@), *final(ids)) == accesses_fragments(
            lang.table(),
            (text::views(frags@), *old(ids)),
            text::views(fields@).subrange(from as int, to as int),
        ),
    decreases fields,
{
    let ghost start = (text::views(frags@), *ids);
    let ghost all = text::views(fields@);
    let mut frags: Vec<Fragment> = frags;
    let mut i: usize = from;
    while i < to
        invariant
            from <= i <= to,
            to <= fields@.len(),
            all == text::views(fields@),
            (text::views(frags@), *ids) == accesses_fragments(
                lang.table(),
                start,
                all.subrange(from as int, i as int),
            ),
        decreases to - i,
    {
        assert(all.subrange(from as int, i + 1).drop_last() =~= all.subrange(
            from as int,
            i as int,
        ));
        assert(all.subrange(from as int, i + 1).last() == fields@[i as int]@);
        frags = apply_field_access(frags, &fields[i], lang, ids);
        i += 1;
    }
    frags
}

fn compile_selector<L: Lang + ?Sized>(sel: &Selector, lang: &L, ids: &mut usize) -> (r: Vec<
    Fragment,
>)
    ensures
        (text::views(r@), *final(ids)) == selector_fragments(lang.table(), sel@, *old(ids)),
    decreases sel,
{
    let frags: Vec<Fragment> = compile_selector_node(&sel.node, lang, ids);
    assert(text::views(sel.fields@).subrange(0, sel.fields@.len() as int) =~= sel@.fields);
    compile_accesses(frags, &sel.fields, 0, sel.fields.len(), lang, ids)
}

fn compile_query<L: Lang + ?Sized>(query: &Query, lang: &L, ids: &mut usize) -> (r: Vec<Fragment>)
    ensures
        (text::views(r@), *final(ids)) == query_fragments(lang.table(), query@, *old(ids)),
    decreases query,
{
    let mut frags: Vec<Fragment> = compile_selector(&query.head, lang, ids);
    let ghost start = (text::views(frags@), *ids);
    let ghost tail = query@.tail;
    let mut i: usize = 0;
    while i < query.tail.len()
        invariant
            i <= query.tail@.len(),
            tail == query@.tail,
            (text::views(frags@), *ids) == joined_fragments(
                lang.table(),
                start,
                tail.take(i as int),
            ),
        decreases query.tail@.len() - i,
    {
        assert(tail.take(i + 1).drop_last() =~= tail.take(i as int));
        assert(tail.take(i + 1).last() == (query.tail@[i as int].0, query.tail@[i as int].1@));
        let more: Vec<Fragment> = compile_selector(&query.tail[i].1, lang, ids);
        frags = combine(&frags, more, query.tail[i].0, ids);
        i += 1;
    }
    assert(tail.take(i as int) =~= tail);
    frags
}

// ---------------------------------------------------------------------------
// Emission
// ---------------------------------------------------------------------------

/// Whether two fragments have the same text and the same pending name.
pub open spec fn same_pattern(f: FragmentV, g: FragmentV) -> bool {
    &&& f.node_body == g.node_body
    &&& f.marks == g.marks
    &&& f.siblings == g.siblings
    &&& f.predicates == g.predicates
    &&& f.inside == g.inside
    &&& f.pending == g.pending
    &&& f.outer_capture == g.outer_capture
}

/// Whether one of the fragments is the same pattern as `f`.
pub open spec fn has_pattern(frags: Seq<FragmentV>, f: FragmentV) -> bool {
    exists|i: int| 0 <= i < frags.len() && #[trigger] same_pattern(frags[i], f)
}

/// The fragments without those that an earlier one repeats.
pub open spec fn distinct(frags: Seq<FragmentV>) -> Seq<FragmentV>
    decreases frags.len(),
{
    if frags.len() == 0 {
        Seq::empty()
    } else {
        let init = distinct(frags.drop_last());
        if has_pattern(init, frags.last()) {
            init
        } else {
            init.push(frags.last())
        }
    }
}

/// The texts of the fragments.
pub open spec fn emitted_all(frags: Seq<FragmentV>, ids: usize) -> (Seq<Seq<char>>, usize)
    decreases frags.len(),
{
    if frags.len() == 0 {
        (Seq::empty(), ids)
    } else {
        let (init, ids1) = emitted_all(frags.drop_last(), ids);
        let (f, ids2) = emitted(frags.last(), ids1);
        (init.push(f), ids2)
    }
}

/// One pattern for all fragments: none, the only one, or their alternation.
pub open spec fn alternation(frags: Seq<FragmentV>, ids: usize) -> (Seq<char>, usize) {
    let (parts, ids1) = emitted_all(distinct(frags), ids);
    if parts.len() == 0 {
        (Seq::empty(), ids1)
    } else if parts.len() == 1 {
        (parts[0], ids1)
    } else {
        ("["@ + text::join_spec(parts, "\n "@) + "]"@, ids1)
    }
}

/// The searches inside fragments, each of them once.
pub open spec fn all_searches(frags: Seq<FragmentV>) -> Seq<SearchV> {
    text::distinct(all_inside(frags))
}

/// A query of one phase: the pattern of fragments, with the searches inside them.
pub open spec fn one_phase(frags: Seq<FragmentV>, ids: usize) -> (CompiledV, usize) {
    let (pattern, ids1) = alternation(frags, ids);
    let searches = all_searches(frags);
    if searches.len() == 0 {
        (CompiledV::Simple(pattern), ids1)
    } else {
        (CompiledV::Searched { pattern, searches }, ids1)
    }
}

/// Whether no nodes of the fragments but their own have captures that may be shown, or
/// their own have such captures, too, which come first.
pub open spec fn shown_first(frags: Seq<FragmentV>) -> bool {
    forall|i: int|
        0 <= i < frags.len() ==> !(#[trigger] frags[i]).deep_captures || node_shows(frags[i])
}

/// A query of two phases: the patterns of the outer and of the inner fragments, with the
/// searches inside them.
pub open spec fn two_phases(
    outer_frags: Seq<FragmentV>,
    outer: Seq<char>,
    scope_field: Seq<char>,
    inner_frags: Seq<FragmentV>,
    inner: Seq<char>,
) -> CompiledV {
    let outer_searches = all_searches(outer_frags);
    let inner_searches = all_searches(inner_frags);
    if outer_searches.len() == 0 && inner_searches.len() == 0 && shown_first(outer_frags) {
        CompiledV::Scoped { outer, scope_field, inner }
    } else {
        CompiledV::ScopedSearch { outer, outer_searches, scope_field, inner, inner_searches }
    }
}

/// Whether a field access carries a query whose matches are searched for in the field.
pub open spec fn is_scope(access: FieldAccessV) -> bool {
    match access.inner {
        Some(q) => access.field != "params"@ && !(lone_text(q.head) is Some && tail_texts(
            q.tail,
        ).len() == q.tail.len()),
        None => false,
    }
}

/// The position of the first scope from `k` on.
pub open spec fn first_scope(accesses: Seq<FieldAccessV>, k: nat) -> Option<nat>
    decreases accesses.len() - k,
{
    if k >= accesses.len() {
        None
    } else if is_scope(accesses[k as int]) {
        Some(k)
    } else {
        first_scope(accesses, k + 1)
    }
}

/// The fragments of a selector without the query of its access at `k`. What that access
/// holds besides, the texts that are matched on its field, stays.
pub open spec fn outer_fragments(table: Table, sel: SelectorV, k: nat, ids: usize) -> (
    Seq<FragmentV>,
    usize,
) {
    let (frags, ids1) = accesses_fragments(
        table,
        node_fragments(table, sel.node, ids),
        sel.fields.take(k as int),
    );
    let texts = field_texts(sel.fields[k as int].inner);
    let start = if texts.len() == 0 {
        (frags, ids1)
    } else {
        accessed(frags, sel.fields[k as int].field, None, texts, ids1)
    };
    accesses_fragments(table, start, sel.fields.skip(k as int + 1))
}

/// A query with a scope and without a tail, in two phases: the pattern of the head with all
/// of its accesses but the scope, the field of the scope, and the pattern of the query in
/// it. None if there is no scope, or one of the patterns is empty.
pub open spec fn scoped(table: Table, q: QueryV, ids: usize) -> (Option<CompiledV>, usize) {
    match first_scope(q.head.fields, 0) {
        Some(k) => if q.tail.len() > 0 {
            (None, ids)
        } else {
            let access = q.head.fields[k as int];
            let (frags, ids1) = outer_fragments(table, q.head, k, ids);
            let (outer, ids2) = alternation(frags, ids1);
            if outer.len() == 0 {
                (None, ids2)
            } else {
                let (found, ids3) = field_fragments(table, access.inner, ids2);
                let inner_frags = found.unwrap_or(Seq::empty());
                let (inner, ids4) = alternation(inner_frags, ids3);
                if inner.len() == 0 {
                    (None, ids4)
                } else {
                    (Some(two_phases(frags, outer, access.field, inner_frags, inner)), ids4)
                }
            }
        },
        None => (None, ids),
    }
}

/// The compiled query, and the next identifier of an internal capture.
pub open spec fn compiled(table: Table, q: QueryV, ids: usize) -> (CompiledV, usize) {
    match scoped(table, q, ids) {
        (Some(c), ids1) => (c, ids1),
        (None, ids1) => {
            let (frags, ids2) = query_fragments(table, q, ids1);
            one_phase(frags, ids2)
        },
    }
}

/// The query that is an atom and nothing more.
pub open spec fn atom_query(atom: AtomV) -> QueryV {
    QueryV {
        head: SelectorV { node: SelectorNodeV::Bare(atom), fields: Seq::empty() },
        tail: Seq::empty(),
    }
}

proof fn lemma_atom_query(table: Table, atom: AtomV, ids: usize)
    ensures
        compiled(table, atom_query(atom), ids) == ({
            let (frags, ids1) = atom_fragments(table, atom, ids);
            one_phase(frags, ids1)
        }),
{
    let q = atom_query(atom);
    let frags = node_fragments(table, q.head.node, ids);
    assert(accesses_fragments(table, frags, q.head.fields) == frags);
    assert(selector_fragments(table, q.head, ids) == frags);
    assert(joined_fragments(table, frags, q.tail) == frags);
    assert(query_fragments(table, q, ids) == frags);
}

/// Pass-through: a type that is not in the vocabulary is taken for the name of a node of
/// the grammar, as it stands.
pub proof fn law_unknown_type_passes_through(
    table: Table,
    t: Seq<char>,
    sigil: Option<Sigil>,
    ids: usize,
)
    requires
        table(t, sigil) is None,
    ensures
        compiled(
            table,
            atom_query(AtomV { sigil, node_type: Some(t), name_match: None }),
            ids,
        ).0 == CompiledV::Simple("("@ + t + ")"@ + root_capture(ids)),
{
    let atom = AtomV { sigil, node_type: Some(t), name_match: None };
    lemma_atom_query(table, atom, ids);
    let f = plain_fragment(t, None);
    assert(atom_fragments(table, atom, ids).0 =~= seq![f]);
    lemma_one_fragment(f, ids);
    assert(all_searches(seq![f]) =~= Seq::empty());
    assert(emitted(f, ids).0 =~= "("@ + t + ")"@ + root_capture(ids));
}

/// A fragment that is one pattern.
proof fn lemma_one_fragment(f: FragmentV, ids: usize)
    ensures
        alternation(seq![f], ids) == emitted(f, ids),
        all_inside(seq![f]) == f.inside,
{
    let frags = seq![f];
    assert(frags.drop_last() =~= Seq::empty());
    assert(distinct(frags.drop_last()) =~= Seq::empty());
    assert(distinct(frags) =~= frags);
    assert(emitted_all(frags.drop_last(), ids) == (Seq::<Seq<char>>::empty(), ids));
    assert(emitted_all(frags, ids).0 =~= seq![emitted(f, ids).0]);
    assert(all_inside(frags.drop_last()) =~= Seq::empty());
    assert(all_inside(frags) =~= f.inside);
}

/// The capture of a whole match, with a number.
pub open spec fn root_capture(id: usize) -> Seq<char> {
    " @"@ + ("_root"@ + text::decimal_digits(id as nat))
}

/// The text of two names of nodes that a combinator joins. (What is searched for is no part
/// of the text.)
pub open spec fn combinator_text(
    t: Seq<char>,
    combinator: Combinator,
    u: Seq<char>,
    ids: usize,
) -> Seq<char> {
    match combinator {
        Combinator::Child => "("@ + t + " ("@ + u + "))"@ + root_capture(ids),
        Combinator::Adjacent => "(("@ + t + ")"@ + root_capture(ids) + " . ("@ + u + "))"@,
        Combinator::Sibling => "(("@ + t + ")"@ + root_capture(ids) + " ("@ + u + "))"@,
        Combinator::Descendant => "("@ + t + ")"@ + root_capture(next_id(next_id(ids))) + " @"@ + (
        "_in"@ + text::decimal_digits(ids as nat)),
    }
}

/// What two names of nodes that a combinator joins are compiled to.
pub open spec fn combinator_query(
    t: Seq<char>,
    combinator: Combinator,
    u: Seq<char>,
    ids: usize,
) -> CompiledV {
    let pattern = combinator_text(t, combinator, u, ids);
    if combinator == Combinator::Descendant {
        let cap = "_in"@ + text::decimal_digits(ids as nat);
        CompiledV::Searched {
            pattern,
            searches: seq![(cap, "("@ + u + ")"@ + root_capture(next_id(ids)))],
        }
    } else {
        CompiledV::Simple(pattern)
    }
}

proof fn lemma_combinator_text(t: Seq<char>, u: Seq<char>, ids: usize, combinator: Combinator)
    requires
        combinator != Combinator::Descendant,
    ensures
        emitted(joined(plain_fragment(t, None), plain_fragment(u, None), combinator), ids).0
            == combinator_text(t, combinator, u, ids),
{
    reveal_strlit("(");
    reveal_strlit(")");
    reveal_strlit(" ");
    reveal_strlit(" @");
    reveal_strlit(" . ");
    reveal_strlit(" (");
    reveal_strlit("))");
    reveal_strlit("((");
    reveal_strlit(" . (");
    let f = joined(plain_fragment(t, None), plain_fragment(u, None), combinator);
    assert(f.predicates =~= Seq::empty());
    assert(emitted(f, ids).0 =~= combinator_text(t, combinator, u, ids));
}

proof fn lemma_joined_text(t: Seq<char>, u: Seq<char>, ids: usize, combinator: Combinator)
    requires
        combinator != Combinator::Descendant,
    ensures
        ({
            let (frags, ids1) = combined(
                seq![plain_fragment(t, None)],
                seq![plain_fragment(u, None)],
                combinator,
                ids,
            );
            one_phase(frags, ids1).0 == combinator_query(t, combinator, u, ids)
        }),
{
    let heads = seq![plain_fragment(t, None)];
    let tails = seq![plain_fragment(u, None)];
    assert(tails.drop_last() =~= Seq::empty());
    assert(resolved_all(tails.drop_last(), ids) == (Seq::<FragmentV>::empty(), ids));
    assert(resolved_all(tails, ids).0 =~= tails);
    let f = joined(heads[0], tails[0], combinator);
    assert(heads.drop_last() =~= Seq::empty());
    assert(joined_all(heads.drop_last(), tails, combinator) =~= Seq::empty());
    assert(joined_all(heads, tails, combinator) =~= seq![f]);
    lemma_one_fragment(f, ids);
    assert(f.inside =~= Seq::empty());
    assert(all_searches(seq![f]) =~= Seq::empty());
    lemma_combinator_text(t, u, ids, combinator);
}

proof fn lemma_descendant_text(t: Seq<char>, u: Seq<char>, ids: usize)
    ensures
        ({
            let (frags, ids1) = combined(
                seq![plain_fragment(t, None)],
                seq![plain_fragment(u, None)],
                Combinator::Descendant,
                ids,
            );
            one_phase(frags, ids1).0 == combinator_query(t, Combinator::Descendant, u, ids)
        }),
{
    let heads = seq![plain_fragment(t, None)];
    let tails = seq![plain_fragment(u, None)];
    let (cap, inside, ids1) = search(tails, ids);
    lemma_one_fragment(tails[0], next_id(ids));
    let f = searched(heads[0], cap, inside);
    assert(searched_all(heads, cap, inside) =~= seq![f]);
    lemma_one_fragment(f, ids1);
    let sub = emitted(tails[0], next_id(ids)).0;
    assert(sub =~= "("@ + u + ")"@ + root_capture(next_id(ids)));
    assert(inside =~= seq![(cap, sub)]);
    assert(f.inside =~= seq![(cap, sub)]);
    lemma_distinct_same(f.inside, (cap, sub));
    assert(ids1 == next_id(next_id(ids)));
    let main = "("@ + t + ")"@ + root_capture(ids1) + " @"@ + cap;
    assert(emitted(f, ids1).0 =~= main);
}

/// What is always the same is there once.
proof fn lemma_distinct_same(v: Seq<SearchV>, x: SearchV)
    requires
        v.len() > 0,
        forall|i: int| 0 <= i < v.len() ==> #[trigger] v[i] == x,
    ensures
        text::distinct(v) == seq![x],
{
    let d = text::distinct(v);
    text::lemma_distinct(v);
    assert(v.contains(v[0]));
    assert(d.contains(x));
    assert forall|i: int| 0 <= i < d.len() implies #[trigger] d[i] == x by {
        assert(d.contains(d[i]));
        let k = v.index_of(d[i]);
        assert(v[k] == x);
    }
    if d.len() > 1 {
        assert(d[0] != d[1]);
    }
    assert(d =~= seq![x]);
}

/// What the combinators mean, where both sides are names of nodes of the grammar. In
/// `t > u` the pattern of `u` stands in that of `t`. In `t + u` it stands behind that of
/// `t`, with an anchor between them, so that the two are adjacent siblings; in `t ~ u`
/// there is no anchor, so that the second may be any later sibling. In `t u` the second is
/// searched for inside the node of the first, at any depth.
pub proof fn law_combinators(
    table: Table,
    t: Seq<char>,
    t_sigil: Option<Sigil>,
    combinator: Combinator,
    u: Seq<char>,
    u_sigil: Option<Sigil>,
    ids: usize,
)
    requires
        table(t, t_sigil) is None,
        table(u, u_sigil) is None,
    ensures
        compiled(
            table,
            (QueryV {
                head: atom_query(
                    AtomV { sigil: t_sigil, node_type: Some(t), name_match: None },
                ).head,
                tail: seq![
                    (
                        combinator,
                        atom_query(
                            AtomV { sigil: u_sigil, node_type: Some(u), name_match: None },
                        ).head,
                    ),
                ],
            }),
            ids,
        ).0 == combinator_query(t, combinator, u, ids),
{
    let a = AtomV { sigil: t_sigil, node_type: Some(t), name_match: None };
    let b = AtomV { sigil: u_sigil, node_type: Some(u), name_match: None };
    let tail = seq![(combinator, atom_query(b).head)];
    let q = QueryV { head: atom_query(a).head, tail };
    let heads = seq![plain_fragment(t, None)];
    let tails = seq![plain_fragment(u, None)];
    assert(atom_fragments(table, a, ids) == (heads, ids));
    assert(atom_fragments(table, b, ids) == (tails, ids));
    assert(selector_fragments(table, q.head, ids) == (heads, ids));
    assert(selector_fragments(table, tail[0].1, ids) == (tails, ids));
    assert(tail.drop_last() =~= Seq::empty());
    assert(joined_fragments(table, (heads, ids), tail.drop_last()) == (heads, ids));
    assert(query_fragments(table, q, ids) == combined(heads, tails, combinator, ids));
    if combinator == Combinator::Descendant {
        lemma_descendant_text(t, u, ids);
    } else {
        lemma_joined_text(t, u, ids, combinator);
    }
}

// ---------------------------------------------------------------------------
// Parts that a language lacks
// ---------------------------------------------------------------------------

/// Whether a language has something for the type of an atom.
pub open spec fn atom_applies(table: Table, a: AtomV) -> bool {
    a.node_type matches Some(t) ==> table(t, a.sigil) != Some(Seq::<VariantV>::empty())
}

/// Whether a language has something for all types in a node of a selector.
pub open spec fn node_applies(table: Table, node: SelectorNodeV) -> bool
    decreases node,
{
    match node {
        SelectorNodeV::Bare(a) => atom_applies(table, a),
        SelectorNodeV::Group { query, .. } => query_applies(table, *query),
    }
}

/// Whether a language has something for all types in a field access.
pub open spec fn access_applies(table: Table, access: FieldAccessV) -> bool
    decreases access,
{
    match access.inner {
        Some(q) => query_applies(table, *q),
        None => true,
    }
}

/// Whether a language has something for all types in field accesses.
pub open spec fn accesses_apply(table: Table, accesses: Seq<FieldAccessV>) -> bool
    decreases accesses,
{
    accesses.len() == 0 || accesses_apply(table, accesses.drop_last()) && access_applies(
        table,
        accesses.last(),
    )
}

/// Whether a language has something for all types in a selector.
pub open spec fn selector_applies(table: Table, sel: SelectorV) -> bool
    decreases sel,
{
    node_applies(table, sel.node) && accesses_apply(table, sel.fields)
}

/// Whether a language has something for all types in a tail.
pub open spec fn tail_applies(table: Table, tail: Seq<(Combinator, SelectorV)>) -> bool
    decreases tail,
{
    tail.len() == 0 || tail_applies(table, tail.drop_last()) && selector_applies(
        table,
        tail.last().1,
    )
}

/// Whether a language has something for all types in a query.
pub open spec fn query_applies(table: Table, q: QueryV) -> bool
    decreases q,
{
    selector_applies(table, q.head) && tail_applies(table, q.tail)
}

proof fn lemma_injected_none(
    frags: Seq<FragmentV>,
    field: Seq<char>,
    marks: Seq<char>,
    preds: Seq<Seq<char>>,
)
    ensures
        injected_all(frags, field, Seq::empty(), marks, preds).len() == 0,
    decreases frags.len(),
{
    if frags.len() > 0 {
        lemma_injected_none(frags.drop_last(), field, marks, preds);
    }
}

proof fn lemma_accessed_none(
    frags: Seq<FragmentV>,
    field: Seq<char>,
    inner: Option<Seq<FragmentV>>,
    texts: Seq<Seq<char>>,
    ids: usize,
)
    requires
        frags.len() == 0 || inner == Some(Seq::<FragmentV>::empty()),
    ensures
        accessed(frags, field, inner, texts, ids).0.len() == 0,
{
    let (marks, preds) = if texts.len() == 0 {
        (Seq::empty(), Seq::empty())
    } else {
        let cap = "@_tx"@ + text::decimal_digits(ids as nat);
        (" "@ + cap, text_predicates(cap, texts))
    };
    lemma_injected_none(frags, field, marks, preds);
}

proof fn lemma_combined_none(
    frags: Seq<FragmentV>,
    more: Seq<FragmentV>,
    combinator: Combinator,
    ids: usize,
)
    requires
        frags.len() == 0 || more.len() == 0,
    ensures
        combined(frags, more, combinator, ids).0.len() == 0,
{
}

proof fn lemma_grouped_len(frags: Seq<FragmentV>, capture: Option<Seq<char>>, ids: usize)
    ensures
        grouped_all(frags, capture, ids).0.len() == frags.len(),
    decreases frags.len(),
{
    if frags.len() > 0 {
        lemma_grouped_len(frags.drop_last(), capture, ids);
    }
}

proof fn lemma_node_lacks(table: Table, node: SelectorNodeV, ids: usize)
    requires
        !node_applies(table, node),
    ensures
        node_fragments(table, node, ids).0.len() == 0,
    decreases node,
{
    match node {
        SelectorNodeV::Bare(a) => {},
        SelectorNodeV::Group { query, capture } => {
            lemma_query_lacks(table, *query, ids);
            let (inner, ids1) = query_fragments(table, *query, ids);
            lemma_grouped_len(inner, capture, ids1);
        },
    }
}

proof fn lemma_access_lacks(table: Table, frags: Seq<FragmentV>, access: FieldAccessV, ids: usize)
    requires
        frags.len() == 0 || !access_applies(table, access),
    ensures
        access_fragments(table, frags, access, ids).0.len() == 0,
    decreases access,
{
    let (inner, ids1) = field_fragments(table, access.inner, ids);
    if !access_applies(table, access) {
        lemma_field_lacks(table, access.inner, ids);
    }
    lemma_accessed_none(frags, access.field, inner, field_texts(access.inner), ids1);
}

proof fn lemma_accesses_lack(
    table: Table,
    start: (Seq<FragmentV>, usize),
    accesses: Seq<FieldAccessV>,
)
    requires
        start.0.len() == 0 || !accesses_apply(table, accesses),
    ensures
        accesses_fragments(table, start, accesses).0.len() == 0,
    decreases accesses,
{
    if accesses.len() > 0 {
        let (frags, ids) = accesses_fragments(table, start, accesses.drop_last());
        if start.0.len() == 0 || !accesses_apply(table, accesses.drop_last()) {
            lemma_accesses_lack(table, start, accesses.drop_last());
        }
        lemma_access_lacks(table, frags, accesses.last(), ids);
    }
}

proof fn lemma_selector_lacks(table: Table, sel: SelectorV, ids: usize)
    requires
        !selector_applies(table, sel),
    ensures
        selector_fragments(table, sel, ids).0.len() == 0,
    decreases sel,
{
    if !node_applies(table, sel.node) {
        lemma_node_lacks(table, sel.node, ids);
    }
    lemma_accesses_lack(table, node_fragments(table, sel.node, ids), sel.fields);
}

proof fn lemma_tail_lacks(
    table: Table,
    start: (Seq<FragmentV>, usize),
    tail: Seq<(Combinator, SelectorV)>,
)
    requires
        start.0.len() == 0 || !tail_applies(table, tail),
    ensures
        joined_fragments(table, start, tail).0.len() == 0,
    decreases tail,
{
    if tail.len() > 0 {
        let (frags, ids) = joined_fragments(table, start, tail.drop_last());
        if start.0.len() == 0 || !tail_applies(table, tail.drop_last()) {
            lemma_tail_lacks(table, start, tail.drop_last());
        } else {
            lemma_selector_lacks(table, tail.last().1, ids);
        }
        let (more, ids1) = selector_fragments(table, tail.last().1, ids);
        lemma_combined_none(frags, more, tail.last().0, ids1);
    }
}

proof fn lemma_query_lacks(table: Table, q: QueryV, ids: usize)
    requires
        !query_applies(table, q),
    ensures
        query_fragments(table, q, ids).0.len() == 0,
    decreases q,
{
    if !selector_applies(table, q.head) {
        lemma_selector_lacks(table, q.head, ids);
    }
    lemma_tail_lacks(table, selector_fragments(table, q.head, ids), q.tail);
}

proof fn lemma_field_tail_lacks(
    table: Table,
    start: (Option<Seq<FragmentV>>, usize),
    tail: Seq<(Combinator, SelectorV)>,
)
    requires
        start.0 == Some(Seq::<FragmentV>::empty()) || !tail_applies(table, tail),
    ensures
        field_joined(table, start, tail).0 == Some(Seq::<FragmentV>::empty()),
    decreases tail,
{
    if tail.len() > 0 {
        let (frags, ids) = field_joined(table, start, tail.drop_last());
        let sel = tail.last().1;
        if start.0 == Some(Seq::<FragmentV>::empty()) || !tail_applies(table, tail.drop_last()) {
            lemma_field_tail_lacks(table, start, tail.drop_last());
        } else {
            lemma_text_applies(table, sel);
            lemma_selector_lacks(table, sel, ids);
        }
        if lone_text(sel) is None {
            let (more, ids1) = selector_fragments(table, sel, ids);
            match frags {
                Some(f) => {
                    lemma_combined_none(f, more, tail.last().0, ids1);
                    assert(combined(f, more, tail.last().0, ids1).0 =~= Seq::empty());
                },
                None => {
                    assert(more =~= Seq::empty());
                },
            }
        }
    }
}

/// A text without a type is in every language.
proof fn lemma_text_applies(table: Table, sel: SelectorV)
    ensures
        lone_text(sel) is Some ==> selector_applies(table, sel),
{
}

proof fn lemma_field_lacks(table: Table, inner: Option<Box<QueryV>>, ids: usize)
    requires
        inner matches Some(q) && !query_applies(table, *q),
    ensures
        field_fragments(table, inner, ids).0 == Some(Seq::<FragmentV>::empty()),
    decreases inner,
{
    let q = *inner->Some_0;
    let start = if lone_text(q.head) is Some {
        (None, ids)
    } else {
        let (frags, ids1) = selector_fragments(table, q.head, ids);
        (Some(frags), ids1)
    };
    if !selector_applies(table, q.head) {
        lemma_text_applies(table, q.head);
        lemma_selector_lacks(table, q.head, ids);
        assert(selector_fragments(table, q.head, ids).0 =~= Seq::empty());
    }
    lemma_field_tail_lacks(table, start, q.tail);
}

/// No fragments have no text.
proof fn lemma_no_text(frags: Seq<FragmentV>, ids: usize)
    requires
        frags.len() == 0,
    ensures
        alternation(frags, ids).0.len() == 0,
{
    assert(frags =~= Seq::empty());
    assert(emitted_all(distinct(frags), ids).0 =~= Seq::empty());
}

proof fn lemma_accesses_split(table: Table, accesses: Seq<FieldAccessV>, k: nat)
    requires
        k < accesses.len(),
        access_applies(table, accesses[k as int]),
        !accesses_apply(table, accesses),
    ensures
        !accesses_apply(table, accesses.take(k as int)) || !accesses_apply(
            table,
            accesses.skip(k as int + 1),
        ),
    decreases accesses.len(),
{
    let init = accesses.drop_last();
    if k == init.len() {
        assert(accesses.take(k as int) =~= init);
    } else if !access_applies(table, accesses.last()) {
        let rest = accesses.skip(k as int + 1);
        assert(rest.last() == accesses.last());
    } else {
        lemma_accesses_split(table, init, k);
        assert(init.take(k as int) =~= accesses.take(k as int));
        assert(accesses.skip(k as int + 1).drop_last() =~= init.skip(k as int + 1));
    }
}

proof fn lemma_first_scope(accesses: Seq<FieldAccessV>, k: nat)
    ensures
        first_scope(accesses, k) matches Some(i) ==> k <= i < accesses.len(),
    decreases accesses.len() - k,
{
    if k < accesses.len() {
        lemma_first_scope(accesses, k + 1);
    }
}

/// A query does not apply to a language that lacks one of its parts, in whatever place the
/// part stands: it has no pattern.
pub proof fn law_missing_part_has_no_pattern(table: Table, q: QueryV, ids: usize)
    requires
        !query_applies(table, q),
    ensures
        has_no_pattern(compiled(table, q, ids).0),
{
    let (s, ids1) = scoped(table, q, ids);
    if let Some(k) = first_scope(q.head.fields, 0) {
        lemma_first_scope(q.head.fields, 0);
        if q.tail.len() == 0 {
            assert(tail_applies(table, q.tail));
            let access = q.head.fields[k as int];
            let (frags, ids2) = outer_fragments(table, q.head, k, ids);
            if access_applies(table, access) {
                let fields = q.head.fields;
                let node = node_fragments(table, q.head.node, ids);
                if !node_applies(table, q.head.node) {
                    lemma_node_lacks(table, q.head.node, ids);
                } else {
                    lemma_accesses_split(table, fields, k);
                }
                let before = fields.take(k as int);
                let (f, i) = accesses_fragments(table, node, before);
                if node.0.len() == 0 || !accesses_apply(table, before) {
                    lemma_accesses_lack(table, node, before);
                }
                let texts = field_texts(access.inner);
                let start = if texts.len() == 0 {
                    (f, i)
                } else {
                    accessed(f, access.field, None, texts, i)
                };
                if f.len() == 0 {
                    lemma_accessed_none(f, access.field, None, texts, i);
                }
                lemma_accesses_lack(table, start, fields.skip(k as int + 1));
                lemma_no_text(frags, ids2);
            } else {
                let (outer, ids3) = alternation(frags, ids2);
                lemma_field_lacks(table, access.inner, ids3);
                let (found, ids4) = field_fragments(table, access.inner, ids3);
                lemma_no_text(found.unwrap_or(Seq::empty()), ids4);
            }
        }
    }
    assert(s is None);
    lemma_query_lacks(table, q, ids1);
    let (frags, ids2) = query_fragments(table, q, ids1);
    lemma_no_text(frags, ids2);
}

// ---------------------------------------------------------------------------
// Alternations
// ---------------------------------------------------------------------------

proof fn lemma_distinct_has(frags: Seq<FragmentV>, i: int)
    requires
        0 <= i < frags.len(),
    ensures
        has_pattern(distinct(frags), frags[i]),
    decreases frags.len(),
{
    let init = distinct(frags.drop_last());
    let all = distinct(frags);
    if i < frags.len() - 1 {
        lemma_distinct_has(frags.drop_last(), i);
        let k = choose|k: int| 0 <= k < init.len() && #[trigger] same_pattern(init[k], frags[i]);
        assert(same_pattern(all[k], frags[i]));
    } else if !has_pattern(init, frags.last()) {
        assert(same_pattern(all[init.len() as int], frags.last()));
    }
}

proof fn lemma_distinct_repeats(frags: Seq<FragmentV>, more: Seq<FragmentV>)
    requires
        forall|i: int| 0 <= i < more.len() ==> has_pattern(distinct(frags), #[trigger] more[i]),
    ensures
        distinct(frags + more) == distinct(frags),
    decreases more.len(),
{
    if more.len() == 0 {
        assert(frags + more =~= frags);
    } else {
        assert forall|i: int| 0 <= i < more.drop_last().len() implies has_pattern(
            distinct(frags),
            #[trigger] more.drop_last()[i],
        ) by {
            assert(more.drop_last()[i] == more[i]);
        }
        lemma_distinct_repeats(frags, more.drop_last());
        assert((frags + more).drop_last() =~= frags + more.drop_last());
        assert(more[more.len() - 1] == more.last());
    }
}

proof fn lemma_emitted_len(frags: Seq<FragmentV>, ids: usize)
    ensures
        emitted_all(frags, ids).0.len() == frags.len(),
    decreases frags.len(),
{
    if frags.len() > 0 {
        lemma_emitted_len(frags.drop_last(), ids);
    }
}

/// Whether two of the fragments are different patterns.
pub open spec fn has_variants(frags: Seq<FragmentV>) -> bool {
    exists|i: int, j: int|
        0 <= i < frags.len() && 0 <= j < frags.len() && !#[trigger] same_pattern(
            frags[i],
            frags[j],
        )
}

proof fn lemma_distinct_len(frags: Seq<FragmentV>)
    ensures
        distinct(frags).len() == 0 <==> frags.len() == 0,
        distinct(frags).len() <= 1 <==> !has_variants(frags),
        frags.len() > 0 ==> distinct(frags)[0] == frags[0],
    decreases frags.len(),
{
    if frags.len() > 0 {
        let init = frags.drop_last();
        lemma_distinct_len(init);
        let last = frags.last();
        let n = frags.len() - 1;
        if init.len() == 0 {
            assert(distinct(frags) =~= seq![last]);
            assert(!has_variants(frags)) by {
                assert(forall|i: int, j: int|
                    0 <= i < frags.len() && 0 <= j < frags.len() ==> frags[i] == frags[j]);
            }
        } else {
            assert(init[0] == frags[0] && distinct(init)[0] == init[0]);
            if has_variants(init) {
                let (i, j) = choose|i: int, j: int|
                    0 <= i < init.len() && 0 <= j < init.len() && !#[trigger] same_pattern(
                        init[i],
                        init[j],
                    );
                assert(!same_pattern(frags[i], frags[j]));
            } else {
                assert(distinct(init) =~= seq![init[0]]);
                assert(has_pattern(distinct(init), last) <==> same_pattern(init[0], last)) by {
                    if same_pattern(init[0], last) {
                        assert(same_pattern(distinct(init)[0], last));
                    }
                }
                if same_pattern(init[0], last) {
                    assert forall|i: int, j: int|
                        0 <= i < frags.len() && 0 <= j < frags.len() implies #[trigger]
                    same_pattern(frags[i], frags[j]) by {
                        if i < n {
                            assert(same_pattern(init[0], init[i]));
                        }
                        if j < n {
                            assert(same_pattern(init[0], init[j]));
                        }
                    }
                } else {
                    assert(!same_pattern(frags[0], frags[n]));
                }
            }
        }
    }
}

/// Repeated fragments make no difference to an alternation. There is one, in brackets,
/// exactly where two of the fragments are different patterns; a single pattern stands in
/// parentheses, and no fragments have no text.
pub proof fn law_alternation(frags: Seq<FragmentV>, ids: usize)
    ensures
        alternation(frags + frags, ids) == alternation(frags, ids),
        alternation(frags, ids).0.len() == 0 <==> frags.len() == 0,
        frags.len() > 0 ==> alternation(frags, ids).0[0] == (if has_variants(frags) {
            '['
        } else {
            '('
        }),
{
    assert forall|i: int| 0 <= i < frags.len() implies has_pattern(
        distinct(frags),
        #[trigger] frags[i],
    ) by {
        lemma_distinct_has(frags, i);
    }
    lemma_distinct_repeats(frags, frags);
    lemma_distinct_len(frags);
    let kept = distinct(frags);
    lemma_emitted_len(kept, ids);
    reveal_strlit("[");
    reveal_strlit("(");
    if kept.len() == 1 {
        assert(kept =~= seq![kept[0]]);
        assert(kept.drop_last() =~= Seq::empty());
        assert(emitted_all(kept.drop_last(), ids) == (Seq::<Seq<char>>::empty(), ids));
        assert(emitted_all(kept, ids).0 =~= seq![emitted(kept[0], ids).0]);
        assert(emitted(kept[0], ids).0[0] == '(');
    }
}

// ---------------------------------------------------------------------------
// Descendants
// ---------------------------------------------------------------------------

/// Whether fragments hold no searches.
pub open spec fn has_no_searches(frags: Seq<FragmentV>) -> bool {
    forall|i: int| 0 <= i < frags.len() ==> (#[trigger] frags[i]).inside.len() == 0
}

proof fn lemma_no_searches(frags: Seq<FragmentV>)
    requires
        has_no_searches(frags),
    ensures
        all_inside(frags).len() == 0,
    decreases frags.len(),
{
    if frags.len() > 0 {
        let init = frags.drop_last();
        assert forall|i: int| 0 <= i < init.len() implies (#[trigger] init[i]).inside.len()
            == 0 by {
            assert(frags[i].inside.len() == 0);
        }
        lemma_no_searches(init);
        assert(frags[frags.len() - 1].inside.len() == 0);
    }
}

proof fn lemma_same_searches(frags: Seq<FragmentV>, x: SearchV)
    requires
        forall|i: int| 0 <= i < frags.len() ==> (#[trigger] frags[i]).inside == seq![x],
    ensures
        forall|i: int| 0 <= i < all_inside(frags).len() ==> #[trigger] all_inside(frags)[i] == x,
        all_inside(frags).len() == frags.len(),
    decreases frags.len(),
{
    if frags.len() > 0 {
        let init = frags.drop_last();
        assert forall|i: int| 0 <= i < init.len() implies (#[trigger] init[i]).inside
            == seq![x] by {
            assert(frags[i].inside == seq![x]);
        }
        lemma_same_searches(init, x);
        assert(frags[frags.len() - 1].inside == seq![x]);
    }
}

/// What `a b` is compiled to: the pattern of the first selector, with a capture of its node,
/// and a search for the second one inside that node. Where the two hold no searches of their
/// own, it is the only one.
pub proof fn law_descendant_query(table: Table, a: SelectorV, b: SelectorV, ids: usize)
    requires
        ({
            let (heads, ids1) = selector_fragments(table, a, ids);
            heads.len() > 0 && selector_fragments(table, b, ids1).0.len() > 0
        }),
    ensures
        ({
            let (heads, ids1) = selector_fragments(table, a, ids);
            let (tails, ids2) = selector_fragments(table, b, ids1);
            let (cap, inside, ids3) = search(tails, ids2);
            let frags = searched_all(heads, cap, inside);
            let searches = all_searches(frags);
            let second = alternation(tails, next_id(ids2)).0;
            let q = QueryV { head: a, tail: seq![(Combinator::Descendant, b)] };
            &&& compiled(table, q, ids).0 == (CompiledV::Searched {
                pattern: alternation(frags, ids3).0,
                searches,
            })
            &&& alternation(frags, ids3).0.len() > 0
            &&& searches.contains((cap, second))
            &&& has_no_searches(heads) && has_no_searches(tails) ==> searches == seq![
                (cap, second),
            ]
        }),
{
    let (heads, ids1) = selector_fragments(table, a, ids);
    let (tails, ids2) = selector_fragments(table, b, ids1);
    let (cap, inside, ids3) = search(tails, ids2);
    let frags = searched_all(heads, cap, inside);
    let second = alternation(tails, next_id(ids2)).0;
    let x = (cap, second);
    let tail = seq![(Combinator::Descendant, b)];
    let q = QueryV { head: a, tail };
    assert(tail.drop_last() =~= Seq::empty());
    assert(joined_fragments(table, (heads, ids1), tail.drop_last()) == (heads, ids1));
    assert(tail.last() == (Combinator::Descendant, b));
    assert(query_fragments(table, q, ids) == (frags, ids3));
    law_alternation(frags, ids3);
    let all = all_inside(frags);
    let last = frags.last();
    let n = all_inside(frags.drop_last()).len() as int;
    let k = heads.last().inside.len() as int;
    assert(inside[0] == x);
    assert(last.inside == heads.last().inside + inside);
    assert(last.inside[k] == x);
    assert(all[n + k] == x);
    text::lemma_distinct(all);
    assert(all_searches(frags).contains(x));
    if has_no_searches(heads) && has_no_searches(tails) {
        lemma_no_searches(tails);
        assert(inside =~= seq![x]);
        assert forall|i: int| 0 <= i < frags.len() implies (#[trigger] frags[i]).inside
            == seq![x] by {
            assert(frags[i] == searched(heads[i], cap, inside));
            assert(heads[i].inside.len() == 0);
            assert(frags[i].inside =~= seq![x]);
        }
        lemma_same_searches(frags, x);
        lemma_distinct_same(all, x);
    }
}

fn has_duplicate(unique: &Vec<Fragment>, frag: &Fragment) -> (r: bool)
    ensures
        r == has_pattern(text::views(unique@), frag@),
{
    let ghost all = text::views(unique@);
    let mut i: usize = 0;
    while i < unique.len()
        invariant
            i <= unique@.len(),
            all == text::views(unique@),
            forall|k: int| 0 <= k < i ==> !#[trigger] same_pattern(all[k], frag@),
        decreases unique@.len() - i,
    {
        let f: &Fragment = &unique[i];
        let same_name: bool = match (&f.pending_name_match, &frag.pending_name_match) {
            (Some(NameMatch::Exact(x)), Some(NameMatch::Exact(y))) => str_eq(
                x.as_str(),
                y.as_str(),
            ),
            (Some(NameMatch::Regex(x)), Some(NameMatch::Regex(y))) => str_eq(
                x.as_str(),
                y.as_str(),
            ),
            (None, None) => true,
            _ => false,
        };
        assert(same_name == (f@.pending == frag@.pending));
        let same_texts: bool = str_eq(f.node_body.as_str(), frag.node_body.as_str()) && str_eq(
            f.marks.as_str(),
            frag.marks.as_str(),
        ) && str_eq(f.siblings.as_str(), frag.siblings.as_str());
        if same_texts && same_name && strings_eq(&f.predicates, &frag.predicates) && searches_eq(
            &f.inside,
            &frag.inside,
        ) && opt_eq(&f.outer_capture, &frag.outer_capture) {
            assert(same_pattern(all[i as int], frag@));
            return true;
        }
        i += 1;
    }
    false
}

/// One pattern for all fragments, each of them once.
pub fn emit_alternation(frags: Vec<Fragment>, ids: &mut usize) -> (r: String)
    ensures
        (r@, *final(ids)) == alternation(text::views(frags@), *old(ids)),
{
    let ghost all = text::views(frags@);
    let mut unique: Vec<Fragment> = Vec::new();
    let mut i: usize = 0;
    assert(text::views(unique@) =~= Seq::empty());
    while i < frags.len()
        invariant
            i <= frags@.len(),
            all == text::views(frags@),
            text::views(unique@) == distinct(all.take(i as int)),
        decreases frags@.len() - i,
    {
        assert(all.take(i + 1).drop_last() =~= all.take(i as int));
        assert(all.take(i + 1).last() == frags@[i as int]@);
        if !has_duplicate(&unique, &frags[i]) {
            push_fragment(&mut unique, frags[i].copy());
        }
        i += 1;
    }
    assert(all.take(i as int) =~= all);
    let ghost kept = text::views(unique@);
    let mut parts: Vec<String> = Vec::new();
    let mut k: usize = 0;
    assert(text::views(parts@) =~= Seq::empty());
    while k < unique.len()
        invariant
            k <= unique@.len(),
            kept == text::views(unique@),
            (text::views(parts@), *ids) == emitted_all(kept.take(k as int), *old(ids)),
        decreases unique@.len() - k,
    {
        assert(kept.take(k + 1).drop_last() =~= kept.take(k as int));
        assert(kept.take(k + 1).last() == unique@[k as int]@);
        let text: String = unique[k].copy().emit(ids);
        push_string(&mut parts, text);
        k += 1;
    }
    assert(kept.take(k as int) =~= kept);
    assert(text::views(parts@).len() == parts@.len());
    if parts.len() == 0 {
        String::new()
    } else if parts.len() == 1 {
        parts[0].clone()
    } else {
        let mut out: String = "[".to_string();
        out.append(join(&parts, "\n ").as_str());
        out.append("]");
        out
    }
}

// ---------------------------------------------------------------------------
// Public entry point
// ---------------------------------------------------------------------------

/// The fragments of a selector without the query of its access at `k`.
fn compile_outer<L: Lang + ?Sized>(sel: &Selector, k: usize, lang: &L, ids: &mut usize) -> (r: Vec<
    Fragment,
>)
    requires
        k < sel.fields@.len(),
    ensures
        (text::views(r@), *final(ids)) == outer_fragments(
            lang.table(),
            sel@,
            k as nat,
            *old(ids),
        ),
{
    let frags: Vec<Fragment> = compile_selector_node(&sel.node, lang, ids);
    let ghost fields = sel@.fields;
    let mut frags: Vec<Fragment> = compile_accesses(frags, &sel.fields, 0, k, lang, ids);
    assert(text::views(sel.fields@).subrange(0, k as int) =~= fields.take(k as int));
    assert(fields[k as int] == sel.fields@[k as int]@);
    let texts: Vec<&String> = find_texts(&sel.fields[k]);
    if texts.len() != 0 {
        frags = access(&frags, sel.fields[k].field.as_str(), None, &texts, ids);
    }
    assert(text::views(sel.fields@).subrange(k + 1, sel.fields@.len() as int) =~= fields.skip(
        k + 1,
    ));
    let n: usize = sel.fields.len();
    compile_accesses(frags, &sel.fields, k + 1, n, lang, ids)
}

/// Whether a field access carries a query whose matches are searched for in the field.
fn is_search(fa: &FieldAccess) -> (r: bool)
    ensures
        r == is_scope(fa@),
{
    match &fa.inner {
        Some(query) => {
            if str_eq(fa.field.as_str(), "params") {
                return false;
            }
            proof {
                lemma_tail_texts(query@.tail);
            }
            let texts: Vec<&String> = find_texts(fa);
            assert(text::views(texts@).len() == texts@.len());
            assert(query.tail@.len() == query@.tail.len());
            texts.len() <= query.tail.len()
        },
        None => false,
    }
}

proof fn lemma_tail_texts(tail: Seq<(Combinator, SelectorV)>)
    ensures
        tail_texts(tail).len() <= tail.len(),
    decreases tail.len(),
{
    if tail.len() > 0 {
        lemma_tail_texts(tail.drop_last());
    }
}

/// Whether captures of the nodes of the fragments come before others that may be shown.
fn is_shown_first(frags: &Vec<Fragment>) -> (r: bool)
    ensures
        r == shown_first(text::views(frags@)),
{
    let ghost all = text::views(frags@);
    let mut i: usize = 0;
    while i < frags.len()
        invariant
            i <= frags@.len(),
            all == text::views(frags@),
            forall|k: int|
                0 <= k < i ==> !(#[trigger] all[k]).deep_captures || node_shows(all[k]),
        decreases frags@.len() - i,
    {
        assert(all[i as int] == frags@[i as int]@);
        if frags[i].deep_captures && !frags[i].is_shown() {
            return false;
        }
        i += 1;
    }
    true
}

/// A query with a scope and without a tail is compiled in two phases. The scope is the
/// first field access that carries an inner query: the field is where each outer match is
/// searched with it. "params" uses structural embedding (not containment search).
fn try_compile_scoped<L: Lang + ?Sized>(query: &Query, lang: &L, ids: &mut usize) -> (r: Option<
    CompiledQuery,
>)
    ensures
        (text::opt_view(r), *final(ids)) == scoped(lang.table(), query@, *old(ids)),
{
    let ghost fields = query@.head.fields;
    if query.tail.len() != 0 {
        return None;
    }
    let mut k: usize = 0;
    while k < query.head.fields.len() && !is_search(&query.head.fields[k])
        invariant
            k <= query.head.fields@.len(),
            fields == query@.head.fields,
            first_scope(fields, 0) == first_scope(fields, k as nat),
        decreases query.head.fields@.len() - k,
    {
        assert(fields[k as int] == query.head.fields@[k as int]@);
        k += 1;
    }
    if k >= query.head.fields.len() {
        return None;
    }
    let access: &FieldAccess = &query.head.fields[k];
    assert(fields[k as int] == access@);
    // Outer: the head node with all field accesses retained (e.g. .params() filters), but
    // the scoped one removed.
    let outer_frags: Vec<Fragment> = compile_outer(&query.head, k, lang, ids);
    let outer_searches: Vec<Search> = dedup_searches(&collect_inside(&outer_frags));
    let shown: bool = is_shown_first(&outer_frags);
    let outer: String = emit_alternation(outer_frags, ids);
    if outer.as_str().is_empty() {
        return None;
    }
    let found: Option<Vec<Fragment>> = match &access.inner {
        Some(q) => compile_field(q, lang, ids),
        None => None,
    };
    let frags: Vec<Fragment> = match found {
        Some(f) => f,
        None => {
            let none: Vec<Fragment> = Vec::new();
            assert(text::views(none@) =~= Seq::empty());
            none
        },
    };
    let inner_searches: Vec<Search> = dedup_searches(&collect_inside(&frags));
    let inner: String = emit_alternation(frags, ids);
    if inner.as_str().is_empty() {
        return None;
    }
    let scope_field: String = access.field.clone();
    assert(text::views(outer_searches@).len() == outer_searches@.len());
    assert(text::views(inner_searches@).len() == inner_searches@.len());
    if outer_searches.len() == 0 && inner_searches.len() == 0 && shown {
        Some(CompiledQuery::Scoped { outer, scope_field, inner })
    } else {
        Some(
            CompiledQuery::ScopedSearch {
                outer,
                outer_searches,
                scope_field,
                inner,
                inner_searches,
            },
        )
    }
}

/// Compiles a query with internal captures numbered from `*ids` on, and moves `*ids` past
/// the numbers that were taken.
pub fn compile_with_ids<L: Lang + ?Sized>(query: &Query, lang: &L, ids: &mut usize) -> (r:
    CompiledQuery)
    ensures
        (r@, *final(ids)) == compiled(lang.table(), query@, *old(ids)),
{
    if let Some(c) = try_compile_scoped(query, lang, ids) {
        return c;
    }
    let frags: Vec<Fragment> = compile_query(query, lang, ids);
    let searches: Vec<Search> = dedup_searches(&collect_inside(&frags));
    let pattern: String = emit_alternation(frags, ids);
    assert(text::views(searches@).len() == searches@.len());
    if searches.len() == 0 {
        CompiledQuery::Simple(pattern)
    } else {
        CompiledQuery::Searched { pattern, searches }
    }
}

/// Compiles a query with internal captures numbered from 0 on.
pub fn compile<L: Lang + ?Sized>(query: &Query, lang: &L) -> (r: CompiledQuery)
    ensures
        r@ == compiled(lang.table(), query@, 0).0,
{
    let mut ids: usize = 0;
    compile_with_ids(query, lang, &mut ids)
}

} // verus!
