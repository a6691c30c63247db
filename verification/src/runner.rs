//! Running compiled queries over source texts.

use vstd::prelude::*;
use crate::compiler;
use crate::compiler::lang::{Lang, Table};
use crate::compiler::{CompiledQuery, CompiledV, Search, SearchV};
use crate::query::ast::{Combinator, QueryV, SelectorV};
use crate::syntax;
use crate::syntax::{
    Capture, CaptureV, Grammar, Listed, Listing, Node, Record, RecordV, list_tree, node_from,
    parse_tree, query_error, query_matches, text_at,
};
use crate::text;
use crate::text::{
    debug_string, decimal, dedup, first_line, join, push_string, starts_with, str_eq,
};

verus! {

broadcast use vstd::string::group_string_axioms;

// ---------------------------------------------------------------------------
// How a node is shown
// ---------------------------------------------------------------------------

/// The lines of a node: the first, and with its body also the last, if it is another one.
pub open spec fn lines_shown(r: RecordV, body: bool) -> Seq<char> {
    let start = syntax::line_of(r.start_row);
    let end = syntax::line_of(r.end_row);
    if body && end != start {
        text::decimal_digits(start as nat) + "-"@ + text::decimal_digits(end as nat)
    } else {
        text::decimal_digits(start as nat)
    }
}

/// The text of a node: the whole of it with its body, else its first line in quotes.
pub open spec fn text_shown(l: Listing, r: RecordV, body: bool) -> Seq<char> {
    let t = match syntax::text_of(l.source, r.start_byte, r.end_byte) {
        Some(t) => t,
        None => "<invalid utf8>"@,
    };
    if body {
        t
    } else {
        text::debug_text(text::first_line_spec(t))
    }
}

/// A node with what it is a match of.
pub open spec fn node_shown(l: Listing, what: Seq<char>, node: usize, body: bool) -> Seq<char> {
    let r = l.records[node as int];
    what + ":"@ + lines_shown(r, body) + ": "@ + text_shown(l, r, body)
}

/// A capture and its node.
pub open spec fn capture_shown(l: Listing, c: CaptureV, body: bool) -> Seq<char> {
    node_shown(l, "@"@ + c.name, c.node, body)
}

/// Captures and their nodes, separated by commas.
pub open spec fn captures_shown(l: Listing, cs: Seq<CaptureV>, body: bool) -> Seq<char> {
    text::join_spec(cs.map_values(|c: CaptureV| capture_shown(l, c, body)), ", "@)
}

/// Whether a capture is one of the query's author, not an internal one.
pub open spec fn is_visible(c: CaptureV) -> bool {
    !text::has_prefix(c.name, "_"@)
}

/// Whether a capture is the internal one of a whole match.
pub open spec fn is_root(c: CaptureV) -> bool {
    text::has_prefix(c.name, "_root"@)
}

/// The captures of a match that its author named.
pub open spec fn visible(m: Seq<CaptureV>) -> Seq<CaptureV> {
    m.filter(|c: CaptureV| is_visible(c))
}

/// The first capture from `k` on of which `p` holds.
pub open spec fn first_capture(m: Seq<CaptureV>, k: nat, p: spec_fn(CaptureV) -> bool) -> Option<
    CaptureV,
>
    decreases m.len() - k,
{
    if k >= m.len() {
        None
    } else if p(m[k as int]) {
        Some(m[k as int])
    } else {
        first_capture(m, k + 1, p)
    }
}

/// The capture that stands for a match without visible captures: the internal one of the
/// whole match, or else the first.
pub open spec fn whole_capture(m: Seq<CaptureV>) -> Option<CaptureV> {
    match first_capture(m, 0, |c: CaptureV| is_root(c)) {
        Some(c) => Some(c),
        None => if m.len() > 0 {
            Some(m[0])
        } else {
            None
        },
    }
}

/// What a match of a simple query gives.
pub open spec fn simple_result(l: Listing, m: Seq<CaptureV>, body: bool) -> Seq<char> {
    if visible(m).len() > 0 {
        captures_shown(l, visible(m), body)
    } else {
        match whole_capture(m) {
            Some(c) => node_shown(l, "<match>"@, c.node, body),
            None => "<match>"@,
        }
    }
}

/// What the matches of a simple query give.
pub open spec fn simple_results(l: Listing, ms: Seq<Seq<CaptureV>>, body: bool) -> Seq<Seq<char>> {
    ms.map_values(|m: Seq<CaptureV>| simple_result(l, m, body))
}

/// The first node, in preorder, of the captures of a match.
pub open spec fn first_node(m: Seq<CaptureV>) -> usize
    recommends
        m.len() > 0,
    decreases m.len(),
{
    if m.len() <= 1 || m.last().node < first_node(m.drop_last()) {
        m.last().node
    } else {
        first_node(m.drop_last())
    }
}

/// The node that a match of an outer query is searched in: that of its first visible
/// capture, or else of the capture that stands for the match. Where the outermost node is
/// asked for, it is that one, which comes before all other nodes of the match, whatever else
/// is captured.
pub open spec fn container(m: Seq<CaptureV>, outermost: bool) -> Option<usize> {
    if outermost {
        if m.len() > 0 {
            Some(first_node(m))
        } else {
            None
        }
    } else {
        match first_capture(m, 0, |c: CaptureV| is_visible(c)) {
            Some(c) => Some(c.node),
            None => match whole_capture(m) {
                Some(c) => Some(c.node),
                None => None,
            },
        }
    }
}

/// The node that the inner query of a scoped query searches: the field of the container,
/// or the container itself where it has no such field.
pub open spec fn scope_of(l: Listing, container: usize, field: Seq<char>) -> usize {
    match syntax::field_child(syntax::node_at(l, container as nat), field) {
        Some(c) => c.index,
        None => container,
    }
}

/// What an inner match gives inside an outer one.
pub open spec fn scoped_result(
    l: Listing,
    outer: Seq<CaptureV>,
    m: Seq<CaptureV>,
    body: bool,
) -> Option<Seq<char>> {
    let shown = visible(outer) + visible(m);
    if shown.len() > 0 {
        Some(captures_shown(l, shown, body))
    } else if m.len() > 0 {
        Some(node_shown(l, "<match>"@, m[0].node, body))
    } else {
        None
    }
}

/// What the inner matches give inside one outer match.
pub open spec fn scoped_results(
    l: Listing,
    outer: Seq<CaptureV>,
    ms: Seq<Seq<CaptureV>>,
    body: bool,
) -> Seq<Seq<char>>
    decreases ms.len(),
{
    if ms.len() == 0 {
        Seq::empty()
    } else {
        let init = scoped_results(l, outer, ms.drop_last(), body);
        match scoped_result(l, outer, ms.last(), body) {
            Some(s) => init.push(s),
            None => init,
        }
    }
}

/// What the outer matches give, with the matches of the inner query below each node.
pub open spec fn all_scoped_results(
    l: Listing,
    outers: Seq<Seq<CaptureV>>,
    outermost: bool,
    field: Seq<char>,
    inner: spec_fn(usize) -> Seq<Seq<CaptureV>>,
    body: bool,
) -> Seq<Seq<char>>
    decreases outers.len(),
{
    if outers.len() == 0 {
        Seq::empty()
    } else {
        let init = all_scoped_results(l, outers.drop_last(), outermost, field, inner, body);
        match container(outers.last(), outermost) {
            Some(c) => init + scoped_results(
                l,
                outers.last(),
                inner(scope_of(l, c, field)),
                body,
            ),
            None => init,
        }
    }
}

// ---------------------------------------------------------------------------
// Patterns with searches
// ---------------------------------------------------------------------------

/// The message with which a grammar refuses the pattern of one of the searches from `k` on.
pub open spec fn search_failure(g: Grammar, searches: Seq<SearchV>, k: nat) -> Option<Seq<char>>
    decreases searches.len() - k,
{
    if k >= searches.len() {
        None
    } else {
        match syntax::ts_query_error(g, searches[k as int].1) {
            Some(e) => Some(e),
            None => search_failure(g, searches, k + 1),
        }
    }
}

/// The first message with which a grammar refuses a pattern or one of its searches.
pub open spec fn pattern_failure(g: Grammar, p: (Seq<char>, Seq<SearchV>)) -> Option<Seq<char>> {
    match syntax::ts_query_error(g, p.0) {
        Some(e) => Some(e),
        None => search_failure(g, p.1, 0),
    }
}

/// Whether all captures of a match are strictly inside a node. In preorder, what is in a
/// node comes after it.
pub open spec fn is_inside(m: Seq<CaptureV>, node: usize) -> bool {
    forall|j: int| 0 <= j < m.len() ==> node < (#[trigger] m[j]).node
}

/// A match together with each of those that are strictly inside a node of it.
pub open spec fn paired(m: Seq<CaptureV>, node: usize, found: Seq<Seq<CaptureV>>) -> Seq<
    Seq<CaptureV>,
>
    decreases found.len(),
{
    if found.len() == 0 {
        Seq::empty()
    } else {
        let init = paired(m, node, found.drop_last());
        if is_inside(found.last(), node) {
            init.push(m + found.last())
        } else {
            init
        }
    }
}

/// What a search makes of a match: pairs of it with what is found in the node of the
/// capture. A match without the capture stays as it is.
pub open spec fn extended(
    m: Seq<CaptureV>,
    cap: Seq<char>,
    found: spec_fn(usize) -> Seq<Seq<CaptureV>>,
) -> Seq<Seq<CaptureV>> {
    match first_capture(m, 0, |c: CaptureV| c.name == cap) {
        Some(c) => paired(m, c.node, found(c.node)),
        None => seq![m],
    }
}

/// What a search makes of matches.
pub open spec fn extended_all(
    ms: Seq<Seq<CaptureV>>,
    cap: Seq<char>,
    found: spec_fn(usize) -> Seq<Seq<CaptureV>>,
) -> Seq<Seq<CaptureV>>
    decreases ms.len(),
{
    if ms.len() == 0 {
        Seq::empty()
    } else {
        extended_all(ms.drop_last(), cap, found) + extended(ms.last(), cap, found)
    }
}

/// What searches, one after another, make of matches.
pub open spec fn searched(
    ms: Seq<Seq<CaptureV>>,
    searches: Seq<SearchV>,
    found: spec_fn(Seq<char>, usize) -> Seq<Seq<CaptureV>>,
) -> Seq<Seq<CaptureV>>
    decreases searches.len(),
{
    if searches.len() == 0 {
        ms
    } else {
        extended_all(
            searched(ms, searches.drop_last(), found),
            searches.last().0,
            |node: usize| found(searches.last().1, node),
        )
    }
}

/// The matches of a pattern and its searches in the subtree of a node.
pub open spec fn pattern_matches(
    g: Grammar,
    source: Seq<u8>,
    p: (Seq<char>, Seq<SearchV>),
    scope: usize,
) -> Seq<Seq<CaptureV>> {
    searched(
        syntax::ts_matches(g, source, p.0, scope),
        p.1,
        |pattern: Seq<char>, node: usize| syntax::ts_matches(g, source, pattern, node),
    )
}

/// What a query of one phase gives: the results of all matches, each of them once, or the
/// message of a pattern that the grammar refuses.
pub open spec fn one_phase_result(
    g: Grammar,
    p: (Seq<char>, Seq<SearchV>),
    source: Seq<u8>,
    body: bool,
) -> Result<Seq<Seq<char>>, Seq<char>> {
    let l = syntax::listing(g, source);
    match pattern_failure(g, p) {
        Some(e) => Err("query error: "@ + e),
        None => Ok(text::distinct(simple_results(l, pattern_matches(g, source, p, 0), body))),
    }
}

/// What a query of two phases gives.
pub open spec fn two_phase_result(
    g: Grammar,
    outer: (Seq<char>, Seq<SearchV>),
    outermost: bool,
    scope_field: Seq<char>,
    inner: (Seq<char>, Seq<SearchV>),
    source: Seq<u8>,
    body: bool,
) -> Result<Seq<Seq<char>>, Seq<char>> {
    let l = syntax::listing(g, source);
    match pattern_failure(g, outer) {
        Some(e) => Err("outer query error: "@ + e),
        None => match pattern_failure(g, inner) {
            Some(e) => Err("inner query error: "@ + e),
            None => Ok(
                text::distinct(
                    all_scoped_results(
                        l,
                        pattern_matches(g, source, outer, 0),
                        outermost,
                        scope_field,
                        |scope: usize| pattern_matches(g, source, inner, scope),
                        body,
                    ),
                ),
            ),
        },
    }
}

/// What a run gives: the results of all matches, each of them once, or the message of a
/// pattern that the grammar refuses.
pub open spec fn run_result(g: Grammar, c: CompiledV, source: Seq<u8>, body: bool) -> Result<
    Seq<Seq<char>>,
    Seq<char>,
> {
    if compiler::has_no_pattern(c) {
        Ok(Seq::empty())
    } else {
        match c {
            CompiledV::Simple(t) => one_phase_result(g, (t, Seq::empty()), source, body),
            CompiledV::Searched { pattern, searches } => one_phase_result(
                g,
                (pattern, searches),
                source,
                body,
            ),
            CompiledV::Scoped { outer, scope_field, inner } => two_phase_result(
                g,
                (outer, Seq::empty()),
                false,
                scope_field,
                (inner, Seq::empty()),
                source,
                body,
            ),
            CompiledV::ScopedSearch {
                outer,
                outer_searches,
                scope_field,
                inner,
                inner_searches,
            } => two_phase_result(
                g,
                (outer, outer_searches),
                true,
                scope_field,
                (inner, inner_searches),
                source,
                body,
            ),
        }
    }
}

/// A query without a pattern matches nothing, and that is no error.
pub proof fn law_no_pattern_no_results(g: Grammar, c: CompiledV, source: Seq<u8>, body: bool)
    requires
        compiler::has_no_pattern(c),
    ensures
        run_result(g, c, source, body) == Ok::<Seq<Seq<char>>, Seq<char>>(Seq::empty()),
{
}

/// No result of a run is given twice.
pub proof fn law_results_are_distinct(g: Grammar, c: CompiledV, source: Seq<u8>, body: bool)
    ensures
        run_result(g, c, source, body) matches Ok(results) ==> results.no_duplicates(),
{
    match c {
        CompiledV::Simple(t) => {
            lemma_one_phase_distinct(g, (t, Seq::empty()), source, body);
        },
        CompiledV::Searched { pattern, searches } => {
            lemma_one_phase_distinct(g, (pattern, searches), source, body);
        },
        CompiledV::Scoped { outer, scope_field, inner } => {
            lemma_two_phases_distinct(
                g,
                (outer, Seq::empty()),
                false,
                scope_field,
                (inner, Seq::empty()),
                source,
                body,
            );
        },
        CompiledV::ScopedSearch {
            outer,
            outer_searches,
            scope_field,
            inner,
            inner_searches,
        } => {
            lemma_two_phases_distinct(
                g,
                (outer, outer_searches),
                true,
                scope_field,
                (inner, inner_searches),
                source,
                body,
            );
        },
    }
}

proof fn lemma_one_phase_distinct(
    g: Grammar,
    p: (Seq<char>, Seq<SearchV>),
    source: Seq<u8>,
    body: bool,
)
    ensures
        one_phase_result(g, p, source, body) matches Ok(results) ==> results.no_duplicates(),
{
    let l = syntax::listing(g, source);
    text::lemma_distinct(simple_results(l, pattern_matches(g, source, p, 0), body));
}

proof fn lemma_two_phases_distinct(
    g: Grammar,
    outer: (Seq<char>, Seq<SearchV>),
    outermost: bool,
    scope_field: Seq<char>,
    inner: (Seq<char>, Seq<SearchV>),
    source: Seq<u8>,
    body: bool,
)
    ensures
        two_phase_result(g, outer, outermost, scope_field, inner, source, body) matches Ok(results)
            ==> results.no_duplicates(),
{
    text::lemma_distinct(
        all_scoped_results(
            syntax::listing(g, source),
            pattern_matches(g, source, outer, 0),
            outermost,
            scope_field,
            |scope: usize| pattern_matches(g, source, inner, scope),
            body,
        ),
    );
}

proof fn lemma_paired_has(m: Seq<CaptureV>, node: usize, found: Seq<Seq<CaptureV>>, j: int)
    requires
        0 <= j < found.len(),
        is_inside(found[j], node),
    ensures
        paired(m, node, found).contains(m + found[j]),
    decreases found.len(),
{
    let init = paired(m, node, found.drop_last());
    let all = paired(m, node, found);
    if j == found.len() - 1 {
        assert(all[init.len() as int] == m + found[j]);
    } else {
        lemma_paired_has(m, node, found.drop_last(), j);
        let k = init.index_of(m + found[j]);
        assert(all[k] == m + found[j]);
    }
}

proof fn lemma_extended_has(
    ms: Seq<Seq<CaptureV>>,
    cap: Seq<char>,
    found: spec_fn(usize) -> Seq<Seq<CaptureV>>,
    i: int,
    x: Seq<CaptureV>,
)
    requires
        0 <= i < ms.len(),
        extended(ms[i], cap, found).contains(x),
    ensures
        extended_all(ms, cap, found).contains(x),
    decreases ms.len(),
{
    let init = extended_all(ms.drop_last(), cap, found);
    let more = extended(ms.last(), cap, found);
    if i == ms.len() - 1 {
        let k = more.index_of(x);
        assert((init + more)[init.len() + k] == x);
    } else {
        lemma_extended_has(ms.drop_last(), cap, found, i, x);
        let k = init.index_of(x);
        assert((init + more)[k] == x);
    }
}

/// What is inside a match is found at any depth: where a pattern is searched for inside the
/// node of a capture, each match of the one, with each match of the other on nodes strictly
/// inside that node, gives a result.
pub proof fn law_descendants_are_found(
    g: Grammar,
    source: Seq<u8>,
    main: Seq<char>,
    cap: Seq<char>,
    pattern: Seq<char>,
    body: bool,
    i: int,
    c: CaptureV,
    j: int,
)
    requires
        main.len() > 0,
    ensures
        ({
            let query = CompiledV::Searched { pattern: main, searches: seq![(cap, pattern)] };
            let outer = syntax::ts_matches(g, source, main, 0);
            let inner = syntax::ts_matches(g, source, pattern, c.node);
            (syntax::ts_query_error(g, main) is None && syntax::ts_query_error(g, pattern) is None
                && 0 <= i < outer.len() && first_capture(
                outer[i],
                0,
                |k: CaptureV| k.name == cap,
            ) == Some(c) && 0 <= j < inner.len() && is_inside(inner[j], c.node)) ==> (run_result(
                g,
                query,
                source,
                body,
            ) matches Ok(lines) && lines.contains(
                simple_result(syntax::listing(g, source), outer[i] + inner[j], body),
            ))
        }),
{
    let outer = syntax::ts_matches(g, source, main, 0);
    let inner = syntax::ts_matches(g, source, pattern, c.node);
    if syntax::ts_query_error(g, main) is None && syntax::ts_query_error(g, pattern) is None && 0
        <= i < outer.len() && first_capture(
        outer[i],
        0,
        |k: CaptureV| k.name == cap,
    ) == Some(c) && 0 <= j < inner.len() && is_inside(inner[j], c.node) {
        let l = syntax::listing(g, source);
        let find = |p: Seq<char>, node: usize| syntax::ts_matches(g, source, p, node);
        let one = |node: usize| find(pattern, node);
        let x = outer[i] + inner[j];
        lemma_paired_has(outer[i], c.node, inner, j);
        assert(extended(outer[i], cap, one) == paired(outer[i], c.node, inner));
        lemma_extended_has(outer, cap, one, i, x);
        let searches = seq![(cap, pattern)];
        assert(searches.drop_last() =~= Seq::empty());
        assert(searched(outer, searches.drop_last(), find) == outer);
        assert((|node: usize| find(searches.last().1, node)) =~= one);
        assert(search_failure(g, searches, 1) is None);
        assert(pattern_failure(g, (main, searches)) is None);
        let all = pattern_matches(g, source, (main, searches), 0);
        assert(all == extended_all(outer, cap, one));
        let results = simple_results(l, all, body);
        let k = all.index_of(x);
        assert(results[k] == simple_result(l, x, body));
        text::lemma_distinct(results);
    }
}

/// `a b` finds a `b` anywhere inside an `a`: each match of the one, with each match of the
/// other on nodes strictly inside its node, at whatever depth, gives a result. (The two
/// selectors hold no searches of their own.)
pub proof fn law_descendant_combinator(
    g: Grammar,
    table: Table,
    a: SelectorV,
    b: SelectorV,
    ids: usize,
    source: Seq<u8>,
    body: bool,
    i: int,
    c: CaptureV,
    j: int,
)
    requires
        ({
            let (heads, ids1) = compiler::selector_fragments(table, a, ids);
            let (tails, _) = compiler::selector_fragments(table, b, ids1);
            &&& heads.len() > 0 && tails.len() > 0
            &&& compiler::has_no_searches(heads) && compiler::has_no_searches(tails)
        }),
    ensures
        ({
            let (heads, ids1) = compiler::selector_fragments(table, a, ids);
            let (tails, ids2) = compiler::selector_fragments(table, b, ids1);
            let (cap, inside, ids3) = compiler::search(tails, ids2);
            let frags = compiler::searched_all(heads, cap, inside);
            let first = compiler::alternation(frags, ids3).0;
            let second = compiler::alternation(tails, compiler::next_id(ids2)).0;
            let q = QueryV { head: a, tail: seq![(Combinator::Descendant, b)] };
            let outer = syntax::ts_matches(g, source, first, 0);
            let inner = syntax::ts_matches(g, source, second, c.node);
            (syntax::ts_query_error(g, first) is None && syntax::ts_query_error(g, second) is None
                && 0 <= i < outer.len() && first_capture(
                outer[i],
                0,
                |k: CaptureV| k.name == cap,
            ) == Some(c) && 0 <= j < inner.len() && is_inside(inner[j], c.node)) ==> (run_result(
                g,
                compiler::compiled(table, q, ids).0,
                source,
                body,
            ) matches Ok(lines) && lines.contains(
                simple_result(syntax::listing(g, source), outer[i] + inner[j], body),
            ))
        }),
{
    let (heads, ids1) = compiler::selector_fragments(table, a, ids);
    let (tails, ids2) = compiler::selector_fragments(table, b, ids1);
    let (cap, inside, ids3) = compiler::search(tails, ids2);
    let first = compiler::alternation(compiler::searched_all(heads, cap, inside), ids3).0;
    let second = compiler::alternation(tails, compiler::next_id(ids2)).0;
    compiler::law_descendant_query(table, a, b, ids);
    law_descendants_are_found(g, source, first, cap, second, body, i, c, j);
}

/// Whether a search makes `x` of the match `m`: `m` with one of the matches that are strictly
/// inside the node of the capture, or `m` itself where it has no such capture.
pub open spec fn grows(
    m: Seq<CaptureV>,
    cap: Seq<char>,
    found: spec_fn(usize) -> Seq<Seq<CaptureV>>,
    x: Seq<CaptureV>,
) -> bool {
    match first_capture(m, 0, |c: CaptureV| c.name == cap) {
        Some(c) => exists|j: int|
            0 <= j < found(c.node).len() && is_inside(#[trigger] found(c.node)[j], c.node) && x == m
                + found(c.node)[j],
        None => x == m,
    }
}

/// Whether a search for a pattern in the node of a capture makes `x` of the match `m`.
pub open spec fn search_grows(
    m: Seq<CaptureV>,
    search: (Seq<char>, Seq<char>),
    found: spec_fn(Seq<char>, usize) -> Seq<Seq<CaptureV>>,
    x: Seq<CaptureV>,
) -> bool {
    grows(m, search.0, |node: usize| found(search.1, node), x)
}

/// Whether matches are what searches, one after another, make of the first of them.
pub open spec fn all_grow(
    xs: Seq<Seq<CaptureV>>,
    searches: Seq<SearchV>,
    found: spec_fn(Seq<char>, usize) -> Seq<Seq<CaptureV>>,
) -> bool {
    &&& xs.len() == searches.len() + 1
    &&& forall|k: int|
        0 <= k < searches.len() ==> #[trigger] search_grows(xs[k], searches[k], found, xs[k + 1])
}

proof fn lemma_paired_only(
    m: Seq<CaptureV>,
    node: usize,
    found: Seq<Seq<CaptureV>>,
    x: Seq<CaptureV>,
) -> (j: int)
    requires
        paired(m, node, found).contains(x),
    ensures
        0 <= j < found.len(),
        is_inside(found[j], node),
        x == m + found[j],
    decreases found.len(),
{
    let init = paired(m, node, found.drop_last());
    let all = paired(m, node, found);
    let k = all.index_of(x);
    if k < init.len() {
        assert(init[k] == x);
        lemma_paired_only(m, node, found.drop_last(), x)
    } else {
        found.len() - 1
    }
}

proof fn lemma_extended_only(
    ms: Seq<Seq<CaptureV>>,
    cap: Seq<char>,
    found: spec_fn(usize) -> Seq<Seq<CaptureV>>,
    x: Seq<CaptureV>,
) -> (i: int)
    requires
        extended_all(ms, cap, found).contains(x),
    ensures
        0 <= i < ms.len(),
        extended(ms[i], cap, found).contains(x),
    decreases ms.len(),
{
    let init = extended_all(ms.drop_last(), cap, found);
    let more = extended(ms.last(), cap, found);
    let k = (init + more).index_of(x);
    if k < init.len() {
        assert(init[k] == x);
        lemma_extended_only(ms.drop_last(), cap, found, x)
    } else {
        assert(more[k - init.len()] == x);
        ms.len() - 1
    }
}

proof fn lemma_extended_grows(
    m: Seq<CaptureV>,
    cap: Seq<char>,
    found: spec_fn(usize) -> Seq<Seq<CaptureV>>,
    x: Seq<CaptureV>,
)
    ensures
        extended(m, cap, found).contains(x) <==> grows(m, cap, found, x),
{
    match first_capture(m, 0, |c: CaptureV| c.name == cap) {
        Some(c) => {
            if extended(m, cap, found).contains(x) {
                let j = lemma_paired_only(m, c.node, found(c.node), x);
                assert(is_inside(found(c.node)[j], c.node));
            }
            if grows(m, cap, found, x) {
                let j = choose|j: int|
                    0 <= j < found(c.node).len() && is_inside(#[trigger] found(c.node)[j], c.node)
                        && x == m + found(c.node)[j];
                lemma_paired_has(m, c.node, found(c.node), j);
            }
        },
        None => {
            assert(seq![m][0] == m);
        },
    }
}

/// What searches, however many, find is what is there: a match comes out if and only if it
/// is one of those that went in, with a match strictly inside the node of its capture for
/// each search in turn.
pub proof fn law_searches_find_all(
    ms: Seq<Seq<CaptureV>>,
    searches: Seq<SearchV>,
    found: spec_fn(Seq<char>, usize) -> Seq<Seq<CaptureV>>,
    x: Seq<CaptureV>,
)
    ensures
        searched(ms, searches, found).contains(x) <==> exists|xs: Seq<Seq<CaptureV>>|
            #[trigger] all_grow(xs, searches, found) && ms.contains(xs[0]) && xs.last() == x,
    decreases searches.len(),
{
    if searches.len() == 0 {
        if ms.contains(x) {
            assert(all_grow(seq![x], searches, found));
            assert(seq![x].last() == x);
        }
    } else {
        let init = searches.drop_last();
        let before = searched(ms, init, found);
        let n = init.len() as int;
        let cap = searches[n].0;
        let search = searches.last();
        let one = |node: usize| found(search.1, node);
        assert(search == searches[n]);
        if searched(ms, searches, found).contains(x) {
            let i = lemma_extended_only(before, cap, one, x);
            lemma_extended_grows(before[i], cap, one, x);
            law_searches_find_all(ms, init, found, before[i]);
            let ys = choose|ys: Seq<Seq<CaptureV>>|
                #[trigger] all_grow(ys, init, found) && ms.contains(ys[0]) && ys.last()
                    == before[i];
            lemma_grow_push(ys, searches, found, x);
            assert(ys.push(x)[0] == ys[0]);
            assert(ys.push(x).last() == x);
        }
        if exists|xs: Seq<Seq<CaptureV>>|
            #[trigger] all_grow(xs, searches, found) && ms.contains(xs[0]) && xs.last() == x {
            let xs = choose|xs: Seq<Seq<CaptureV>>|
                #[trigger] all_grow(xs, searches, found) && ms.contains(xs[0]) && xs.last() == x;
            lemma_grow_drop(xs, searches, found);
            let ys = xs.drop_last();
            assert(ys[0] == xs[0]);
            assert(ys.last() == xs[n]);
            law_searches_find_all(ms, init, found, xs[n]);
            let i = before.index_of(xs[n]);
            lemma_extended_grows(before[i], cap, one, x);
            lemma_extended_has(before, cap, one, i, x);
        }
    }
}

/// Whether a line shows a match of a pattern, with a match strictly inside the node of its
/// capture for each of the searches in turn. `xs` are the steps: the match of the pattern,
/// then what each search makes of it.
pub open spec fn shows(
    g: Grammar,
    source: Seq<u8>,
    p: (Seq<char>, Seq<SearchV>),
    xs: Seq<Seq<CaptureV>>,
    body: bool,
    line: Seq<char>,
) -> bool {
    &&& all_grow(
        xs,
        p.1,
        |pattern: Seq<char>, node: usize| syntax::ts_matches(g, source, pattern, node),
    )
    &&& syntax::ts_matches(g, source, p.0, 0).contains(xs[0])
    &&& line == simple_result(syntax::listing(g, source), xs.last(), body)
}

/// The pattern of a query of one phase, with its searches.
pub open spec fn pattern_of(c: CompiledV) -> Option<(Seq<char>, Seq<SearchV>)> {
    match c {
        CompiledV::Simple(t) => Some((t, Seq::empty())),
        CompiledV::Searched { pattern, searches } => Some((pattern, searches)),
        _ => None,
    }
}

/// A run shows what is there, and nothing else: a line is a result if and only if it shows a
/// match of the pattern and of all its searches.
pub proof fn law_run_finds_all(
    g: Grammar,
    c: CompiledV,
    source: Seq<u8>,
    body: bool,
    line: Seq<char>,
)
    requires
        !compiler::has_no_pattern(c),
        pattern_of(c) is Some,
    ensures
        pattern_failure(g, pattern_of(c)->Some_0) is None ==> (run_result(g, c, source, body)
            matches Ok(lines) && (lines.contains(line) <==> exists|xs: Seq<Seq<CaptureV>>|
            #[trigger] shows(g, source, pattern_of(c)->Some_0, xs, body, line))),
{
    let p = pattern_of(c)->Some_0;
    if pattern_failure(g, p) is None {
        let l = syntax::listing(g, source);
        let find = |pattern: Seq<char>, node: usize| syntax::ts_matches(g, source, pattern, node);
        let ms = syntax::ts_matches(g, source, p.0, 0);
        let all = pattern_matches(g, source, p, 0);
        let results = simple_results(l, all, body);
        text::lemma_distinct(results);
        if results.contains(line) {
            let k = results.index_of(line);
            assert(all.contains(all[k]));
            law_searches_find_all(ms, p.1, find, all[k]);
            let xs = choose|xs: Seq<Seq<CaptureV>>|
                #[trigger] all_grow(xs, p.1, find) && ms.contains(xs[0]) && xs.last() == all[k];
            assert(shows(g, source, p, xs, body, line));
        }
        if exists|xs: Seq<Seq<CaptureV>>| #[trigger] shows(g, source, p, xs, body, line) {
            let xs = choose|xs: Seq<Seq<CaptureV>>|
                #[trigger] shows(g, source, p, xs, body, line);
            assert(all_grow(xs, p.1, find));
            law_searches_find_all(ms, p.1, find, xs.last());
            let k = all.index_of(xs.last());
            assert(results[k] == line);
        }
    }
}

proof fn lemma_grow_push(
    ys: Seq<Seq<CaptureV>>,
    searches: Seq<SearchV>,
    found: spec_fn(Seq<char>, usize) -> Seq<Seq<CaptureV>>,
    x: Seq<CaptureV>,
)
    requires
        searches.len() > 0,
        all_grow(ys, searches.drop_last(), found),
        search_grows(ys.last(), searches[searches.len() - 1], found, x),
    ensures
        all_grow(ys.push(x), searches, found),
{
    let init = searches.drop_last();
    let xs = ys.push(x);
    assert forall|k: int| 0 <= k < searches.len() implies #[trigger] search_grows(
        xs[k],
        searches[k],
        found,
        xs[k + 1],
    ) by {
        if k < init.len() {
            assert(search_grows(ys[k], init[k], found, ys[k + 1]));
        }
    }
}

proof fn lemma_grow_drop(
    xs: Seq<Seq<CaptureV>>,
    searches: Seq<SearchV>,
    found: spec_fn(Seq<char>, usize) -> Seq<Seq<CaptureV>>,
)
    requires
        searches.len() > 0,
        all_grow(xs, searches, found),
    ensures
        all_grow(xs.drop_last(), searches.drop_last(), found),
        search_grows(xs[searches.len() - 1], searches[searches.len() - 1], found, xs.last()),
{
    let init = searches.drop_last();
    let ys = xs.drop_last();
    let n = searches.len() - 1;
    assert(search_grows(xs[n], searches[n], found, xs[n + 1]));
    assert forall|k: int| 0 <= k < init.len() implies #[trigger] search_grows(
        ys[k],
        init[k],
        found,
        ys[k + 1],
    ) by {
        assert(search_grows(xs[k], searches[k], found, xs[k + 1]));
    }
}

// ---------------------------------------------------------------------------
// Results of given matches
// ---------------------------------------------------------------------------

/// Whether the captures of a match are nodes of the list.
pub open spec fn in_list(l: Listing, m: Seq<CaptureV>) -> bool {
    forall|j: int| 0 <= j < m.len() ==> (#[trigger] m[j]).node < l.records.len()
}

/// Whether the captures of all matches are nodes of the list.
pub open spec fn all_in_list(l: Listing, ms: Seq<Seq<CaptureV>>) -> bool {
    forall|i: int| 0 <= i < ms.len() ==> in_list(l, #[trigger] ms[i])
}

fn show_node(list: &Listed, what: &str, node: usize, body: bool) -> (r: String)
    requires
        node < list@.records.len(),
    ensures
        r@ == node_shown(list@, what@, node, body),
{
    let record: &Record = &list.records[node];
    assert(list@.records[node as int] == record@);
    let start: usize = record.line();
    let end: usize = record.end_line();
    let mut out: String = what.to_string();
    out.append(":");
    let mut lines: String = decimal(start);
    if body && end != start {
        lines.append("-");
        lines.append(decimal(end).as_str());
    }
    out.append(lines.as_str());
    out.append(": ");
    let full: String = match text_at(list.source, record.start_byte, record.end_byte) {
        Some(t) => t,
        None => "<invalid utf8>".to_string(),
    };
    if body {
        out.append(full.as_str());
    } else {
        out.append(debug_string(first_line(full.as_str()).as_str()).as_str());
    }
    out
}

fn show_captures(list: &Listed, captures: &Vec<&Capture>, body: bool) -> (r: String)
    requires
        in_list(list@, text::views(captures@)),
    ensures
        r@ == captures_shown(list@, text::views(captures@), body),
{
    let ghost all = text::views(captures@);
    let ghost shown = all.map_values(|c: CaptureV| capture_shown(list@, c, body));
    let mut parts: Vec<String> = Vec::new();
    let mut i: usize = 0;
    assert(text::views(parts@) =~= shown.take(0));
    while i < captures.len()
        invariant
            i <= captures@.len(),
            all == text::views(captures@),
            in_list(list@, all),
            shown == all.map_values(|c: CaptureV| capture_shown(list@, c, body)),
            text::views(parts@) == shown.take(i as int),
        decreases captures@.len() - i,
    {
        let c: &Capture = captures[i];
        assert(all[i as int] == c@);
        let mut name: String = "@".to_string();
        name.append(c.name.as_str());
        push_string(&mut parts, show_node(list, name.as_str(), c.node, body));
        i += 1;
        assert(text::views(parts@) =~= shown.take(i as int));
    }
    assert(shown.take(i as int) =~= shown);
    join(&parts, ", ")
}

fn visible_captures<'a>(m: &'a Vec<Capture>) -> (r: Vec<&'a Capture>)
    ensures
        text::views(r@) == visible(text::views(m@)),
{
    let ghost all = text::views(m@);
    let ghost p = |c: CaptureV| is_visible(c);
    let mut out: Vec<&'a Capture> = Vec::new();
    let mut i: usize = 0;
    assert(text::views(out@) =~= all.take(0).filter(p)) by {
        reveal(Seq::filter);
    }
    while i < m.len()
        invariant
            i <= m@.len(),
            all == text::views(m@),
            p == (|c: CaptureV| is_visible(c)),
            text::views(out@) == all.take(i as int).filter(p),
        decreases m@.len() - i,
    {
        let ghost before = text::views(out@);
        proof {
            reveal(Seq::filter);
            assert(all.take(i + 1).drop_last() =~= all.take(i as int));
            assert(all.take(i + 1).last() == m@[i as int]@);
        }
        if !starts_with(m[i].name.as_str(), "_") {
            out.push(&m[i]);
            assert(text::views(out@) =~= before.push(m@[i as int]@));
        }
        i += 1;
    }
    assert(all.take(i as int) =~= all);
    out
}

proof fn lemma_visible_in_list(l: Listing, m: Seq<CaptureV>)
    requires
        in_list(l, m),
    ensures
        in_list(l, visible(m)),
    decreases m.len(),
{
    reveal(Seq::filter);
    if m.len() > 0 {
        assert(in_list(l, m.drop_last()));
        lemma_visible_in_list(l, m.drop_last());
        let init = visible(m.drop_last());
        assert(m.last() == m[m.len() - 1]);
        assert(in_list(l, init.push(m.last())));
    }
}

/// The capture that stands for a match without visible captures.
fn find_whole(m: &Vec<Capture>) -> (r: Option<&Capture>)
    ensures
        text::opt_view(r) == whole_capture(text::views(m@)),
        in_match(r, m@),
{
    let ghost all = text::views(m@);
    let ghost p = |c: CaptureV| is_root(c);
    let mut i: usize = 0;
    while i < m.len()
        invariant
            i <= m@.len(),
            all == text::views(m@),
            p == (|c: CaptureV| is_root(c)),
            first_capture(all, 0, p) == first_capture(all, i as nat, p),
        decreases m@.len() - i,
    {
        assert(all[i as int] == m@[i as int]@);
        if starts_with(m[i].name.as_str(), "_root") {
            return Some(&m[i]);
        }
        i += 1;
    }
    if m.len() > 0 {
        assert(all[0] == m@[0]@);
        Some(&m[0])
    } else {
        None
    }
}

/// Whether a capture that was found is one of the match.
spec fn in_match(c: Option<&Capture>, m: Seq<Capture>) -> bool {
    match c {
        Some(c) => exists|i: int| 0 <= i < m.len() && #[trigger] m[i] == *c,
        None => true,
    }
}

/// The node that a match of an outer query is searched in.
fn find_container(m: &Vec<Capture>, outermost: bool) -> (r: Option<usize>)
    ensures
        r == container(text::views(m@), outermost),
        r matches Some(c) ==> exists|i: int| 0 <= i < m@.len() && #[trigger] m@[i].node == c,
{
    if outermost {
        return find_outermost(m);
    }
    let ghost all = text::views(m@);
    let ghost p = |c: CaptureV| is_visible(c);
    let mut i: usize = 0;
    while i < m.len()
        invariant
            i <= m@.len(),
            all == text::views(m@),
            !outermost,
            p == (|c: CaptureV| is_visible(c)),
            first_capture(all, 0, p) == first_capture(all, i as nat, p),
        decreases m@.len() - i,
    {
        assert(all[i as int] == m@[i as int]@);
        if !starts_with(m[i].name.as_str(), "_") {
            assert(m@[i as int].node == all[i as int].node);
            return Some(m[i].node);
        }
        i += 1;
    }
    match find_whole(m) {
        Some(c) => {
            proof {
                let k = choose|k: int| 0 <= k < m@.len() && #[trigger] m@[k] == *c;
                assert(m@[k].node == c.node);
            }
            Some(c.node)
        },
        None => None,
    }
}

/// The outermost node of a match.
fn find_outermost(m: &Vec<Capture>) -> (r: Option<usize>)
    ensures
        r == container(text::views(m@), true),
        r matches Some(c) ==> exists|i: int| 0 <= i < m@.len() && #[trigger] m@[i].node == c,
{
    let ghost all = text::views(m@);
    if m.len() == 0 {
        return None;
    }
    let mut first: usize = m[0].node;
    let mut i: usize = 1;
    assert(all.take(1).last() == m@[0]@);
    while i < m.len()
        invariant
            1 <= i <= m@.len(),
            all == text::views(m@),
            first == first_node(all.take(i as int)),
            exists|k: int| 0 <= k < m@.len() && #[trigger] m@[k].node == first,
        decreases m@.len() - i,
    {
        assert(all.take(i + 1).drop_last() =~= all.take(i as int));
        assert(all.take(i + 1).last() == m@[i as int]@);
        if m[i].node < first {
            first = m[i].node;
            assert(m@[i as int].node == first);
        }
        i += 1;
    }
    assert(all.take(i as int) =~= all);
    Some(first)
}

/// What given matches of a simple query give.
pub fn simple_lines(list: &Listed, matches: &Vec<Vec<Capture>>, body: bool) -> (r: Vec<String>)
    requires
        all_in_list(list@, syntax::matches_view(matches@)),
    ensures
        text::views(r@) == simple_results(list@, syntax::matches_view(matches@), body),
{
    let ghost l = list@;
    let ghost ms = syntax::matches_view(matches@);
    let ghost results = simple_results(l, ms, body);
    let mut out: Vec<String> = Vec::new();
    let mut i: usize = 0;
    assert(text::views(out@) =~= results.take(0));
    while i < matches.len()
        invariant
            i <= matches@.len(),
            l == list@,
            ms == syntax::matches_view(matches@),
            all_in_list(l, ms),
            results == simple_results(l, ms, body),
            text::views(out@) == results.take(i as int),
        decreases matches@.len() - i,
    {
        let m: &Vec<Capture> = &matches[i];
        assert(ms[i as int] == text::views(m@));
        let shown: Vec<&Capture> = visible_captures(m);
        let line: String = if shown.len() > 0 {
            proof {
                lemma_visible_in_list(l, text::views(m@));
            }
            show_captures(list, &shown, body)
        } else {
            match find_whole(m) {
                Some(c) => {
                    proof {
                        let k = choose|k: int| 0 <= k < m@.len() && #[trigger] m@[k] == *c;
                        assert(ms[i as int][k].node == c.node);
                    }
                    show_node(list, "<match>", c.node, body)
                },
                None => "<match>".to_string(),
            }
        };
        push_string(&mut out, line);
        i += 1;
        assert(text::views(out@) =~= results.take(i as int));
    }
    assert(results.take(i as int) =~= results);
    out
}

/// What given inner matches give inside one outer match.
pub fn scoped_lines(
    list: &Listed,
    outer: &Vec<Capture>,
    matches: &Vec<Vec<Capture>>,
    body: bool,
) -> (r: Vec<String>)
    requires
        in_list(list@, text::views(outer@)),
        all_in_list(list@, syntax::matches_view(matches@)),
    ensures
        text::views(r@) == scoped_results(
            list@,
            text::views(outer@),
            syntax::matches_view(matches@),
            body,
        ),
{
    let ghost l = list@;
    let ghost o = text::views(outer@);
    let ghost ms = syntax::matches_view(matches@);
    let mut out: Vec<String> = Vec::new();
    let mut i: usize = 0;
    assert(text::views(out@) =~= Seq::empty());
    while i < matches.len()
        invariant
            i <= matches@.len(),
            l == list@,
            o == text::views(outer@),
            ms == syntax::matches_view(matches@),
            in_list(l, o),
            all_in_list(l, ms),
            text::views(out@) == scoped_results(l, o, ms.take(i as int), body),
        decreases matches@.len() - i,
    {
        let m: &Vec<Capture> = &matches[i];
        assert(ms[i as int] == text::views(m@));
        assert(ms.take(i + 1).drop_last() =~= ms.take(i as int));
        assert(ms.take(i + 1).last() == ms[i as int]);
        let mut shown: Vec<&Capture> = visible_captures(outer);
        let mut inner: Vec<&Capture> = visible_captures(m);
        let ghost a = shown@;
        let ghost b = inner@;
        shown.append(&mut inner);
        assert(text::views(shown@) =~= text::views(a) + text::views(b));
        proof {
            lemma_visible_in_list(l, o);
            lemma_visible_in_list(l, text::views(m@));
        }
        if shown.len() > 0 {
            push_string(&mut out, show_captures(list, &shown, body));
        } else if m.len() > 0 {
            assert(ms[i as int][0] == m@[0]@);
            push_string(&mut out, show_node(list, "<match>", m[0].node, body));
        }
        i += 1;
    }
    assert(ms.take(i as int) =~= ms);
    out
}

// ---------------------------------------------------------------------------
// Running a query
// ---------------------------------------------------------------------------

fn prefixed(prefix: &str, message: String) -> (r: String)
    ensures
        r@ == prefix@ + message@,
{
    let mut out: String = prefix.to_string();
    out.append(message.as_str());
    out
}

pub open spec fn lines_view(r: Result<Vec<String>, String>) -> Result<Seq<Seq<char>>, Seq<char>> {
    match r {
        Ok(v) => Ok(text::views(v@)),
        Err(e) => Err(e@),
    }
}

/// The first message with which the grammar refuses a pattern or one of its searches.
fn find_failure(tree: &tree_sitter::Tree, main: &str, searches: &Vec<Search>) -> (r: Option<
    String,
>)
    ensures
        text::opt_view(r) == pattern_failure(
            syntax::tree_grammar(*tree),
            (main@, text::views(searches@)),
        ),
        r is None ==> accepted(syntax::tree_grammar(*tree), (main@, text::views(searches@))),
{
    let ghost g = syntax::tree_grammar(*tree);
    let ghost all = text::views(searches@);
    if let Some(e) = query_error(tree, main) {
        return Some(e);
    }
    let mut k: usize = 0;
    while k < searches.len()
        invariant
            k <= searches@.len(),
            g == syntax::tree_grammar(*tree),
            all == text::views(searches@),
            syntax::ts_query_error(g, main@) is None,
            search_failure(g, all, 0) == search_failure(g, all, k as nat),
            forall|i: int| 0 <= i < k ==> syntax::ts_query_error(g, (#[trigger] all[i]).1) is None,
        decreases searches@.len() - k,
    {
        assert(all[k as int] == searches@[k as int]@);
        if let Some(e) = query_error(tree, searches[k].pattern.as_str()) {
            return Some(e);
        }
        k += 1;
    }
    None
}

/// Whether a grammar accepts a pattern and its searches.
spec fn accepted(g: Grammar, p: (Seq<char>, Seq<SearchV>)) -> bool {
    &&& syntax::ts_query_error(g, p.0) is None
    &&& forall|i: int|
        0 <= i < p.1.len() ==> syntax::ts_query_error(g, (#[trigger] p.1[i]).1) is None
}

/// Whether a tree is that of a list.
spec fn is_listed(tree: tree_sitter::Tree, list: Listed) -> bool {
    &&& syntax::tree_bytes(tree) == list.source@
    &&& list@ == syntax::listing(syntax::tree_grammar(tree), list.source@)
}

/// A match and another one as one.
fn concat(a: &Vec<Capture>, b: &Vec<Capture>) -> (r: Vec<Capture>)
    ensures
        text::views(r@) == text::views(a@) + text::views(b@),
{
    let mut out: Vec<Capture> = Vec::new();
    let ghost both = text::views(a@) + text::views(b@);
    let mut i: usize = 0;
    assert(text::views(out@) =~= both.take(0));
    while i < a.len()
        invariant
            i <= a@.len(),
            both == text::views(a@) + text::views(b@),
            text::views(out@) == both.take(i as int),
        decreases a@.len() - i,
    {
        push_copy(&mut out, &a[i]);
        i += 1;
        assert(both.take(i as int) =~= both.take(i - 1).push(both[i - 1]));
    }
    let mut k: usize = 0;
    while k < b.len()
        invariant
            k <= b@.len(),
            both == text::views(a@) + text::views(b@),
            text::views(out@) == both.take(a@.len() + k),
        decreases b@.len() - k,
    {
        push_copy(&mut out, &b[k]);
        k += 1;
        assert(both.take(a@.len() + k) =~= both.take(a@.len() + k - 1).push(
            both[a@.len() + k - 1],
        ));
    }
    assert(both.take(a@.len() + k) =~= both);
    out
}

fn push_copy(v: &mut Vec<Capture>, c: &Capture)
    ensures
        text::views(final(v)@) == text::views(old(v)@).push(c@),
{
    let ghost before = v@;
    v.push(Capture { name: c.name.clone(), node: c.node });
    assert(text::views(v@) =~= text::views(before).push(c@));
}

/// Whether all captures of a match are strictly inside a node.
fn lies_inside(m: &Vec<Capture>, node: usize) -> (r: bool)
    ensures
        r == is_inside(text::views(m@), node),
{
    let ghost all = text::views(m@);
    let mut i: usize = 0;
    while i < m.len()
        invariant
            i <= m@.len(),
            all == text::views(m@),
            forall|j: int| 0 <= j < i ==> node < (#[trigger] all[j]).node,
        decreases m@.len() - i,
    {
        assert(all[i as int].node == m@[i as int].node);
        if m[i].node <= node {
            return false;
        }
        i += 1;
    }
    true
}

/// A match together with each of the given ones that are strictly inside a node of it.
pub fn pair_matches(m: &Vec<Capture>, node: usize, found: &Vec<Vec<Capture>>) -> (r: Vec<
    Vec<Capture>,
>)
    ensures
        syntax::matches_view(r@) == paired(text::views(m@), node, syntax::matches_view(found@)),
{
    let ghost ms = syntax::matches_view(found@);
    let mut out: Vec<Vec<Capture>> = Vec::new();
    let mut i: usize = 0;
    assert(syntax::matches_view(out@) =~= Seq::empty());
    while i < found.len()
        invariant
            i <= found@.len(),
            ms == syntax::matches_view(found@),
            syntax::matches_view(out@) == paired(text::views(m@), node, ms.take(i as int)),
        decreases found@.len() - i,
    {
        assert(ms.take(i + 1).drop_last() =~= ms.take(i as int));
        assert(ms.take(i + 1).last() == text::views(found@[i as int]@));
        if lies_inside(&found[i], node) {
            let both: Vec<Capture> = concat(m, &found[i]);
            let ghost before = out@;
            out.push(both);
            assert(syntax::matches_view(out@) =~= syntax::matches_view(before).push(
                text::views(both@),
            ));
        }
        i += 1;
    }
    assert(ms.take(i as int) =~= ms);
    out
}

proof fn lemma_paired_in_list(
    l: Listing,
    m: Seq<CaptureV>,
    node: usize,
    found: Seq<Seq<CaptureV>>,
)
    requires
        in_list(l, m),
        all_in_list(l, found),
    ensures
        all_in_list(l, paired(m, node, found)),
    decreases found.len(),
{
    if found.len() > 0 {
        assert forall|i: int| 0 <= i < found.drop_last().len() implies in_list(
            l,
            #[trigger] found.drop_last()[i],
        ) by {
            assert(found.drop_last()[i] == found[i]);
        }
        lemma_paired_in_list(l, m, node, found.drop_last());
        assert(found.last() == found[found.len() - 1]);
        assert(in_list(l, m + found.last()));
    }
}

/// The first capture with a name.
fn find_named<'a>(m: &'a Vec<Capture>, name: &str) -> (r: Option<&'a Capture>)
    ensures
        text::opt_view(r) == first_capture(text::views(m@), 0, |c: CaptureV| c.name == name@),
        in_match(r, m@),
{
    let ghost all = text::views(m@);
    let ghost p = |c: CaptureV| c.name == name@;
    let mut i: usize = 0;
    while i < m.len()
        invariant
            i <= m@.len(),
            all == text::views(m@),
            p == (|c: CaptureV| c.name == name@),
            first_capture(all, 0, p) == first_capture(all, i as nat, p),
        decreases m@.len() - i,
    {
        assert(all[i as int] == m@[i as int]@);
        if str_eq(m[i].name.as_str(), name) {
            return Some(&m[i]);
        }
        i += 1;
    }
    None
}

/// What a search makes of matches.
fn extend_all(
    tree: &tree_sitter::Tree,
    list: &Listed,
    ms: &Vec<Vec<Capture>>,
    cap: &str,
    pattern: &str,
) -> (r: Vec<Vec<Capture>>)
    requires
        is_listed(*tree, *list),
        syntax::ts_query_error(syntax::tree_grammar(*tree), pattern@) is None,
        all_in_list(list@, syntax::matches_view(ms@)),
    ensures
        syntax::matches_view(r@) == extended_all(
            syntax::matches_view(ms@),
            cap@,
            |node: usize|
                syntax::ts_matches(syntax::tree_grammar(*tree), list.source@, pattern@, node),
        ),
        all_in_list(list@, syntax::matches_view(r@)),
{
    let ghost l = list@;
    let ghost all = syntax::matches_view(ms@);
    let ghost find = |node: usize|
        syntax::ts_matches(syntax::tree_grammar(*tree), list.source@, pattern@, node);
    let mut out: Vec<Vec<Capture>> = Vec::new();
    let mut i: usize = 0;
    assert(syntax::matches_view(out@) =~= Seq::empty());
    while i < ms.len()
        invariant
            i <= ms@.len(),
            l == list@,
            all == syntax::matches_view(ms@),
            all_in_list(l, all),
            is_listed(*tree, *list),
            syntax::ts_query_error(syntax::tree_grammar(*tree), pattern@) is None,
            find == (|node: usize|
                syntax::ts_matches(syntax::tree_grammar(*tree), list.source@, pattern@, node)),
            syntax::matches_view(out@) == extended_all(all.take(i as int), cap@, find),
            all_in_list(l, syntax::matches_view(out@)),
        decreases ms@.len() - i,
    {
        let m: &Vec<Capture> = &ms[i];
        assert(all[i as int] == text::views(m@));
        assert(all.take(i + 1).drop_last() =~= all.take(i as int));
        assert(all.take(i + 1).last() == all[i as int]);
        let mut more: Vec<Vec<Capture>> = match find_named(m, cap) {
            Some(c) => {
                proof {
                    let k = choose|k: int| 0 <= k < m@.len() && #[trigger] m@[k] == *c;
                    assert(all[i as int][k].node == c.node);
                }
                let found: Vec<Vec<Capture>> = query_matches(tree, list.source, pattern, c.node);
                proof {
                    lemma_found(l, found@);
                    lemma_paired_in_list(l, all[i as int], c.node, syntax::matches_view(found@));
                }
                pair_matches(m, c.node, &found)
            },
            None => {
                let none: Vec<Capture> = Vec::new();
                let same: Vec<Capture> = concat(m, &none);
                assert(text::views(same@) =~= text::views(m@));
                let one: Vec<Vec<Capture>> = vec![same];
                assert(syntax::matches_view(one@) =~= seq![all[i as int]]);
                one
            },
        };
        let ghost a = syntax::matches_view(out@);
        let ghost b = syntax::matches_view(more@);
        assert(b == extended(all[i as int], cap@, find));
        assert(all_in_list(l, b));
        out.append(&mut more);
        assert(syntax::matches_view(out@) =~= a + b);
        assert forall|k: int| 0 <= k < (a + b).len() implies in_list(l, #[trigger] (a + b)[k]) by {
            if k >= a.len() {
                assert((a + b)[k] == b[k - a.len()]);
            } else {
                assert((a + b)[k] == a[k]);
            }
        }
        i += 1;
    }
    assert(all.take(i as int) =~= all);
    out
}

/// The matches of a pattern and its searches in the subtree of a node.
fn find_matches(
    tree: &tree_sitter::Tree,
    list: &Listed,
    main: &str,
    searches: &Vec<Search>,
    scope: usize,
) -> (r: Vec<Vec<Capture>>)
    requires
        is_listed(*tree, *list),
        accepted(syntax::tree_grammar(*tree), (main@, text::views(searches@))),
        scope < list@.records.len(),
    ensures
        syntax::matches_view(r@) == pattern_matches(
            syntax::tree_grammar(*tree),
            list.source@,
            (main@, text::views(searches@)),
            scope,
        ),
        all_in_list(list@, syntax::matches_view(r@)),
{
    let ghost l = list@;
    let ghost g = syntax::tree_grammar(*tree);
    let ghost all = text::views(searches@);
    let ghost find = |p: Seq<char>, node: usize| syntax::ts_matches(g, list.source@, p, node);
    let mut found: Vec<Vec<Capture>> = query_matches(tree, list.source, main, scope);
    let ghost start = syntax::matches_view(found@);
    proof {
        lemma_found(l, found@);
    }
    let mut k: usize = 0;
    assert(start == searched(start, all.take(0), find));
    while k < searches.len()
        invariant
            k <= searches@.len(),
            l == list@,
            g == syntax::tree_grammar(*tree),
            is_listed(*tree, *list),
            accepted(g, (main@, all)),
            all == text::views(searches@),
            find == (|p: Seq<char>, node: usize|
                syntax::ts_matches(g, list.source@, p, node)),
            syntax::matches_view(found@) == searched(start, all.take(k as int), find),
            all_in_list(l, syntax::matches_view(found@)),
        decreases searches@.len() - k,
    {
        let search: &Search = &searches[k];
        let (cap, sub): (&String, &String) = (&search.capture, &search.pattern);
        assert(all[k as int] == (cap@, sub@));
        assert(all.take(k as int + 1).drop_last() =~= all.take(k as int));
        assert(all.take(k + 1).last() == (cap@, sub@));
        let ghost one = |node: usize| find(all.take(k + 1).last().1, node);
        let ghost two = |node: usize| syntax::ts_matches(g, list.source@, sub@, node);
        assert(one =~= two);
        found = extend_all(tree, list, &found, cap.as_str(), sub.as_str());
        k += 1;
    }
    assert(all.take(k as int) =~= all);
    found
}

/// Runs a query of one phase.
fn run_one_phase(
    tree: &tree_sitter::Tree,
    list: &Listed,
    main: &str,
    searches: &Vec<Search>,
    body: bool,
) -> (r: Result<Vec<String>, String>)
    requires
        is_listed(*tree, *list),
        list@.records.len() > 0,
    ensures
        lines_view(r) == one_phase_result(
            syntax::tree_grammar(*tree),
            (main@, text::views(searches@)),
            list.source@,
            body,
        ),
{
    if let Some(e) = find_failure(tree, main, searches) {
        return Err(prefixed("query error: ", e));
    }
    let found: Vec<Vec<Capture>> = find_matches(tree, list, main, searches, 0);
    Ok(dedup(&simple_lines(list, &found, body)))
}

/// Runs a query of two phases.
fn run_two_phases(
    tree: &tree_sitter::Tree,
    list: &Listed,
    outer: (&str, &Vec<Search>),
    outermost: bool,
    scope_field: &str,
    inner: (&str, &Vec<Search>),
    body: bool,
) -> (r: Result<Vec<String>, String>)
    requires
        is_listed(*tree, *list),
        list@.records.len() > 0,
    ensures
        lines_view(r) == two_phase_result(
            syntax::tree_grammar(*tree),
            (outer.0@, text::views(outer.1@)),
            outermost,
            scope_field@,
            (inner.0@, text::views(inner.1@)),
            list.source@,
            body,
        ),
{
    if let Some(e) = find_failure(tree, outer.0, outer.1) {
        return Err(prefixed("outer query error: ", e));
    }
    if let Some(e) = find_failure(tree, inner.0, inner.1) {
        return Err(prefixed("inner query error: ", e));
    }
    let found: Vec<Vec<Capture>> = find_matches(tree, list, outer.0, outer.1, 0);
    let lines: Vec<String> = run_scopes(tree, list, &found, outermost, scope_field, inner, body);
    Ok(dedup(&lines))
}

/// Runs a compiled query over a source text.
pub fn run<L: Lang + ?Sized>(
    compiled: &CompiledQuery,
    lang: &L,
    source: &[u8],
    body: bool,
) -> (r: Result<Vec<String>, String>)
    ensures
        lines_view(r) == run_result(lang.grammar(), compiled@, source@, body),
{
    if compiled.is_empty() {
        let none: Vec<String> = Vec::new();
        assert(text::views(none@) =~= Seq::empty());
        return Ok(none);
    }
    let grammar: Grammar = lang.ts_language();
    let tree: tree_sitter::Tree = match parse_tree(grammar, source)? {
        Some(t) => t,
        None => {
            return Err("failed to parse source".to_string());
        },
    };
    let list: Listed = list_tree(&tree, source);
    let none: Vec<Search> = Vec::new();
    assert(text::views(none@) =~= Seq::empty());
    match compiled {
        CompiledQuery::Simple(pattern) => run_one_phase(
            &tree,
            &list,
            pattern.as_str(),
            &none,
            body,
        ),
        CompiledQuery::Searched { pattern, searches } => run_one_phase(
            &tree,
            &list,
            pattern.as_str(),
            searches,
            body,
        ),
        CompiledQuery::Scoped { outer, scope_field, inner } => run_two_phases(
            &tree,
            &list,
            (outer.as_str(), &none),
            false,
            scope_field.as_str(),
            (inner.as_str(), &none),
            body,
        ),
        CompiledQuery::ScopedSearch {
            outer,
            outer_searches,
            scope_field,
            inner,
            inner_searches,
        } => run_two_phases(
            &tree,
            &list,
            (outer.as_str(), outer_searches),
            true,
            scope_field.as_str(),
            (inner.as_str(), inner_searches),
            body,
        ),
    }
}

proof fn lemma_found(l: Listing, found: Seq<Vec<Capture>>)
    requires
        forall|i: int, j: int|
            0 <= i < found.len() && 0 <= j < found[i]@.len() ==> (#[trigger] found[i]@[j]).node
                < l.records.len(),
    ensures
        all_in_list(l, syntax::matches_view(found)),
{
    let ms = syntax::matches_view(found);
    assert forall|i: int| 0 <= i < ms.len() implies in_list(l, #[trigger] ms[i]) by {
        assert forall|j: int| 0 <= j < ms[i].len() implies (#[trigger] ms[i][j]).node
            < l.records.len() by {
            assert(ms[i][j] == found[i]@[j]@);
        }
    }
}

/// Searches the scope of each outer match with the inner pattern.
fn run_scopes(
    tree: &tree_sitter::Tree,
    list: &Listed,
    outers: &Vec<Vec<Capture>>,
    outermost: bool,
    field: &str,
    inner: (&str, &Vec<Search>),
    body: bool,
) -> (r: Vec<String>)
    requires
        is_listed(*tree, *list),
        accepted(syntax::tree_grammar(*tree), (inner.0@, text::views(inner.1@))),
        all_in_list(list@, syntax::matches_view(outers@)),
    ensures
        text::views(r@) == all_scoped_results(
            list@,
            syntax::matches_view(outers@),
            outermost,
            field@,
            |scope: usize|
                pattern_matches(
                    syntax::tree_grammar(*tree),
                    list.source@,
                    (inner.0@, text::views(inner.1@)),
                    scope,
                ),
            body,
        ),
{
    let ghost l = list@;
    let ghost ms = syntax::matches_view(outers@);
    let ghost p = (inner.0@, text::views(inner.1@));
    let ghost search = |scope: usize|
        pattern_matches(syntax::tree_grammar(*tree), list.source@, p, scope);
    let mut out: Vec<String> = Vec::new();
    let mut i: usize = 0;
    assert(text::views(out@) =~= Seq::empty());
    while i < outers.len()
        invariant
            i <= outers@.len(),
            l == list@,
            ms == syntax::matches_view(outers@),
            all_in_list(l, ms),
            is_listed(*tree, *list),
            accepted(syntax::tree_grammar(*tree), (inner.0@, text::views(inner.1@))),
            p == (inner.0@, text::views(inner.1@)),
            search == (|scope: usize|
                pattern_matches(syntax::tree_grammar(*tree), list.source@, p, scope)),
            text::views(out@) == all_scoped_results(
                l,
                ms.take(i as int),
                outermost,
                field@,
                search,
                body,
            ),
        decreases outers@.len() - i,
    {
        let m: &Vec<Capture> = &outers[i];
        assert(ms[i as int] == text::views(m@));
        assert(ms.take(i + 1).drop_last() =~= ms.take(i as int));
        assert(ms.take(i + 1).last() == ms[i as int]);
        if let Some(root) = find_container(m, outermost) {
            proof {
                let k = choose|k: int| 0 <= k < m@.len() && #[trigger] m@[k].node == root;
                assert(ms[i as int][k].node == root);
                assert(l.records.len() == list.records.len());
            }
            let node: Node = node_from(list, root);
            let scope: usize = match node.child_by_field_name(field) {
                Some(c) => c.index,
                None => root,
            };
            proof {
                if let Some(p) = syntax::field_position(node@.fields, field@) {
                    if p < node@.children.len() {
                        syntax::lemma_forest_index(
                            l,
                            l.records[root as int].depth,
                            root as nat + 1,
                            p as int,
                        );
                    }
                }
            }
            let found: Vec<Vec<Capture>> = find_matches(tree, list, inner.0, inner.1, scope);
            let mut lines: Vec<String> = scoped_lines(list, m, &found, body);
            let ghost a = out@;
            let ghost b = lines@;
            out.append(&mut lines);
            assert(text::views(out@) =~= text::views(a) + text::views(b));
        }
        i += 1;
    }
    assert(ms.take(i as int) =~= ms);
    out
}

} // verus!
