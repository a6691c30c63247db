//! What the results of a search show.

use vstd::prelude::*;
use crate::compiler::{CompiledV, SearchV};
use crate::runner;
use crate::syntax;
use crate::syntax::{CaptureV, Grammar, Listing};
use crate::text;

verus! {

broadcast use vstd::string::group_string_axioms;

/// Whether a capture is one that the author of a query named: internal ones begin with an
/// underscore.
pub open spec fn is_shown(c: CaptureV) -> bool {
    c.name.len() == 0 || c.name[0] != '_'
}

/// The captures of a match that are shown.
pub open spec fn shown(m: Seq<CaptureV>) -> Seq<CaptureV> {
    m.filter(|c: CaptureV| is_shown(c))
}

proof fn lemma_shown(m: Seq<CaptureV>)
    ensures
        runner::visible(m) == shown(m),
    decreases m.len(),
{
    reveal_strlit("_");
    assert forall|c: CaptureV| #[trigger] runner::is_visible(c) == is_shown(c) by {
        if c.name.len() > 0 {
            assert(c.name.take(1)[0] == c.name[0]);
            if c.name[0] == '_' {
                assert(c.name.take(1) =~= "_"@);
            }
        }
    }
    assert((|c: CaptureV| runner::is_visible(c)) =~= (|c: CaptureV| is_shown(c)));
}

/// A node is shown with its line, and the first line of its text in quotes; with its body, with
/// its first and its last line, and all of its text.
pub proof fn law_node_is_shown(l: Listing, what: Seq<char>, node: usize, t: Seq<char>)
    requires
        syntax::text_of(
            l.source,
            l.records[node as int].start_byte,
            l.records[node as int].end_byte,
        ) == Some(t),
    ensures
        ({
            let first = text::decimal_digits(syntax::line_of(l.records[node as int].start_row) as nat);
            let last = text::decimal_digits(syntax::line_of(l.records[node as int].end_row) as nat);
            let same = l.records[node as int].start_row == l.records[node as int].end_row;
            &&& runner::node_shown(l, what, node, false) == what + ":"@ + first + ": "@
                + text::debug_text(text::first_line_spec(t))
            &&& same ==> runner::node_shown(l, what, node, true) == what + ":"@ + first + ": "@ + t
            &&& l.records[node as int].start_row < l.records[node as int].end_row
                && l.records[node as int].end_row < u32::MAX ==> runner::node_shown(
                l,
                what,
                node,
                true,
            ) == what + ":"@ + (first + "-"@ + last) + ": "@ + t
        }),
{
}

/// A match shows its captures, in their order, with their names; one without captures of its
/// author shows the node of the whole match.
pub proof fn law_match_is_shown(l: Listing, m: Seq<CaptureV>, body: bool)
    ensures
        ({
            let line = runner::simple_result(l, m, body);
            &&& shown(m).len() > 0 ==> line == text::join_spec(
                shown(m).map_values(
                    |c: CaptureV| runner::node_shown(l, "@"@ + c.name, c.node, body),
                ),
                ", "@,
            )
            &&& shown(m).len() == 0 && m.len() > 0 ==> exists|i: int|
                0 <= i < m.len() && line == runner::node_shown(
                    l,
                    "<match>"@,
                    (#[trigger] m[i]).node,
                    body,
                ) && is_whole(m, i)
            &&& m.len() == 0 ==> line == "<match>"@
        }),
{
    lemma_shown(m);
    if shown(m).len() > 0 {
        let a = shown(m).map_values(|c: CaptureV| runner::capture_shown(l, c, body));
        let b = shown(m).map_values(
            |c: CaptureV| runner::node_shown(l, "@"@ + c.name, c.node, body),
        );
        assert(a =~= b);
    } else if m.len() > 0 {
        lemma_first_capture(m, 0, |c: CaptureV| runner::is_root(c));
        match runner::first_capture(m, 0, |c: CaptureV| runner::is_root(c)) {
            Some(c) => {
                let i = choose|i: int|
                    0 <= i < m.len() && #[trigger] m[i] == c && runner::is_root(m[i]) && forall|j: int|
                        0 <= j < i ==> !runner::is_root(#[trigger] m[j]);
                assert(is_whole(m, i));
            },
            None => {
                assert(is_whole(m, 0));
            },
        }
    } else {
        reveal(Seq::filter);
        assert(shown(m) =~= Seq::empty());
    }
}

/// Whether the capture at a position is that of the whole match: the first with the name of such
/// a one, or, if there is none, the first.
pub open spec fn is_whole(m: Seq<CaptureV>, i: int) -> bool {
    if exists|j: int| 0 <= j < m.len() && text::has_prefix((#[trigger] m[j]).name, "_root"@) {
        text::has_prefix(m[i].name, "_root"@) && forall|j: int|
            0 <= j < i ==> !text::has_prefix((#[trigger] m[j]).name, "_root"@)
    } else {
        i == 0
    }
}

proof fn lemma_first_capture(m: Seq<CaptureV>, k: nat, p: spec_fn(CaptureV) -> bool)
    ensures
        match runner::first_capture(m, k, p) {
            Some(c) => exists|i: int|
                k <= i < m.len() && #[trigger] m[i] == c && p(m[i]) && forall|j: int|
                    k <= j < i ==> !p(#[trigger] m[j]),
            None => forall|j: int| k <= j < m.len() ==> !p(#[trigger] m[j]),
        },
    decreases m.len() - k,
{
    if k < m.len() && !p(m[k as int]) {
        lemma_first_capture(m, k + 1, p);
        match runner::first_capture(m, k + 1, p) {
            Some(c) => {
                let i = choose|i: int|
                    k + 1 <= i < m.len() && #[trigger] m[i] == c && p(m[i]) && forall|j: int|
                        k + 1 <= j < i ==> !p(#[trigger] m[j]);
                assert(m[i] == c);
                assert forall|j: int| k <= j < i implies !p(#[trigger] m[j]) by {
                    if j > k {
                        assert(k + 1 <= j);
                    }
                }
            },
            None => {
                assert forall|j: int| k <= j < m.len() implies !p(#[trigger] m[j]) by {
                    if j > k {
                        assert(k + 1 <= j);
                    }
                }
            },
        }
    } else if k < m.len() {
        assert(m[k as int] == runner::first_capture(m, k, p)->Some_0);
    }
}

// ---------------------------------------------------------------------------
// Two phases
// ---------------------------------------------------------------------------

/// The node that a match of an outer query is searched in: that of its first capture that is
/// shown, or else that of the whole match.
pub open spec fn is_searched_in(m: Seq<CaptureV>, i: int) -> bool {
    &&& 0 <= i < m.len()
    &&& if exists|j: int| 0 <= j < m.len() && is_shown(#[trigger] m[j]) {
        is_shown(m[i]) && forall|j: int| 0 <= j < i ==> !is_shown(#[trigger] m[j])
    } else {
        is_whole(m, i)
    }
}

proof fn lemma_container(m: Seq<CaptureV>, i: int)
    requires
        is_searched_in(m, i),
    ensures
        runner::container(m, false) == Some(m[i].node),
{
    let p = |c: CaptureV| runner::is_visible(c);
    let q = |c: CaptureV| runner::is_root(c);
    lemma_first_capture(m, 0, p);
    lemma_first_capture(m, 0, q);
    assert forall|c: CaptureV| #[trigger] runner::is_visible(c) == is_shown(c) by {
        reveal_strlit("_");
        if c.name.len() > 0 {
            assert(c.name.take(1)[0] == c.name[0]);
            if c.name[0] == '_' {
                assert(c.name.take(1) =~= "_"@);
            }
        }
    }
    match runner::first_capture(m, 0, p) {
        Some(c) => {
            let k = choose|k: int|
                0 <= k < m.len() && #[trigger] m[k] == c && p(m[k]) && forall|j: int|
                    0 <= j < k ==> !p(#[trigger] m[j]);
            assert(is_shown(m[k]));
            if k < i {
                assert(!is_shown(m[k]));
            }
            if i < k {
                assert(!p(m[i]));
            }
        },
        None => {
            assert forall|j: int| 0 <= j < m.len() implies !is_shown(#[trigger] m[j]) by {
                assert(!p(m[j]));
            }
            match runner::first_capture(m, 0, q) {
                Some(c) => {
                    let k = choose|k: int|
                        0 <= k < m.len() && #[trigger] m[k] == c && q(m[k]) && forall|j: int|
                            0 <= j < k ==> !q(#[trigger] m[j]);
                    assert(text::has_prefix(m[k].name, "_root"@));
                    if k < i {
                        assert(!text::has_prefix(m[k].name, "_root"@));
                    }
                    if i < k {
                        assert(!q(m[i]));
                    }
                },
                None => {
                    assert forall|j: int| 0 <= j < m.len() implies !text::has_prefix(
                        (#[trigger] m[j]).name,
                        "_root"@,
                    ) by {
                        assert(!q(m[j]));
                    }
                },
            }
        },
    }
}

/// The inner query is searched for in the child in the field of a node, or in the node itself
/// where it has no such child.
pub proof fn law_scope_is_the_field(l: Listing, node: usize, field: Seq<char>)
    ensures
        match syntax::field_child(syntax::node_at(l, node as nat), field) {
            Some(c) => runner::scope_of(l, node, field) == c.index,
            None => runner::scope_of(l, node, field) == node,
        },
{
}

/// Whether a result shows an outer match and an inner one: their captures together, first those
/// of the outer match; or, without any, the first node of the inner match.
pub open spec fn shows_both(
    l: Listing,
    outer: Seq<CaptureV>,
    m: Seq<CaptureV>,
    body: bool,
    line: Seq<char>,
) -> bool {
    let all = shown(outer) + shown(m);
    if all.len() > 0 {
        line == text::join_spec(
            all.map_values(|c: CaptureV| runner::node_shown(l, "@"@ + c.name, c.node, body)),
            ", "@,
        )
    } else {
        m.len() > 0 && line == runner::node_shown(l, "<match>"@, m[0].node, body)
    }
}

proof fn lemma_both(
    l: Listing,
    outer: Seq<CaptureV>,
    m: Seq<CaptureV>,
    body: bool,
    line: Seq<char>,
)
    ensures
        runner::scoped_result(l, outer, m, body) == Some(line) <==> shows_both(
            l,
            outer,
            m,
            body,
            line,
        ),
{
    lemma_shown(outer);
    lemma_shown(m);
    let all = shown(outer) + shown(m);
    let a = all.map_values(|c: CaptureV| runner::capture_shown(l, c, body));
    let b = all.map_values(|c: CaptureV| runner::node_shown(l, "@"@ + c.name, c.node, body));
    assert(a =~= b);
}

proof fn lemma_scoped_results(
    l: Listing,
    outer: Seq<CaptureV>,
    ms: Seq<Seq<CaptureV>>,
    body: bool,
    line: Seq<char>,
)
    ensures
        runner::scoped_results(l, outer, ms, body).contains(line) <==> exists|j: int|
            0 <= j < ms.len() && shows_both(l, outer, #[trigger] ms[j], body, line),
    decreases ms.len(),
{
    if ms.len() > 0 {
        let init = ms.drop_last();
        let n = ms.len() - 1;
        lemma_scoped_results(l, outer, init, body, line);
        lemma_both(l, outer, ms.last(), body, line);
        let before = runner::scoped_results(l, outer, init, body);
        let all = runner::scoped_results(l, outer, ms, body);
        if all.contains(line) {
            if before.contains(line) {
                let j = choose|j: int|
                    0 <= j < init.len() && shows_both(l, outer, #[trigger] init[j], body, line);
                assert(ms[j] == init[j]);
            } else {
                let k = all.index_of(line);
                if k < before.len() {
                    assert(before[k] == line);
                }
                assert(ms[n] == ms.last());
            }
        }
        if exists|j: int| 0 <= j < ms.len() && shows_both(l, outer, #[trigger] ms[j], body, line) {
            let j = choose|j: int|
                0 <= j < ms.len() && shows_both(l, outer, #[trigger] ms[j], body, line);
            if j < n {
                assert(init[j] == ms[j]);
                assert(all[before.index_of(line)] == line);
            } else {
                assert(all[before.len() as int] == line);
            }
        }
    }
}

/// Whether a line shows the outer match at a position and one of the inner matches in its field,
/// or in the node itself where it has no such field.
pub open spec fn is_result_of(
    l: Listing,
    outer: Seq<CaptureV>,
    field: Seq<char>,
    inner: spec_fn(usize) -> Seq<Seq<CaptureV>>,
    body: bool,
    line: Seq<char>,
) -> bool {
    exists|i: int, j: int|
        #![trigger is_searched_in(outer, i), inner(runner::scope_of(l, outer[i].node, field))[j]]
        is_searched_in(outer, i) && 0 <= j < inner(
            runner::scope_of(l, outer[i].node, field),
        ).len() && shows_both(
            l,
            outer,
            inner(runner::scope_of(l, outer[i].node, field))[j],
            body,
            line,
        )
}

proof fn lemma_searched_somewhere(m: Seq<CaptureV>) -> (i: int)
    requires
        m.len() > 0,
    ensures
        is_searched_in(m, i),
{
    let p = |c: CaptureV| is_shown(c);
    let q = |c: CaptureV| text::has_prefix(c.name, "_root"@);
    lemma_first_capture(m, 0, p);
    lemma_first_capture(m, 0, q);
    match runner::first_capture(m, 0, p) {
        Some(c) => {
            let k = choose|k: int|
                0 <= k < m.len() && #[trigger] m[k] == c && p(m[k]) && forall|j: int|
                    0 <= j < k ==> !p(#[trigger] m[j]);
            assert(is_shown(m[k]));
            assert forall|j: int| 0 <= j < k implies !is_shown(#[trigger] m[j]) by {
                assert(!p(m[j]));
            }
            k
        },
        None => {
            assert forall|j: int| 0 <= j < m.len() implies !is_shown(#[trigger] m[j]) by {
                assert(!p(m[j]));
            }
            match runner::first_capture(m, 0, q) {
                Some(c) => {
                    let k = choose|k: int|
                        0 <= k < m.len() && #[trigger] m[k] == c && q(m[k]) && forall|j: int|
                            0 <= j < k ==> !q(#[trigger] m[j]);
                    assert(text::has_prefix(m[k].name, "_root"@));
                    assert forall|j: int| 0 <= j < k implies !text::has_prefix(
                        (#[trigger] m[j]).name,
                        "_root"@,
                    ) by {
                        assert(!q(m[j]));
                    }
                    k
                },
                None => {
                    assert forall|j: int| 0 <= j < m.len() implies !text::has_prefix(
                        (#[trigger] m[j]).name,
                        "_root"@,
                    ) by {
                        assert(!q(m[j]));
                    }
                    0
                },
            }
        },
    }
}

proof fn lemma_all_scoped(
    l: Listing,
    outers: Seq<Seq<CaptureV>>,
    field: Seq<char>,
    inner: spec_fn(usize) -> Seq<Seq<CaptureV>>,
    body: bool,
    line: Seq<char>,
)
    ensures
        runner::all_scoped_results(l, outers, false, field, inner, body).contains(line)
            <==> exists|k: int|
            0 <= k < outers.len() && is_result_of(
                l,
                #[trigger] outers[k],
                field,
                inner,
                body,
                line,
            ),
    decreases outers.len(),
{
    if outers.len() > 0 {
        let init = outers.drop_last();
        let n = outers.len() - 1;
        let o = outers.last();
        lemma_all_scoped(l, init, field, inner, body, line);
        let before = runner::all_scoped_results(l, init, false, field, inner, body);
        let all = runner::all_scoped_results(l, outers, false, field, inner, body);
        assert(outers[n] == o);
        let own = if o.len() > 0 {
            let i = lemma_searched_somewhere(o);
            lemma_container(o, i);
            let scope = runner::scope_of(l, o[i].node, field);
            lemma_scoped_results(l, o, inner(scope), body, line);
            let own = runner::scoped_results(l, o, inner(scope), body);
            if own.contains(line) {
                let j = choose|j: int|
                    0 <= j < inner(scope).len() && shows_both(
                        l,
                        o,
                        #[trigger] inner(scope)[j],
                        body,
                        line,
                    );
                assert(is_searched_in(o, i));
                assert(shows_both(
                    l,
                    o,
                    inner(runner::scope_of(l, o[i].node, field))[j],
                    body,
                    line,
                ));
                assert(is_result_of(l, o, field, inner, body, line));
            }
            if is_result_of(l, o, field, inner, body, line) {
                let (i2, j) = choose|i: int, j: int|
                    #![trigger is_searched_in(o, i), inner(runner::scope_of(l, o[i].node, field))[j]]
                    is_searched_in(o, i) && 0 <= j < inner(
                        runner::scope_of(l, o[i].node, field),
                    ).len() && shows_both(
                        l,
                        o,
                        inner(runner::scope_of(l, o[i].node, field))[j],
                        body,
                        line,
                    );
                lemma_container(o, i2);
                assert(o[i2].node == o[i].node);
                assert(shows_both(l, o, inner(scope)[j], body, line));
            }
            own
        } else {
            lemma_first_capture(o, 0, |c: CaptureV| runner::is_visible(c));
            lemma_first_capture(o, 0, |c: CaptureV| runner::is_root(c));
            Seq::empty()
        };
        assert(all =~= before + own);
        assert(own.contains(line) <==> is_result_of(l, o, field, inner, body, line));
        if all.contains(line) {
            let k = all.index_of(line);
            if k < before.len() {
                assert(before[k] == line);
                let j = choose|j: int|
                    0 <= j < init.len() && is_result_of(
                        l,
                        #[trigger] init[j],
                        field,
                        inner,
                        body,
                        line,
                    );
                assert(outers[j] == init[j]);
            } else {
                assert(own[k - before.len()] == line);
            }
        }
        if exists|k: int|
            0 <= k < outers.len() && is_result_of(
                l,
                #[trigger] outers[k],
                field,
                inner,
                body,
                line,
            ) {
            let k = choose|k: int|
                0 <= k < outers.len() && is_result_of(
                    l,
                    #[trigger] outers[k],
                    field,
                    inner,
                    body,
                    line,
                );
            if k < n {
                assert(init[k] == outers[k]);
                assert(all[before.index_of(line)] == line);
            } else {
                assert(all[before.len() + own.index_of(line)] == line);
            }
        }
    }
}

/// A search in two phases shows what is there, and nothing else: a line is a result if and only if
/// it shows a match of the outer pattern and a match of the inner one in its field.
pub proof fn law_scoped_run_finds_all(
    g: Grammar,
    outer: Seq<char>,
    scope_field: Seq<char>,
    inner: Seq<char>,
    source: Seq<u8>,
    body: bool,
    line: Seq<char>,
)
    requires
        outer.len() > 0,
        inner.len() > 0,
    ensures
        syntax::ts_query_error(g, outer) is None && syntax::ts_query_error(g, inner) is None ==> (
        runner::run_result(g, CompiledV::Scoped { outer, scope_field, inner }, source, body)
            matches Ok(lines) && (lines.contains(line) <==> exists|k: int|
            0 <= k < syntax::ts_matches(g, source, outer, 0).len() && is_result_of(
                syntax::listing(g, source),
                #[trigger] syntax::ts_matches(g, source, outer, 0)[k],
                scope_field,
                |scope: usize| syntax::ts_matches(g, source, inner, scope),
                body,
                line,
            ))),
{
    if syntax::ts_query_error(g, outer) is None && syntax::ts_query_error(g, inner) is None {
        let l = syntax::listing(g, source);
        let none = Seq::<SearchV>::empty();
        let find = |scope: usize| syntax::ts_matches(g, source, inner, scope);
        let a = runner::pattern_matches(g, source, (outer, none), 0);
        let b = |scope: usize| runner::pattern_matches(g, source, (inner, none), scope);
        assert(a == syntax::ts_matches(g, source, outer, 0));
        assert forall|scope: usize| #[trigger] b(scope) == find(scope) by {}
        assert(b =~= find);
        let results = runner::all_scoped_results(l, a, false, scope_field, b, body);
        text::lemma_distinct(results);
        lemma_all_scoped(l, a, scope_field, find, body, line);
        assert(runner::search_failure(g, none, 0) is None);
    }
}

/// A pattern that the grammar refuses is an error that says so, and nothing is found.
pub proof fn law_refused_pattern_is_an_error(
    g: Grammar,
    pattern: Seq<char>,
    source: Seq<u8>,
    body: bool,
    e: Seq<char>,
)
    requires
        pattern.len() > 0,
    ensures
        syntax::ts_query_error(g, pattern) == Some(e) ==> runner::run_result(
            g,
            CompiledV::Simple(pattern),
            source,
            body,
        ) == Err::<Seq<Seq<char>>, Seq<char>>("query error: "@ + e),
{
}

proof fn lemma_distinct_order(v: Seq<Seq<char>>, i: int, j: int) -> (r: (int, int))
    requires
        0 <= i < j < text::distinct(v).len(),
    ensures
        0 <= r.0 < r.1 < v.len(),
        v[r.0] == text::distinct(v)[i],
        v[r.1] == text::distinct(v)[j],
        forall|k: int| 0 <= k < r.1 ==> #[trigger] v[k] != text::distinct(v)[j],
    decreases v.len(),
{
    let init = v.drop_last();
    let d = text::distinct(init);
    let n = v.len() - 1;
    text::lemma_distinct(init);
    if j < d.len() {
        let (a, b) = lemma_distinct_order(init, i, j);
        assert(v[a] == init[a] && v[b] == init[b]);
        assert forall|k: int| 0 <= k < b implies #[trigger] v[k] != text::distinct(v)[j] by {
            assert(init[k] != d[j]);
        }
        (a, b)
    } else {
        assert(d.contains(d[i]));
        assert(init.contains(d[i]));
        let a = init.index_of(d[i]);
        assert(v[a] == init[a]);
        assert forall|k: int| 0 <= k < n implies #[trigger] v[k] != text::distinct(v)[j] by {
            assert(init.contains(init[k]));
        }
        (a, n)
    }
}

/// Results come in the order in which they are found first.
pub proof fn law_results_in_order(found: Seq<Seq<char>>, i: int, j: int)
    requires
        0 <= i < j < text::distinct(found).len(),
    ensures
        exists|a: int, b: int|
            0 <= a < b < found.len() && #[trigger] found[a] == text::distinct(found)[i]
                && #[trigger] found[b] == text::distinct(found)[j] && forall|k: int|
                0 <= k < b ==> #[trigger] found[k] != text::distinct(found)[j],
{
    let (a, b) = lemma_distinct_order(found, i, j);
    assert(found[a] == text::distinct(found)[i] && found[b] == text::distinct(found)[j]);
}

} // verus!
