//! Call trees and call graphs as text.

use vstd::prelude::*;
use vstd::hash_map::StringHashMap;
use crate::files::SourceFile;
use crate::order;
use crate::order::{count_to, sort_positions};
use crate::path;
use crate::path::file_name;
use crate::resolve;
use crate::resolve::{CallV, Confidence, Def, DefId, DefIdV, DefV, IndexV, ResolvedCall};
use crate::resolve::graph;
use crate::resolve::graph::{CallGraph, GraphV, KeyV, NodeKey, build};
use crate::text;
use crate::text::{debug_string, decimal, push_string, str_eq, str_lt};
use crate::tree;
use crate::tree::{connector, indent};

verus! {

broadcast use vstd::string::group_string_axioms;

// ── Places ────────────────────────────────────────────────────────────────────

/// The name of a file without its directory.
pub open spec fn short(p: Seq<char>) -> Seq<char> {
    match path::file_name_spec(p) {
        Some(name) => name,
        None => p,
    }
}

/// A place as `file:line`.
pub open spec fn place(id: DefIdV) -> Seq<char> {
    short(id.file) + ":"@ + text::decimal_digits(id.line as nat)
}

/// The name of a file without its directory.
pub fn short_path(path: &str) -> (r: String)
    ensures
        r@ == short(path@),
{
    match file_name(path) {
        Some(name) => name,
        None => path.to_string(),
    }
}

fn place_of(id: &DefId) -> (r: String)
    ensures
        r@ == place(id@),
{
    let mut out: String = short_path(id.file.as_str());
    out.append(":");
    out.append(decimal(id.line).as_str());
    out
}

// ── Tree walkers ──────────────────────────────────────────────────────────────

/// How a guess is marked.
pub open spec fn mark_spec(guess: bool) -> Seq<char> {
    if guess {
        " ?"@
    } else {
        ""@
    }
}

/// Whether a call is resolved by a guess.
pub open spec fn is_guess(c: CallV) -> bool {
    c.target matches Some(t) && t.1 == Confidence::Guess
}

/// The line for a call of a definition, or of one that is on the way from the root.
pub open spec fn node_line(
    prefix: Seq<char>,
    last: bool,
    name: Seq<char>,
    id: DefIdV,
    guess: bool,
    cycle: bool,
) -> Seq<char> {
    let line = prefix + tree::connector_spec(last) + name + "()  ["@ + place(id) + "]"@ + mark_spec(
        guess,
    );
    if cycle {
        line + " (cycle)"@
    } else {
        line
    }
}

/// What is called from a node, over `left` levels. `path` holds the nodes on the way from
/// the root; a call of one of them is shown, and not followed.
pub open spec fn down_lines(
    g: GraphV,
    key: KeyV,
    left: nat,
    prefix: Seq<char>,
    path: Seq<KeyV>,
) -> Seq<Seq<char>>
    decreases left, 1int, 0int,
{
    if left == 0 || !g.fwd.contains_key(key) {
        Seq::empty()
    } else {
        down_from(g, g.fwd[key], 0, left, prefix, path)
    }
}

/// What the calls from the position `i` on lead to.
pub open spec fn down_from(
    g: GraphV,
    edges: Seq<usize>,
    i: nat,
    left: nat,
    prefix: Seq<char>,
    path: Seq<KeyV>,
) -> Seq<Seq<char>>
    decreases left, 0int, edges.len() - i,
{
    if i >= edges.len() || left == 0 {
        Seq::empty()
    } else {
        let c = g.calls[edges[i as int] as int];
        let last = i == edges.len() - 1;
        let own = match c.target {
            Some((t, _)) => {
                let id = g.index.defs[t as int].id;
                let key = KeyV::Def(id);
                let cycle = path.contains(key);
                let line = seq![
                    node_line(prefix, last, c.callee_display, id, is_guess(c), cycle),
                ];
                if cycle {
                    line
                } else {
                    line + down_lines(
                        g,
                        key,
                        (left - 1) as nat,
                        prefix + tree::indent_spec(last),
                        path.push(key),
                    )
                }
            },
            None => seq![prefix + tree::connector_spec(last) + c.callee_display + "()"@],
        };
        own + down_from(g, edges, i + 1, left, prefix, path)
    }
}

/// What calls a node, over `left` levels.
pub open spec fn up_lines(
    g: GraphV,
    key: KeyV,
    left: nat,
    prefix: Seq<char>,
    path: Seq<KeyV>,
) -> Seq<Seq<char>>
    decreases left, 1int, 0int,
{
    if left == 0 || !g.rev.contains_key(key) {
        Seq::empty()
    } else {
        up_from(g, g.rev[key], 0, left, prefix, path)
    }
}

/// What the calls from the position `i` on come from.
pub open spec fn up_from(
    g: GraphV,
    edges: Seq<usize>,
    i: nat,
    left: nat,
    prefix: Seq<char>,
    path: Seq<KeyV>,
) -> Seq<Seq<char>>
    decreases left, 0int, edges.len() - i,
{
    if i >= edges.len() || left == 0 {
        Seq::empty()
    } else {
        let c = g.calls[edges[i as int] as int];
        let last = i == edges.len() - 1;
        let d = g.index.defs[c.caller as int];
        let key = KeyV::Def(d.id);
        let cycle = path.contains(key);
        let line = seq![node_line(prefix, last, d.name, d.id, is_guess(c), cycle)];
        let own = if cycle {
            line
        } else {
            line + up_lines(
                g,
                key,
                (left - 1) as nat,
                prefix + tree::indent_spec(last),
                path.push(key),
            )
        };
        own + up_from(g, edges, i + 1, left, prefix, path)
    }
}

/// Whether one of the lines shows a call of a definition, or by one.
pub open spec fn shows(
    lines: Seq<Seq<char>>,
    prefix: Seq<char>,
    name: Seq<char>,
    id: DefIdV,
    guess: bool,
) -> bool {
    exists|m: int, last: bool, cycle: bool|
        0 <= m < lines.len() && #[trigger] lines[m] == #[trigger] node_line(
            prefix,
            last,
            name,
            id,
            guess,
            cycle,
        )
}

/// A call that is resolved is seen from both of its ends: below its caller, where what is
/// called is listed, and below what it leads to, where the callers are.
pub proof fn law_call_is_shown_both_ways(
    index: IndexV,
    calls: Seq<CallV>,
    i: int,
    left: nat,
    prefix: Seq<char>,
    path: Seq<KeyV>,
)
    requires
        calls.len() <= usize::MAX,
        0 <= i < calls.len(),
        calls[i].target is Some,
        left > 0,
    ensures
        shows(
            down_lines(
                graph::graph_with(index, calls),
                graph::caller_key(index.defs, calls[i]),
                left,
                prefix,
                path,
            ),
            prefix,
            calls[i].callee_display,
            index.defs[calls[i].target->Some_0.0 as int].id,
            is_guess(calls[i]),
        ),
        shows(
            up_lines(
                graph::graph_with(index, calls),
                graph::callee_key(index.defs, calls[i]),
                left,
                prefix,
                path,
            ),
            prefix,
            index.defs[calls[i].caller as int].name,
            index.defs[calls[i].caller as int].id,
            is_guess(calls[i]),
        ),
{
    let g = graph::graph_with(index, calls);
    let from = graph::caller_key(index.defs, calls[i]);
    let to = graph::callee_key(index.defs, calls[i]);
    graph::law_edges_of_a_node(index, calls, from);
    graph::law_edges_of_a_node(index, calls, to);
    assert(g.fwd[from].contains(i as usize));
    assert(g.rev[to].contains(i as usize));
    lemma_down_shows(g, g.fwd[from], 0, left, prefix, path, g.fwd[from].index_of(i as usize));
    lemma_up_shows(g, g.rev[to], 0, left, prefix, path, g.rev[to].index_of(i as usize));
}

proof fn lemma_shows_more(
    a: Seq<Seq<char>>,
    b: Seq<Seq<char>>,
    prefix: Seq<char>,
    name: Seq<char>,
    id: DefIdV,
    guess: bool,
)
    ensures
        shows(a, prefix, name, id, guess) || shows(b, prefix, name, id, guess) ==> shows(
            a + b,
            prefix,
            name,
            id,
            guess,
        ),
{
    if shows(a, prefix, name, id, guess) {
        let (m, last, cycle) = choose|m: int, last: bool, cycle: bool|
            0 <= m < a.len() && #[trigger] a[m] == #[trigger] node_line(
                prefix,
                last,
                name,
                id,
                guess,
                cycle,
            );
        assert((a + b)[m] == node_line(prefix, last, name, id, guess, cycle));
    } else if shows(b, prefix, name, id, guess) {
        let (m, last, cycle) = choose|m: int, last: bool, cycle: bool|
            0 <= m < b.len() && #[trigger] b[m] == #[trigger] node_line(
                prefix,
                last,
                name,
                id,
                guess,
                cycle,
            );
        assert((a + b)[a.len() + m] == node_line(prefix, last, name, id, guess, cycle));
    }
}

proof fn lemma_down_shows(
    g: GraphV,
    edges: Seq<usize>,
    i: nat,
    left: nat,
    prefix: Seq<char>,
    path: Seq<KeyV>,
    k: int,
)
    requires
        i <= k < edges.len(),
        left > 0,
        g.calls[edges[k] as int].target is Some,
    ensures
        shows(
            down_from(g, edges, i, left, prefix, path),
            prefix,
            g.calls[edges[k] as int].callee_display,
            g.index.defs[g.calls[edges[k] as int].target->Some_0.0 as int].id,
            is_guess(g.calls[edges[k] as int]),
        ),
    decreases k - i,
{
    let c = g.calls[edges[k] as int];
    let id = g.index.defs[c.target->Some_0.0 as int].id;
    let all = down_from(g, edges, i, left, prefix, path);
    let rest = down_from(g, edges, i + 1, left, prefix, path);
    let own = all.take(all.len() - rest.len());
    assert(all =~= own + rest);
    if i < k {
        lemma_down_shows(g, edges, i + 1, left, prefix, path, k);
    } else {
        let last = i == edges.len() - 1;
        let cycle = path.contains(KeyV::Def(id));
        assert(own[0] == node_line(prefix, last, c.callee_display, id, is_guess(c), cycle));
        assert(shows(own, prefix, c.callee_display, id, is_guess(c)));
    }
    lemma_shows_more(own, rest, prefix, c.callee_display, id, is_guess(c));
}

proof fn lemma_up_shows(
    g: GraphV,
    edges: Seq<usize>,
    i: nat,
    left: nat,
    prefix: Seq<char>,
    path: Seq<KeyV>,
    k: int,
)
    requires
        i <= k < edges.len(),
        left > 0,
    ensures
        shows(
            up_from(g, edges, i, left, prefix, path),
            prefix,
            g.index.defs[g.calls[edges[k] as int].caller as int].name,
            g.index.defs[g.calls[edges[k] as int].caller as int].id,
            is_guess(g.calls[edges[k] as int]),
        ),
    decreases k - i,
{
    let c = g.calls[edges[k] as int];
    let d = g.index.defs[c.caller as int];
    let all = up_from(g, edges, i, left, prefix, path);
    let rest = up_from(g, edges, i + 1, left, prefix, path);
    let own = all.take(all.len() - rest.len());
    assert(all =~= own + rest);
    if i < k {
        lemma_up_shows(g, edges, i + 1, left, prefix, path, k);
    } else {
        let last = i == edges.len() - 1;
        let cycle = path.contains(KeyV::Def(d.id));
        assert(own[0] == node_line(prefix, last, d.name, d.id, is_guess(c), cycle));
        assert(shows(own, prefix, d.name, d.id, is_guess(c)));
    }
    lemma_shows_more(own, rest, prefix, d.name, d.id, is_guess(c));
}

fn mark(c: &ResolvedCall) -> (r: &'static str)
    ensures
        r@ == mark_spec(is_guess(c@)),
{
    match c.target {
        Some((_, Confidence::Guess)) => " ?",
        _ => "",
    }
}

fn show_node(prefix: &str, last: bool, name: &str, id: &DefId, mark: &str, cycle: bool) -> (r:
    String)
    ensures
        forall|guess: bool|
            mark@ == #[trigger] mark_spec(guess) ==> r@ == node_line(
                prefix@,
                last,
                name@,
                id@,
                guess,
                cycle,
            ),
{
    let mut line: String = prefix.to_string();
    line.append(connector(last));
    line.append(name);
    line.append("()  [");
    line.append(place_of(id).as_str());
    line.append("]");
    line.append(mark);
    if cycle {
        line.append(" (cycle)");
    }
    line
}

/// Whether a node is on the way from the root.
fn is_on_path(path: &Vec<NodeKey>, key: &NodeKey) -> (r: bool)
    ensures
        r == text::views(path@).contains(key@),
{
    let ghost all = text::views(path@);
    let mut i: usize = 0;
    while i < path.len()
        invariant
            i <= path@.len(),
            all == text::views(path@),
            forall|k: int| 0 <= k < i ==> all[k] != key@,
        decreases path@.len() - i,
    {
        assert(all[i as int] == path@[i as int]@);
        if path[i].same(key) {
            return true;
        }
        i += 1;
    }
    false
}

fn enter(path: &mut Vec<NodeKey>, key: &NodeKey)
    ensures
        text::views(final(path)@) == text::views(old(path)@).push(key@),
{
    let ghost before = path@;
    path.push(key.clone());
    assert(text::views(path@) =~= text::views(before).push(key@));
}

fn leave(path: &mut Vec<NodeKey>)
    requires
        text::views(old(path)@).len() > 0,
    ensures
        text::views(final(path)@) == text::views(old(path)@).drop_last(),
{
    let ghost before = path@;
    path.pop();
    assert(text::views(path@) =~= text::views(before).drop_last());
}

/// Appends what is called from a node.
fn walk_down(
    g: &CallGraph,
    key: &NodeKey,
    left: usize,
    prefix: &str,
    visited: &mut Vec<NodeKey>,
    out: &mut Vec<String>,
)
    requires
        g.wf(),
    ensures
        text::views(final(visited)@) == text::views(old(visited)@),
        text::views(final(out)@) == text::views(old(out)@) + down_lines(
            g@,
            key@,
            left as nat,
            prefix@,
            text::views(old(visited)@),
        ),
    decreases left,
{
    let ghost before = text::views(out@);
    let ghost way = text::views(visited@);
    assert(before + Seq::<Seq<char>>::empty() =~= before);
    if left == 0 {
        return;
    }
    let edges: &Vec<usize> = match g.fwd.get(key) {
        Some(e) => e,
        None => {
            return;
        },
    };
    let ghost whole = before + down_from(g@, edges@, 0, left as nat, prefix@, way);
    let mut i: usize = 0;
    while i < edges.len()
        invariant
            i <= edges@.len(),
            left > 0,
            g.wf(),
            g@.fwd.contains_key(key@),
            edges@ == g@.fwd[key@],
            text::views(visited@) == way,
            whole == text::views(out@) + down_from(
                g@,
                edges@,
                i as nat,
                left as nat,
                prefix@,
                way,
            ),
        decreases edges@.len() - i,
    {
        let ghost now = text::views(out@);
        let ghost rest = down_from(g@, edges@, (i + 1) as nat, left as nat, prefix@, way);
        let last: bool = i == edges.len() - 1;
        assert(g@.fwd[key@][i as int] < g@.calls.len());
        let c: &ResolvedCall = &g.calls[edges[i]];
        assert(g@.calls[edges@[i as int] as int] == c@);
        match &c.target {
            Some((t, _)) => {
                let d: &Def = &g.index.defs[*t];
                assert(g@.index.defs[*t as int] == d@);
                let tk: NodeKey = NodeKey::Def(d.id.clone());
                let cycle: bool = is_on_path(visited, &tk);
                push_string(
                    out,
                    show_node(prefix, last, c.callee_display.as_str(), &d.id, mark(c), cycle),
                );
                let ghost line = node_line(
                    prefix@,
                    last,
                    c@.callee_display,
                    d@.id,
                    is_guess(c@),
                    cycle,
                );
                assert(text::views(out@) =~= now.push(line));
                assert(now.push(line) =~= now + seq![line]);
                if !cycle {
                    enter(visited, &tk);
                    let mut inner: String = prefix.to_string();
                    inner.append(indent(last));
                    walk_down(g, &tk, left - 1, inner.as_str(), visited, out);
                    leave(visited);
                    assert(way.push(tk@).drop_last() =~= way);
                    let ghost below = down_lines(
                        g@,
                        tk@,
                        (left - 1) as nat,
                        prefix@ + tree::indent_spec(last),
                        way.push(tk@),
                    );
                    assert(text::views(out@) =~= now + (seq![line] + below));
                }
            },
            None => {
                let mut line: String = prefix.to_string();
                line.append(connector(last));
                line.append(c.callee_display.as_str());
                line.append("()");
                push_string(out, line);
                assert(text::views(out@) =~= now + seq![line@]);
            },
        }
        assert(whole =~= text::views(out@) + rest);
        i += 1;
    }
    assert(whole =~= text::views(out@));
}

/// Appends what calls a node.
fn walk_up(
    g: &CallGraph,
    key: &NodeKey,
    left: usize,
    prefix: &str,
    visited: &mut Vec<NodeKey>,
    out: &mut Vec<String>,
)
    requires
        g.wf(),
    ensures
        text::views(final(visited)@) == text::views(old(visited)@),
        text::views(final(out)@) == text::views(old(out)@) + up_lines(
            g@,
            key@,
            left as nat,
            prefix@,
            text::views(old(visited)@),
        ),
    decreases left,
{
    let ghost before = text::views(out@);
    let ghost way = text::views(visited@);
    assert(before + Seq::<Seq<char>>::empty() =~= before);
    if left == 0 {
        return;
    }
    let edges: &Vec<usize> = match g.rev.get(key) {
        Some(e) => e,
        None => {
            return;
        },
    };
    let ghost whole = before + up_from(g@, edges@, 0, left as nat, prefix@, way);
    let mut i: usize = 0;
    while i < edges.len()
        invariant
            i <= edges@.len(),
            left > 0,
            g.wf(),
            g@.rev.contains_key(key@),
            edges@ == g@.rev[key@],
            text::views(visited@) == way,
            whole == text::views(out@) + up_from(g@, edges@, i as nat, left as nat, prefix@, way),
        decreases edges@.len() - i,
    {
        let ghost now = text::views(out@);
        let ghost rest = up_from(g@, edges@, (i + 1) as nat, left as nat, prefix@, way);
        let last: bool = i == edges.len() - 1;
        assert(g@.rev[key@][i as int] < g@.calls.len());
        let c: &ResolvedCall = &g.calls[edges[i]];
        assert(g@.calls[edges@[i as int] as int] == c@);
        let d: &Def = &g.index.defs[c.caller];
        assert(g@.index.defs[c.caller as int] == d@);
        let tk: NodeKey = NodeKey::Def(d.id.clone());
        let cycle: bool = is_on_path(visited, &tk);
        push_string(out, show_node(prefix, last, d.name.as_str(), &d.id, mark(c), cycle));
        let ghost line = node_line(prefix@, last, d@.name, d@.id, is_guess(c@), cycle);
        assert(text::views(out@) =~= now.push(line));
        assert(now.push(line) =~= now + seq![line]);
        if !cycle {
            enter(visited, &tk);
            let mut inner: String = prefix.to_string();
            inner.append(indent(last));
            walk_up(g, &tk, left - 1, inner.as_str(), visited, out);
            leave(visited);
            assert(way.push(tk@).drop_last() =~= way);
            let ghost below = up_lines(
                g@,
                tk@,
                (left - 1) as nat,
                prefix@ + tree::indent_spec(last),
                way.push(tk@),
            );
            assert(text::views(out@) =~= now + (seq![line] + below));
        }
        assert(whole =~= text::views(out@) + rest);
        i += 1;
    }
    assert(whole =~= text::views(out@));
}

// ── Trees of calls ────────────────────────────────────────────────────────────

/// The line for a root of a tree; with its place, where there are several.
pub open spec fn root_line(function: Seq<char>, id: DefIdV, several: bool) -> Seq<char> {
    if several {
        function + "()  ["@ + place(id) + "]"@
    } else {
        function + "()"@
    }
}

/// The trees below the roots.
pub open spec fn trees(
    g: GraphV,
    function: Seq<char>,
    roots: Seq<usize>,
    several: bool,
    max_depth: nat,
    up: bool,
) -> Seq<Seq<char>>
    decreases roots.len(),
{
    if roots.len() == 0 {
        Seq::empty()
    } else {
        let init = trees(g, function, roots.drop_last(), several, max_depth, up);
        let id = g.index.defs[roots.last() as int].id;
        let key = KeyV::Def(id);
        let gap = if roots.len() > 1 {
            init.push(""@)
        } else {
            init
        };
        gap.push(root_line(function, id, several)) + if up {
            up_lines(g, key, max_depth, ""@, seq![key])
        } else {
            down_lines(g, key, max_depth, ""@, seq![key])
        }
    }
}

/// What a function calls, as a tree for each definition of it.
pub open spec fn callees_lines(g: GraphV, function: Seq<char>, max_depth: nat) -> Seq<Seq<char>> {
    let roots = resolve::positions(g.index.defs, function);
    if roots.len() == 0 {
        seq![function + "()"@]
    } else {
        trees(g, function, roots, roots.len() > 1, max_depth, false)
    }
}

/// What calls a function, as a tree for each definition of it; one that is not defined is
/// called by its name.
pub open spec fn callers_lines(g: GraphV, function: Seq<char>, max_depth: nat) -> Seq<Seq<char>> {
    let roots = resolve::positions(g.index.defs, function);
    let key = KeyV::External(function);
    if roots.len() == 0 {
        seq![function + "()"@] + up_lines(g, key, max_depth, ""@, seq![key])
    } else {
        trees(g, function, roots, roots.len() > 1, max_depth, true)
    }
}

fn show_root(function: &str, id: &DefId, several: bool) -> (r: String)
    ensures
        r@ == root_line(function@, id@, several),
{
    let mut line: String = function.to_string();
    if several {
        line.append("()  [");
        line.append(place_of(id).as_str());
        line.append("]");
    } else {
        line.append("()");
    }
    line
}

/// The trees below the roots.
fn show_trees(
    g: &CallGraph,
    function: &str,
    roots: &Vec<usize>,
    max_depth: usize,
    up: bool,
) -> (r: Vec<String>)
    requires
        g.wf(),
        forall|k: int| 0 <= k < roots@.len() ==> (#[trigger] roots@[k]) < g@.index.defs.len(),
    ensures
        text::views(r@) == trees(
            g@,
            function@,
            roots@,
            roots@.len() > 1,
            max_depth as nat,
            up,
        ),
{
    let several: bool = roots.len() > 1;
    let mut out: Vec<String> = Vec::new();
    let mut i: usize = 0;
    assert(text::views(out@) =~= trees(
        g@,
        function@,
        roots@.take(0),
        several,
        max_depth as nat,
        up,
    ));
    while i < roots.len()
        invariant
            i <= roots@.len(),
            g.wf(),
            forall|k: int| 0 <= k < roots@.len() ==> (#[trigger] roots@[k]) < g@.index.defs.len(),
            text::views(out@) == trees(
                g@,
                function@,
                roots@.take(i as int),
                several,
                max_depth as nat,
                up,
            ),
        decreases roots@.len() - i,
    {
        assert(roots@.take(i + 1).drop_last() =~= roots@.take(i as int));
        assert(roots@.take(i + 1).last() == roots@[i as int]);
        assert(roots@[i as int] < g@.index.defs.len());
        if i > 0 {
            push_string(&mut out, "".to_string());
        }
        let d: &Def = &g.index.defs[roots[i]];
        assert(g@.index.defs[roots@[i as int] as int] == d@);
        push_string(&mut out, show_root(function, &d.id, several));
        let key: NodeKey = NodeKey::Def(d.id.clone());
        let mut visited: Vec<NodeKey> = Vec::new();
        enter(&mut visited, &key);
        assert(text::views(visited@) =~= seq![key@]);
        if up {
            walk_up(g, &key, max_depth, "", &mut visited, &mut out);
        } else {
            walk_down(g, &key, max_depth, "", &mut visited, &mut out);
        }
        i += 1;
    }
    assert(roots@.take(i as int) =~= roots@);
    out
}

/// What a function of a graph calls.
pub fn callees_in(g: &CallGraph, function: &str, max_depth: usize) -> (r: Vec<String>)
    requires
        g.wf(),
    ensures
        text::views(r@) == callees_lines(g@, function@, max_depth as nat),
{
    let roots: Vec<usize> = g.index.named(function);
    if roots.len() == 0 {
        let mut line: String = function.to_string();
        line.append("()");
        let mut out: Vec<String> = Vec::new();
        push_string(&mut out, line);
        assert(text::views(out@) =~= seq![function@ + "()"@]);
        return out;
    }
    show_trees(g, function, &roots, max_depth, false)
}

/// What calls a function of a graph.
pub fn callers_in(g: &CallGraph, function: &str, max_depth: usize) -> (r: Vec<String>)
    requires
        g.wf(),
    ensures
        text::views(r@) == callers_lines(g@, function@, max_depth as nat),
{
    let roots: Vec<usize> = g.index.named(function);
    if roots.len() == 0 {
        // external/undefined name — its callers are still in the graph
        let mut line: String = function.to_string();
        line.append("()");
        let mut out: Vec<String> = Vec::new();
        push_string(&mut out, line);
        assert(text::views(out@) =~= seq![function@ + "()"@]);
        let key: NodeKey = NodeKey::External(function.to_string());
        let mut visited: Vec<NodeKey> = Vec::new();
        enter(&mut visited, &key);
        assert(text::views(visited@) =~= seq![key@]);
        walk_up(g, &key, max_depth, "", &mut visited, &mut out);
        return out;
    }
    show_trees(g, function, &roots, max_depth, true)
}

// ── The whole graph ───────────────────────────────────────────────────────────

/// An edge as text: the ids of the caller and the callee, their labels, and whether it is
/// a guess.
pub type EdgeV = (Seq<char>, Seq<char>, Seq<char>, Seq<char>, bool);

pub open spec fn edges_view(v: Seq<(String, String, String, String, bool)>) -> Seq<EdgeV> {
    v.map_values(|e: (String, String, String, String, bool)| (e.0@, e.1@, e.2@, e.3@, e.4))
}

/// The label of a definition: its name and its place.
pub open spec fn label(d: DefV) -> Seq<char> {
    d.name + "\\n"@ + place(d.id)
}

/// The edge for a call. The id of a definition is its place, that of anything else its
/// name.
pub open spec fn edge_of(defs: Seq<DefV>, c: CallV) -> EdgeV {
    let from = defs[c.caller as int];
    match c.target {
        Some((t, _)) => (
            place(from.id),
            place(defs[t as int].id),
            label(from),
            label(defs[t as int]),
            is_guess(c),
        ),
        None => (place(from.id), c.callee_display, label(from), c.callee_display, false),
    }
}

/// The order of edges: by the first component in which they differ.
pub open spec fn edge_lt(a: EdgeV, b: EdgeV) -> bool {
    if a.0 != b.0 {
        text::text_lt(a.0, b.0)
    } else if a.1 != b.1 {
        text::text_lt(a.1, b.1)
    } else if a.2 != b.2 {
        text::text_lt(a.2, b.2)
    } else if a.3 != b.3 {
        text::text_lt(a.3, b.3)
    } else {
        !a.4 && b.4
    }
}

/// The order of edges.
pub open spec fn edge_order() -> spec_fn(EdgeV, EdgeV) -> bool {
    |a: EdgeV, b: EdgeV| edge_lt(a, b)
}

/// The order of edges is a strict total order.
pub proof fn lemma_edge_total(a: EdgeV, b: EdgeV, c: EdgeV)
    ensures
        !edge_lt(a, a),
        edge_lt(a, b) || edge_lt(b, a) || a == b,
        !(edge_lt(a, b) && edge_lt(b, a)),
        edge_lt(a, b) && edge_lt(b, c) ==> edge_lt(a, c),
{
    text::lemma_text_order(a.0, b.0, c.0);
    text::lemma_text_order(a.1, b.1, c.1);
    text::lemma_text_order(a.2, b.2, c.2);
    text::lemma_text_order(a.3, b.3, c.3);
    text::lemma_text_order(c.0, b.0, c.0);
    text::lemma_text_order(c.1, b.1, c.1);
    text::lemma_text_order(c.2, b.2, c.2);
    text::lemma_text_order(c.3, b.3, c.3);
}

proof fn lemma_edge_order()
    ensures
        order::is_order(edge_order()),
{
    let lt = edge_order();
    assert forall|a: EdgeV, b: EdgeV| #[trigger] lt(a, b) implies !lt(b, a) by {
        lemma_edge_total(a, b, a);
    }
    assert forall|a: EdgeV, b: EdgeV, c: EdgeV|
        !(#[trigger] lt(a, b)) && !(#[trigger] lt(b, c)) implies !lt(a, c) by {
        lemma_edge_total(a, b, c);
        lemma_edge_total(b, c, a);
        lemma_edge_total(c, b, a);
        lemma_edge_total(a, c, b);
    }
}

/// The edges of a graph, in order and each of them once.
pub open spec fn all_edges(g: GraphV) -> Seq<EdgeV> {
    order::no_repeats(
        order::stable_sort(
            g.calls.map_values(|c: CallV| edge_of(g.index.defs, c)),
            edge_order(),
        ),
    )
}

/// The edges of a graph are in ascending order, so that none is there twice, and they are
/// those of its calls.
pub proof fn law_edges_in_order(g: GraphV)
    ensures
        forall|i: int, j: int|
            0 <= i < j < all_edges(g).len() ==> edge_lt(
                #[trigger] all_edges(g)[i],
                #[trigger] all_edges(g)[j],
            ),
        forall|e: EdgeV| #[trigger]
            all_edges(g).contains(e) <==> exists|i: int|
                0 <= i < g.calls.len() && edge_of(g.index.defs, #[trigger] g.calls[i]) == e,
{
    let plain = g.calls.map_values(|c: CallV| edge_of(g.index.defs, c));
    let lt = edge_order();
    lemma_edge_order();
    assert(order::is_total(lt)) by {
        assert forall|a: EdgeV, b: EdgeV| a != b && !(#[trigger] lt(a, b)) implies lt(b, a) by {
            lemma_edge_total(a, b, a);
        }
    }
    order::law_sort_distinct(plain, lt);
    let all = all_edges(g);
    assert forall|i: int, j: int| 0 <= i < j < all.len() implies edge_lt(
        #[trigger] all[i],
        #[trigger] all[j],
    ) by {
        assert(lt(all[i], all[j]));
    }
    assert forall|e: EdgeV| #[trigger] all.contains(e) <==> exists|i: int|
        0 <= i < g.calls.len() && edge_of(g.index.defs, #[trigger] g.calls[i]) == e by {
        assert(all.contains(e) <==> plain.contains(e));
        if plain.contains(e) {
            let i = plain.index_of(e);
            assert(edge_of(g.index.defs, g.calls[i]) == e);
        }
        if exists|i: int|
            0 <= i < g.calls.len() && edge_of(g.index.defs, #[trigger] g.calls[i]) == e {
            let i = choose|i: int|
                0 <= i < g.calls.len() && edge_of(g.index.defs, #[trigger] g.calls[i]) == e;
            assert(plain[i] == e);
        }
    }
}

fn label_of(d: &Def) -> (r: String)
    ensures
        r@ == label(d@),
{
    let mut out: String = d.name.clone();
    out.append("\\n");
    out.append(place_of(&d.id).as_str());
    out
}

fn show_edge(g: &CallGraph, c: &ResolvedCall) -> (r: (String, String, String, String, bool))
    requires
        c.caller < g@.index.defs.len(),
        c.target matches Some(t) ==> t.0 < g@.index.defs.len(),
    ensures
        (r.0@, r.1@, r.2@, r.3@, r.4) == edge_of(g@.index.defs, c@),
{
    let from: &Def = &g.index.defs[c.caller];
    assert(g@.index.defs[c.caller as int] == from@);
    match &c.target {
        Some((t, conf)) => {
            let to: &Def = &g.index.defs[*t];
            assert(g@.index.defs[*t as int] == to@);
            let guess: bool = match conf {
                Confidence::Guess => true,
                Confidence::Exact => false,
            };
            (place_of(&from.id), place_of(&to.id), label_of(from), label_of(to), guess)
        },
        None => (
            place_of(&from.id),
            c.callee_display.clone(),
            label_of(from),
            c.callee_display.clone(),
            false,
        ),
    }
}

fn edge_before(
    a: &(String, String, String, String, bool),
    b: &(String, String, String, String, bool),
) -> (r: bool)
    ensures
        r == edge_lt((a.0@, a.1@, a.2@, a.3@, a.4), (b.0@, b.1@, b.2@, b.3@, b.4)),
{
    if !str_eq(a.0.as_str(), b.0.as_str()) {
        str_lt(a.0.as_str(), b.0.as_str())
    } else if !str_eq(a.1.as_str(), b.1.as_str()) {
        str_lt(a.1.as_str(), b.1.as_str())
    } else if !str_eq(a.2.as_str(), b.2.as_str()) {
        str_lt(a.2.as_str(), b.2.as_str())
    } else if !str_eq(a.3.as_str(), b.3.as_str()) {
        str_lt(a.3.as_str(), b.3.as_str())
    } else {
        !a.4 && b.4
    }
}

fn same_edge(
    a: &(String, String, String, String, bool),
    b: &(String, String, String, String, bool),
) -> (r: bool)
    ensures
        r == ((a.0@, a.1@, a.2@, a.3@, a.4) == (b.0@, b.1@, b.2@, b.3@, b.4)),
{
    str_eq(a.0.as_str(), b.0.as_str()) && str_eq(a.1.as_str(), b.1.as_str()) && str_eq(
        a.2.as_str(),
        b.2.as_str(),
    ) && str_eq(a.3.as_str(), b.3.as_str()) && a.4 == b.4
}

/// The edges of a graph: the ids of the caller and the callee, their labels, and whether
/// it is a guess. Ids use "filename:line" for resolved definitions, bare name for
/// externals.
pub fn collect_edges(g: &CallGraph) -> (r: Vec<(String, String, String, String, bool)>)
    requires
        g.wf(),
    ensures
        edges_view(r@) == all_edges(g@),
{
    let ghost plain = g@.calls.map_values(|c: CallV| edge_of(g@.index.defs, c));
    let mut all: Vec<(String, String, String, String, bool)> = Vec::new();
    let mut i: usize = 0;
    assert(edges_view(all@) =~= plain.take(0));
    while i < g.calls.len()
        invariant
            i <= g.calls@.len(),
            g.wf(),
            plain == g@.calls.map_values(|c: CallV| edge_of(g@.index.defs, c)),
            edges_view(all@) == plain.take(i as int),
        decreases g.calls@.len() - i,
    {
        assert(g@.calls[i as int] == g.calls@[i as int]@);
        let ghost now = edges_view(all@);
        all.push(show_edge(g, &g.calls[i]));
        assert(edges_view(all@) =~= now.push(plain[i as int]));
        i += 1;
        assert(edges_view(all@) =~= plain.take(i as int));
    }
    assert(plain.take(i as int) =~= plain);
    let ghost f = |k: usize| plain[k as int];
    let ghost lt = |a: usize, b: usize| edge_order()(f(a), f(b));
    proof {
        lemma_edge_order();
    }
    let all_ref: &Vec<(String, String, String, String, bool)> = &all;
    let less = |a: usize, b: usize| -> (r: bool)
        requires
            a < all_ref@.len(),
            b < all_ref@.len(),
        ensures
            r == edge_lt(edges_view(all_ref@)[a as int], edges_view(all_ref@)[b as int]),
        { edge_before(&all_ref[a], &all_ref[b]) };
    let at: Vec<usize> = count_to(all.len());
    let sorted: Vec<usize> = sort_positions(&at, less, Ghost(lt));
    let ghost want = order::stable_sort(plain, edge_order());
    proof {
        order::lemma_sort_bound(at@, lt, all@.len());
        order::lemma_sort_map(at@, f, edge_order());
        assert(at@.map_values(f) =~= plain);
        assert(sorted@.map_values(f) == want);
    }
    let mut out: Vec<(String, String, String, String, bool)> = Vec::new();
    let mut k: usize = 0;
    assert(edges_view(out@) =~= order::no_repeats(want.take(0)));
    while k < sorted.len()
        invariant
            k <= sorted@.len(),
            plain == edges_view(all@),
            f == (|k: usize| plain[k as int]),
            want == sorted@.map_values(f),
            forall|m: int| 0 <= m < sorted@.len() ==> (#[trigger] sorted@[m]) < all@.len(),
            edges_view(out@) == order::no_repeats(want.take(k as int)),
        decreases sorted@.len() - k,
    {
        let ghost now = edges_view(out@);
        assert(want.take(k + 1).drop_last() =~= want.take(k as int));
        assert(want.take(k + 1).last() == plain[sorted@[k as int] as int]);
        assert(sorted@[k as int] < all@.len());
        let e: &(String, String, String, String, bool) = &all[sorted[k]];
        let mut repeats: bool = false;
        if k > 0 {
            assert(sorted@[k - 1] < all@.len());
            assert(want.take(k + 1)[k - 1] == plain[sorted@[k - 1] as int]);
            repeats = same_edge(e, &all[sorted[k - 1]]);
        }
        if !repeats {
            out.push((e.0.clone(), e.1.clone(), e.2.clone(), e.3.clone(), e.4));
            assert(edges_view(out@) =~= now.push(plain[sorted@[k as int] as int]));
        }
        if k == 0 {
            assert(edges_view(out@) =~= want.take(1));
        }
        k += 1;
    }
    assert(want.take(k as int) =~= want);
    out
}

/// Whether a node is in a list of ids and labels.
pub open spec fn has_id(nodes: Seq<(Seq<char>, Seq<char>)>, id: Seq<char>) -> bool {
    exists|i: int| 0 <= i < nodes.len() && (#[trigger] nodes[i]).0 == id
}

/// The nodes with one more, unless its id is there.
pub open spec fn with_node(
    nodes: Seq<(Seq<char>, Seq<char>)>,
    id: Seq<char>,
    label: Seq<char>,
) -> Seq<(Seq<char>, Seq<char>)> {
    if has_id(nodes, id) {
        nodes
    } else {
        nodes.push((id, label))
    }
}

/// The ends of a list of edges, each with the first label that it has.
pub open spec fn ends_of(edges: Seq<EdgeV>) -> Seq<(Seq<char>, Seq<char>)>
    decreases edges.len(),
{
    if edges.len() == 0 {
        Seq::empty()
    } else {
        let e = edges.last();
        with_node(with_node(ends_of(edges.drop_last()), e.0, e.2), e.1, e.3)
    }
}

/// A graph in the DOT format declares both ends of each edge, and no node twice.
pub proof fn law_nodes_are_declared_once(edges: Seq<EdgeV>)
    ensures
        forall|i: int|
            0 <= i < edges.len() ==> has_id(ends_of(edges), (#[trigger] edges[i]).0) && has_id(
                ends_of(edges),
                edges[i].1,
            ),
        forall|i: int, j: int|
            0 <= i < j < ends_of(edges).len() ==> (#[trigger] ends_of(edges)[i]).0 != (
            #[trigger] ends_of(edges)[j]).0,
    decreases edges.len(),
{
    if edges.len() > 0 {
        let init = ends_of(edges.drop_last());
        let e = edges.last();
        let mid = with_node(init, e.0, e.2);
        let all = ends_of(edges);
        law_nodes_are_declared_once(edges.drop_last());
        lemma_with_node(init, e.0, e.2);
        lemma_with_node(mid, e.1, e.3);
        assert forall|i: int| 0 <= i < edges.len() implies has_id(all, (#[trigger] edges[i]).0)
            && has_id(all, edges[i].1) by {
            if i < edges.len() - 1 {
                assert(edges.drop_last()[i] == edges[i]);
            }
        }
    }
}

proof fn lemma_with_node(nodes: Seq<(Seq<char>, Seq<char>)>, id: Seq<char>, label: Seq<char>)
    ensures
        forall|s: Seq<char>|
            #![trigger has_id(nodes, s)]
            #![trigger has_id(with_node(nodes, id, label), s)]
            has_id(nodes, s) || s == id <==> has_id(with_node(nodes, id, label), s),
        (forall|i: int, j: int|
            0 <= i < j < nodes.len() ==> (#[trigger] nodes[i]).0 != (#[trigger] nodes[j]).0) ==> (
        forall|i: int, j: int|
            0 <= i < j < with_node(nodes, id, label).len() ==> (#[trigger] with_node(
                nodes,
                id,
                label,
            )[i]).0 != (#[trigger] with_node(nodes, id, label)[j]).0),
{
    let r = with_node(nodes, id, label);
    assert forall|s: Seq<char>|
        #![trigger has_id(nodes, s)]
        #![trigger has_id(r, s)]
        has_id(nodes, s) || s == id <==> has_id(r, s) by {
        if has_id(nodes, s) {
            let i = choose|i: int| 0 <= i < nodes.len() && (#[trigger] nodes[i]).0 == s;
            assert(r[i].0 == s);
        }
        if s == id && !has_id(nodes, id) {
            assert(r[nodes.len() as int].0 == s);
        }
        if has_id(r, s) && s != id {
            let i = choose|i: int| 0 <= i < r.len() && (#[trigger] r[i]).0 == s;
            assert(nodes[i].0 == s);
        }
    }
}

/// The order of nodes by id.
pub open spec fn id_order() -> spec_fn((Seq<char>, Seq<char>), (Seq<char>, Seq<char>)) -> bool {
    |a: (Seq<char>, Seq<char>), b: (Seq<char>, Seq<char>)| text::text_lt(a.0, b.0)
}

/// The line for an edge in the plain format.
pub open spec fn plain_line(e: EdgeV) -> Seq<char> {
    e.0 + " -> "@ + e.1 + mark_spec(e.4)
}

/// The line for a node in the DOT format.
pub open spec fn dot_node(n: (Seq<char>, Seq<char>)) -> Seq<char> {
    "    "@ + text::debug_text(n.0) + " [label="@ + text::debug_text(n.1) + "];"@
}

/// The line for an edge in the DOT format; a guess is dashed.
pub open spec fn dot_edge(e: EdgeV) -> Seq<char> {
    let line = "    "@ + text::debug_text(e.0) + " -> "@ + text::debug_text(e.1);
    if e.4 {
        line + " [style=dashed];"@
    } else {
        line + ";"@
    }
}

/// The graph in a format: "edges", or else DOT.
pub open spec fn graph_lines(edges: Seq<EdgeV>, format: Seq<char>) -> Seq<Seq<char>> {
    if format == "edges"@ {
        edges.map_values(|e: EdgeV| plain_line(e))
    } else {
        seq!["digraph callgraph {"@] + order::stable_sort(ends_of(edges), id_order()).map_values(
            |n: (Seq<char>, Seq<char>)| dot_node(n),
        ) + seq![""@] + edges.map_values(|e: EdgeV| dot_edge(e)) + seq!["}"@]
    }
}

/// Appends a node, unless its id is there.
fn push_node(
    nodes: &mut Vec<(String, String)>,
    seen: &mut StringHashMap<bool>,
    id: &str,
    label: &str,
)
    requires
        forall|s: Seq<char>| #[trigger]
            old(seen)@.contains_key(s) == has_id(resolve::pairs_view(old(nodes)@), s),
    ensures
        resolve::pairs_view(final(nodes)@) == with_node(
            resolve::pairs_view(old(nodes)@),
            id@,
            label@,
        ),
        forall|s: Seq<char>| #[trigger]
            final(seen)@.contains_key(s) == has_id(resolve::pairs_view(final(nodes)@), s),
{
    let ghost before = resolve::pairs_view(nodes@);
    let ghost keys = seen@;
    assert(keys.contains_key(id@) == has_id(before, id@));
    if seen.get(id).is_some() {
        return;
    }
    nodes.push((id.to_string(), label.to_string()));
    seen.insert(id.to_string(), true);
    proof {
        let now = resolve::pairs_view(nodes@);
        assert(now =~= before.push((id@, label@)));
        assert forall|s: Seq<char>| #[trigger] seen@.contains_key(s) == has_id(now, s) by {
            assert(keys.contains_key(s) == has_id(before, s));
            if has_id(before, s) {
                let i = choose|i: int| 0 <= i < before.len() && (#[trigger] before[i]).0 == s;
                assert(now[i].0 == s);
            }
            if s == id@ {
                assert(now[before.len() as int].0 == s);
            }
            if has_id(now, s) && s != id@ {
                let i = choose|i: int| 0 <= i < now.len() && (#[trigger] now[i]).0 == s;
                assert(before[i].0 == s);
            }
        }
    }
}

/// The ends of a list of edges, each with the first label that it has.
fn find_ends(edges: &Vec<(String, String, String, String, bool)>) -> (r: Vec<(String, String)>)
    ensures
        resolve::pairs_view(r@) == ends_of(edges_view(edges@)),
{
    let ghost all = edges_view(edges@);
    let mut nodes: Vec<(String, String)> = Vec::new();
    let mut seen: StringHashMap<bool> = StringHashMap::new();
    let mut i: usize = 0;
    assert(resolve::pairs_view(nodes@) =~= ends_of(all.take(0)));
    while i < edges.len()
        invariant
            i <= edges@.len(),
            all == edges_view(edges@),
            forall|s: Seq<char>| #[trigger]
                seen@.contains_key(s) == has_id(resolve::pairs_view(nodes@), s),
            resolve::pairs_view(nodes@) == ends_of(all.take(i as int)),
        decreases edges@.len() - i,
    {
        let e: &(String, String, String, String, bool) = &edges[i];
        assert(all.take(i + 1).drop_last() =~= all.take(i as int));
        assert(all.take(i + 1).last() == (e.0@, e.1@, e.2@, e.3@, e.4));
        push_node(&mut nodes, &mut seen, e.0.as_str(), e.2.as_str());
        push_node(&mut nodes, &mut seen, e.1.as_str(), e.3.as_str());
        i += 1;
    }
    assert(all.take(i as int) =~= all);
    nodes
}

fn show_dot_node(id: &str, label: &str) -> (r: String)
    ensures
        r@ == dot_node((id@, label@)),
{
    let mut line: String = "    ".to_string();
    line.append(debug_string(id).as_str());
    line.append(" [label=");
    line.append(debug_string(label).as_str());
    line.append("];");
    line
}

fn show_dot_edge(e: &(String, String, String, String, bool)) -> (r: String)
    ensures
        r@ == dot_edge((e.0@, e.1@, e.2@, e.3@, e.4)),
{
    let mut line: String = "    ".to_string();
    line.append(debug_string(e.0.as_str()).as_str());
    line.append(" -> ");
    line.append(debug_string(e.1.as_str()).as_str());
    if e.4 {
        line.append(" [style=dashed];");
    } else {
        line.append(";");
    }
    line
}

fn show_plain_edge(e: &(String, String, String, String, bool)) -> (r: String)
    ensures
        r@ == plain_line((e.0@, e.1@, e.2@, e.3@, e.4)),
{
    let mut line: String = e.0.clone();
    line.append(" -> ");
    line.append(e.1.as_str());
    let mark: &str = if e.4 {
        " ?"
    } else {
        ""
    };
    line.append(mark);
    line
}

/// Appends a line for each edge.
fn push_edge_lines(
    edges: &Vec<(String, String, String, String, bool)>,
    dot: bool,
    out: &mut Vec<String>,
)
    ensures
        text::views(final(out)@) == text::views(old(out)@) + if dot {
            edges_view(edges@).map_values(|e: EdgeV| dot_edge(e))
        } else {
            edges_view(edges@).map_values(|e: EdgeV| plain_line(e))
        },
{
    let ghost before = text::views(out@);
    let ghost lines = if dot {
        edges_view(edges@).map_values(|e: EdgeV| dot_edge(e))
    } else {
        edges_view(edges@).map_values(|e: EdgeV| plain_line(e))
    };
    let mut i: usize = 0;
    assert(text::views(out@) =~= before + lines.take(0));
    while i < edges.len()
        invariant
            i <= edges@.len(),
            lines == if dot {
                edges_view(edges@).map_values(|e: EdgeV| dot_edge(e))
            } else {
                edges_view(edges@).map_values(|e: EdgeV| plain_line(e))
            },
            text::views(out@) == before + lines.take(i as int),
        decreases edges@.len() - i,
    {
        let line: String = if dot {
            show_dot_edge(&edges[i])
        } else {
            show_plain_edge(&edges[i])
        };
        push_string(out, line);
        i += 1;
        assert(text::views(out@) =~= before + lines.take(i as int));
    }
    assert(lines.take(i as int) =~= lines);
}

/// Appends a line for each node, in the order of the ids.
fn push_node_lines(nodes: &Vec<(String, String)>, out: &mut Vec<String>)
    ensures
        text::views(final(out)@) == text::views(old(out)@) + order::stable_sort(
            resolve::pairs_view(nodes@),
            id_order(),
        ).map_values(|n: (Seq<char>, Seq<char>)| dot_node(n)),
{
    let ghost before = text::views(out@);
    let ghost plain = resolve::pairs_view(nodes@);
    let ghost f = |k: usize| plain[k as int];
    let ghost lt = |a: usize, b: usize| id_order()(f(a), f(b));
    proof {
        order::lemma_text_order();
        assert forall|a: usize, b: usize| #[trigger] lt(a, b) implies !lt(b, a) by {
            assert(order::text_order()(f(a).0, f(b).0));
        }
        assert forall|a: usize, b: usize, c: usize|
            !(#[trigger] lt(a, b)) && !(#[trigger] lt(b, c)) implies !lt(a, c) by {
            assert(!order::text_order()(f(a).0, f(b).0));
            assert(!order::text_order()(f(b).0, f(c).0));
        }
    }
    let less = |a: usize, b: usize| -> (r: bool)
        requires
            a < nodes@.len(),
            b < nodes@.len(),
        ensures
            r == text::text_lt(
                resolve::pairs_view(nodes@)[a as int].0,
                resolve::pairs_view(nodes@)[b as int].0,
            ),
        { str_lt(nodes[a].0.as_str(), nodes[b].0.as_str()) };
    let at: Vec<usize> = count_to(nodes.len());
    let sorted: Vec<usize> = sort_positions(&at, less, Ghost(lt));
    let ghost want = order::stable_sort(plain, id_order());
    let ghost lines = want.map_values(|n: (Seq<char>, Seq<char>)| dot_node(n));
    proof {
        order::lemma_sort_bound(at@, lt, nodes@.len());
        order::lemma_sort_map(at@, f, id_order());
        assert(at@.map_values(f) =~= plain);
    }
    let mut i: usize = 0;
    assert(text::views(out@) =~= before + lines.take(0));
    while i < sorted.len()
        invariant
            i <= sorted@.len(),
            plain == resolve::pairs_view(nodes@),
            f == (|k: usize| plain[k as int]),
            want == sorted@.map_values(f),
            lines == want.map_values(|n: (Seq<char>, Seq<char>)| dot_node(n)),
            forall|m: int| 0 <= m < sorted@.len() ==> (#[trigger] sorted@[m]) < nodes@.len(),
            text::views(out@) == before + lines.take(i as int),
        decreases sorted@.len() - i,
    {
        assert(sorted@[i as int] < nodes@.len());
        let n: &(String, String) = &nodes[sorted[i]];
        assert(want[i as int] == (n.0@, n.1@));
        push_string(out, show_dot_node(n.0.as_str(), n.1.as_str()));
        i += 1;
        assert(text::views(out@) =~= before + lines.take(i as int));
    }
    assert(lines.take(i as int) =~= lines);
}

/// The lines for a list of edges in a format.
pub fn show_graph(edges: &Vec<(String, String, String, String, bool)>, format: &str) -> (r: Vec<
    String,
>)
    ensures
        text::views(r@) == graph_lines(edges_view(edges@), format@),
{
    let mut out: Vec<String> = Vec::new();
    assert(text::views(out@) =~= Seq::empty());
    if str_eq(format, "edges") {
        push_edge_lines(edges, false, &mut out);
        assert(text::views(out@) =~= graph_lines(edges_view(edges@), format@));
        return out;
    }
    let nodes: Vec<(String, String)> = find_ends(edges);
    push_string(&mut out, "digraph callgraph {".to_string());
    assert(text::views(out@) =~= seq!["digraph callgraph {"@]);
    push_node_lines(&nodes, &mut out);
    let ghost head = text::views(out@);
    push_string(&mut out, "".to_string());
    assert(text::views(out@) =~= head + seq![""@]);
    push_edge_lines(edges, true, &mut out);
    let ghost most = text::views(out@);
    push_string(&mut out, "}".to_string());
    assert(text::views(out@) =~= most + seq!["}"@]);
    out
}

// ── Public entry points ───────────────────────────────────────────────────────

/// What a function calls, line by line.
pub fn callees(function: &str, files: &Vec<SourceFile>, max_depth: usize) -> (r: Vec<String>)
    ensures
        text::views(r@) == callees_lines(
            graph::graph_of(text::views(files@)),
            function@,
            max_depth as nat,
        ),
{
    let g: CallGraph = build(files);
    callees_in(&g, function, max_depth)
}

/// What calls a function, line by line.
pub fn callers(function: &str, files: &Vec<SourceFile>, max_depth: usize) -> (r: Vec<String>)
    ensures
        text::views(r@) == callers_lines(
            graph::graph_of(text::views(files@)),
            function@,
            max_depth as nat,
        ),
{
    let g: CallGraph = build(files);
    callers_in(&g, function, max_depth)
}

/// The call graph of the files, line by line.
pub fn callgraph(files: &Vec<SourceFile>, format: &str) -> (r: Vec<String>)
    ensures
        text::views(r@) == graph_lines(
            all_edges(graph::graph_of(text::views(files@))),
            format@,
        ),
{
    let g: CallGraph = build(files);
    let edges: Vec<(String, String, String, String, bool)> = collect_edges(&g);
    show_graph(&edges, format)
}

} // verus!
