//! What call trees and call graphs show, said of chains of calls.

use vstd::prelude::*;
use crate::calltree;
use crate::calltree::EdgeV;
use crate::order;
use crate::path;
use crate::resolve;
use crate::resolve::graph;
use crate::resolve::graph::{GraphV, KeyV};
use crate::resolve::{CallV, Confidence, DefIdV, DefV};
use crate::text;
use crate::tree;
use crate::walk;

verus! {

broadcast use vstd::string::group_string_axioms;

/// A line of a call tree, and how many others it stands below.
#[verifier::ext_equal]
pub struct Shown {
    pub text: Seq<char>,
    pub depth: nat,
}

/// What is known on the way from the root of a call tree: the definitions on the way, how many
/// levels are left, and how many there are already.
#[verifier::ext_equal]
pub struct Way {
    pub path: Seq<KeyV>,
    pub left: nat,
    pub depth: nat,
}

/// The way further on, over a definition.
pub open spec fn onward(w: Way, key: KeyV) -> Way {
    Way { path: w.path.push(key), left: (w.left - 1) as nat, depth: w.depth + 1 }
}

/// The calls at a node, as an adjacency lists them.
pub open spec fn calls_at(g: GraphV, edges: Map<KeyV, Seq<usize>>, key: KeyV) -> Seq<CallV> {
    if edges.contains_key(key) {
        edges[key].map_values(|i: usize| g.calls[i as int])
    } else {
        Seq::empty()
    }
}

/// How a place is written: the name of the file, without its directory, and the line.
pub open spec fn place(id: DefIdV) -> Seq<char> {
    let name = match path::file_name_spec(id.file) {
        Some(n) => n,
        None => id.file,
    };
    name + ":"@ + text::decimal_digits(id.line as nat)
}

/// How a definition is written: its name, its place, that it is a guess, and that it is on the
/// way already.
pub open spec fn written(name: Seq<char>, id: DefIdV, guess: bool, cycle: bool) -> Seq<char> {
    let line = name + "()  ["@ + place(id) + "]"@ + (if guess {
        " ?"@
    } else {
        ""@
    });
    if cycle {
        line + " (cycle)"@
    } else {
        line
    }
}

/// The node that a call leads to.
pub open spec fn target(g: GraphV, c: CallV) -> Option<KeyV> {
    match c.target {
        Some((t, _)) => Some(KeyV::Def(g.index.defs[t as int].id)),
        None => None,
    }
}

/// From a call to the calls of what it calls, as long as levels are left, and not back to what
/// is on the way already.
pub open spec fn down_steps(g: GraphV) -> spec_fn(CallV, Way) -> (Seq<CallV>, Way) {
    |c: CallV, w: Way|
        match target(g, c) {
            Some(key) => if w.left > 1 && !w.path.contains(key) {
                (calls_at(g, g.fwd, key), onward(w, key))
            } else {
                (Seq::empty(), onward(w, key))
            },
            None => (Seq::empty(), w),
        }
}

/// How a call is shown below its caller: what is called, with its place where it is known.
pub open spec fn down_shown(g: GraphV) -> spec_fn(CallV, Way) -> Option<Shown> {
    |c: CallV, w: Way|
        Some(
            Shown {
                text: match c.target {
                    Some((t, conf)) => {
                        let id = g.index.defs[t as int].id;
                        written(
                            c.callee_display,
                            id,
                            conf == Confidence::Guess,
                            w.path.contains(KeyV::Def(id)),
                        )
                    },
                    None => c.callee_display + "()"@,
                },
                depth: w.depth,
            },
        )
}

/// From a call to the calls of its caller.
pub open spec fn up_steps(g: GraphV) -> spec_fn(CallV, Way) -> (Seq<CallV>, Way) {
    |c: CallV, w: Way|
        {
            let key = KeyV::Def(g.index.defs[c.caller as int].id);
            if w.left > 1 && !w.path.contains(key) {
                (calls_at(g, g.rev, key), onward(w, key))
            } else {
                (Seq::empty(), onward(w, key))
            }
        }
}

/// How a call is shown below what it calls: its caller, with its place.
pub open spec fn up_shown(g: GraphV) -> spec_fn(CallV, Way) -> Option<Shown> {
    |c: CallV, w: Way|
        {
            let d = g.index.defs[c.caller as int];
            let guess = match c.target {
                Some((_, conf)) => conf == Confidence::Guess,
                None => false,
            };
            Some(
                Shown {
                    text: written(d.name, d.id, guess, w.path.contains(KeyV::Def(d.id))),
                    depth: w.depth,
                },
            )
        }
}

/// Whether a line shows something behind what connects it with the others, which is as wide as it
/// is deep.
pub open spec fn is_line(line: Seq<char>, s: Shown, width: nat) -> bool {
    let n = width + 4 * s.depth + 4;
    line.len() >= n && line.skip(n as int) == s.text
}

/// Whether lines show things, one by one.
pub open spec fn are_lines(lines: Seq<Seq<char>>, shown: Seq<Shown>, width: nat) -> bool {
    &&& lines.len() == shown.len()
    &&& forall|k: int| 0 <= k < lines.len() ==> is_line(#[trigger] lines[k], shown[k], width)
}

proof fn lemma_lines_add(
    a: Seq<Seq<char>>,
    sa: Seq<Shown>,
    b: Seq<Seq<char>>,
    sb: Seq<Shown>,
    width: nat,
)
    requires
        are_lines(a, sa, width),
        are_lines(b, sb, width),
    ensures
        are_lines(a + b, sa + sb, width),
{
    assert forall|k: int| 0 <= k < (a + b).len() implies is_line(
        #[trigger] (a + b)[k],
        (sa + sb)[k],
        width,
    ) by {
        if k < a.len() {
            assert(is_line(a[k], sa[k], width));
        } else {
            assert(is_line(b[k - a.len()], sb[k - a.len()], width));
        }
    }
}

proof fn lemma_one_line(prefix: Seq<char>, last: bool, s: Shown, width: nat)
    requires
        prefix.len() == width + 4 * s.depth,
    ensures
        are_lines(seq![prefix + tree::connector_spec(last) + s.text], seq![s], width),
{
    reveal_strlit("└── ");
    reveal_strlit("├── ");
    let head = prefix + tree::connector_spec(last);
    let line = head + s.text;
    assert(line.skip(head.len() as int) =~= s.text);
}

proof fn lemma_indent(last: bool)
    ensures
        tree::indent_spec(last).len() == 4,
{
    reveal_strlit("    ");
    reveal_strlit("│   ");
}

proof fn lemma_node_line(
    prefix: Seq<char>,
    last: bool,
    name: Seq<char>,
    id: DefIdV,
    guess: bool,
    cycle: bool,
)
    ensures
        calltree::node_line(prefix, last, name, id, guess, cycle) == prefix + tree::connector_spec(
            last,
        ) + written(name, id, guess, cycle),
{
    assert(calltree::place(id) == place(id));
    assert(calltree::node_line(prefix, last, name, id, guess, cycle) =~= prefix
        + tree::connector_spec(last) + written(name, id, guess, cycle));
}

/// What is found when lines are made of a list of calls, as far as it is read.
struct Part {
    lines: Seq<Seq<char>>,
    shown: Seq<Shown>,
}

proof fn lemma_down(g: GraphV, key: KeyV, prefix: Seq<char>, w: Way, width: nat) -> (shown: Seq<
    Shown,
>)
    requires
        prefix.len() == width + 4 * w.depth,
        w.left > 0,
    ensures
        walk::gathered(shown, calls_at(g, g.fwd, key), w, down_steps(g), down_shown(g)),
        are_lines(calltree::down_lines(g, key, w.left, prefix, w.path), shown, width),
    decreases w.left, 1int, 0int,
{
    if g.fwd.contains_key(key) {
        let edges = g.fwd[key];
        let p = lemma_down_from(g, edges, edges.len(), prefix, w, width);
        let calls = calls_at(g, g.fwd, key);
        assert(calls.take(edges.len() as int) =~= calls);
        let all = calltree::down_from(g, edges, 0, w.left, prefix, w.path);
        assert(all =~= p.lines);
        p.shown
    } else {
        walk::lemma_gathered_none(w, down_steps(g), down_shown(g));
        Seq::empty()
    }
}

proof fn lemma_down_from(
    g: GraphV,
    edges: Seq<usize>,
    i: nat,
    prefix: Seq<char>,
    w: Way,
    width: nat,
) -> (p: Part)
    requires
        prefix.len() == width + 4 * w.depth,
        w.left > 0,
        i <= edges.len(),
    ensures
        walk::gathered(
            p.shown,
            edges.map_values(|k: usize| g.calls[k as int]).take(i as int),
            w,
            down_steps(g),
            down_shown(g),
        ),
        are_lines(p.lines, p.shown, width),
        calltree::down_from(g, edges, 0, w.left, prefix, w.path) == p.lines + calltree::down_from(
            g,
            edges,
            i,
            w.left,
            prefix,
            w.path,
        ),
    decreases w.left, 0int, i,
{
    let calls = edges.map_values(|k: usize| g.calls[k as int]);
    if i == 0 {
        walk::lemma_gathered_none(w, down_steps(g), down_shown(g));
        assert(calls.take(0) =~= Seq::empty());
        let p = Part { lines: Seq::empty(), shown: Seq::empty() };
        let all = calltree::down_from(g, edges, 0, w.left, prefix, w.path);
        assert(p.lines + all =~= all);
        p
    } else {
        let j = (i - 1) as nat;
        let a = lemma_down_from(g, edges, j, prefix, w, width);
        let c = calls[j as int];
        let last = j == edges.len() - 1;
        let s = down_shown(g)(c, w)->Some_0;
        let (inner, then) = down_steps(g)(c, w);
        lemma_one_line(prefix, last, s, width);
        lemma_indent(last);
        walk::lemma_gathered_none(then, down_steps(g), down_shown(g));
        let line = prefix + tree::connector_spec(last) + s.text;
        let none = Seq::<Shown>::empty();
        let b: Part = match c.target {
            Some((t, conf)) => {
                let id = g.index.defs[t as int].id;
                let key = KeyV::Def(id);
                let cycle = w.path.contains(key);
                lemma_node_line(prefix, last, c.callee_display, id, calltree::is_guess(c), cycle);
                let deeper = prefix + tree::indent_spec(last);
                if cycle {
                    Part { lines: Seq::empty(), shown: none }
                } else if w.left > 1 {
                    let lower = lemma_down(g, key, deeper, onward(w, key), width);
                    Part {
                        lines: calltree::down_lines(
                            g,
                            key,
                            (w.left - 1) as nat,
                            deeper,
                            w.path.push(key),
                        ),
                        shown: lower,
                    }
                } else {
                    Part { lines: Seq::empty(), shown: none }
                }
            },
            None => {
                assert(line =~= prefix + tree::connector_spec(last) + c.callee_display + "()"@);
                Part { lines: Seq::empty(), shown: none }
            },
        };
        let own = seq![line] + b.lines;
        let rest = calltree::down_from(g, edges, i, w.left, prefix, w.path);
        assert(calltree::down_from(g, edges, j, w.left, prefix, w.path) =~= own + rest);
        lemma_lines_add(seq![line], seq![s], b.lines, b.shown, width);
        lemma_lines_add(a.lines, a.shown, own, seq![s] + b.shown, width);
        walk::lemma_gathered_push(
            calls.take(j as int),
            c,
            w,
            down_steps(g),
            down_shown(g),
            a.shown,
            b.shown,
        );
        assert(calls.take(j as int).push(c) =~= calls.take(i as int));
        let r = Part { lines: a.lines + own, shown: a.shown + (seq![s] + b.shown) };
        assert(a.lines + (own + rest) =~= r.lines + rest);
        r
    }
}

proof fn lemma_up(g: GraphV, key: KeyV, prefix: Seq<char>, w: Way, width: nat) -> (shown: Seq<
    Shown,
>)
    requires
        prefix.len() == width + 4 * w.depth,
        w.left > 0,
    ensures
        walk::gathered(shown, calls_at(g, g.rev, key), w, up_steps(g), up_shown(g)),
        are_lines(calltree::up_lines(g, key, w.left, prefix, w.path), shown, width),
    decreases w.left, 1int, 0int,
{
    if g.rev.contains_key(key) {
        let edges = g.rev[key];
        let p = lemma_up_from(g, edges, edges.len(), prefix, w, width);
        let calls = calls_at(g, g.rev, key);
        assert(calls.take(edges.len() as int) =~= calls);
        let all = calltree::up_from(g, edges, 0, w.left, prefix, w.path);
        assert(all =~= p.lines);
        p.shown
    } else {
        walk::lemma_gathered_none(w, up_steps(g), up_shown(g));
        Seq::empty()
    }
}

proof fn lemma_up_from(
    g: GraphV,
    edges: Seq<usize>,
    i: nat,
    prefix: Seq<char>,
    w: Way,
    width: nat,
) -> (p: Part)
    requires
        prefix.len() == width + 4 * w.depth,
        w.left > 0,
        i <= edges.len(),
    ensures
        walk::gathered(
            p.shown,
            edges.map_values(|k: usize| g.calls[k as int]).take(i as int),
            w,
            up_steps(g),
            up_shown(g),
        ),
        are_lines(p.lines, p.shown, width),
        calltree::up_from(g, edges, 0, w.left, prefix, w.path) == p.lines + calltree::up_from(
            g,
            edges,
            i,
            w.left,
            prefix,
            w.path,
        ),
    decreases w.left, 0int, i,
{
    let calls = edges.map_values(|k: usize| g.calls[k as int]);
    if i == 0 {
        walk::lemma_gathered_none(w, up_steps(g), up_shown(g));
        assert(calls.take(0) =~= Seq::empty());
        let p = Part { lines: Seq::empty(), shown: Seq::empty() };
        let all = calltree::up_from(g, edges, 0, w.left, prefix, w.path);
        assert(p.lines + all =~= all);
        p
    } else {
        let j = (i - 1) as nat;
        let a = lemma_up_from(g, edges, j, prefix, w, width);
        let c = calls[j as int];
        let last = j == edges.len() - 1;
        let s = up_shown(g)(c, w)->Some_0;
        let (inner, then) = up_steps(g)(c, w);
        lemma_one_line(prefix, last, s, width);
        lemma_indent(last);
        walk::lemma_gathered_none(then, up_steps(g), up_shown(g));
        let line = prefix + tree::connector_spec(last) + s.text;
        let none = Seq::<Shown>::empty();
        let d = g.index.defs[c.caller as int];
        let key = KeyV::Def(d.id);
        let cycle = w.path.contains(key);
        lemma_node_line(prefix, last, d.name, d.id, calltree::is_guess(c), cycle);
        let deeper = prefix + tree::indent_spec(last);
        let b: Part = if !cycle && w.left > 1 {
            let lower = lemma_up(g, key, deeper, onward(w, key), width);
            Part {
                lines: calltree::up_lines(
                    g,
                    key,
                    (w.left - 1) as nat,
                    deeper,
                    w.path.push(key),
                ),
                shown: lower,
            }
        } else {
            Part { lines: Seq::empty(), shown: none }
        };
        let own = seq![line] + b.lines;
        let rest = calltree::up_from(g, edges, i, w.left, prefix, w.path);
        let node = calltree::node_line(prefix, last, d.name, d.id, calltree::is_guess(c), cycle);
        assert(node == line);
        assert(c == g.calls[edges[j as int] as int]);
        if !cycle && w.left == 1 {
            assert(calltree::up_lines(g, key, 0, deeper, w.path.push(key)) =~= Seq::empty());
        }
        assert(calltree::up_from(g, edges, j, w.left, prefix, w.path) =~= own + rest);
        lemma_lines_add(seq![line], seq![s], b.lines, b.shown, width);
        lemma_lines_add(a.lines, a.shown, own, seq![s] + b.shown, width);
        walk::lemma_gathered_push(
            calls.take(j as int),
            c,
            w,
            up_steps(g),
            up_shown(g),
            a.shown,
            b.shown,
        );
        assert(calls.take(j as int).push(c) =~= calls.take(i as int));
        let r = Part { lines: a.lines + own, shown: a.shown + (seq![s] + b.shown) };
        assert(a.lines + (own + rest) =~= r.lines + rest);
        r
    }
}

/// The root of a call tree.
pub open spec fn start(key: KeyV, levels: nat) -> Way {
    Way { path: seq![key], left: levels, depth: 0 }
}

/// The tree of what a function calls has a line for each chain of calls that starts at it, up to
/// a number of levels: in order, each once, as deep as the chain is long, and no others. A call
/// of what is on the way already is shown as a cycle, and not followed.
pub proof fn law_callees_are_chains(g: GraphV, key: KeyV, levels: nat) -> (shown: Seq<Shown>)
    requires
        levels > 0,
    ensures
        walk::gathered(
            shown,
            calls_at(g, g.fwd, key),
            start(key, levels),
            down_steps(g),
            down_shown(g),
        ),
        are_lines(calltree::down_lines(g, key, levels, ""@, seq![key]), shown, 0),
{
    reveal_strlit("");
    lemma_down(g, key, ""@, start(key, levels), 0)
}

/// The tree of what calls a function has a line for each chain of calls that ends at it, up to a
/// number of levels: in order, each once, as deep as the chain is long, and no others.
pub proof fn law_callers_are_chains(g: GraphV, key: KeyV, levels: nat) -> (shown: Seq<Shown>)
    requires
        levels > 0,
    ensures
        walk::gathered(
            shown,
            calls_at(g, g.rev, key),
            start(key, levels),
            up_steps(g),
            up_shown(g),
        ),
        are_lines(calltree::up_lines(g, key, levels, ""@, seq![key]), shown, 0),
{
    reveal_strlit("");
    lemma_up(g, key, ""@, start(key, levels), 0)
}

/// The block of a definition: a line for itself, with its place where there are several, and its
/// tree.
pub open spec fn block(
    g: GraphV,
    function: Seq<char>,
    t: usize,
    several: bool,
    levels: nat,
    up: bool,
) -> Seq<Seq<char>> {
    let id = g.index.defs[t as int].id;
    let key = KeyV::Def(id);
    seq![
        if several {
            function + "()  ["@ + place(id) + "]"@
        } else {
            function + "()"@
        },
    ] + (if up {
        calltree::up_lines(g, key, levels, ""@, seq![key])
    } else {
        calltree::down_lines(g, key, levels, ""@, seq![key])
    })
}

/// Blocks with an empty line between them.
pub open spec fn apart(blocks: Seq<Seq<Seq<char>>>) -> Seq<Seq<char>>
    decreases blocks.len(),
{
    if blocks.len() == 0 {
        Seq::empty()
    } else if blocks.len() == 1 {
        blocks[0]
    } else {
        apart(blocks.drop_last()) + seq![""@] + blocks.last()
    }
}

proof fn lemma_trees(
    g: GraphV,
    function: Seq<char>,
    roots: Seq<usize>,
    several: bool,
    levels: nat,
    up: bool,
)
    ensures
        calltree::trees(g, function, roots, several, levels, up) == apart(
            roots.map_values(|t: usize| block(g, function, t, several, levels, up)),
        ),
    decreases roots.len(),
{
    let blocks = roots.map_values(|t: usize| block(g, function, t, several, levels, up));
    if roots.len() > 0 {
        let init = roots.drop_last();
        lemma_trees(g, function, init, several, levels, up);
        let before = init.map_values(|t: usize| block(g, function, t, several, levels, up));
        assert(blocks.drop_last() =~= before);
        let id = g.index.defs[roots.last() as int].id;
        assert(calltree::place(id) == place(id));
        assert(blocks.last() == block(g, function, roots.last(), several, levels, up));
        if roots.len() == 1 {
            assert(init =~= Seq::empty());
            assert(blocks[0] == blocks.last());
        }
        assert(calltree::trees(g, function, roots, several, levels, up) =~= apart(blocks));
    }
}

/// What a function calls is shown in a block for each definition that has its name, in their
/// order, and for no other one. A name without a definition calls nothing.
pub proof fn law_callees_of_all_definitions(g: GraphV, function: Seq<char>, levels: nat) -> (roots:
    Seq<usize>)
    requires
        g.index.defs.len() <= usize::MAX,
    ensures
        forall|k: int, m: int| 0 <= k < m < roots.len() ==> #[trigger] roots[k] < #[trigger] roots[m],
        forall|t: usize| #[trigger]
            roots.contains(t) <==> t < g.index.defs.len() && g.index.defs[t as int].name
                == function,
        calltree::callees_lines(g, function, levels) == (if roots.len() == 0 {
            seq![function + "()"@]
        } else {
            apart(
                roots.map_values(
                    |t: usize| block(g, function, t, roots.len() > 1, levels, false),
                ),
            )
        }),
{
    let roots = resolve::positions(g.index.defs, function);
    lemma_roots(g.index.defs, function);
    lemma_trees(g, function, roots, roots.len() > 1, levels, false);
    roots
}

proof fn lemma_roots(defs: Seq<DefV>, function: Seq<char>)
    requires
        defs.len() <= usize::MAX,
    ensures
        ({
            let roots = resolve::positions(defs, function);
            &&& forall|k: int, m: int|
                0 <= k < m < roots.len() ==> #[trigger] roots[k] < #[trigger] roots[m]
            &&& forall|t: usize| #[trigger]
                roots.contains(t) <==> t < defs.len() && defs[t as int].name == function
        }),
{
    let roots = resolve::positions(defs, function);
    resolve::lemma_positions(defs, function);
    assert forall|t: usize| #[trigger] roots.contains(t) <==> t < defs.len() && defs[t as int].name
        == function by {
        if roots.contains(t) {
            assert(roots[roots.index_of(t)] == t);
        }
        if t < defs.len() && defs[t as int].name == function {
            assert(roots.contains(t));
        }
    }
}

/// What calls a function is shown in a block for each definition that has its name, in their
/// order. The callers of a name without a definition are those of that name.
pub proof fn law_callers_of_all_definitions(g: GraphV, function: Seq<char>, levels: nat) -> (roots:
    Seq<usize>)
    requires
        g.index.defs.len() <= usize::MAX,
    ensures
        forall|k: int, m: int| 0 <= k < m < roots.len() ==> #[trigger] roots[k] < #[trigger] roots[m],
        forall|t: usize| #[trigger]
            roots.contains(t) <==> t < g.index.defs.len() && g.index.defs[t as int].name
                == function,
        calltree::callers_lines(g, function, levels) == (if roots.len() == 0 {
            seq![function + "()"@] + calltree::up_lines(
                g,
                KeyV::External(function),
                levels,
                ""@,
                seq![KeyV::External(function)],
            )
        } else {
            apart(
                roots.map_values(
                    |t: usize| block(g, function, t, roots.len() > 1, levels, true),
                ),
            )
        }),
{
    let roots = resolve::positions(g.index.defs, function);
    lemma_roots(g.index.defs, function);
    lemma_trees(g, function, roots, roots.len() > 1, levels, true);
    roots
}

/// How a definition is labelled in a graph: its name, and below it its place.
pub open spec fn labelled(d: DefV) -> Seq<char> {
    d.name + "\\n"@ + place(d.id)
}

/// The edge of a call in a graph: from the place of the caller to the place of what is called, or
/// to its name where that is not known; with both labels, and whether it is a guess.
pub open spec fn edge(defs: Seq<DefV>, c: CallV) -> EdgeV {
    let from = defs[c.caller as int];
    match c.target {
        Some((t, conf)) => {
            let to = defs[t as int];
            (place(from.id), place(to.id), labelled(from), labelled(to), conf == Confidence::Guess)
        },
        None => (place(from.id), c.callee_display, labelled(from), c.callee_display, false),
    }
}

/// A graph has an edge for each call, and no others.
pub proof fn law_graph_has_an_edge_for_each_call(g: GraphV, e: EdgeV)
    ensures
        calltree::all_edges(g).contains(e) <==> exists|i: int|
            0 <= i < g.calls.len() && edge(g.index.defs, #[trigger] g.calls[i]) == e,
{
    calltree::law_edges_in_order(g);
    assert forall|i: int| 0 <= i < g.calls.len() implies calltree::edge_of(
        g.index.defs,
        #[trigger] g.calls[i],
    ) == edge(g.index.defs, g.calls[i]) by {
        let c = g.calls[i];
        let from = g.index.defs[c.caller as int];
        assert(calltree::place(from.id) == place(from.id));
        if let Some((t, _)) = c.target {
            assert(calltree::place(g.index.defs[t as int].id) == place(g.index.defs[t as int].id));
        }
    }
    if calltree::all_edges(g).contains(e) {
        let i = choose|i: int|
            0 <= i < g.calls.len() && calltree::edge_of(g.index.defs, #[trigger] g.calls[i]) == e;
        assert(edge(g.index.defs, g.calls[i]) == e);
    }
    if exists|i: int| 0 <= i < g.calls.len() && edge(g.index.defs, #[trigger] g.calls[i]) == e {
        let i = choose|i: int|
            0 <= i < g.calls.len() && edge(g.index.defs, #[trigger] g.calls[i]) == e;
        assert(calltree::edge_of(g.index.defs, g.calls[i]) == e);
    }
}

/// A graph as plain text has one line for each edge, in their order: the caller, an arrow, what
/// is called, and a mark for a guess.
pub proof fn law_plain_graph(edges: Seq<EdgeV>)
    ensures
        ({
            let lines = calltree::graph_lines(edges, "edges"@);
            &&& lines.len() == edges.len()
            &&& forall|k: int|
                0 <= k < edges.len() ==> #[trigger] lines[k] == edges[k].0 + " -> "@ + edges[k].1
                    + (if edges[k].4 {
                    " ?"@
                } else {
                    ""@
                })
        }),
{
}

/// A graph in the DOT format has, between its first line and its last, a line for each of its
/// nodes, an empty line, and a line for each edge in their order: from the caller to what is
/// called, dashed for a guess.
pub proof fn law_dot_graph(edges: Seq<EdgeV>, format: Seq<char>)
    requires
        format != "edges"@,
    ensures
        ({
            let lines = calltree::graph_lines(edges, format);
            let n = calltree::ends_of(edges).len();
            &&& lines.len() == n + edges.len() + 3
            &&& lines[0] == "digraph callgraph {"@
            &&& lines[1 + n as int] == ""@
            &&& lines.last() == "}"@
            &&& forall|k: int|
                0 <= k < edges.len() ==> #[trigger] lines[2 + n + k] == "    "@ + text::debug_text(
                    edges[k].0,
                ) + " -> "@ + text::debug_text(edges[k].1) + (if edges[k].4 {
                    " [style=dashed];"@
                } else {
                    ";"@
                })
            &&& forall|id: Seq<char>, label: Seq<char>| #[trigger]
                calltree::ends_of(edges).contains((id, label)) ==> exists|k: int|
                    1 <= k <= n && #[trigger] lines[k] == "    "@ + text::debug_text(id)
                        + " [label="@ + text::debug_text(label) + "];"@
        }),
{
    let ends = calltree::ends_of(edges);
    let sorted = order::stable_sort(ends, calltree::id_order());
    let nodes = sorted.map_values(|n: (Seq<char>, Seq<char>)| calltree::dot_node(n));
    let arrows = edges.map_values(|e: EdgeV| calltree::dot_edge(e));
    let lines = calltree::graph_lines(edges, format);
    lemma_id_order();
    order::law_sort_orders(ends, calltree::id_order());
    ends.to_multiset_ensures();
    sorted.to_multiset_ensures();
    let n = ends.len();
    assert(sorted.len() == n);
    assert forall|k: int| 0 <= k < edges.len() implies #[trigger] lines[2 + n + k] == "    "@
        + text::debug_text(edges[k].0) + " -> "@ + text::debug_text(edges[k].1) + (if edges[k].4 {
        " [style=dashed];"@
    } else {
        ";"@
    }) by {
        assert(lines[2 + n + k] == arrows[k]);
        assert(arrows[k] == calltree::dot_edge(edges[k]));
    }
    assert forall|id: Seq<char>, label: Seq<char>| #[trigger]
        ends.contains((id, label)) implies exists|k: int|
        1 <= k <= n && #[trigger] lines[k] == "    "@ + text::debug_text(id) + " [label="@
            + text::debug_text(label) + "];"@ by {
        assert(ends.to_multiset().contains((id, label)));
        assert(sorted.contains((id, label)));
        let k = sorted.index_of((id, label));
        assert(lines[1 + k] == nodes[k]);
        assert(nodes[k] == calltree::dot_node((id, label)));
    }
}

proof fn lemma_id_order()
    ensures
        order::is_order(calltree::id_order()),
{
    let lt = calltree::id_order();
    assert forall|a: (Seq<char>, Seq<char>), b: (Seq<char>, Seq<char>)| #[trigger]
        lt(a, b) implies !lt(b, a) by {
        text::lemma_text_order(a.0, b.0, a.0);
    }
    assert forall|
        a: (Seq<char>, Seq<char>),
        b: (Seq<char>, Seq<char>),
        c: (Seq<char>, Seq<char>),
    |
        !(#[trigger] lt(a, b)) && !(#[trigger] lt(b, c)) implies !lt(a, c) by {
        text::lemma_text_order(a.0, b.0, c.0);
        text::lemma_text_order(b.0, c.0, a.0);
        text::lemma_text_order(c.0, b.0, a.0);
        text::lemma_text_order(a.0, c.0, b.0);
        text::lemma_text_order(b.0, a.0, c.0);
    }
}

/// The label that a graph declares a node with is that of one of its edges.
pub proof fn law_declared_labels(edges: Seq<EdgeV>, id: Seq<char>, label: Seq<char>)
    requires
        calltree::ends_of(edges).contains((id, label)),
    ensures
        exists|i: int|
            0 <= i < edges.len() && ((#[trigger] edges[i]).0 == id && edges[i].2 == label
                || edges[i].1 == id && edges[i].3 == label),
    decreases edges.len(),
{
    if edges.len() > 0 {
        let init = edges.drop_last();
        let e = edges.last();
        let n = edges.len() - 1;
        let before = calltree::ends_of(init);
        let mid = calltree::with_node(before, e.0, e.2);
        let all = calltree::ends_of(edges);
        let k = all.index_of((id, label));
        assert(edges[n] == e);
        if k < before.len() {
            assert(before[k] == (id, label));
            assert(before.contains((id, label)));
            law_declared_labels(init, id, label);
            let i = choose|i: int|
                0 <= i < init.len() && ((#[trigger] init[i]).0 == id && init[i].2 == label
                    || init[i].1 == id && init[i].3 == label);
            assert(edges[i] == init[i]);
        } else if k < mid.len() {
            assert(mid[k] == (e.0, e.2));
        } else {
            assert(all[k] == (e.1, e.3));
        }
    }
}

} // verus!
