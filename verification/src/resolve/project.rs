//! What is known of a project as a whole, said of its files.

use vstd::prelude::*;
use crate::files::FileV;
use crate::resolve;
use crate::resolve::fallback;
use crate::resolve::go;
use crate::resolve::graph;
use crate::resolve::graph::KeyV;
use crate::resolve::pick;
use crate::resolve::rust;
use crate::resolve::{CallV, Confidence, DefKindV, DefV, IndexV};
use crate::syntax;
use crate::syntax::Grammar;
use crate::text;
use crate::tree;
use crate::walk;

verus! {

broadcast use vstd::string::group_string_axioms;

/// The definitions of a file; none, if it could not be read.
pub open spec fn defs_of(f: FileV) -> Seq<DefV> {
    match f.source {
        Some(s) => resolve::defs_in(f.lang_name, f.file, s),
        None => Seq::empty(),
    }
}

/// The `impl Trait for Type` blocks of a file; none, if it could not be read.
pub open spec fn impls_of(f: FileV) -> Seq<(Seq<char>, Seq<char>)> {
    match f.source {
        Some(s) => resolve::impls_in(f.lang_name, f.file, s),
        None => Seq::empty(),
    }
}

/// The calls of a file; none, if it could not be read.
pub open spec fn calls_of(f: FileV, index: IndexV) -> Seq<CallV> {
    match f.source {
        Some(s) => resolve::calls_in(f.lang_name, f.file, s, index),
        None => Seq::empty(),
    }
}

/// The index of a project has the definitions and `impl` blocks of all of its files, one file
/// after another.
pub proof fn law_index_has_all_files(files: Seq<FileV>)
    ensures
        graph::indexed(files).defs == walk::joined(files.map_values(|f: FileV| defs_of(f))),
        graph::indexed(files).impls == walk::joined(files.map_values(|f: FileV| impls_of(f))),
    decreases files.len(),
{
    let defs = files.map_values(|f: FileV| defs_of(f));
    let impls = files.map_values(|f: FileV| impls_of(f));
    if files.len() > 0 {
        let init = files.drop_last();
        law_index_has_all_files(init);
        assert(defs.drop_last() =~= init.map_values(|f: FileV| defs_of(f)));
        assert(impls.drop_last() =~= init.map_values(|f: FileV| impls_of(f)));
        assert(graph::indexed(files).defs =~= graph::indexed(init).defs + defs_of(files.last()));
        assert(graph::indexed(files).impls =~= graph::indexed(init).impls + impls_of(
            files.last(),
        ));
    }
}

/// The calls of a project are those of all of its files, one file after another.
pub proof fn law_project_has_all_calls(files: Seq<FileV>, index: IndexV)
    ensures
        graph::all_calls(files, index) == walk::joined(
            files.map_values(|f: FileV| calls_of(f, index)),
        ),
    decreases files.len(),
{
    let calls = files.map_values(|f: FileV| calls_of(f, index));
    if files.len() > 0 {
        let init = files.drop_last();
        law_project_has_all_calls(init, index);
        assert(calls.drop_last() =~= init.map_values(|f: FileV| calls_of(f, index)));
        assert(graph::all_calls(files, index) =~= graph::all_calls(init, index) + calls_of(
            files.last(),
            index,
        ));
    }
}

/// Whether two calls have the same caller, show the same name and lead to the same definition.
pub open spec fn same_ends(a: CallV, b: CallV) -> bool {
    &&& a.caller == b.caller && a.callee_display == b.callee_display
    &&& match (a.target, b.target) {
        (Some(x), Some(y)) => x.0 == y.0,
        (None, None) => true,
        _ => false,
    }
}

/// The graph of a project has an edge for each call of each of its files, and no others; and no
/// two for calls with the same ends.
pub proof fn law_graph_has_all_calls(files: Seq<FileV>, c: CallV)
    ensures
        ({
            let index = graph::indexed(files);
            let g = graph::graph_of(files);
            let is_of_a_file = exists|i: int|
                0 <= i < files.len() && calls_of(#[trigger] files[i], index).contains(c);
            &&& g.index == index
            &&& is_of_a_file ==> exists|k: int|
                0 <= k < g.calls.len() && same_ends(#[trigger] g.calls[k], c)
            &&& g.calls.contains(c) ==> is_of_a_file
            &&& forall|i: int, j: int|
                0 <= i < j < g.calls.len() ==> !same_ends(
                    #[trigger] g.calls[i],
                    #[trigger] g.calls[j],
                )
        }),
{
    let index = graph::indexed(files);
    let all = graph::all_calls(files, index);
    let g = graph::graph_of(files);
    graph::law_one_edge_per_pair(all);
    lemma_calls(files, index, c);
    if all.contains(c) {
        let i = all.index_of(c);
        assert(graph::has_edge(g.calls, all[i]));
        let k = choose|k: int| 0 <= k < g.calls.len() && graph::same_edge(#[trigger] g.calls[k], c);
        assert(same_ends(g.calls[k], c));
    }
    if g.calls.contains(c) {
        let k = g.calls.index_of(c);
        assert(graph::is_first_site(all, g.calls[k]));
        let i = choose|i: int|
            0 <= i < all.len() && #[trigger] all[i] == c && forall|j: int|
                0 <= j < i ==> !graph::same_edge(#[trigger] all[j], c);
        assert(all.contains(c));
    }
    assert forall|i: int, j: int| 0 <= i < j < g.calls.len() implies !same_ends(
        #[trigger] g.calls[i],
        #[trigger] g.calls[j],
    ) by {
        assert(!graph::same_edge(g.calls[i], g.calls[j]));
    }
}

proof fn lemma_calls(files: Seq<FileV>, index: IndexV, c: CallV)
    ensures
        graph::all_calls(files, index).contains(c) <==> exists|i: int|
            0 <= i < files.len() && calls_of(#[trigger] files[i], index).contains(c),
{
    let lists = files.map_values(|f: FileV| calls_of(f, index));
    law_project_has_all_calls(files, index);
    walk::lemma_joined_has(lists, c);
    if exists|i: int| 0 <= i < lists.len() && (#[trigger] lists[i]).contains(c) {
        let i = choose|i: int| 0 <= i < lists.len() && (#[trigger] lists[i]).contains(c);
        assert(calls_of(files[i], index).contains(c));
    }
    if exists|i: int| 0 <= i < files.len() && calls_of(#[trigger] files[i], index).contains(c) {
        let i = choose|i: int|
            0 <= i < files.len() && calls_of(#[trigger] files[i], index).contains(c);
        assert(lists[i].contains(c));
    }
}

/// The node of a definition has the calls that it makes, and the calls that lead to it: all of
/// them, and no others. A name without a definition has the calls of that name without a target.
pub proof fn law_calls_at_a_node(index: IndexV, calls: Seq<CallV>, key: KeyV, i: usize)
    requires
        calls.len() <= usize::MAX,
        i < calls.len(),
    ensures
        ({
            let g = graph::graph_with(index, calls);
            let c = calls[i as int];
            &&& (g.fwd.contains_key(key) && g.fwd[key].contains(i)) <==> key == KeyV::Def(
                index.defs[c.caller as int].id,
            )
            &&& (g.rev.contains_key(key) && g.rev[key].contains(i)) <==> (match c.target {
                Some((t, _)) => key == KeyV::Def(index.defs[t as int].id),
                None => key == KeyV::External(c.callee_display),
            })
        }),
{
    graph::law_edges_of_a_node(index, calls, key);
    let g = graph::graph_with(index, calls);
    let c = calls[i as int];
    if graph::caller_key(index.defs, c) == key {
        assert(g.fwd.contains_key(key));
    }
    if graph::callee_key(index.defs, c) == key {
        assert(g.rev.contains_key(key));
    }
}

/// Rust and Go have resolvers of their own; the files of the other languages are read with their
/// outlines, and their calls are resolved by name.
pub proof fn law_resolver_of_language(file: Seq<char>, source: Seq<u8>, index: IndexV)
    ensures
        resolve::defs_in("rust"@, file, source) == rust::tree_defs(
            syntax::syntax_tree(Grammar::Rust, source),
            file,
        ),
        resolve::impls_in("rust"@, file, source) == rust::impls_of(
            syntax::syntax_tree(Grammar::Rust, source),
        ),
        resolve::calls_in("rust"@, file, source, index) == rust::tree_calls(
            syntax::syntax_tree(Grammar::Rust, source),
            file,
            index,
        ),
        resolve::defs_in("go"@, file, source) == go::tree_defs(
            syntax::syntax_tree(Grammar::Go, source),
            file,
        ),
        resolve::calls_in("go"@, file, source, index) == go::tree_calls(
            syntax::syntax_tree(Grammar::Go, source),
            file,
            index,
        ),
{
    reveal_strlit("go");
    reveal_strlit("rust");
    assert("go"@.len() == 2 && "rust"@.len() == 4);
}

/// The definitions of a C, C++, JavaScript or Python file are the functions of its outline, each
/// with its name and its place.
pub proof fn law_definitions_by_outline(
    lang_name: Seq<char>,
    file: Seq<char>,
    source: Seq<u8>,
    i: int,
)
    requires
        lang_name == "c"@ || lang_name == "cpp"@ || lang_name == "javascript"@ || lang_name
            == "python"@,
        0 <= i < tree::function_locs(lang_name, source).len(),
    ensures
        resolve::defs_in(lang_name, file, source).len() == tree::function_locs(
            lang_name,
            source,
        ).len(),
        ({
            let d = resolve::defs_in(lang_name, file, source)[i];
            let (name, line) = tree::function_locs(lang_name, source)[i];
            &&& d.name == name && d.qualified == seq![name] && d.kind == DefKindV::Function
            &&& d.id.file == file && d.id.line == line
        }),
{
    reveal_strlit("go");
    reveal_strlit("rust");
    reveal_strlit("c");
    reveal_strlit("cpp");
    reveal_strlit("c++");
    reveal_strlit("javascript");
    reveal_strlit("js");
    reveal_strlit("python");
    reveal_strlit("py");
    assert("go"@.len() == 2 && "rust"@.len() == 4 && "c"@.len() == 1 && "cpp"@.len() == 3
        && "javascript"@.len() == 10 && "python"@.len() == 6 && "js"@.len() == 2 && "py"@.len() == 2
        && "c++"@.len() == 3);
    assert("cpp"@[0] == 'c');
    assert(fallback::fallback_language(lang_name) == lang_name);
}

// ---------------------------------------------------------------------------
// Queries for definitions
// ---------------------------------------------------------------------------

/// Whether a definition is what `recv.name` asks for. Where `recv` is written like a type, it is
/// a method or a signature of that type; else any method or signature with the name, or a
/// function of a package or module `recv`.
pub open spec fn is_dotted(d: DefV, recv: Seq<char>, name: Seq<char>) -> bool {
    let is_type = recv != "self"@ && text::capitalized(recv);
    d.name == name && match d.kind {
        DefKindV::Method { receiver, .. } => is_type ==> receiver == recv,
        DefKindV::InterfaceMethod { interface } => is_type ==> interface == recv,
        DefKindV::Function => !is_type && d.qualified.len() >= 2
            && d.qualified[d.qualified.len() - 2] == recv,
    }
}

/// A method expression asks for the definitions that it stands for, and for no others.
pub proof fn law_method_expression(
    defs: Seq<DefV>,
    recv: Seq<char>,
    name: Seq<char>,
    i: usize,
)
    requires
        defs.len() <= usize::MAX,
        i < defs.len(),
        text::find_text(recv + "."@ + name, 0, "::"@) is None,
        !name.contains('.'),
    ensures
        resolve::has_target(resolve::def_hits(defs, recv + "."@ + name), i) <==> is_dotted(
            defs[i as int],
            recv,
            name,
        ),
{
    reveal_strlit(".");
    let expr = recv + "."@ + name;
    let k = recv.len() as int;
    assert(expr[k] == '.');
    assert forall|j: int| k < j < expr.len() implies expr[j] != '.' by {
        assert(expr[j] == name[j - k - 1]);
        assert(name.contains(name[j - k - 1]));
    }
    text::lemma_last_index(expr, '.', k);
    assert(expr.take(k) =~= recv);
    assert(expr.skip(k + 1) =~= name);
    let p = |i: usize| resolve::answers_dotted(defs[i as int], recv);
    let cand = |d: DefV| is_dotted(d, recv, name);
    pick::lemma_selected(defs, name, p, cand);
    resolve::lemma_hits(defs, expr, i);
    let kept = resolve::positions(defs, name).filter(p);
    assert(resolve::query_candidates(defs, expr) == kept);
    assert(kept.contains(i) <==> cand(defs[i as int]));
}

/// A definition is shown with its file, its line and the text of that line; a guess is marked.
pub proof fn law_definition_line(files: Seq<FileV>, d: DefV, i: int, content: Seq<char>)
    requires
        0 <= i < files.len(),
        files[i].file == d.id.file,
        forall|j: int| 0 <= j < i ==> (#[trigger] files[j]).file != d.id.file,
        files[i].source matches Some(s) && vstd::utf8::valid_utf8(s) && vstd::utf8::decode_utf8(s)
            == content,
        d.id.line > 0,
        text::line_at(content, (d.id.line - 1) as nat) is Some,
    ensures
        ({
            let head = d.id.file + ":"@ + text::decimal_digits(d.id.line as nat) + ": "@;
            let line = text::trimmed(text::line_at(content, (d.id.line - 1) as nat)->Some_0);
            &&& resolve::def_line(files, d, Confidence::Exact) == head + line
            &&& resolve::def_line(files, d, Confidence::Guess) == head + line + "  ?"@
        }),
{
    reveal_strlit("");
    lemma_source(files, d.id.file, i);
    let head = d.id.file + ":"@ + text::decimal_digits(d.id.line as nat) + ": "@;
    let line = text::trimmed(text::line_at(content, (d.id.line - 1) as nat)->Some_0);
    assert(head + line + ""@ =~= head + line);
}

proof fn lemma_source(files: Seq<FileV>, file: Seq<char>, i: int)
    requires
        0 <= i < files.len(),
        files[i].file == file,
        forall|j: int| 0 <= j < i ==> (#[trigger] files[j]).file != file,
    ensures
        resolve::source_of(files, file) == files[i].source,
    decreases i,
{
    if i > 0 {
        let rest = files.drop_first();
        assert(files[0].file != file);
        assert forall|j: int| 0 <= j < i - 1 implies (#[trigger] rest[j]).file != file by {
            assert(files[j + 1].file != file);
        }
        assert(rest[i - 1] == files[i]);
        lemma_source(rest, file, i - 1);
    }
}

/// What is found for an expression is shown definition by definition; nothing found is an error.
pub proof fn law_found_definitions(files: Seq<FileV>, expr: Seq<char>)
    ensures
        ({
            let defs = graph::indexed(files).defs;
            let hits = resolve::def_hits(defs, expr);
            match resolve::def_lines(files, expr) {
                Ok(lines) => hits.len() > 0 && lines.len() == hits.len() && forall|k: int|
                    0 <= k < hits.len() ==> #[trigger] lines[k] == resolve::def_line(
                        files,
                        defs[hits[k].0 as int],
                        hits[k].1,
                    ),
                Err(message) => hits.len() == 0 && message == "no definition found for '"@ + expr
                    + "'"@,
            }
        }),
{
}

} // verus!
