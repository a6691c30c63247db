//! Name-matching fallback resolver for languages without a dedicated
//! resolver. Call sites are extracted with the abstract query engine and
//! matched to definitions by bare name; only a project-wide unique name
//! resolves, everything else stays external.

use vstd::prelude::*;
use crate::compiler;
use crate::compiler::{CompiledQuery, compile};
use crate::compiler::lang;
use crate::compiler::lang::{for_name, lang_for_name_canonical};
use crate::query;
use crate::query::{Query, parse};
use crate::resolve;
use crate::resolve::{
    CallV, Confidence, Def, DefId, DefIdV, DefIndex, DefKind, DefKindV, DefV, IndexV, ResolvedCall,
    Resolver, find_in_file,
};
use crate::resolve::pick;
use crate::runner;
use crate::runner::run;
use crate::syntax::Grammar;
use crate::text;
use crate::text::{
    after, after_first, before, parse_number, push_string, split, strip_prefix, trim, trim_char,
};
use crate::tree;
use crate::tree::collect_function_locs;

verus! {

broadcast use vstd::string::group_string_axioms;

// ── Reading results ──────────────────────────────────────────────────────────

/// What stands before the value of a capture.
pub open spec fn capture_prefix(name: Seq<char>) -> Seq<char> {
    "@"@ + name + ":"@
}

/// The name of what is called in the text of a call: what stands before the first
/// parenthesis, without the receiver.
pub open spec fn called_name(shown: Seq<char>) -> Seq<char> {
    let call = text::trim_back(text::trim_front(shown, '"'), '"');
    text::trimmed(text::after_char(text::trimmed(text::before_char(call, '(')), '.'))
}

/// The name in the first of the parts that is of the capture and has one.
pub open spec fn capture_in(parts: Seq<Seq<char>>, prefix: Seq<char>) -> Option<Seq<char>>
    decreases parts.len(),
{
    if parts.len() == 0 {
        None
    } else {
        match text::after_prefix(text::trimmed(parts[0]), prefix) {
            Some(rest) => match text::after_text(rest, ": "@) {
                Some(shown) => if called_name(shown).len() == 0 {
                    capture_in(parts.drop_first(), prefix)
                } else {
                    Some(called_name(shown))
                },
                None => None,
            },
            None => capture_in(parts.drop_first(), prefix),
        }
    }
}

/// The line in the first of the parts that is of the capture.
pub open spec fn line_in(parts: Seq<Seq<char>>, prefix: Seq<char>) -> Option<usize>
    decreases parts.len(),
{
    if parts.len() == 0 {
        None
    } else {
        match text::after_prefix(text::trimmed(parts[0]), prefix) {
            Some(rest) => text::number_of(text::before_char(rest, ':')),
            None => line_in(parts.drop_first(), prefix),
        }
    }
}

/// The definition that a name resolves to: the only one that has it.
pub open spec fn unique_target(defs: Seq<DefV>, name: Seq<char>) -> Option<(usize, Confidence)> {
    let hits = resolve::positions(defs, name);
    if hits.len() == 1 {
        Some((hits[0], Confidence::Exact))
    } else {
        None
    }
}

/// The call that a result shows.
pub open spec fn shown_call(caller: usize, m: Seq<char>, defs: Seq<DefV>) -> Option<CallV> {
    let parts = text::split_spec(m, ", "@);
    match (capture_in(parts, capture_prefix("c"@)), line_in(parts, capture_prefix("c"@))) {
        (Some(callee), Some(line)) => Some(
            CallV { caller, callee_display: callee, line, target: unique_target(defs, callee) },
        ),
        _ => None,
    }
}

/// The calls that the results of a query show.
pub open spec fn shown_calls(caller: usize, results: Seq<Seq<char>>, defs: Seq<DefV>) -> Seq<CallV>
    decreases results.len(),
{
    if results.len() == 0 {
        Seq::empty()
    } else {
        let init = shown_calls(caller, results.drop_last(), defs);
        match shown_call(caller, results.last(), defs) {
            Some(call) => init.push(call),
            None => init,
        }
    }
}

/// The query for the calls in a function.
pub open spec fn calls_query(name: Seq<char>) -> Seq<char> {
    "(*function#"@ + name + " @f).body((&function @c))"@
}

/// The results of the query for the calls in a function.
pub open spec fn call_results(g: Grammar, name: Seq<char>, source: Seq<u8>) -> Seq<Seq<char>> {
    match query::parser::parsed(calls_query(name)) {
        Ok(ast) => match runner::run_result(
            g,
            compiler::compiled(lang::table_of(g), ast, 0).0,
            source,
            false,
        ) {
            Ok(results) => results,
            Err(_) => Seq::empty(),
        },
        Err(_) => Seq::empty(),
    }
}

/// The calls in the given definitions.
pub open spec fn calls_in(
    g: Grammar,
    here: Seq<usize>,
    source: Seq<u8>,
    defs: Seq<DefV>,
) -> Seq<CallV>
    decreases here.len(),
{
    if here.len() == 0 {
        Seq::empty()
    } else {
        let caller = here.last();
        calls_in(g, here.drop_last(), source, defs) + shown_calls(
            caller,
            call_results(g, defs[caller as int].name, source),
            defs,
        )
    }
}

/// The definition of a function at a place.
pub open spec fn function_at(file: Seq<char>, loc: (Seq<char>, usize)) -> DefV {
    DefV {
        name: loc.0,
        qualified: seq![loc.0],
        kind: DefKindV::Function,
        ret: None,
        id: DefIdV { file, line: loc.1 },
    }
}

/// The definitions of a file in a language.
pub open spec fn file_defs(lang_name: Seq<char>, file: Seq<char>, source: Seq<u8>) -> Seq<DefV> {
    tree::function_locs(lang_name, source).map_values(
        |loc: (Seq<char>, usize)| function_at(file, loc),
    )
}

/// The calls of a file in a language.
pub open spec fn file_calls(
    lang_name: Seq<char>,
    file: Seq<char>,
    source: Seq<u8>,
    index: IndexV,
) -> Seq<CallV> {
    match lang::grammar_named(lang_name) {
        Some(g) => calls_in(g, resolve::positions_in(index.defs, file), source, index.defs),
        None => Seq::empty(),
    }
}

/// A call that is resolved by name alone is never a guess: it leads to a definition only
/// where that is the only one of its name, and then it is exact.
pub proof fn law_names_are_never_guessed(
    lang_name: Seq<char>,
    file: Seq<char>,
    source: Seq<u8>,
    index: IndexV,
    i: int,
)
    requires
        0 <= i < file_calls(lang_name, file, source, index).len(),
    ensures
        file_calls(lang_name, file, source, index)[i].target == unique_target(
            index.defs,
            file_calls(lang_name, file, source, index)[i].callee_display,
        ),
{
    if let Some(g) = lang::grammar_named(lang_name) {
        lemma_unique_targets(g, resolve::positions_in(index.defs, file), source, index.defs);
    }
}

/// Unique names resolve exactly, ambiguous ones stay bare: a call has a target if and only if
/// there is just one definition of the name that is called. It is that one, and no guess.
pub proof fn law_unique_name_is_exact(
    lang_name: Seq<char>,
    file: Seq<char>,
    source: Seq<u8>,
    index: IndexV,
    i: int,
    t: usize,
)
    requires
        index.defs.len() <= usize::MAX,
        0 <= i < file_calls(lang_name, file, source, index).len(),
    ensures
        ({
            let call = file_calls(lang_name, file, source, index)[i];
            let is_the_one = t < index.defs.len() && index.defs[t as int].name
                == call.callee_display && forall|j: int|
                0 <= j < index.defs.len() && (#[trigger] index.defs[j]).name
                    == call.callee_display ==> j == t;
            &&& call.target matches Some((u, c)) ==> c == Confidence::Exact
            &&& is_the_one <==> call.target == Some((t, Confidence::Exact))
        }),
{
    law_names_are_never_guessed(lang_name, file, source, index, i);
    let name = file_calls(lang_name, file, source, index)[i].callee_display;
    lemma_unique(index.defs, name, t);
}

proof fn lemma_unique(defs: Seq<DefV>, name: Seq<char>, t: usize)
    requires
        defs.len() <= usize::MAX,
    ensures
        (t < defs.len() && defs[t as int].name == name && forall|j: int|
            0 <= j < defs.len() && (#[trigger] defs[j]).name == name ==> j == t) <==> unique_target(
            defs,
            name,
        ) == Some((t, Confidence::Exact)),
{
    let hits = resolve::positions(defs, name);
    resolve::lemma_positions(defs, name);
    if unique_target(defs, name) == Some((t, Confidence::Exact)) {
        assert forall|j: int| 0 <= j < defs.len() && (#[trigger] defs[j]).name == name implies j
            == t by {
            let k = j as usize;
            assert(defs[k as int].name == name);
            assert(hits.contains(k));
            assert(hits[hits.index_of(k)] == hits[0]);
        }
    }
    if t < defs.len() && defs[t as int].name == name && forall|j: int|
        0 <= j < defs.len() && (#[trigger] defs[j]).name == name ==> j == t {
        assert(hits.contains(t));
        let k = hits.index_of(t);
        if hits.len() > 1 {
            assert(hits[0] < hits[1]);
            assert(defs[hits[0] as int].name == name && defs[hits[1] as int].name == name);
        }
    }
}

/// Whether all calls lead to the only definition of a name, or nowhere.
spec fn by_unique_name(calls: Seq<CallV>, defs: Seq<DefV>) -> bool {
    forall|i: int|
        0 <= i < calls.len() ==> (#[trigger] calls[i]).target == unique_target(
            defs,
            calls[i].callee_display,
        )
}

proof fn lemma_unique_targets(g: Grammar, here: Seq<usize>, source: Seq<u8>, defs: Seq<DefV>)
    ensures
        by_unique_name(calls_in(g, here, source, defs), defs),
    decreases here.len(),
{
    if here.len() > 0 {
        lemma_unique_targets(g, here.drop_last(), source, defs);
        let caller = here.last();
        lemma_shown_targets(caller, call_results(g, defs[caller as int].name, source), defs);
    }
}

proof fn lemma_shown_targets(caller: usize, results: Seq<Seq<char>>, defs: Seq<DefV>)
    ensures
        by_unique_name(shown_calls(caller, results, defs), defs),
    decreases results.len(),
{
    if results.len() > 0 {
        lemma_shown_targets(caller, results.drop_last(), defs);
    }
}

fn prefix_of(name: &str) -> (r: String)
    ensures
        r@ == capture_prefix(name@),
{
    let mut prefix: String = "@".to_string();
    prefix.append(name);
    prefix.append(":");
    prefix
}

fn callee_of(shown: &str) -> (r: String)
    ensures
        r@ == called_name(shown@),
{
    let call: String = trim_char(shown, '"');
    // call_expression text is `foo(args...)` — take only the callee name
    let name: String = trim(before(call.as_str(), '(').as_str());
    // For method calls `obj.method` take only the method name
    trim(after(name.as_str(), '.').as_str())
}

fn parts_of(m: &str) -> (r: Vec<String>)
    ensures
        text::views(r@) == text::split_spec(m@, ", "@),
{
    proof {
        reveal_strlit(", ");
    }
    split(m, ", ")
}

/// Extract the text of a named capture from a runner output line.
/// Runner format: `@name:LINE: "text"` or `@name:LINE: text`
pub fn parse_capture(name: &str, m: &str) -> (r: Option<String>)
    ensures
        text::opt_view(r) == capture_in(text::split_spec(m@, ", "@), capture_prefix(name@)),
{
    let prefix: String = prefix_of(name);
    let parts: Vec<String> = parts_of(m);
    let ghost all = text::views(parts@);
    let mut i: usize = 0;
    assert(all.skip(0) =~= all);
    while i < parts.len()
        invariant
            i <= parts@.len(),
            all == text::views(parts@),
            all == text::split_spec(m@, ", "@),
            prefix@ == capture_prefix(name@),
            capture_in(all, prefix@) == capture_in(all.skip(i as int), prefix@),
        decreases parts@.len() - i,
    {
        assert(all.skip(i as int)[0] == parts@[i as int]@);
        assert(all.skip(i as int).drop_first() =~= all.skip(i + 1));
        if let Some(rest) = strip_prefix(trim(parts[i].as_str()).as_str(), prefix.as_str()) {
            match after_first(rest.as_str(), ": ") {
                Some(shown) => {
                    let callee: String = callee_of(shown.as_str());
                    if !callee.as_str().is_empty() {
                        return Some(callee);
                    }
                },
                None => {
                    return None;
                },
            }
        }
        i += 1;
    }
    None
}

/// Extract the line of a named capture from a runner output line.
pub fn parse_line(name: &str, m: &str) -> (r: Option<usize>)
    ensures
        r == line_in(text::split_spec(m@, ", "@), capture_prefix(name@)),
{
    let prefix: String = prefix_of(name);
    let parts: Vec<String> = parts_of(m);
    let ghost all = text::views(parts@);
    let mut i: usize = 0;
    assert(all.skip(0) =~= all);
    while i < parts.len()
        invariant
            i <= parts@.len(),
            all == text::views(parts@),
            all == text::split_spec(m@, ", "@),
            prefix@ == capture_prefix(name@),
            line_in(all, prefix@) == line_in(all.skip(i as int), prefix@),
        decreases parts@.len() - i,
    {
        assert(all.skip(i as int)[0] == parts@[i as int]@);
        assert(all.skip(i as int).drop_first() =~= all.skip(i + 1));
        if let Some(rest) = strip_prefix(trim(parts[i].as_str()).as_str(), prefix.as_str()) {
            return parse_number(before(rest.as_str(), ':').as_str());
        }
        i += 1;
    }
    None
}

fn find_unique(index: &DefIndex, name: &str) -> (r: Option<(usize, Confidence)>)
    requires
        index.wf(),
    ensures
        r == unique_target(index@.defs, name@),
        r matches Some(t) ==> t.0 < index@.defs.len(),
{
    let hits: Vec<usize> = index.named(name);
    if hits.len() == 1 {
        Some((hits[0], Confidence::Exact))
    } else {
        None
    }
}

/// Appends the calls that the results of a query show.
pub fn push_shown_calls(
    caller: usize,
    results: &Vec<String>,
    index: &DefIndex,
    out: &mut Vec<ResolvedCall>,
)
    requires
        index.wf(),
        caller < index@.defs.len(),
        resolve::calls_known(text::views(old(out)@), index@.defs.len()),
    ensures
        text::views(final(out)@) == text::views(old(out)@) + shown_calls(
            caller,
            text::views(results@),
            index@.defs,
        ),
        resolve::calls_known(text::views(final(out)@), index@.defs.len()),
{
    let ghost all = text::views(results@);
    let ghost before = text::views(out@);
    let ghost defs = index@.defs;
    let mut i: usize = 0;
    assert(text::views(out@) =~= before + shown_calls(caller, all.take(0), defs));
    while i < results.len()
        invariant
            i <= results@.len(),
            index.wf(),
            defs == index@.defs,
            caller < defs.len(),
            all == text::views(results@),
            resolve::calls_known(text::views(out@), defs.len()),
            text::views(out@) == before + shown_calls(caller, all.take(i as int), defs),
        decreases results@.len() - i,
    {
        let m: &str = results[i].as_str();
        let ghost now = text::views(out@);
        assert(all.take(i + 1).drop_last() =~= all.take(i as int));
        assert(all.take(i + 1).last() == m@);
        if let (Some(callee), Some(line)) = (parse_capture("c", m), parse_line("c", m)) {
            let target: Option<(usize, Confidence)> = find_unique(index, callee.as_str());
            let call = ResolvedCall { caller, callee_display: callee, line, target };
            let ghost view = call@;
            out.push(call);
            assert(text::views(out@) =~= now.push(view));
        }
        i += 1;
        assert(text::views(out@) =~= before + shown_calls(caller, all.take(i as int), defs));
    }
    assert(all.take(i as int) =~= all);
}

/// The results of the query for the calls in a function.
fn find_calls(lang_name: &str, name: &str, source: &[u8]) -> (r: Vec<String>)
    requires
        lang::grammar_named(lang_name@) is Some,
    ensures
        text::views(r@) == call_results(lang::grammar_named(lang_name@)->Some_0, name@, source@),
{
    let none: Vec<String> = Vec::new();
    assert(text::views(none@) =~= Seq::<Seq<char>>::empty());
    let mut query_str: String = "(*function#".to_string();
    query_str.append(name);
    query_str.append(" @f).body((&function @c))");
    let ast: Query = match parse(query_str.as_str()) {
        Ok(q) => q,
        Err(_) => {
            return none;
        },
    };
    match for_name(lang_name) {
        Some(l) => {
            let compiled: CompiledQuery = compile(&ast, &*l);
            match run(&compiled, &*l, source, false) {
                Ok(results) => results,
                Err(_) => none,
            }
        },
        None => none,
    }
}

// ── The resolver ─────────────────────────────────────────────────────────────

/// The full name of the language of a resolver by name; without such a language, it is C.
pub open spec fn fallback_language(lang_name: Seq<char>) -> Seq<char> {
    match lang::grammar_named(lang_name) {
        Some(g) => lang::canonical(g),
        None => "c"@,
    }
}

pub struct NameResolver {
    pub lang_name: &'static str,
}

impl NameResolver {
    pub fn new(lang_name: &str) -> (r: Self)
        ensures
            r.lang_name@ == fallback_language(lang_name@),
    {
        let lang_name: &'static str = match lang_for_name_canonical(lang_name) {
            Some(n) => n,
            None => "c",
        };
        NameResolver { lang_name }
    }
}

impl Resolver for NameResolver {
    open spec fn defs_spec(&self, file: Seq<char>, source: Seq<u8>) -> Seq<DefV> {
        file_defs(self.lang_name@, file, source)
    }

    open spec fn impls_spec(&self, file: Seq<char>, source: Seq<u8>) -> Seq<
        (Seq<char>, Seq<char>),
    > {
        Seq::empty()
    }

    open spec fn calls_spec(&self, file: Seq<char>, source: Seq<u8>, index: IndexV) -> Seq<CallV> {
        file_calls(self.lang_name@, file, source, index)
    }

    fn collect_defs(&self, file: &str, source: &[u8]) -> (r: Vec<Def>) {
        let locs: Vec<(String, usize)> = collect_function_locs(source, self.lang_name);
        let ghost all = self.defs_spec(file@, source@);
        let mut out: Vec<Def> = Vec::new();
        let mut i: usize = 0;
        assert(text::views(out@) =~= all.take(0));
        while i < locs.len()
            invariant
                i <= locs@.len(),
                tree::locs_view(locs@) == tree::function_locs(self.lang_name@, source@),
                all == self.defs_spec(file@, source@),
                text::views(out@) == all.take(i as int),
            decreases locs@.len() - i,
        {
            let ghost now = text::views(out@);
            assert(tree::locs_view(locs@)[i as int] == (locs@[i as int].0@, locs@[i as int].1));
            let mut qualified: Vec<String> = Vec::new();
            push_string(&mut qualified, locs[i].0.clone());
            let def = Def {
                name: locs[i].0.clone(),
                qualified,
                kind: DefKind::Function,
                ret: None,
                id: DefId { file: file.to_string(), line: locs[i].1 },
            };
            let ghost view = def@;
            assert(view.qualified =~= seq![view.name]);
            out.push(def);
            assert(text::views(out@) =~= now.push(view));
            i += 1;
            assert(text::views(out@) =~= all.take(i as int));
        }
        assert(all.take(i as int) =~= all);
        out
    }

    fn collect_impls(&self, file: &str, source: &[u8]) -> (r: Vec<(String, String)>) {
        let none: Vec<(String, String)> = Vec::new();
        assert(resolve::pairs_view(none@) =~= Seq::empty());
        none
    }

    fn resolve_calls(&self, file: &str, source: &[u8], index: &DefIndex) -> (r: Vec<
        ResolvedCall,
    >) {
        let mut out: Vec<ResolvedCall> = Vec::new();
        let ghost defs = index@.defs;
        assert(text::views(out@) =~= Seq::empty());
        if lang_for_name_canonical(self.lang_name).is_none() {
            return out;
        }
        let ghost g = lang::grammar_named(self.lang_name@)->Some_0;
        let here: Vec<usize> = find_in_file(index, file);
        let mut i: usize = 0;
        assert(text::views(out@) =~= calls_in(g, here@.take(0), source@, defs));
        while i < here.len()
            invariant
                i <= here@.len(),
                index.wf(),
                defs == index@.defs,
                lang::grammar_named(self.lang_name@) == Some(g),
                forall|k: int| 0 <= k < here@.len() ==> (#[trigger] here@[k]) < index.defs@.len(),
                resolve::calls_known(text::views(out@), defs.len()),
                text::views(out@) == calls_in(g, here@.take(i as int), source@, defs),
            decreases here@.len() - i,
        {
            let caller: usize = here[i];
            assert(here@.take(i + 1).drop_last() =~= here@.take(i as int));
            assert(here@.take(i + 1).last() == caller);
            assert(defs[caller as int] == index.defs@[caller as int]@);
            let results: Vec<String> = find_calls(
                self.lang_name,
                index.defs[caller].name.as_str(),
                source,
            );
            push_shown_calls(caller, &results, index, &mut out);
            i += 1;
        }
        assert(here@.take(i as int) =~= here@);
        out
    }
}

/// The calls of a file that are resolved by name are those that the query for calls shows in the
/// functions of the file: for each definition of the file, one for each result that shows a call.
pub proof fn law_calls_by_name(
    g: Grammar,
    lang_name: Seq<char>,
    file: Seq<char>,
    source: Seq<u8>,
    index: IndexV,
    call: CallV,
)
    requires
        index.defs.len() <= usize::MAX,
        lang::grammar_named(lang_name) == Some(g),
    ensures
        file_calls(lang_name, file, source, index).contains(call) <==> is_shown_by_name(
            g,
            file,
            source,
            index.defs,
            call,
        ),
{
    let here = resolve::positions_in(index.defs, file);
    let defs = index.defs;
    let res = |t: usize| call_results(g, defs[t as int].name, source);
    lemma_calls_in(g, here, source, defs);
    lemma_calls_with(here, res, defs, call);
    lemma_positions_shown(g, file, source, defs, call);
}

proof fn lemma_positions_shown(
    g: Grammar,
    file: Seq<char>,
    source: Seq<u8>,
    defs: Seq<DefV>,
    call: CallV,
)
    requires
        defs.len() <= usize::MAX,
    ensures
        ({
            let here = resolve::positions_in(defs, file);
            let res = |t: usize| call_results(g, defs[t as int].name, source);
            (exists|k: int| 0 <= k < here.len() && has_result(res, defs, #[trigger] here[k], call))
                <==> is_shown_by_name(g, file, source, defs, call)
        }),
{
    let here = resolve::positions_in(defs, file);
    let res = |t: usize| call_results(g, defs[t as int].name, source);
    pick::law_positions_in_file(defs, file);
    assert forall|t: usize| #[trigger] has_result(res, defs, t, call) <==> is_shown_in(
        g,
        source,
        defs,
        t,
        call,
    ) by {
        assert(res(t) == call_results(g, defs[t as int].name, source));
    }
    if exists|k: int| 0 <= k < here.len() && has_result(res, defs, #[trigger] here[k], call) {
        let k = choose|k: int|
            0 <= k < here.len() && has_result(res, defs, #[trigger] here[k], call);
        assert(defs[here[k] as int].id.file == file);
        assert(is_shown_in(g, source, defs, here[k], call));
    }
    if is_shown_by_name(g, file, source, defs, call) {
        let t = choose|t: usize|
            t < defs.len() && defs[t as int].id.file == file && #[trigger] is_shown_in(
                g,
                source,
                defs,
                t,
                call,
            );
        assert(defs[t as int].id.file == file);
        assert(here.contains(t));
        let k = here.index_of(t);
        assert(has_result(res, defs, here[k], call));
    }
}

/// Whether a result of the query for the calls in a definition shows a call.
pub open spec fn is_shown_in(
    g: Grammar,
    source: Seq<u8>,
    defs: Seq<DefV>,
    t: usize,
    call: CallV,
) -> bool {
    let results = call_results(g, defs[t as int].name, source);
    exists|i: int| 0 <= i < results.len() && shown_call(t, #[trigger] results[i], defs) == Some(call)
}

/// Whether a call is shown in a definition of a file.
pub open spec fn is_shown_by_name(
    g: Grammar,
    file: Seq<char>,
    source: Seq<u8>,
    defs: Seq<DefV>,
    call: CallV,
) -> bool {
    exists|t: usize|
        t < defs.len() && defs[t as int].id.file == file && #[trigger] is_shown_in(
            g,
            source,
            defs,
            t,
            call,
        )
}

proof fn lemma_shown_calls(caller: usize, results: Seq<Seq<char>>, defs: Seq<DefV>, call: CallV)
    ensures
        shown_calls(caller, results, defs).contains(call) <==> exists|i: int|
            0 <= i < results.len() && shown_call(caller, #[trigger] results[i], defs) == Some(call),
    decreases results.len(),
{
    if results.len() > 0 {
        let init = results.drop_last();
        let n = results.len() - 1;
        lemma_shown_calls(caller, init, defs, call);
        let before = shown_calls(caller, init, defs);
        let all = shown_calls(caller, results, defs);
        assert(results[n] == results.last());
        if all.contains(call) {
            if before.contains(call) {
                let i = choose|i: int|
                    0 <= i < init.len() && shown_call(caller, #[trigger] init[i], defs) == Some(
                        call,
                    );
                assert(results[i] == init[i]);
            } else {
                let k = all.index_of(call);
                if k < before.len() {
                    assert(before[k] == call);
                }
            }
        }
        if exists|i: int|
            0 <= i < results.len() && shown_call(caller, #[trigger] results[i], defs) == Some(
                call,
            ) {
            let i = choose|i: int|
                0 <= i < results.len() && shown_call(caller, #[trigger] results[i], defs) == Some(
                    call,
                );
            if i < n {
                assert(init[i] == results[i]);
                assert(all[before.index_of(call)] == call);
            } else {
                assert(all[before.len() as int] == call);
            }
        }
    }
}

/// The calls in the given definitions, where `res` gives the results for each.
spec fn calls_with(
    here: Seq<usize>,
    res: spec_fn(usize) -> Seq<Seq<char>>,
    defs: Seq<DefV>,
) -> Seq<CallV>
    decreases here.len(),
{
    if here.len() == 0 {
        Seq::empty()
    } else {
        calls_with(here.drop_last(), res, defs) + shown_calls(here.last(), res(here.last()), defs)
    }
}

/// Whether one of the results for a definition shows a call.
spec fn has_result(
    res: spec_fn(usize) -> Seq<Seq<char>>,
    defs: Seq<DefV>,
    t: usize,
    call: CallV,
) -> bool {
    exists|i: int| 0 <= i < res(t).len() && shown_call(t, #[trigger] res(t)[i], defs) == Some(call)
}

proof fn lemma_calls_with(
    here: Seq<usize>,
    res: spec_fn(usize) -> Seq<Seq<char>>,
    defs: Seq<DefV>,
    call: CallV,
)
    ensures
        calls_with(here, res, defs).contains(call) <==> exists|k: int|
            0 <= k < here.len() && has_result(res, defs, #[trigger] here[k], call),
    decreases here.len(),
{
    if here.len() > 0 {
        let init = here.drop_last();
        let n = here.len() - 1;
        let caller = here.last();
        lemma_calls_with(init, res, defs, call);
        lemma_shown_calls(caller, res(caller), defs, call);
        let before = calls_with(init, res, defs);
        let own = shown_calls(caller, res(caller), defs);
        let all = calls_with(here, res, defs);
        assert(here[n] == caller);
        assert(own.contains(call) <==> has_result(res, defs, caller, call));
        if all.contains(call) {
            let k = all.index_of(call);
            if k < before.len() {
                assert(before[k] == call);
                let j = choose|j: int|
                    0 <= j < init.len() && has_result(res, defs, #[trigger] init[j], call);
                assert(here[j] == init[j]);
            } else {
                assert(own[k - before.len()] == call);
            }
        }
        if exists|k: int| 0 <= k < here.len() && has_result(res, defs, #[trigger] here[k], call) {
            let k = choose|k: int|
                0 <= k < here.len() && has_result(res, defs, #[trigger] here[k], call);
            if k < n {
                assert(init[k] == here[k]);
                assert(all[before.index_of(call)] == call);
            } else {
                assert(all[before.len() + own.index_of(call)] == call);
            }
        }
    }
}

proof fn lemma_calls_in(g: Grammar, here: Seq<usize>, source: Seq<u8>, defs: Seq<DefV>)
    ensures
        calls_in(g, here, source, defs) == calls_with(
            here,
            |t: usize| call_results(g, defs[t as int].name, source),
            defs,
        ),
    decreases here.len(),
{
    if here.len() > 0 {
        lemma_calls_in(g, here.drop_last(), source, defs);
    }
}

// ── What results are read as ─────────────────────────────────────────────────

proof fn lemma_trim_back_keeps(a: Seq<char>, b: Seq<char>) -> (rest: Seq<char>)
    ensures
        text::trim_back(a + "("@ + b, '"') == a + "("@ + rest,
    decreases b.len(),
{
    reveal_strlit("(");
    let s = a + "("@ + b;
    if b.len() == 0 {
        assert(s.last() == '(');
        b
    } else if b.last() == '"' {
        assert(s.last() == b.last());
        assert(s.drop_last() =~= a + "("@ + b.drop_last());
        lemma_trim_back_keeps(a, b.drop_last())
    } else {
        assert(s.last() == b.last());
        b
    }
}

proof fn lemma_before(a: Seq<char>, b: Seq<char>, i: nat)
    requires
        !a.contains('('),
        i <= a.len(),
    ensures
        text::find_from(a + "("@ + b, i, '(') == a.len(),
    decreases a.len() - i,
{
    reveal_strlit("(");
    let s = a + "("@ + b;
    if i < a.len() {
        assert(s[i as int] == a[i as int]);
        assert(a.contains(a[i as int]));
        lemma_before(a, b, i + 1);
    } else {
        assert(s[i as int] == '(');
    }
}

proof fn lemma_untrimmed(s: Seq<char>)
    requires
        s.len() > 0,
        !text::whitespace(s[0]),
        !text::whitespace(s.last()),
    ensures
        text::trimmed(s) == s,
{
}

/// Whether a text begins and ends with no white space.
pub open spec fn is_tight(s: Seq<char>) -> bool {
    s.len() > 0 && !text::whitespace(s[0]) && !text::whitespace(s.last())
}

/// What a call calls is what stands before its arguments, without what it is called on:
/// `f(x)` is a call of `f`, and `a.b.f(x)` is one of `f`, too.
pub proof fn law_called_name(on: Seq<char>, name: Seq<char>, args: Seq<char>)
    requires
        name.len() > 0,
        !name.contains('(') && !name.contains('.') && name[0] != '"',
        on.len() > 0 && on[0] != '"' && !on.contains('('),
    ensures
        is_tight(name) ==> called_name("\""@ + name + "("@ + args) == name,
        is_tight(name) && is_tight(on + "."@ + name) ==> called_name(
            "\""@ + (on + "."@ + name) + "("@ + args,
        ) == name,
{
    reveal_strlit("\"");
    reveal_strlit(".");
    if is_tight(name) {
        lemma_callee(name, args);
        text::lemma_no_index(name, '.');
        lemma_untrimmed(name);
        let whole = on + "."@ + name;
        if is_tight(whole) {
            assert(whole[0] == on[0]);
            assert(!whole.contains('(')) by {
                if whole.contains('(') {
                    let k = whole.index_of('(');
                    if k < on.len() {
                        assert(on[k] == '(');
                    } else if k > on.len() {
                        assert(name[k - on.len() - 1] == '(');
                    }
                }
            }
            lemma_callee(whole, args);
            lemma_untrimmed(whole);
            let k = on.len() as int;
            assert(whole[k] == '.');
            assert forall|j: int| k < j < whole.len() implies whole[j] != '.' by {
                assert(whole[j] == name[j - k - 1]);
                assert(name.contains(name[j - k - 1]));
            }
            text::lemma_last_index(whole, '.', k);
            assert(whole.skip(k + 1) =~= name);
        }
    }
}

proof fn lemma_callee(whole: Seq<char>, args: Seq<char>)
    requires
        whole.len() > 0,
        whole[0] != '"',
        !whole.contains('('),
    ensures
        ({
            let shown = "\""@ + whole + "("@ + args;
            text::before_char(text::trim_back(text::trim_front(shown, '"'), '"'), '(') == whole
        }),
{
    reveal_strlit("\"");
    reveal_strlit("(");
    let shown = "\""@ + whole + "("@ + args;
    let inner = whole + "("@ + args;
    assert(shown[0] == '"');
    assert(shown.drop_first() =~= inner);
    assert(inner[0] == whole[0]);
    assert(text::trim_front(inner, '"') == inner);
    assert(text::trim_front(shown, '"') == inner);
    let rest = lemma_trim_back_keeps(whole, args);
    lemma_before(whole, rest, 0);
    assert((whole + "("@ + rest).take(whole.len() as int) =~= whole);
}

/// A result that shows a capture is read back: its line, and what is called in it.
pub proof fn law_capture_is_read_back(name: Seq<char>, line: usize, shown: Seq<char>)
    requires
        called_name(shown).len() > 0,
    ensures
        ({
            let part = "@"@ + name + ":"@ + text::decimal_digits(line as nat) + ": "@ + shown;
            is_tight(part) ==> {
                &&& capture_in(seq![part], capture_prefix(name)) == Some(called_name(shown))
                &&& line_in(seq![part], capture_prefix(name)) == Some(line)
            }
        }),
{
    reveal_strlit(":");
    reveal_strlit(": ");
    let digits = text::decimal_digits(line as nat);
    let prefix = capture_prefix(name);
    let part = "@"@ + name + ":"@ + digits + ": "@ + shown;
    if is_tight(part) {
        lemma_untrimmed(part);
        let rest = digits + ": "@ + shown;
        assert(part =~= prefix + rest);
        assert(part.take(prefix.len() as int) =~= prefix);
        assert(part.skip(prefix.len() as int) =~= rest);
        text::law_decimal_read_back(line);
        lemma_no_colon(line as nat);
        lemma_after_digits(digits, shown, 0);
        lemma_before_colon(digits, shown, 0);
        assert(rest.take(digits.len() as int) =~= digits);
        assert(rest.skip(digits.len() as int + 2) =~= shown);
        assert(seq![part][0] == part);
    }
}

proof fn lemma_no_colon(n: nat)
    ensures
        !text::decimal_digits(n).contains(':'),
    decreases n,
{
    let d = text::decimal_digits(n);
    let last = text::digit_char(n % 10);
    assert(last != ':');
    if n >= 10 {
        lemma_no_colon(n / 10);
    }
    if d.contains(':') {
        let k = d.index_of(':');
        if n >= 10 {
            let front = text::decimal_digits(n / 10);
            if k < front.len() {
                assert(front[k] == ':');
                assert(front.contains(':'));
            }
        }
    }
}

proof fn lemma_after_digits(digits: Seq<char>, shown: Seq<char>, i: nat)
    requires
        !digits.contains(':'),
        i <= digits.len(),
    ensures
        text::find_text(digits + ": "@ + shown, i, ": "@) == Some(digits.len()),
    decreases digits.len() - i,
{
    reveal_strlit(": ");
    let s = digits + ": "@ + shown;
    if i < digits.len() {
        assert(s.subrange(i as int, i as int + 2)[0] == digits[i as int]);
        assert(digits.contains(digits[i as int]));
        lemma_after_digits(digits, shown, i + 1);
    } else {
        assert(s.subrange(i as int, i as int + 2) =~= ": "@);
    }
}

proof fn lemma_before_colon(digits: Seq<char>, shown: Seq<char>, i: nat)
    requires
        !digits.contains(':'),
        i <= digits.len(),
    ensures
        text::find_from(digits + ": "@ + shown, i, ':') == digits.len(),
    decreases digits.len() - i,
{
    reveal_strlit(": ");
    let s = digits + ": "@ + shown;
    if i < digits.len() {
        assert(s[i as int] == digits[i as int]);
        assert(digits.contains(digits[i as int]));
        lemma_before_colon(digits, shown, i + 1);
    } else {
        assert(s[i as int] == ':');
    }
}

} // verus!
