//! What a search shows.

use vstd::prelude::*;
use crate::compiler;
use crate::compiler::{CompiledQuery, CompiledV, Search, SearchV};
use crate::text;
use crate::text::push_string;

verus! {

broadcast use vstd::string::group_string_axioms;

/// The lines for searches.
pub open spec fn search_lines(searches: Seq<SearchV>) -> Seq<Seq<char>> {
    searches.map_values(|s: SearchV| "  inside @"@ + s.0 + ": "@ + s.1)
}

/// The lines for a compiled query.
pub open spec fn query_lines(lang_name: Seq<char>, c: CompiledV) -> Seq<Seq<char>> {
    seq!["=== Compiled S-expression ("@ + lang_name + ") ==="@] + if compiler::has_no_pattern(c) {
        seq!["<no patterns — abstract type has no mapping in this language>"@]
    } else {
        match c {
            CompiledV::Simple(s) => seq![s],
            CompiledV::Scoped { outer, scope_field, inner } => seq![
                "[scoped two-phase query on field '"@ + scope_field + "']"@,
                "  outer: "@ + outer,
                "  inner: "@ + inner,
            ],
            CompiledV::Searched { pattern, searches } => seq![pattern] + search_lines(searches),
            CompiledV::ScopedSearch {
                outer,
                outer_searches,
                scope_field,
                inner,
                inner_searches,
            } => seq![
                "[scoped two-phase query on field '"@ + scope_field + "']"@,
                "  outer: "@ + outer,
            ] + search_lines(outer_searches) + seq!["  inner: "@ + inner] + search_lines(
                inner_searches,
            ),
        }
    }
}

/// The lines for the results in a file; each with the file in front, where there are
/// several files. That there are none is said where the query is shown.
pub open spec fn result_lines(
    file: Seq<char>,
    results: Seq<Seq<char>>,
    several: bool,
    show_query: bool,
) -> Seq<Seq<char>> {
    if results.len() == 0 {
        if show_query && !several {
            seq!["(no matches)"@]
        } else {
            Seq::empty()
        }
    } else if several {
        results.map_values(|m: Seq<char>| file + ":"@ + m)
    } else {
        results
    }
}

/// Appends the line for the field of a scope.
fn push_scope(out: &mut Vec<String>, field: &str)
    ensures
        text::views(final(out)@) == text::views(old(out)@).push(
            "[scoped two-phase query on field '"@ + field@ + "']"@,
        ),
{
    let mut line: String = "[scoped two-phase query on field '".to_string();
    line.append(field);
    line.append("']");
    push_string(out, line);
}

/// Appends a line with a label in front.
fn push_labelled(out: &mut Vec<String>, label: &str, text: &str)
    ensures
        text::views(final(out)@) == text::views(old(out)@).push(label@ + text@),
{
    let mut line: String = label.to_string();
    line.append(text);
    push_string(out, line);
}

/// Appends the lines for searches.
fn push_searches(out: &mut Vec<String>, searches: &Vec<Search>)
    ensures
        text::views(final(out)@) == text::views(old(out)@) + search_lines(
            text::views(searches@),
        ),
{
    let ghost start = text::views(out@);
    let ghost want = search_lines(text::views(searches@));
    let mut i: usize = 0;
    assert(text::views(out@) =~= start + want.take(0));
    while i < searches.len()
        invariant
            i <= searches@.len(),
            want == search_lines(text::views(searches@)),
            text::views(out@) == start + want.take(i as int),
        decreases searches@.len() - i,
    {
        let mut label: String = "  inside @".to_string();
        label.append(searches[i].capture.as_str());
        label.append(": ");
        push_labelled(out, label.as_str(), searches[i].pattern.as_str());
        i += 1;
        assert(want.take(i as int) =~= want.take(i - 1).push(want[i - 1]));
        assert(text::views(out@) =~= start + want.take(i as int));
    }
    assert(want.take(i as int) =~= want);
}

/// The lines for a compiled query.
pub fn show_query(lang_name: &str, compiled: &CompiledQuery) -> (r: Vec<String>)
    ensures
        text::views(r@) == query_lines(lang_name@, compiled@),
{
    let mut head: String = "=== Compiled S-expression (".to_string();
    head.append(lang_name);
    head.append(") ===");
    let mut out: Vec<String> = Vec::new();
    push_string(&mut out, head);
    if compiled.is_empty() {
        push_string(
            &mut out,
            "<no patterns — abstract type has no mapping in this language>".to_string(),
        );
    } else {
        match compiled {
            CompiledQuery::Simple(s) => {
                push_string(&mut out, s.clone());
            },
            CompiledQuery::Scoped { outer, scope_field, inner } => {
                push_scope(&mut out, scope_field.as_str());
                push_labelled(&mut out, "  outer: ", outer.as_str());
                push_labelled(&mut out, "  inner: ", inner.as_str());
            },
            CompiledQuery::Searched { pattern, searches } => {
                push_string(&mut out, pattern.clone());
                push_searches(&mut out, searches);
            },
            CompiledQuery::ScopedSearch {
                outer,
                outer_searches,
                scope_field,
                inner,
                inner_searches,
            } => {
                push_scope(&mut out, scope_field.as_str());
                push_labelled(&mut out, "  outer: ", outer.as_str());
                push_searches(&mut out, outer_searches);
                push_labelled(&mut out, "  inner: ", inner.as_str());
                push_searches(&mut out, inner_searches);
            },
        }
    }
    assert(text::views(out@) =~= query_lines(lang_name@, compiled@));
    out
}

/// The lines for the results in a file.
pub fn show_results(file: &str, results: Vec<String>, several: bool, show_query: bool) -> (r: Vec<
    String,
>)
    ensures
        text::views(r@) == result_lines(file@, text::views(results@), several, show_query),
{
    let mut out: Vec<String> = Vec::new();
    assert(text::views(out@) =~= Seq::empty());
    if results.len() == 0 {
        if show_query && !several {
            push_string(&mut out, "(no matches)".to_string());
            assert(text::views(out@) =~= seq!["(no matches)"@]);
        }
        return out;
    }
    if !several {
        return results;
    }
    let ghost want = text::views(results@).map_values(|m: Seq<char>| file@ + ":"@ + m);
    let mut i: usize = 0;
    assert(text::views(out@) =~= want.take(0));
    while i < results.len()
        invariant
            i <= results@.len(),
            want == text::views(results@).map_values(|m: Seq<char>| file@ + ":"@ + m),
            text::views(out@) == want.take(i as int),
        decreases results@.len() - i,
    {
        let mut line: String = file.to_string();
        line.append(":");
        line.append(results[i].as_str());
        push_string(&mut out, line);
        i += 1;
        assert(text::views(out@) =~= want.take(i as int));
    }
    assert(want.take(i as int) =~= want);
    out
}

/// The results of one file are shown as they are; those of several files each with the file in
/// front. That there are none is said only where one file is searched and the query is shown.
pub proof fn law_results_are_shown(file: Seq<char>, results: Seq<Seq<char>>, i: int)
    ensures
        results.len() > 0 ==> result_lines(file, results, false, true) == results && result_lines(
            file,
            results,
            false,
            false,
        ) == results,
        0 <= i < results.len() ==> result_lines(file, results, true, true)[i] == file + ":"@
            + results[i] && result_lines(file, results, true, false)[i] == file + ":"@
            + results[i],
        result_lines(file, results, true, true).len() == results.len(),
        result_lines(file, results, true, false).len() == results.len(),
        results.len() == 0 ==> result_lines(file, results, false, true) == seq!["(no matches)"@]
            && result_lines(file, results, false, false).len() == 0,
{
}

} // verus!
