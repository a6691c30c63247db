//! Which files a command works on, and in which language.

use vstd::prelude::*;
use crate::compiler::lang;
use crate::compiler::lang::{
    all_known_extensions, extensions_for_name, lang_for_extension, lang_for_name_canonical,
};
use crate::order;
use crate::order::sort_strings;
use crate::path;
use crate::path::extension;
use crate::syntax::Grammar;
use crate::text;
use crate::text::{push_string, str_eq};

verus! {

broadcast use vstd::string::group_string_axioms;

/// A file of a project.
#[derive(Debug)]
pub struct SourceFile {
    pub file: String,
    pub lang_name: &'static str,
    /// What the file holds, if it could be read.
    pub source: Option<Vec<u8>>,
}

/// View of a [`SourceFile`].
#[verifier::ext_equal]
pub struct FileV {
    pub file: Seq<char>,
    pub lang_name: Seq<char>,
    pub source: Option<Seq<u8>>,
}

impl View for SourceFile {
    type V = FileV;

    open spec fn view(&self) -> FileV {
        FileV {
            file: self.file@,
            lang_name: self.lang_name@,
            source: match self.source {
                Some(s) => Some(s@),
                None => None,
            },
        }
    }
}

/// Holds of the paths with one of the extensions.
pub open spec fn has_extension(exts: Seq<Seq<char>>) -> spec_fn(Seq<char>) -> bool {
    |p: Seq<char>|
        match path::extension_spec(p) {
            Some(ext) => exts.contains(ext),
            None => false,
        }
}

/// The paths with one of the extensions, in order.
pub open spec fn collected(paths: Seq<Seq<char>>, exts: Seq<Seq<char>>) -> Seq<Seq<char>> {
    order::stable_sort(paths.filter(has_extension(exts)), order::text_order())
}

/// The extensions that are looked for in a directory.
pub open spec fn wanted_extensions(lang_name: Option<Seq<char>>) -> Seq<Seq<char>> {
    match lang_name {
        Some(n) => match lang::grammar_named(n) {
            Some(g) => lang::extensions_of(g),
            None => Seq::empty(),
        },
        None => lang::known_extensions(),
    }
}

/// The language of a file: the given one, if it is known, or else that of the extension.
pub open spec fn language_for(p: Seq<char>, lang_name: Option<Seq<char>>) -> Option<Seq<char>> {
    let given = match lang_name {
        Some(n) => lang::grammar_named(n),
        None => None,
    };
    match given {
        Some(g) => Some(lang::canonical(g)),
        None => inferred_language(p),
    }
}

/// The language of the extension of a file.
pub open spec fn inferred_language(p: Seq<char>) -> Option<Seq<char>> {
    match path::extension_spec(p) {
        Some(ext) => match lang::grammar_of_extension(ext) {
            Some(g) => Some(lang::canonical(g)),
            None => None,
        },
        None => None,
    }
}

/// The files that have a language, each with it.
pub open spec fn with_languages(paths: Seq<Seq<char>>, lang_name: Option<Seq<char>>) -> Seq<
    (Seq<char>, Seq<char>),
>
    decreases paths.len(),
{
    if paths.len() == 0 {
        Seq::empty()
    } else {
        let init = with_languages(paths.drop_last(), lang_name);
        match language_for(paths.last(), lang_name) {
            Some(l) => init.push((paths.last(), l)),
            None => init,
        }
    }
}

/// The jobs for the files below a directory.
pub open spec fn directory_jobs(below: Seq<Seq<char>>, lang_name: Option<Seq<char>>) -> Seq<
    (Seq<char>, Seq<char>),
> {
    with_languages(collected(below, wanted_extensions(lang_name)), lang_name)
}

/// The files that are collected below a directory are those with one of the extensions, in
/// order.
pub proof fn law_collected_files(paths: Seq<Seq<char>>, exts: Seq<Seq<char>>)
    ensures
        order::is_sorted(collected(paths, exts), order::text_order()),
        collected(paths, exts).to_multiset() == paths.filter(has_extension(exts)).to_multiset(),
        forall|p: Seq<char>| #[trigger]
            collected(paths, exts).contains(p) <==> paths.contains(p) && has_extension(exts)(p),
{
    broadcast use vstd::seq_lib::group_filter_ensures;

    let kept = paths.filter(has_extension(exts));
    let all = collected(paths, exts);
    order::lemma_text_order();
    order::law_sort_orders(kept, order::text_order());
    kept.to_multiset_ensures();
    all.to_multiset_ensures();
    assert forall|p: Seq<char>| #[trigger] all.contains(p) <==> paths.contains(p)
        && has_extension(exts)(p) by {
        assert(all.to_multiset().contains(p) <==> kept.to_multiset().contains(p));
        if kept.contains(p) {
            paths.lemma_filter_contains_rev(has_extension(exts), p);
            assert(has_extension(exts)(kept[kept.index_of(p)]));
        }
        if paths.contains(p) && has_extension(exts)(p) {
            assert(kept.contains(paths[paths.index_of(p)]));
        }
    }
}

/// No file that is collected below a directory is left out for want of a language. Where a
/// language is given, all of them are in it.
pub proof fn law_every_collected_file_has_a_language(
    below: Seq<Seq<char>>,
    lang_name: Option<Seq<char>>,
)
    ensures
        directory_jobs(below, lang_name).len() == collected(
            below,
            wanted_extensions(lang_name),
        ).len(),
        forall|i: int|
            0 <= i < directory_jobs(below, lang_name).len() ==> {
                &&& (#[trigger] directory_jobs(below, lang_name)[i]).0 == collected(
                    below,
                    wanted_extensions(lang_name),
                )[i]
                &&& Some(directory_jobs(below, lang_name)[i].1) == language_for(
                    directory_jobs(below, lang_name)[i].0,
                    lang_name,
                )
                &&& lang_name matches Some(n) ==> lang::grammar_named(n) matches Some(g)
                    && directory_jobs(below, lang_name)[i].1 == lang::canonical(g)
            },
{
    let exts = wanted_extensions(lang_name);
    let files = collected(below, exts);
    law_collected_files(below, exts);
    assert forall|i: int| 0 <= i < files.len() implies language_for(
        #[trigger] files[i],
        lang_name,
    ) is Some && (lang_name matches Some(n) ==> lang::grammar_named(n) is Some) by {
        assert(files.contains(files[i]));
        let ext = path::extension_spec(files[i])->Some_0;
        assert(exts.contains(ext));
        if lang_name is None {
            lang::law_known_extensions(ext);
        }
    }
    lemma_with_languages(files, lang_name);
}

proof fn lemma_with_languages(paths: Seq<Seq<char>>, lang_name: Option<Seq<char>>)
    requires
        forall|i: int|
            0 <= i < paths.len() ==> language_for(#[trigger] paths[i], lang_name) is Some,
    ensures
        with_languages(paths, lang_name).len() == paths.len(),
        forall|i: int|
            0 <= i < paths.len() ==> (#[trigger] with_languages(paths, lang_name)[i]).0 == paths[i]
                && Some(with_languages(paths, lang_name)[i].1) == language_for(
                paths[i],
                lang_name,
            ),
    decreases paths.len(),
{
    if paths.len() > 0 {
        let init = paths.drop_last();
        assert forall|i: int| 0 <= i < init.len() implies language_for(
            #[trigger] init[i],
            lang_name,
        ) is Some by {
            assert(init[i] == paths[i]);
        }
        lemma_with_languages(init, lang_name);
        assert(language_for(paths[paths.len() - 1], lang_name) is Some);
    }
}

/// The views of a list of jobs.
pub open spec fn jobs_view(jobs: Seq<(String, &'static str)>) -> Seq<(Seq<char>, Seq<char>)> {
    jobs.map_values(|j: (String, &'static str)| (j.0@, j.1@))
}

pub open spec fn jobs_result(r: Result<Vec<(String, &'static str)>, String>) -> Result<
    Seq<(Seq<char>, Seq<char>)>,
    Seq<char>,
> {
    match r {
        Ok(v) => Ok(jobs_view(v@)),
        Err(e) => Err(e@),
    }
}

/// The views of the paths below a directory, if it is one.
pub open spec fn below_view(below: Option<&Vec<String>>) -> Option<Seq<Seq<char>>> {
    match below {
        Some(v) => Some(text::views(v@)),
        None => None,
    }
}

/// The jobs for a path: a directory with files below it, or a file.
pub open spec fn jobs_for(
    p: Seq<char>,
    below: Option<Seq<Seq<char>>>,
    lang_name: Option<Seq<char>>,
) -> Result<Seq<(Seq<char>, Seq<char>)>, Seq<char>> {
    match below {
        Some(paths) => Ok(directory_jobs(paths, lang_name)),
        None => match language_for(p, lang_name) {
            Some(l) => Ok(seq![(p, l)]),
            None => Err("Cannot detect language; use --lang"@),
        },
    }
}

/// The jobs of a search for a path. A language that is given for a file has to be known.
pub open spec fn search_jobs_for(
    p: Seq<char>,
    below: Option<Seq<Seq<char>>>,
    lang_name: Option<Seq<char>>,
) -> Result<Seq<(Seq<char>, Seq<char>)>, Seq<char>> {
    match below {
        Some(paths) => Ok(directory_jobs(paths, lang_name)),
        None => match lang_name {
            Some(n) => match lang::grammar_named(n) {
                Some(g) => Ok(seq![(p, lang::canonical(g))]),
                None => Err(unknown_language(n)),
            },
            None => match inferred_language(p) {
                Some(l) => Ok(seq![(p, l)]),
                None => Err(
                    "Cannot detect language from extension ."@ + extension_or_empty(p)
                        + "; use --lang"@,
                ),
            },
        },
    }
}

/// The message for a language that is not known.
pub open spec fn unknown_language(n: Seq<char>) -> Seq<char> {
    "Unknown language: "@ + n + ". Supported: c, cpp, javascript, python, rust, go"@
}

pub open spec fn extension_or_empty(p: Seq<char>) -> Seq<char> {
    match path::extension_spec(p) {
        Some(ext) => ext,
        None => ""@,
    }
}

fn is_one_of(s: &str, list: &[&str]) -> (r: bool)
    ensures
        r == text::views(list@).contains(s@),
{
    let ghost all = text::views(list@);
    let mut i: usize = 0;
    while i < list.len()
        invariant
            i <= list@.len(),
            all == text::views(list@),
            forall|k: int| 0 <= k < i ==> all[k] != s@,
        decreases list@.len() - i,
    {
        assert(all[i as int] == list@[i as int]@);
        if str_eq(list[i], s) {
            return true;
        }
        i += 1;
    }
    false
}

/// The paths with one of the extensions, in order.
pub fn collect_files(paths: &Vec<String>, exts: &[&str]) -> (r: Vec<String>)
    ensures
        text::views(r@) == collected(text::views(paths@), text::views(exts@)),
{
    let ghost all = text::views(paths@);
    let ghost p = has_extension(text::views(exts@));
    let mut files: Vec<String> = Vec::new();
    let mut i: usize = 0;
    proof {
        reveal(Seq::filter);
        assert(text::views(files@) =~= all.take(0).filter(p));
    }
    while i < paths.len()
        invariant
            i <= paths@.len(),
            all == text::views(paths@),
            p == has_extension(text::views(exts@)),
            text::views(files@) == all.take(i as int).filter(p),
        decreases paths@.len() - i,
    {
        proof {
            reveal(Seq::filter);
            assert(all.take(i + 1).drop_last() =~= all.take(i as int));
            assert(all.take(i + 1).last() == paths@[i as int]@);
        }
        if let Some(ext) = extension(paths[i].as_str()) {
            if is_one_of(ext.as_str(), exts) {
                push_string(&mut files, paths[i].clone());
            }
        }
        i += 1;
    }
    assert(all.take(i as int) =~= all);
    sort_strings(&files)
}

fn infer_language(p: &str) -> (r: Option<&'static str>)
    ensures
        lang::opt_str(r) == inferred_language(p@),
{
    match extension(p) {
        Some(ext) => lang_for_extension(ext.as_str()),
        None => None,
    }
}

fn find_language(p: &str, lang_name: Option<&str>) -> (r: Option<&'static str>)
    ensures
        lang::opt_str(r) == language_for(p@, text::opt_view(lang_name)),
{
    if let Some(n) = lang_name {
        if let Some(l) = lang_for_name_canonical(n) {
            return Some(l);
        }
    }
    infer_language(p)
}

/// The jobs for the files below a directory.
fn jobs_below(below: &Vec<String>, lang_name: Option<&str>) -> (r: Vec<(String, &'static str)>)
    ensures
        jobs_view(r@) == directory_jobs(text::views(below@), text::opt_view(lang_name)),
{
    let exts: &[&str] = match lang_name {
        Some(n) => extensions_for_name(n),
        None => all_known_extensions(),
    };
    assert(text::views(exts@) == wanted_extensions(text::opt_view(lang_name)));
    let files: Vec<String> = collect_files(below, exts);
    let ghost all = text::views(files@);
    let ghost lv = text::opt_view(lang_name);
    let mut out: Vec<(String, &'static str)> = Vec::new();
    let mut i: usize = 0;
    assert(jobs_view(out@) =~= with_languages(all.take(0), lv));
    while i < files.len()
        invariant
            i <= files@.len(),
            all == text::views(files@),
            lv == text::opt_view(lang_name),
            jobs_view(out@) == with_languages(all.take(i as int), lv),
        decreases files@.len() - i,
    {
        let ghost now = jobs_view(out@);
        assert(all.take(i + 1).drop_last() =~= all.take(i as int));
        assert(all.take(i + 1).last() == files@[i as int]@);
        if let Some(l) = find_language(files[i].as_str(), lang_name) {
            out.push((files[i].clone(), l));
            assert(jobs_view(out@) =~= now.push((files@[i as int]@, l@)));
        }
        i += 1;
    }
    assert(all.take(i as int) =~= all);
    out
}

fn one_job(p: &str, l: &'static str) -> (r: Vec<(String, &'static str)>)
    ensures
        jobs_view(r@) == seq![(p@, l@)],
{
    let mut out: Vec<(String, &'static str)> = Vec::new();
    out.push((p.to_string(), l));
    assert(jobs_view(out@) =~= seq![(p@, l@)]);
    out
}

/// The files for a path, each with its language. `below` holds the paths of all files
/// below it, where it is a directory.
pub fn resolve_jobs(path: &str, below: Option<&Vec<String>>, lang_name: Option<&str>) -> (r: Result<
    Vec<(String, &'static str)>,
    String,
>)
    ensures
        jobs_result(r) == jobs_for(path@, below_view(below), text::opt_view(lang_name)),
{
    match below {
        Some(paths) => Ok(jobs_below(paths, lang_name)),
        None => match find_language(path, lang_name) {
            Some(l) => Ok(one_job(path, l)),
            None => Err("Cannot detect language; use --lang".to_string()),
        },
    }
}

/// The message for a language that is not known.
pub fn unknown_language_message(name: &str) -> (r: String)
    ensures
        r@ == unknown_language(name@),
{
    let mut message: String = "Unknown language: ".to_string();
    message.append(name);
    message.append(". Supported: c, cpp, javascript, python, rust, go");
    message
}

/// The files that a search for a path looks at, each with its language.
pub fn search_jobs(path: &str, below: Option<&Vec<String>>, lang_name: Option<&str>) -> (r: Result<
    Vec<(String, &'static str)>,
    String,
>)
    ensures
        jobs_result(r) == search_jobs_for(path@, below_view(below), text::opt_view(lang_name)),
{
    match below {
        Some(paths) => Ok(jobs_below(paths, lang_name)),
        None => match lang_name {
            Some(n) => match lang_for_name_canonical(n) {
                Some(l) => Ok(one_job(path, l)),
                None => Err(unknown_language_message(n)),
            },
            None => match infer_language(path) {
                Some(l) => Ok(one_job(path, l)),
                None => {
                    let ext: String = match extension(path) {
                        Some(ext) => ext,
                        None => "".to_string(),
                    };
                    let mut message: String =
                        "Cannot detect language from extension .".to_string();
                    message.append(ext.as_str());
                    message.append("; use --lang");
                    Err(message)
                },
            },
        },
    }
}

/// A file is worked on in the language that is given for it, or else in that of its extension;
/// without either it is an error. A search does not guess where a language that is not known is
/// given.
pub proof fn law_jobs_of_a_file(p: Seq<char>, ext: Seq<char>, g: Grammar, n: Seq<char>)
    requires
        path::extension_spec(p) == Some(ext),
        lang::grammar_of_extension(ext) == Some(g),
    ensures
        jobs_for(p, None, None) == Ok::<Seq<(Seq<char>, Seq<char>)>, Seq<char>>(
            seq![(p, lang::canonical(g))],
        ),
        search_jobs_for(p, None, None) == Ok::<Seq<(Seq<char>, Seq<char>)>, Seq<char>>(
            seq![(p, lang::canonical(g))],
        ),
        lang::grammar_named(n) matches Some(h) ==> jobs_for(p, None, Some(n)) == Ok::<
            Seq<(Seq<char>, Seq<char>)>,
            Seq<char>,
        >(seq![(p, lang::canonical(h))]) && search_jobs_for(p, None, Some(n)) == Ok::<
            Seq<(Seq<char>, Seq<char>)>,
            Seq<char>,
        >(seq![(p, lang::canonical(h))]),
        lang::grammar_named(n) is None ==> search_jobs_for(p, None, Some(n)) is Err && jobs_for(
            p,
            None,
            Some(n),
        ) == Ok::<Seq<(Seq<char>, Seq<char>)>, Seq<char>>(seq![(p, lang::canonical(g))]),
{
}

/// A file whose language is not known is an error.
pub proof fn law_no_language_is_an_error(p: Seq<char>)
    requires
        path::extension_spec(p) matches Some(ext) ==> lang::grammar_of_extension(ext) is None,
    ensures
        jobs_for(p, None, None) is Err,
        search_jobs_for(p, None, None) is Err,
{
}

/// The extensions of the files that are looked for: those of a language, or of all of them.
pub open spec fn searched_extensions(lang_name: Option<Seq<char>>) -> Seq<Seq<char>> {
    match lang_name {
        None => lang::known_extensions(),
        Some(n) => match lang::grammar_named(n) {
            None => Seq::empty(),
            Some(g) => lang::extensions_of(g),
        },
    }
}

/// A directory is worked on file by file: those below it with an extension of the language that is
/// given, or, without one, of any language; and none for a language that is not known.
pub proof fn law_jobs_of_a_directory(
    p: Seq<char>,
    below: Seq<Seq<char>>,
    lang_name: Option<Seq<char>>,
    f: Seq<char>,
)
    ensures
        jobs_for(p, Some(below), lang_name) is Ok,
        search_jobs_for(p, Some(below), lang_name) == jobs_for(p, Some(below), lang_name),
        (below.contains(f) && path::extension_spec(f) is Some && searched_extensions(
            lang_name,
        ).contains(path::extension_spec(f)->Some_0)) <==> exists|i: int|
            0 <= i < jobs_for(p, Some(below), lang_name)->Ok_0.len() && (#[trigger] jobs_for(
                p,
                Some(below),
                lang_name,
            )->Ok_0[i]).0 == f,
{
    let exts = wanted_extensions(lang_name);
    let files = collected(below, exts);
    let jobs = directory_jobs(below, lang_name);
    law_collected_files(below, exts);
    law_every_collected_file_has_a_language(below, lang_name);
    assert(files.contains(f) <==> below.contains(f) && has_extension(exts)(f));
    assert(exts == searched_extensions(lang_name));
    assert(jobs_for(p, Some(below), lang_name)->Ok_0 == jobs);
    if files.contains(f) {
        let i = files.index_of(f);
        assert(jobs[i].0 == f);
    }
    if exists|i: int| 0 <= i < jobs.len() && (#[trigger] jobs[i]).0 == f {
        let i = choose|i: int| 0 <= i < jobs.len() && (#[trigger] jobs[i]).0 == f;
        assert(jobs[i].0 == files[i]);
        assert(files.contains(files[i]));
    }
}

} // verus!
