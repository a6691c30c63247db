//! Which files a command works on.

use ctsq::files::{collect_files, resolve_jobs, search_jobs, unknown_language_message};

fn strings(v: &[&str]) -> Vec<String> {
    v.iter().map(|s| s.to_string()).collect()
}

fn below() -> Vec<String> {
    strings(&["d/z.rs", "d/a.h", "d/b.go", "d/readme.md", "d/.go", "d/sub/m.cpp", "d/A.rs", "d/x.py"])
}

#[test]
fn files_are_collected_by_extension_and_sorted() {
    assert_eq!(
        collect_files(&below(), &["rs", "h"]),
        strings(&["d/A.rs", "d/a.h", "d/z.rs"])
    );
    assert_eq!(collect_files(&below(), &[]), strings(&[]));
}

#[test]
fn a_directory_gives_all_files_of_known_languages() {
    let found = below();
    assert_eq!(
        resolve_jobs("d", Some(&found), None).unwrap(),
        vec![
            ("d/A.rs".to_string(), "rust"),
            ("d/a.h".to_string(), "c"),
            ("d/b.go".to_string(), "go"),
            ("d/sub/m.cpp".to_string(), "cpp"),
            ("d/x.py".to_string(), "python"),
            ("d/z.rs".to_string(), "rust"),
        ]
    );
}

#[test]
fn a_language_limits_a_directory_to_its_files() {
    let found = below();
    let expected = vec![("d/a.h".to_string(), "cpp"), ("d/sub/m.cpp".to_string(), "cpp")];
    assert_eq!(resolve_jobs("d", Some(&found), Some("c++")).unwrap(), expected);
    assert_eq!(search_jobs("d", Some(&found), Some("c++")).unwrap(), expected);
    assert_eq!(resolve_jobs("d", Some(&found), Some("cobol")).unwrap(), vec![]);
    assert_eq!(search_jobs("d", Some(&found), Some("cobol")).unwrap(), vec![]);
}

#[test]
fn a_file_has_the_given_language_or_that_of_its_extension() {
    assert_eq!(resolve_jobs("a.rs", None, None).unwrap(), vec![("a.rs".to_string(), "rust")]);
    assert_eq!(resolve_jobs("a.rs", None, Some("js")).unwrap(), vec![("a.rs".to_string(), "javascript")]);
    assert_eq!(resolve_jobs("a.rs", None, Some("cobol")).unwrap(), vec![("a.rs".to_string(), "rust")]);
    assert_eq!(search_jobs("a.rs", None, None).unwrap(), vec![("a.rs".to_string(), "rust")]);
    assert_eq!(search_jobs("a.txt", None, Some("go")).unwrap(), vec![("a.txt".to_string(), "go")]);
}

#[test]
fn files_without_a_language_are_refused() {
    assert_eq!(
        resolve_jobs("a.txt", None, None),
        Err("Cannot detect language; use --lang".to_string())
    );
    assert_eq!(
        resolve_jobs("Makefile", None, Some("cobol")),
        Err("Cannot detect language; use --lang".to_string())
    );
    assert_eq!(
        search_jobs("a.txt", None, None),
        Err("Cannot detect language from extension .txt; use --lang".to_string())
    );
    assert_eq!(
        search_jobs("Makefile", None, None),
        Err("Cannot detect language from extension .; use --lang".to_string())
    );
    assert_eq!(search_jobs("a.rs", None, Some("cobol")), Err(unknown_language_message("cobol")));
    assert_eq!(
        unknown_language_message("cobol"),
        "Unknown language: cobol. Supported: c, cpp, javascript, python, rust, go"
    );
}
