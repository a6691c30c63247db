//! Structural outlines.

use ctsq::tree::{collect_function_locs, run};

fn outline(path: &str, lang_name: Option<&str>, source: &str) -> Vec<String> {
    run(path, lang_name, source.as_bytes()).unwrap()
}

fn functions(lang_name: &str, source: &str) -> Vec<(String, usize)> {
    collect_function_locs(source.as_bytes(), lang_name)
}

#[test]
fn outline_of_a_go_file() {
    let src = "package main\n\nimport \"fmt\"\n\ntype Server struct {\n\thost string\n}\n\nfunc (s *Server) Start() {\n\tfmt.Println(s.host)\n}\n\nfunc NewServer() *Server {\n\treturn nil\n}\n\nfunc main() {\n\tNewServer().Start()\n}\n";
    assert_eq!(
        outline("fixtures/example.go", None, src),
        vec![
            "fixtures/example.go",
            "├── type Server  :5",
            "├── fn Start  :9",
            "├── fn NewServer  :13",
            "└── fn main  :17",
        ]
    );
    assert_eq!(
        functions("go", src),
        vec![
            ("Start".to_string(), 9),
            ("NewServer".to_string(), 13),
            ("main".to_string(), 17),
        ]
    );
}

#[test]
fn outline_of_a_cpp_file() {
    let src = "int counter = 0;\nnamespace geo {\nclass Shape {\npublic:\n  int area();\n  void draw() { }\n};\nstruct { int x; } anon;\nvoid free_fn() {}\n}\nint *make(int n) { return 0; }\n";
    let lines = outline("a.cpp", None, src);
    assert_eq!(lines[0], "a.cpp");
    assert_eq!(lines[1], "├── var counter  :1");
    assert_eq!(lines[2], "├── namespace geo  :2");
    assert_eq!(lines[3], "│   ├── class Shape  :3");
    assert_eq!(lines[4], "│   │   ├── fn area  :5");
    assert_eq!(lines[5], "│   │   └── fn draw  :6");
    assert_eq!(lines[lines.len() - 2], "│   └── fn free_fn  :9");
    assert_eq!(lines[lines.len() - 1], "└── fn make  :11");
    assert_eq!(
        functions("cpp", src),
        vec![
            ("area".to_string(), 5),
            ("draw".to_string(), 6),
            ("free_fn".to_string(), 9),
            ("make".to_string(), 11),
        ]
    );
}

#[test]
fn c_has_no_classes() {
    let src = "struct S { int x; };\nint n;\nvoid f(void) { int local = 1; }\n";
    assert_eq!(
        outline("a.c", None, src),
        vec!["a.c", "├── var n  :2", "└── fn f  :3"]
    );
}

#[test]
fn outline_of_a_python_file() {
    let src = "x = 1\na, b = 1, 2\nclass C:\n    y = 2\n    def m(self):\n        pass\n    class D:\n        def n(self):\n            pass\ndef f():\n    z = 3\n";
    assert_eq!(
        outline("a.py", None, src),
        vec![
            "a.py",
            "├── var x  :1",
            "├── class C  :3",
            "│   ├── fn m  :5",
            "│   └── class D  :7",
            "│       └── fn n  :8",
            "└── fn f  :10",
        ]
    );
}

#[test]
fn outline_of_a_javascript_file() {
    let src = "const helper = () => {\n};\nlet n = 1, k = 2;\nvar g;\nclass A {\n  run() {}\n}\nfunction main() {\n  const inner = 1;\n}\n";
    assert_eq!(
        outline("a.js", None, src),
        vec![
            "a.js",
            "├── fn helper  :1",
            "├── var n  :3",
            "├── var g  :4",
            "├── class A  :5",
            "│   └── fn run  :6",
            "└── fn main  :8",
        ]
    );
}

#[test]
fn outline_of_a_rust_file() {
    let src = "const MAX: u32 = 1;\nstatic mut N: u32 = 0;\nstruct S { x: u32 }\nenum E { A }\ntrait T {\n  fn sig(&self);\n  fn dflt(&self) {}\n}\nimpl T for S {\n  const K: u32 = 1;\n  fn sig(&self) {}\n}\nmod inner {\n  pub fn f() {}\n}\nfn main() {}\n";
    assert_eq!(
        outline("src/a.rs", None, src),
        vec![
            "src/a.rs",
            "├── var MAX  :1",
            "├── var N  :2",
            "├── struct S  :3",
            "├── enum E  :4",
            "├── trait T  :5",
            "│   └── fn dflt  :7",
            "├── impl S  :9",
            "│   └── fn sig  :11",
            "├── mod inner  :13",
            "│   └── fn f  :14",
            "└── fn main  :16",
        ]
    );
}

#[test]
fn a_given_language_overrides_the_extension() {
    assert_eq!(
        outline("notes.txt", Some("python"), "def f():\n    pass\n"),
        vec!["notes.txt", "└── fn f  :1"]
    );
    // a short name of a language selects the grammar, and has no entries
    assert_eq!(outline("a.py", Some("py"), "def f():\n    pass\n"), vec!["a.py"]);
}

#[test]
fn outline_errors() {
    assert_eq!(
        run("notes.txt", None, b""),
        Err("Cannot detect language; use --lang".to_string())
    );
    assert_eq!(
        run("a.c", Some("cobol"), b""),
        Err("Unknown language: cobol".to_string())
    );
}

#[test]
fn function_locations_of_unknown_languages_are_empty() {
    assert!(functions("cobol", "fn f() {}").is_empty());
    assert!(functions("rs", "fn f() {}").is_empty());
}

#[test]
fn every_function_of_the_index_is_in_the_outline() {
    let src = "mod a {\n  impl X { fn one() {} }\n  mod b { fn two() {} }\n}\nfn three() {}\n";
    let lines = outline("a.rs", None, src);
    let found = functions("rust", src);
    assert_eq!(found.len(), 3);
    for (name, line) in found {
        let end = format!("fn {}  :{}", name, line);
        assert!(lines.iter().any(|l| l.ends_with(&end)), "{:?} has no {:?}", lines, end);
    }
}

#[test]
fn function_expressions_are_functions() {
    let src = "const f = function() {};\nconst g = () => 1;\nconst h = 1;\n";
    assert_eq!(
        outline("a.js", None, src),
        vec!["a.js", "├── fn f  :1", "├── fn g  :2", "└── var h  :3"]
    );
}
