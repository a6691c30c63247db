//! Paths with slashes, against those of the standard library.

use ctsq::path::{extension, file_name, file_stem, same_parent};
use std::path::Path;

const PATHS: [&str; 20] = [
    "", "/", ".", "..", "a", "a.rs", "/a/b.rs", "a//b.tar.gz", "a/.hidden", ".x.y", "a/b/", "a/b/.",
    "./a.c", "a/./b.go", "a/../b.c", "..", "a/..", "/.", "x.", "dir.d/file",
];

#[test]
fn parts_of_paths() {
    for p in PATHS {
        let path = Path::new(p);
        let name = path.file_name().map(|s| s.to_str().unwrap().to_string());
        let stem = path.file_stem().map(|s| s.to_str().unwrap().to_string());
        let ext = path.extension().map(|s| s.to_str().unwrap().to_string());
        assert_eq!(file_name(p), name, "{:?}", p);
        assert_eq!(file_stem(p), stem, "{:?}", p);
        assert_eq!(extension(p), ext, "{:?}", p);
    }
}

#[test]
fn parents_of_paths() {
    for a in PATHS {
        for b in PATHS {
            let expected = Path::new(a).parent() == Path::new(b).parent();
            assert_eq!(same_parent(a, b), expected, "{:?} {:?}", a, b);
        }
    }
}
