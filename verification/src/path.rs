//! File paths, with `/` as the separator.

use vstd::prelude::*;
use crate::text;
use crate::text::{rsplit_once, split, str_eq};

verus! {

broadcast use vstd::string::group_string_axioms;

/// A component of a path.
#[derive(Debug)]
pub enum Part {
    /// The `/` in front of an absolute path.
    Root,
    /// A `.` in front of a relative path.
    Current,
    /// `..`
    Up,
    Name(String),
}

/// View of a [`Part`].
#[verifier::ext_equal]
pub enum PartV {
    Root,
    Current,
    Up,
    Name(Seq<char>),
}

impl View for Part {
    type V = PartV;

    open spec fn view(&self) -> PartV {
        match *self {
            Part::Root => PartV::Root,
            Part::Current => PartV::Current,
            Part::Up => PartV::Up,
            Part::Name(s) => PartV::Name(s@),
        }
    }
}

/// The components that the pieces between the separators stand for. An empty piece is
/// none, and `.` is one only in front of a relative path.
pub open spec fn parts_of(pieces: Seq<Seq<char>>) -> Seq<PartV>
    decreases pieces.len(),
{
    if pieces.len() == 0 {
        Seq::empty()
    } else {
        let init = parts_of(pieces.drop_last());
        let piece = pieces.last();
        if piece.len() == 0 {
            if pieces.len() == 1 {
                seq![PartV::Root]
            } else {
                init
            }
        } else if piece == "."@ {
            if pieces.len() == 1 {
                seq![PartV::Current]
            } else {
                init
            }
        } else if piece == ".."@ {
            init.push(PartV::Up)
        } else {
            init.push(PartV::Name(piece))
        }
    }
}

/// The components of a path.
pub open spec fn components_spec(path: Seq<char>) -> Seq<PartV> {
    if path.len() == 0 {
        Seq::empty()
    } else {
        parts_of(text::split_spec(path, "/"@))
    }
}

/// The components of a path without the last one. A path that ends in its root, or has no
/// component, has no parent.
pub open spec fn parent_spec(path: Seq<char>) -> Option<Seq<PartV>> {
    let parts = components_spec(path);
    if parts.len() == 0 || parts.last() == PartV::Root {
        None
    } else {
        Some(parts.drop_last())
    }
}

/// The last component of a path, if it is a name.
pub open spec fn file_name_spec(path: Seq<char>) -> Option<Seq<char>> {
    let parts = components_spec(path);
    if parts.len() == 0 {
        None
    } else {
        match parts.last() {
            PartV::Name(s) => Some(s),
            _ => None,
        }
    }
}

/// The file name up to its last dot; all of it, if that dot is its first character or
/// there is none.
pub open spec fn file_stem_spec(path: Seq<char>) -> Option<Seq<char>> {
    match file_name_spec(path) {
        Some(name) => match text::rsplit_once_spec(name, '.') {
            Some((before, after)) => if before.len() == 0 {
                Some(name)
            } else {
                Some(before)
            },
            None => Some(name),
        },
        None => None,
    }
}

/// What follows the last dot of the file name, unless that dot is its first character.
pub open spec fn extension_spec(path: Seq<char>) -> Option<Seq<char>> {
    match file_name_spec(path) {
        Some(name) => match text::rsplit_once_spec(name, '.') {
            Some((before, after)) => if before.len() == 0 {
                None
            } else {
                Some(after)
            },
            None => None,
        },
        None => None,
    }
}

/// The components of a path.
pub fn components(path: &str) -> (r: Vec<Part>)
    ensures
        text::views(r@) == components_spec(path@),
{
    let mut out: Vec<Part> = Vec::new();
    assert(text::views(out@) =~= Seq::empty());
    if path.is_empty() {
        return out;
    }
    proof {
        reveal_strlit("/");
    }
    let pieces: Vec<String> = split(path, "/");
    let ghost all = text::views(pieces@);
    let mut i: usize = 0;
    while i < pieces.len()
        invariant
            i <= pieces@.len(),
            all == text::views(pieces@),
            text::views(out@) == parts_of(all.take(i as int)),
        decreases pieces@.len() - i,
    {
        let ghost before = text::views(out@);
        let piece: &String = &pieces[i];
        assert(all.take(i + 1).drop_last() =~= all.take(i as int));
        assert(all.take(i + 1).last() == piece@);
        if piece.as_str().is_empty() {
            if i == 0 {
                out.push(Part::Root);
                assert(text::views(out@) =~= seq![PartV::Root]);
            }
        } else if str_eq(piece.as_str(), ".") {
            if i == 0 {
                out.push(Part::Current);
                assert(text::views(out@) =~= seq![PartV::Current]);
            }
        } else if str_eq(piece.as_str(), "..") {
            out.push(Part::Up);
            assert(text::views(out@) =~= before.push(PartV::Up));
        } else {
            out.push(Part::Name(piece.clone()));
            assert(text::views(out@) =~= before.push(PartV::Name(piece@)));
        }
        i += 1;
    }
    assert(all.take(i as int) =~= all);
    out
}

/// The components of a path without the last one.
pub fn parent(path: &str) -> (r: Option<Vec<Part>>)
    ensures
        (match r {
            Some(v) => Some(text::views(v@)),
            None => None,
        }) == parent_spec(path@),
{
    let mut parts: Vec<Part> = components(path);
    let ghost all = text::views(parts@);
    if parts.len() == 0 {
        return None;
    }
    assert(all.last() == parts@[parts@.len() - 1]@);
    if matches!(parts[parts.len() - 1], Part::Root) {
        return None;
    }
    parts.pop();
    assert(text::views(parts@) =~= all.drop_last());
    Some(parts)
}

fn part_eq(a: &Part, b: &Part) -> (r: bool)
    ensures
        r == (a@ == b@),
{
    match (a, b) {
        (Part::Root, Part::Root) => true,
        (Part::Current, Part::Current) => true,
        (Part::Up, Part::Up) => true,
        (Part::Name(x), Part::Name(y)) => str_eq(x.as_str(), y.as_str()),
        _ => false,
    }
}

/// Whether two files lie in the same directory.
pub fn same_parent(a: &str, b: &str) -> (r: bool)
    ensures
        r == (parent_spec(a@) == parent_spec(b@)),
{
    match (parent(a), parent(b)) {
        (None, None) => true,
        (Some(x), Some(y)) => {
            let ghost xs = text::views(x@);
            let ghost ys = text::views(y@);
            if x.len() != y.len() {
                assert(xs.len() != ys.len());
                return false;
            }
            let mut i: usize = 0;
            while i < x.len()
                invariant
                    i <= x@.len() == y@.len(),
                    xs == text::views(x@),
                    ys == text::views(y@),
                    parent_spec(a@) == Some(xs),
                    parent_spec(b@) == Some(ys),
                    forall|k: int| 0 <= k < i ==> xs[k] == ys[k],
                decreases x@.len() - i,
            {
                if !part_eq(&x[i], &y[i]) {
                    assert(xs[i as int] != ys[i as int]);
                    return false;
                }
                i += 1;
            }
            assert(xs =~= ys);
            true
        },
        _ => false,
    }
}

/// The last component of a path, if it is a name.
pub fn file_name(path: &str) -> (r: Option<String>)
    ensures
        text::opt_view(r) == file_name_spec(path@),
{
    let parts: Vec<Part> = components(path);
    let ghost all = text::views(parts@);
    if parts.len() == 0 {
        return None;
    }
    assert(all.last() == parts@[parts@.len() - 1]@);
    match &parts[parts.len() - 1] {
        Part::Name(s) => Some(s.clone()),
        _ => None,
    }
}

/// The file name up to its last dot.
pub fn file_stem(path: &str) -> (r: Option<String>)
    ensures
        text::opt_view(r) == file_stem_spec(path@),
{
    match file_name(path) {
        Some(name) => match rsplit_once(name.as_str(), '.') {
            Some((before, after)) => if before.as_str().is_empty() {
                Some(name)
            } else {
                Some(before)
            },
            None => Some(name),
        },
        None => None,
    }
}

/// What follows the last dot of the file name.
pub fn extension(path: &str) -> (r: Option<String>)
    ensures
        text::opt_view(r) == extension_spec(path@),
{
    match file_name(path) {
        Some(name) => match rsplit_once(name.as_str(), '.') {
            Some((before, after)) => if before.as_str().is_empty() {
                None
            } else {
                Some(after)
            },
            None => None,
        },
        None => None,
    }
}

/// The names among the components.
pub open spec fn names_of(parts: Seq<PartV>) -> Seq<Seq<char>>
    decreases parts.len(),
{
    if parts.len() == 0 {
        Seq::empty()
    } else {
        match parts.last() {
            PartV::Name(s) => names_of(parts.drop_last()).push(s),
            _ => names_of(parts.drop_last()),
        }
    }
}

/// The names of the directories that a path leads through.
pub open spec fn dir_names_spec(path: Seq<char>) -> Seq<Seq<char>> {
    match parent_spec(path) {
        Some(parts) => names_of(parts),
        None => Seq::empty(),
    }
}

/// The names of the directories that a path leads through.
pub fn dir_names(path: &str) -> (r: Vec<String>)
    ensures
        text::views(r@) == dir_names_spec(path@),
{
    let mut out: Vec<String> = Vec::new();
    assert(text::views(out@) =~= Seq::empty());
    if let Some(parts) = parent(path) {
        let ghost all = text::views(parts@);
        let mut i: usize = 0;
        while i < parts.len()
            invariant
                i <= parts@.len(),
                all == text::views(parts@),
                text::views(out@) == names_of(all.take(i as int)),
            decreases parts@.len() - i,
        {
            assert(all.take(i + 1).drop_last() =~= all.take(i as int));
            assert(all.take(i + 1).last() == parts@[i as int]@);
            if let Part::Name(s) = &parts[i] {
                text::push_string(&mut out, s.clone());
            }
            i += 1;
        }
        assert(all.take(i as int) =~= all);
    }
    out
}

// ---------------------------------------------------------------------------
// Files in directories
// ---------------------------------------------------------------------------

proof fn lemma_slash(s: Seq<char>, k: nat)
    ensures
        text::occurs_at(s, k, "/"@) <==> k < s.len() && s[k as int] == '/',
        "/"@.len() == 1,
{
    reveal_strlit("/");
    if k < s.len() {
        let one = s.subrange(k as int, k as int + 1);
        assert(one[0] == s[k as int]);
        if s[k as int] == '/' {
            assert(one =~= "/"@);
        }
    }
}

proof fn lemma_no_slash(s: Seq<char>, i: nat)
    requires
        forall|k: int| i <= k < s.len() ==> s[k] != '/',
    ensures
        text::find_text(s, i, "/"@) is None,
    decreases s.len() + 1 - i,
{
    lemma_slash(s, i);
    if i < s.len() {
        lemma_no_slash(s, i + 1);
    }
}

proof fn lemma_first_slash(s: Seq<char>, i: nat, k: nat)
    requires
        i <= k < s.len(),
        s[k as int] == '/',
        forall|j: int| i <= j < k ==> s[j] != '/',
    ensures
        text::find_text(s, i, "/"@) == Some(k),
    decreases k - i,
{
    lemma_slash(s, i);
    if i < k {
        lemma_first_slash(s, i + 1, k);
    }
}

proof fn lemma_found_slash(s: Seq<char>, i: nat)
    ensures
        match text::find_text(s, i, "/"@) {
            Some(k) => i <= k < s.len() && s[k as int] == '/' && forall|j: int|
                i <= j < k ==> s[j] != '/',
            None => forall|j: int| i <= j < s.len() ==> s[j] != '/',
        },
    decreases s.len() + 1 - i,
{
    lemma_slash(s, i);
    if i < s.len() && s[i as int] != '/' {
        lemma_found_slash(s, i + 1);
    }
}

/// What stands behind the last slash is the last part.
pub proof fn lemma_split_at_end(a: Seq<char>, b: Seq<char>, i: nat)
    requires
        !b.contains('/'),
        i <= a.len(),
    ensures
        text::split_from(a + "/"@ + b, i, "/"@) == text::split_from(a, i, "/"@).push(b),
    decreases a.len() - i,
{
    reveal_strlit("/");
    let s = a + "/"@ + b;
    let n = a.len();
    assert(s[n as int] == '/');
    assert forall|j: int| n < j < s.len() implies s[j] != '/' by {
        assert(s[j] == b[j - n - 1]);
        assert(b.contains(b[j - n - 1]));
    }
    lemma_found_slash(a, i);
    match text::find_text(a, i, "/"@) {
        Some(k) => {
            assert(s[k as int] == a[k as int]);
            assert forall|j: int| i <= j < k implies s[j] != '/' by {
                assert(s[j] == a[j]);
            }
            lemma_first_slash(s, i, k);
            lemma_split_at_end(a, b, k + 1);
            assert(s.subrange(i as int, k as int) =~= a.subrange(i as int, k as int));
            assert(text::split_from(s, i, "/"@) =~= text::split_from(a, i, "/"@).push(b));
        },
        None => {
            assert forall|j: int| i <= j < n implies s[j] != '/' by {
                assert(s[j] == a[j]);
            }
            lemma_first_slash(s, i, n);
            lemma_no_slash(s, n + 1);
            assert(s.subrange(i as int, n as int) =~= a.subrange(i as int, n as int));
            assert(s.subrange(n as int + 1, s.len() as int) =~= b);
            assert(text::split_from(s, n + 1, "/"@) =~= seq![b]);
            assert(text::split_from(s, i, "/"@) =~= text::split_from(a, i, "/"@).push(b));
        },
    }
}

/// Whether a text is a name in a path.
pub open spec fn is_name(s: Seq<char>) -> bool {
    s.len() > 0 && !s.contains('/') && s != "."@ && s != ".."@
}

/// A file in a directory has its own name, and the directory for its parent, whatever the
/// directory is.
pub proof fn law_file_in_directory(dir: Seq<char>, name: Seq<char>)
    requires
        dir.len() > 0,
        is_name(name),
    ensures
        components_spec(dir + "/"@ + name) == components_spec(dir).push(PartV::Name(name)),
        file_name_spec(dir + "/"@ + name) == Some(name),
        parent_spec(dir + "/"@ + name) == Some(components_spec(dir)),
        dir_names_spec(dir + "/"@ + name) == names_of(components_spec(dir)),
        names_of(components_spec(dir + "/"@ + name)) == names_of(components_spec(dir)).push(name),
{
    reveal_strlit("/");
    let p = dir + "/"@ + name;
    lemma_split_at_end(dir, name, 0);
    let pieces = text::split_spec(dir, "/"@);
    let all = pieces.push(name);
    assert(all.drop_last() =~= pieces);
    assert(pieces.len() > 0);
    let parts = components_spec(p);
    assert(parts == components_spec(dir).push(PartV::Name(name)));
    assert(parts.drop_last() =~= components_spec(dir));
}

/// A name alone is in no directory.
pub proof fn law_name_alone(name: Seq<char>)
    requires
        is_name(name),
    ensures
        components_spec(name) == seq![PartV::Name(name)],
        file_name_spec(name) == Some(name),
        dir_names_spec(name).len() == 0,
        names_of(components_spec(name)) == seq![name],
{
    assert forall|k: int| 0 <= k < name.len() implies name[k] != '/' by {
        assert(name.contains(name[k]));
    }
    lemma_no_slash(name, 0);
    reveal_strlit("/");
    assert(name.subrange(0, name.len() as int) =~= name);
    let pieces = text::split_spec(name, "/"@);
    assert(pieces =~= seq![name]);
    assert(pieces.drop_last() =~= Seq::empty());
    assert(parts_of(pieces.drop_last()) =~= Seq::empty());
    let parts = components_spec(name);
    assert(parts =~= seq![PartV::Name(name)]);
    assert(parts.drop_last() =~= Seq::empty());
    assert(names_of(parts.drop_last()) =~= Seq::empty());
    assert(names_of(parts) =~= seq![name]);
}

/// A file name is a stem, a dot and an extension; what begins with its only dot has none.
pub proof fn law_stem_and_extension(p: Seq<char>, stem: Seq<char>, ext: Seq<char>)
    requires
        file_name_spec(p) == Some(stem + "."@ + ext),
        !ext.contains('.'),
    ensures
        stem.len() > 0 ==> file_stem_spec(p) == Some(stem) && extension_spec(p) == Some(ext),
        stem.len() == 0 ==> file_stem_spec(p) == file_name_spec(p) && extension_spec(p) is None,
{
    reveal_strlit(".");
    let name = stem + "."@ + ext;
    let k = stem.len() as int;
    assert(name[k] == '.');
    assert forall|j: int| k < j < name.len() implies name[j] != '.' by {
        assert(name[j] == ext[j - k - 1]);
        assert(ext.contains(ext[j - k - 1]));
    }
    text::lemma_last_index(name, '.', k);
    assert(name.take(k) =~= stem);
    assert(name.skip(k + 1) =~= ext);
}

/// A file name without a dot is all stem.
pub proof fn law_no_extension(p: Seq<char>, name: Seq<char>)
    requires
        file_name_spec(p) == Some(name),
        !name.contains('.'),
    ensures
        file_stem_spec(p) == Some(name),
        extension_spec(p) is None,
{
    text::lemma_no_index(name, '.');
}

/// Names with slashes between them are cut into these names.
pub proof fn lemma_split_join(names: Seq<Seq<char>>)
    requires
        names.len() > 0,
        forall|i: int| 0 <= i < names.len() ==> !(#[trigger] names[i]).contains('/'),
    ensures
        text::split_spec(text::join_spec(names, "/"@), "/"@) == names,
    decreases names.len(),
{
    if names.len() == 1 {
        let name = names[0];
        assert forall|k: int| 0 <= k < name.len() implies name[k] != '/' by {
            assert(name.contains(name[k]));
        }
        lemma_no_slash(name, 0);
        reveal_strlit("/");
        assert(name.subrange(0, name.len() as int) =~= name);
        assert(text::split_spec(name, "/"@) =~= names);
    } else {
        let init = names.drop_last();
        assert forall|i: int| 0 <= i < init.len() implies !(#[trigger] init[i]).contains('/') by {
            assert(init[i] == names[i]);
        }
        lemma_split_join(init);
        assert(!names[names.len() - 1].contains('/'));
        lemma_split_at_end(text::join_spec(init, "/"@), names.last(), 0);
        assert(init.push(names.last()) =~= names);
    }
}

} // verus!
