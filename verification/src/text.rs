//! Characters and strings: comparison, splitting, trimming, numbers.

use vstd::prelude::*;
use vstd::string::*;
use vstd::utf8::*;

verus! {

broadcast use vstd::string::group_string_axioms;

/// The view of an optional value.
pub open spec fn opt_view<T: View>(o: Option<T>) -> Option<T::V> {
    match o {
        Some(t) => Some(t@),
        None => None,
    }
}

/// The view of a value or an error message.
pub open spec fn result_view<T: View>(r: Result<T, String>) -> Result<T::V, Seq<char>> {
    match r {
        Ok(t) => Ok(t@),
        Err(e) => Err(e@),
    }
}

/// The views of a list of values.
pub open spec fn views<T: View>(s: Seq<T>) -> Seq<T::V> {
    s.map_values(|t: T| t@)
}

/// What `char::is_alphanumeric` answers for `c`.
pub uninterp spec fn alphanumeric(c: char) -> bool;

/// `char::is_alphanumeric`: the answer depends on the character alone. Among the ASCII
/// characters exactly the letters and the digits are alphanumeric.
pub assume_specification[ char::is_alphanumeric ](c: char) -> (r: bool)
    ensures
        r == alphanumeric(c),
        c <= '\x7f' ==> r == ('0' <= c <= '9' || 'A' <= c <= 'Z' || 'a' <= c <= 'z'),
;

/// What `char::is_uppercase` answers for `c`.
pub uninterp spec fn uppercase(c: char) -> bool;

/// `char::is_uppercase`: the answer depends on the character alone. Among the ASCII
/// characters exactly the letters `A` to `Z` are uppercase.
pub assume_specification[ char::is_uppercase ](c: char) -> (r: bool)
    ensures
        r == uppercase(c),
        c <= '\x7f' ==> r == ('A' <= c <= 'Z'),
;

/// `String::push`: appends the character at the end of the string.
pub assume_specification[ String::push ](s: &mut String, c: char)
    ensures
        final(s)@ == old(s)@.push(c),
;

/// Equality of two strings.
pub fn str_eq(a: &str, b: &str) -> (r: bool)
    ensures
        r == (a@ == b@),
{
    let x: &[u8] = a.as_bytes();
    let y: &[u8] = b.as_bytes();
    proof {
        encode_utf8_decode_utf8(a@);
        encode_utf8_decode_utf8(b@);
    }
    if x.len() != y.len() {
        return false;
    }
    let mut i: usize = 0;
    while i < x.len()
        invariant
            x@ == encode_utf8(a@),
            y@ == encode_utf8(b@),
            x@.len() == y@.len(),
            i <= x@.len(),
            x@.take(i as int) =~= y@.take(i as int),
        decreases x@.len() - i,
    {
        if x[i] != y[i] {
            assert(x@[i as int] != y@[i as int]);
            return false;
        }
        i += 1;
    }
    assert(x@ =~= x@.take(i as int));
    assert(y@ =~= y@.take(i as int));
    true
}

/// The characters of a string.
pub fn chars_of(s: &str) -> (r: Vec<char>)
    ensures
        r@ == s@,
{
    let mut out: Vec<char> = Vec::new();
    for c in it: s.chars()
        invariant
            out@ == it.seq().take(it.index() as int),
            it.seq() == s@,
    {
        out.push(c);
    }
    out
}

/// The string made of the characters at `from..to`.
pub fn string_of(chars: &Vec<char>, from: usize, to: usize) -> (r: String)
    requires
        from <= to <= chars@.len(),
    ensures
        r@ == chars@.subrange(from as int, to as int),
{
    let mut out: String = String::new();
    let mut i: usize = from;
    assert(out@ =~= chars@.subrange(from as int, i as int));
    while i < to
        invariant
            from <= i <= to <= chars@.len(),
            out@ == chars@.subrange(from as int, i as int),
        decreases to - i,
    {
        out.push(chars[i]);
        i += 1;
        assert(out@ =~= chars@.subrange(from as int, i as int));
    }
    out
}

/// The parts one after another, with `sep` between each two.
pub open spec fn join_spec(parts: Seq<Seq<char>>, sep: Seq<char>) -> Seq<char>
    decreases parts.len(),
{
    if parts.len() == 0 {
        Seq::empty()
    } else if parts.len() == 1 {
        parts[0]
    } else {
        join_spec(parts.drop_last(), sep) + sep + parts.last()
    }
}

/// The parts one after another, with `sep` between each two.
pub fn join(parts: &Vec<String>, sep: &str) -> (r: String)
    ensures
        r@ == join_spec(views(parts@), sep@),
{
    let mut out: String = String::new();
    let mut i: usize = 0;
    let ghost all = views(parts@);
    while i < parts.len()
        invariant
            i <= parts@.len(),
            all == views(parts@),
            out@ == join_spec(all.take(i as int), sep@),
        decreases parts@.len() - i,
    {
        assert(all.take(i + 1).drop_last() =~= all.take(i as int));
        assert(all.take(i + 1).last() == parts@[i as int]@);
        if i > 0 {
            out.append(sep);
        }
        out.append(parts[i].as_str());
        if i == 0 {
            assert(out@ =~= parts@[0]@);
        }
        i += 1;
    }
    assert(all.take(i as int) =~= all);
    out
}

/// A copy of a list of strings.
pub fn clone_strings(v: &Vec<String>) -> (r: Vec<String>)
    ensures
        r@ == v@,
{
    let mut out: Vec<String> = Vec::new();
    let mut i: usize = 0;
    while i < v.len()
        invariant
            i <= v@.len(),
            out@ == v@.take(i as int),
        decreases v@.len() - i,
    {
        out.push(v[i].clone());
        i += 1;
        assert(out@ =~= v@.take(i as int));
    }
    assert(out@ =~= v@);
    out
}

/// A copy of an optional string.
pub fn clone_opt(s: &Option<String>) -> (r: Option<String>)
    ensures
        opt_view(r) == opt_view(*s),
{
    match s {
        Some(t) => Some(t.clone()),
        None => None,
    }
}

/// Equality of two lists of strings.
pub fn strings_eq(a: &Vec<String>, b: &Vec<String>) -> (r: bool)
    ensures
        r == (views(a@) == views(b@)),
{
    if a.len() != b.len() {
        assert(views(a@).len() != views(b@).len());
        return false;
    }
    let mut i: usize = 0;
    while i < a.len()
        invariant
            i <= a@.len() == b@.len(),
            forall|k: int| 0 <= k < i ==> a@[k]@ == b@[k]@,
        decreases a@.len() - i,
    {
        if !str_eq(a[i].as_str(), b[i].as_str()) {
            assert(views(a@)[i as int] != views(b@)[i as int]);
            return false;
        }
        i += 1;
    }
    assert(views(a@) =~= views(b@));
    true
}

/// Equality of two optional strings.
pub fn opt_eq(a: &Option<String>, b: &Option<String>) -> (r: bool)
    ensures
        r == (opt_view(*a) == opt_view(*b)),
{
    match (a, b) {
        (Some(x), Some(y)) => str_eq(x.as_str(), y.as_str()),
        (None, None) => true,
        _ => false,
    }
}

/// Whether a text begins with an uppercase letter.
pub open spec fn capitalized(s: Seq<char>) -> bool {
    s.len() > 0 && uppercase(s[0])
}

/// Whether a text begins with an uppercase letter.
pub fn is_capitalized(s: &str) -> (r: bool)
    ensures
        r == capitalized(s@),
{
    let chars: Vec<char> = chars_of(s);
    chars.len() > 0 && chars[0].is_uppercase()
}

/// Whether a list ends in another one.
pub open spec fn has_suffix(s: Seq<Seq<char>>, suffix: Seq<Seq<char>>) -> bool {
    suffix.len() <= s.len() && s.skip(s.len() - suffix.len()) == suffix
}

/// Whether the first `n` strings of a list end in another list.
pub fn ends_with(s: &Vec<String>, n: usize, suffix: &Vec<String>) -> (r: bool)
    requires
        n <= s@.len(),
    ensures
        r == has_suffix(views(s@).take(n as int), views(suffix@)),
{
    if suffix.len() > n {
        return false;
    }
    let start: usize = n - suffix.len();
    let ghost tail = views(s@).take(n as int).skip(start as int);
    let ghost want = views(suffix@);
    let mut i: usize = 0;
    while i < suffix.len()
        invariant
            i <= suffix@.len() <= n <= s@.len(),
            start == n - suffix@.len(),
            tail == views(s@).take(n as int).skip(start as int),
            want == views(suffix@),
            forall|k: int| 0 <= k < i ==> tail[k] == want[k],
        decreases suffix@.len() - i,
    {
        assert(tail[i as int] == s@[start + i]@);
        assert(want[i as int] == suffix@[i as int]@);
        if !str_eq(s[start + i].as_str(), suffix[i].as_str()) {
            return false;
        }
        i += 1;
    }
    assert(tail =~= want);
    true
}

/// The decimal digits of a number, the most significant first.
pub open spec fn decimal_digits(n: nat) -> Seq<char>
    decreases n,
{
    let last = seq![digit_char(n % 10)];
    if n < 10 {
        last
    } else {
        decimal_digits(n / 10) + last
    }
}

/// The digit with the value `d`.
pub open spec fn digit_char(d: nat) -> char {
    (('0' as u32) + d) as char
}

/// The number written in decimal.
pub fn decimal(n: usize) -> (r: String)
    ensures
        r@ == decimal_digits(n as nat),
    decreases n,
{
    let d: u8 = (n % 10) as u8;
    let c: char = (48 + d) as char;
    let mut out: String = if n < 10 {
        String::new()
    } else {
        decimal(n / 10)
    };
    out.push(c);
    proof {
        assert(c == digit_char(n as nat % 10));
        if n < 10 {
            assert(out@ =~= seq![c]);
        }
    }
    out
}

/// What the formatter's `{:?}` writes for a string: the string in quotes, with escapes.
pub uninterp spec fn debug_text(s: Seq<char>) -> Seq<char>;

/// `Debug` of `str`, through `format!`: the output depends on the string alone.
#[verifier::external_body]
pub(crate) fn debug_string(s: &str) -> (r: String)
    ensures
        r@ == debug_text(s@),
{
    format!("{:?}", s)
}

/// Whether `s` begins with `prefix`.
pub open spec fn has_prefix(s: Seq<char>, prefix: Seq<char>) -> bool {
    prefix.len() <= s.len() && s.take(prefix.len() as int) == prefix
}

/// Whether `s` begins with `prefix`.
pub fn starts_with(s: &str, prefix: &str) -> (r: bool)
    ensures
        r == has_prefix(s@, prefix@),
{
    let a: Vec<char> = chars_of(s);
    let b: Vec<char> = chars_of(prefix);
    if b.len() > a.len() {
        return false;
    }
    let mut i: usize = 0;
    while i < b.len()
        invariant
            a@ == s@,
            b@ == prefix@,
            i <= b@.len() <= a@.len(),
            forall|k: int| 0 <= k < i ==> a@[k] == b@[k],
        decreases b@.len() - i,
    {
        if a[i] != b[i] {
            assert(a@.take(b@.len() as int)[i as int] != b@[i as int]);
            return false;
        }
        i += 1;
    }
    assert(a@.take(b@.len() as int) =~= b@);
    true
}

/// The position of the first `c` from `i` on, or the length.
pub open spec fn find_from(s: Seq<char>, i: nat, c: char) -> nat
    decreases s.len() - i,
{
    if i >= s.len() || s[i as int] == c {
        i
    } else {
        find_from(s, i + 1, c)
    }
}

/// The first line of a text, without the line break that ends it.
pub open spec fn first_line_spec(s: Seq<char>) -> Seq<char> {
    let end = find_from(s, 0, '\n');
    if end >= s.len() {
        s
    } else if end > 0 && s[end - 1] == '\r' {
        s.take(end - 1)
    } else {
        s.take(end as int)
    }
}

/// The first line of a text, without the line break that ends it.
pub fn first_line(s: &str) -> (r: String)
    ensures
        r@ == first_line_spec(s@),
{
    let chars: Vec<char> = chars_of(s);
    let mut end: usize = 0;
    while end < chars.len() && chars[end] != '\n'
        invariant
            end <= chars@.len(),
            find_from(chars@, 0, '\n') == find_from(chars@, end as nat, '\n'),
        decreases chars@.len() - end,
    {
        end += 1;
    }
    if end < chars.len() && end > 0 && chars[end - 1] == '\r' {
        end -= 1;
    }
    let r: String = string_of(&chars, 0, end);
    assert(chars@.subrange(0, end as int) =~= chars@.take(end as int));
    assert(chars@.take(chars@.len() as int) =~= chars@);
    r
}

/// The strings without those that an earlier one repeats.
pub open spec fn distinct<A>(v: Seq<A>) -> Seq<A>
    decreases v.len(),
{
    if v.len() == 0 {
        Seq::empty()
    } else {
        let init = distinct(v.drop_last());
        if init.contains(v.last()) {
            init
        } else {
            init.push(v.last())
        }
    }
}

/// Dropping what is repeated leaves each string once.
pub proof fn lemma_distinct<A>(v: Seq<A>)
    ensures
        distinct(v).no_duplicates(),
        forall|s: A| #[trigger] distinct(v).contains(s) <==> v.contains(s),
    decreases v.len(),
{
    if v.len() > 0 {
        let init = distinct(v.drop_last());
        let r = distinct(v);
        lemma_distinct(v.drop_last());
        assert forall|s: A| #[trigger] r.contains(s) <==> v.contains(s) by {
            assert(init.contains(s) <==> v.drop_last().contains(s));
            if v.contains(s) {
                let i = v.index_of(s);
                if i < v.len() - 1 {
                    assert(v.drop_last()[i] == s);
                    assert(r[init.index_of(s)] == s);
                } else if init.contains(s) {
                    assert(r[init.index_of(s)] == s);
                } else {
                    assert(r[init.len() as int] == s);
                }
            }
            if r.contains(s) {
                if init.contains(s) {
                    assert(v[v.drop_last().index_of(s)] == s);
                } else {
                    let i = r.index_of(s);
                    assert(i == init.len());
                    assert(v[v.len() - 1] == s);
                }
            }
        }
    }
}

/// Whether a string is in a list.
pub fn contains_string(v: &Vec<String>, s: &str) -> (r: bool)
    ensures
        r == views(v@).contains(s@),
{
    let ghost all = views(v@);
    let mut i: usize = 0;
    while i < v.len()
        invariant
            i <= v@.len(),
            all == views(v@),
            forall|k: int| 0 <= k < i ==> all[k] != s@,
        decreases v@.len() - i,
    {
        if str_eq(v[i].as_str(), s) {
            assert(all[i as int] == s@);
            return true;
        }
        i += 1;
    }
    false
}

/// Appends a string to a list.
pub fn push_string(v: &mut Vec<String>, s: String)
    ensures
        views(final(v)@) == views(old(v)@).push(s@),
{
    let ghost before = v@;
    v.push(s);
    assert(views(v@) =~= views(before).push(s@));
}

/// The strings without those that an earlier one repeats.
pub fn dedup(v: &Vec<String>) -> (r: Vec<String>)
    ensures
        views(r@) == distinct(views(v@)),
{
    let ghost all = views(v@);
    let mut out: Vec<String> = Vec::new();
    let mut i: usize = 0;
    assert(views(out@) =~= Seq::empty());
    while i < v.len()
        invariant
            i <= v@.len(),
            all == views(v@),
            views(out@) == distinct(all.take(i as int)),
        decreases v@.len() - i,
    {
        assert(all.take(i + 1).drop_last() =~= all.take(i as int));
        assert(all.take(i + 1).last() == v@[i as int]@);
        if !contains_string(&out, v[i].as_str()) {
            push_string(&mut out, v[i].clone());
        }
        i += 1;
    }
    assert(all.take(i as int) =~= all);
    out
}

// ---------------------------------------------------------------------------
// Searching and splitting
// ---------------------------------------------------------------------------

/// Whether `sep` stands in `s` at position `k`.
pub open spec fn occurs_at(s: Seq<char>, k: nat, sep: Seq<char>) -> bool {
    k + sep.len() <= s.len() && s.subrange(k as int, (k + sep.len()) as int) == sep
}

/// The first position from `i` on where `sep` stands in `s`.
pub open spec fn find_text(s: Seq<char>, i: nat, sep: Seq<char>) -> Option<nat>
    decreases s.len() + 1 - i,
{
    if i + sep.len() > s.len() {
        None
    } else if occurs_at(s, i, sep) {
        Some(i)
    } else {
        find_text(s, i + 1, sep)
    }
}

pub proof fn lemma_find_text(s: Seq<char>, i: nat, sep: Seq<char>)
    ensures
        find_text(s, i, sep) matches Some(k) ==> i <= k && k + sep.len() <= s.len() && occurs_at(
            s,
            k,
            sep,
        ),
    decreases s.len() + 1 - i,
{
    if i + sep.len() <= s.len() && !occurs_at(s, i, sep) {
        lemma_find_text(s, i + 1, sep);
    }
}

/// The parts of `s` from `i` on that `sep` separates.
pub open spec fn split_from(s: Seq<char>, i: nat, sep: Seq<char>) -> Seq<Seq<char>>
    decreases s.len() - i,
    when sep.len() > 0
{
    proof {
        lemma_find_text(s, i, sep);
    }
    match find_text(s, i, sep) {
        Some(k) => seq![s.subrange(i as int, k as int)] + split_from(s, k + sep.len(), sep),
        None => seq![s.subrange(i as int, s.len() as int)],
    }
}

/// The parts of `s` that `sep` separates.
pub open spec fn split_spec(s: Seq<char>, sep: Seq<char>) -> Seq<Seq<char>> {
    split_from(s, 0, sep)
}

proof fn lemma_find_shifted(a: Seq<char>, b: Seq<char>, i: nat, sep: Seq<char>)
    ensures
        find_text(a + b, a.len() + i, sep) == (match find_text(b, i, sep) {
            Some(k) => Some(a.len() + k),
            None => None,
        }),
    decreases b.len() + 1 - i,
{
    if i + sep.len() <= b.len() {
        assert((a + b).subrange((a.len() + i) as int, (a.len() + i + sep.len()) as int)
            =~= b.subrange(i as int, (i + sep.len()) as int));
        lemma_find_shifted(a, b, i + 1, sep);
    }
}

/// A text in front moves the parts.
pub proof fn lemma_split_shifted(a: Seq<char>, b: Seq<char>, i: nat, sep: Seq<char>)
    requires
        sep.len() > 0,
        i <= b.len(),
    ensures
        split_from(a + b, a.len() + i, sep) == split_from(b, i, sep),
    decreases b.len() - i,
{
    lemma_find_shifted(a, b, i, sep);
    lemma_find_text(b, i, sep);
    match find_text(b, i, sep) {
        Some(k) => {
            lemma_split_shifted(a, b, k + sep.len(), sep);
            assert((a + b).subrange((a.len() + i) as int, (a.len() + k) as int) =~= b.subrange(
                i as int,
                k as int,
            ));
        },
        None => {
            assert((a + b).subrange((a.len() + i) as int, (a + b).len() as int) =~= b.subrange(
                i as int,
                b.len() as int,
            ));
        },
    }
}

fn occurs(s: &Vec<char>, k: usize, sep: &Vec<char>) -> (r: bool)
    requires
        k + sep@.len() <= s@.len(),
    ensures
        r == occurs_at(s@, k as nat, sep@),
{
    let mut i: usize = 0;
    while i < sep.len()
        invariant
            i <= sep@.len(),
            k + sep@.len() <= s@.len(),
            forall|j: int| 0 <= j < i ==> s@[k + j] == sep@[j],
        decreases sep@.len() - i,
    {
        assert(k + i < s.len());
        if s[k + i] != sep[i] {
            assert(s@.subrange(k as int, (k + sep@.len()) as int)[i as int] != sep@[i as int]);
            return false;
        }
        i += 1;
    }
    assert(s@.subrange(k as int, (k + sep@.len()) as int) =~= sep@);
    true
}

/// The first position from `i` on where `sep` stands in `s`.
pub(crate) fn find_chars(s: &Vec<char>, i: usize, sep: &Vec<char>) -> (r: Option<usize>)
    requires
        i <= s@.len(),
    ensures
        (match r {
            Some(k) => Some(k as nat),
            None => None,
        }) == find_text(s@, i as nat, sep@),
        r matches Some(k) ==> i <= k && k + sep@.len() <= s@.len(),
{
    let mut k: usize = i;
    while sep.len() <= s.len() - k
        invariant
            i <= k <= s@.len(),
            find_text(s@, i as nat, sep@) == find_text(s@, k as nat, sep@),
        decreases s@.len() - k,
    {
        if occurs(s, k, sep) {
            return Some(k);
        }
        assert(sep@.len() == 0 ==> s@.subrange(k as int, k as int) =~= sep@);
        k += 1;
    }
    None
}

/// Whether `sep` stands somewhere in `s`.
pub fn contains_text(s: &str, sep: &str) -> (r: bool)
    ensures
        r == (find_text(s@, 0, sep@) is Some),
{
    find_chars(&chars_of(s), 0, &chars_of(sep)).is_some()
}

/// The parts of `s` that `sep` separates.
pub fn split(s: &str, sep: &str) -> (r: Vec<String>)
    requires
        sep@.len() > 0,
    ensures
        views(r@) == split_spec(s@, sep@),
{
    let chars: Vec<char> = chars_of(s);
    let sep_chars: Vec<char> = chars_of(sep);
    let mut out: Vec<String> = Vec::new();
    let mut i: usize = 0;
    assert(views(out@) + split_from(s@, 0, sep@) =~= split_spec(s@, sep@));
    loop
        invariant
            chars@ == s@,
            sep_chars@ == sep@,
            sep@.len() > 0,
            i <= chars@.len(),
            views(out@) + split_from(s@, i as nat, sep@) == split_spec(s@, sep@),
        decreases chars@.len() - i,
    {
        let ghost before = views(out@);
        match find_chars(&chars, i, &sep_chars) {
            Some(k) => {
                let ghost rest = split_from(s@, (k + sep@.len()) as nat, sep@);
                let part: String = string_of(&chars, i, k);
                let ghost view = part@;
                push_string(&mut out, part);
                assert(before.push(view) + rest =~= before + (seq![view] + rest));
                assert(k + sep_chars.len() <= chars.len());
                i = k + sep_chars.len();
            },
            None => {
                let part: String = string_of(&chars, i, chars.len());
                let ghost view = part@;
                push_string(&mut out, part);
                assert(before.push(view) =~= before + seq![view]);
                return out;
            },
        }
    }
}

/// The last position of `c` in `s`.
pub open spec fn last_index(s: Seq<char>, c: char) -> Option<nat>
    decreases s.len(),
{
    if s.len() == 0 {
        None
    } else if s.last() == c {
        Some((s.len() - 1) as nat)
    } else {
        last_index(s.drop_last(), c)
    }
}

/// Where the last `c` is.
pub proof fn lemma_last_index(s: Seq<char>, c: char, k: int)
    requires
        0 <= k < s.len(),
        s[k] == c,
        forall|j: int| k < j < s.len() ==> s[j] != c,
    ensures
        last_index(s, c) == Some(k as nat),
    decreases s.len(),
{
    if s.last() != c {
        lemma_last_index(s.drop_last(), c, k);
    }
}

/// Where there is no `c`.
pub proof fn lemma_no_index(s: Seq<char>, c: char)
    requires
        !s.contains(c),
    ensures
        last_index(s, c) is None,
    decreases s.len(),
{
    if s.len() > 0 {
        assert(s.contains(s[s.len() - 1]));
        assert forall|x: char| s.drop_last().contains(x) implies s.contains(x) by {
            let k = s.drop_last().index_of(x);
            assert(s[k] == x);
        }
        lemma_no_index(s.drop_last(), c);
    }
}

/// The last position of `c` in the first `n` characters of `s`.
fn last_of(s: &Vec<char>, c: char) -> (r: Option<usize>)
    ensures
        (match r {
            Some(k) => Some(k as nat),
            None => None,
        }) == last_index(s@, c),
        r matches Some(k) ==> k < s@.len(),
{
    let mut n: usize = s.len();
    assert(s@.take(n as int) =~= s@);
    while n > 0
        invariant
            n <= s@.len(),
            last_index(s@, c) == last_index(s@.take(n as int), c),
        decreases n,
    {
        assert(s@.take(n as int).drop_last() =~= s@.take(n - 1));
        assert(s@.take(n as int).last() == s@[n - 1]);
        n -= 1;
        if s[n] == c {
            return Some(n);
        }
    }
    None
}

/// What stands before and after the last `c` of `s`.
pub open spec fn rsplit_once_spec(s: Seq<char>, c: char) -> Option<(Seq<char>, Seq<char>)> {
    match last_index(s, c) {
        Some(k) => Some((s.take(k as int), s.skip(k as int + 1))),
        None => None,
    }
}

/// What stands before and after the last `c` of `s`.
pub fn rsplit_once(s: &str, c: char) -> (r: Option<(String, String)>)
    ensures
        (match r {
            Some((a, b)) => Some((a@, b@)),
            None => None,
        }) == rsplit_once_spec(s@, c),
{
    let chars: Vec<char> = chars_of(s);
    match last_of(&chars, c) {
        Some(k) => {
            let a: String = string_of(&chars, 0, k);
            assert(k < chars.len());
            let b: String = string_of(&chars, k + 1, chars.len());
            assert(a@ =~= s@.take(k as int));
            assert(b@ =~= s@.skip(k + 1));
            Some((a, b))
        },
        None => None,
    }
}

/// `s` without the characters `c` that it begins with.
pub open spec fn trim_front(s: Seq<char>, c: char) -> Seq<char>
    decreases s.len(),
{
    if s.len() > 0 && s[0] == c {
        trim_front(s.drop_first(), c)
    } else {
        s
    }
}

/// `s` without the characters `c` that it ends with.
pub open spec fn trim_back(s: Seq<char>, c: char) -> Seq<char>
    decreases s.len(),
{
    if s.len() > 0 && s.last() == c {
        trim_back(s.drop_last(), c)
    } else {
        s
    }
}

/// `s` without the characters `c` that it begins and ends with.
pub fn trim_char(s: &str, c: char) -> (r: String)
    ensures
        r@ == trim_back(trim_front(s@, c), c),
{
    let chars: Vec<char> = chars_of(s);
    let mut a: usize = 0;
    assert(chars@.skip(0) =~= chars@);
    while a < chars.len() && chars[a] == c
        invariant
            a <= chars@.len(),
            trim_front(chars@, c) == trim_front(chars@.skip(a as int), c),
        decreases chars@.len() - a,
    {
        assert(chars@.skip(a as int).drop_first() =~= chars@.skip(a + 1));
        a += 1;
    }
    let ghost front = chars@.skip(a as int);
    assert(trim_front(s@, c) == front);
    let mut b: usize = chars.len();
    assert(chars@.subrange(a as int, b as int) =~= front);
    while b > a && chars[b - 1] == c
        invariant
            a <= b <= chars@.len(),
            trim_back(front, c) == trim_back(chars@.subrange(a as int, b as int), c),
        decreases b,
    {
        assert(chars@.subrange(a as int, b as int).drop_last() =~= chars@.subrange(
            a as int,
            b - 1,
        ));
        b -= 1;
    }
    string_of(&chars, a, b)
}

/// What follows a prefix of `s`.
pub open spec fn after_prefix(s: Seq<char>, prefix: Seq<char>) -> Option<Seq<char>> {
    if has_prefix(s, prefix) {
        Some(s.skip(prefix.len() as int))
    } else {
        None
    }
}

/// What follows a prefix of `s`.
pub fn strip_prefix(s: &str, prefix: &str) -> (r: Option<String>)
    ensures
        opt_view(r) == after_prefix(s@, prefix@),
{
    if starts_with(s, prefix) {
        let chars: Vec<char> = chars_of(s);
        let n: usize = chars_of(prefix).len();
        let r: String = string_of(&chars, n, chars.len());
        assert(r@ =~= s@.skip(prefix@.len() as int));
        Some(r)
    } else {
        None
    }
}

/// What `char::is_whitespace` answers for `c`.
pub uninterp spec fn whitespace(c: char) -> bool;

/// `char::is_whitespace`: the answer depends on the character alone. Among the ASCII
/// characters exactly the space and the control characters from tab to carriage return
/// are white space.
pub assume_specification[ char::is_whitespace ](c: char) -> (r: bool)
    ensures
        r == whitespace(c),
        c <= '\x7f' ==> r == (c == ' ' || '\t' <= c <= '\r'),
;

/// `s` without the white space that it begins with.
pub open spec fn trim_start_spec(s: Seq<char>) -> Seq<char>
    decreases s.len(),
{
    if s.len() > 0 && whitespace(s[0]) {
        trim_start_spec(s.drop_first())
    } else {
        s
    }
}

/// `s` without the white space that it ends with.
pub open spec fn trim_end_spec(s: Seq<char>) -> Seq<char>
    decreases s.len(),
{
    if s.len() > 0 && whitespace(s.last()) {
        trim_end_spec(s.drop_last())
    } else {
        s
    }
}

/// `s` without the white space around it.
pub open spec fn trimmed(s: Seq<char>) -> Seq<char> {
    trim_end_spec(trim_start_spec(s))
}

/// `s` without the white space around it.
pub fn trim(s: &str) -> (r: String)
    ensures
        r@ == trimmed(s@),
{
    let chars: Vec<char> = chars_of(s);
    let mut a: usize = 0;
    assert(chars@.skip(0) =~= chars@);
    while a < chars.len() && chars[a].is_whitespace()
        invariant
            a <= chars@.len(),
            trim_start_spec(chars@) == trim_start_spec(chars@.skip(a as int)),
        decreases chars@.len() - a,
    {
        assert(chars@.skip(a as int).drop_first() =~= chars@.skip(a + 1));
        a += 1;
    }
    let ghost front = chars@.skip(a as int);
    assert(trim_start_spec(s@) == front);
    let mut b: usize = chars.len();
    assert(chars@.subrange(a as int, b as int) =~= front);
    while b > a && chars[b - 1].is_whitespace()
        invariant
            a <= b <= chars@.len(),
            trim_end_spec(front) == trim_end_spec(chars@.subrange(a as int, b as int)),
        decreases b,
    {
        assert(chars@.subrange(a as int, b as int).drop_last() =~= chars@.subrange(
            a as int,
            b - 1,
        ));
        b -= 1;
    }
    string_of(&chars, a, b)
}

/// What stands before the first `c`; all of `s`, if there is none.
pub open spec fn before_char(s: Seq<char>, c: char) -> Seq<char> {
    s.take(find_from(s, 0, c) as int)
}

/// What stands before the first `c`; all of `s`, if there is none.
pub fn before(s: &str, c: char) -> (r: String)
    ensures
        r@ == before_char(s@, c),
{
    let chars: Vec<char> = chars_of(s);
    let mut end: usize = 0;
    while end < chars.len() && chars[end] != c
        invariant
            end <= chars@.len(),
            find_from(chars@, 0, c) == find_from(chars@, end as nat, c),
        decreases chars@.len() - end,
    {
        end += 1;
    }
    let r: String = string_of(&chars, 0, end);
    assert(chars@.subrange(0, end as int) =~= chars@.take(end as int));
    r
}

/// What stands behind the last `c`; all of `s`, if there is none.
pub open spec fn after_char(s: Seq<char>, c: char) -> Seq<char> {
    match last_index(s, c) {
        Some(i) => s.skip((i + 1) as int),
        None => s,
    }
}

/// What stands behind the last `c`; all of `s`, if there is none.
pub fn after(s: &str, c: char) -> (r: String)
    ensures
        r@ == after_char(s@, c),
{
    match rsplit_once(s, c) {
        Some((_, rest)) => rest,
        None => s.to_string(),
    }
}

/// What stands behind the first `sep`.
pub open spec fn after_text(s: Seq<char>, sep: Seq<char>) -> Option<Seq<char>> {
    match find_text(s, 0, sep) {
        Some(k) => Some(s.skip((k + sep.len()) as int)),
        None => None,
    }
}

/// What stands behind the first `sep`.
pub fn after_first(s: &str, sep: &str) -> (r: Option<String>)
    ensures
        opt_view(r) == after_text(s@, sep@),
{
    let chars: Vec<char> = chars_of(s);
    let wanted: Vec<char> = chars_of(sep);
    proof {
        lemma_find_text(s@, 0, sep@);
    }
    match find_chars(&chars, 0, &wanted) {
        Some(k) => {
            assert(occurs_at(s@, k as nat, sep@));
            assert(k + wanted@.len() <= chars@.len() && chars.len() == chars@.len());
            let r: String = string_of(&chars, k + wanted.len(), chars.len());
            assert(r@ =~= s@.skip(k + sep@.len()));
            Some(r)
        },
        None => None,
    }
}

/// The value of a digit.
pub open spec fn digit_value(c: char) -> nat {
    (c as u32 - '0' as u32) as nat
}

/// Whether a character is one of the ten digits.
pub open spec fn is_digit(c: char) -> bool {
    '0' <= c <= '9'
}

/// The number that digits write in decimal.
pub open spec fn number_value(digits: Seq<char>) -> nat
    decreases digits.len(),
{
    if digits.len() == 0 {
        0
    } else {
        number_value(digits.drop_last()) * 10 + digit_value(digits.last())
    }
}

/// The number that digits write in decimal, if it is one that a `usize` holds.
pub open spec fn digits_number(digits: Seq<char>) -> Option<usize> {
    if digits.len() > 0 && all_digits(digits) && number_value(digits) <= usize::MAX {
        Some(number_value(digits) as usize)
    } else {
        None
    }
}

/// Whether all characters are digits.
pub open spec fn all_digits(s: Seq<char>) -> bool {
    forall|i: int| 0 <= i < s.len() ==> is_digit(#[trigger] s[i])
}

/// The number that a text writes in decimal, with or without a plus sign, if it is one that
/// a `usize` holds.
pub open spec fn number_of(s: Seq<char>) -> Option<usize> {
    if s.len() > 0 && s[0] == '+' {
        digits_number(s.drop_first())
    } else {
        digits_number(s)
    }
}

proof fn lemma_number_grows(digits: Seq<char>, n: int)
    requires
        0 <= n <= digits.len(),
    ensures
        number_value(digits.take(n)) <= number_value(digits),
    decreases digits.len() - n,
{
    if n < digits.len() {
        lemma_number_grows(digits, n + 1);
        assert(digits.take(n + 1).drop_last() =~= digits.take(n));
    } else {
        assert(digits.take(n) =~= digits);
    }
}

/// The number that a text writes in decimal.
pub fn parse_number(s: &str) -> (r: Option<usize>)
    ensures
        r == number_of(s@),
{
    let chars: Vec<char> = chars_of(s);
    let from: usize = if chars.len() > 0 && chars[0] == '+' {
        1
    } else {
        0
    };
    let ghost digits = chars@.skip(from as int);
    assert(digits =~= if s@.len() > 0 && s@[0] == '+' {
        s@.drop_first()
    } else {
        s@
    });
    if from == chars.len() {
        return None;
    }
    let mut n: usize = 0;
    let mut i: usize = from;
    assert(digits.take(0) =~= Seq::empty());
    while i < chars.len()
        invariant
            from <= i <= chars@.len(),
            from <= 1,
            digits == chars@.skip(from as int),
            digits.len() > 0,
            number_of(s@) == digits_number(digits),
            forall|k: int| 0 <= k < i - from ==> is_digit(#[trigger] digits[k]),
            n == number_value(digits.take(i - from)),
        decreases chars@.len() - i,
    {
        let c: char = chars[i];
        assert(digits[i - from] == c);
        assert(digits.take(i - from + 1).drop_last() =~= digits.take(i - from));
        if c < '0' || '9' < c {
            assert(!is_digit(digits[i - from]));
            return None;
        }
        let d: usize = (c as u32 - '0' as u32) as usize;
        proof {
            lemma_number_grows(digits, i - from + 1);
        }
        n = match n.checked_mul(10) {
            Some(m) => match m.checked_add(d) {
                Some(m) => m,
                None => {
                    return None;
                },
            },
            None => {
                return None;
            },
        };
        i += 1;
    }
    assert(digits.take(i - from) =~= digits);
    assert(all_digits(digits));
    Some(n)
}

/// A number that is written in decimal is read back.
pub proof fn law_decimal_read_back(n: usize)
    ensures
        number_of(decimal_digits(n as nat)) == Some(n),
{
    lemma_decimal_value(n as nat);
    let s = decimal_digits(n as nat);
    assert(is_digit(s[0]));
}

proof fn lemma_decimal_value(n: nat)
    ensures
        all_digits(decimal_digits(n)),
        decimal_digits(n).len() > 0,
        number_value(decimal_digits(n)) == n,
    decreases n,
{
    let s = decimal_digits(n);
    let d = n % 10;
    assert(is_digit(digit_char(d)) && digit_value(digit_char(d)) == d);
    if n >= 10 {
        lemma_decimal_value(n / 10);
        let init = decimal_digits(n / 10);
        assert(s.drop_last() =~= init);
        assert(s.last() == digit_char(d));
        assert forall|i: int| 0 <= i < s.len() implies is_digit(#[trigger] s[i]) by {
            if i < init.len() {
                assert(is_digit(init[i]));
            }
        }
    } else {
        assert(s.drop_last() =~= Seq::empty());
        assert(number_value(s.drop_last()) == 0);
        assert(s.last() == digit_char(d));
    }
}

/// The line with the number `n`, counted from 0, without the line break that ends it.
pub open spec fn line_at(s: Seq<char>, n: nat) -> Option<Seq<char>>
    decreases s.len(),
{
    let end = find_from(s, 0, '\n');
    if s.len() == 0 {
        None
    } else if n == 0 {
        Some(first_line_spec(s))
    } else if end >= s.len() {
        None
    } else {
        line_at(s.skip((end + 1) as int), (n - 1) as nat)
    }
}

/// The line with the number `n`, counted from 0, without the line break that ends it.
pub fn nth_line(s: &str, n: usize) -> (r: Option<String>)
    ensures
        opt_view(r) == line_at(s@, n as nat),
{
    let chars: Vec<char> = chars_of(s);
    let mut from: usize = 0;
    let mut k: usize = n;
    assert(chars@.skip(0) =~= chars@);
    while k > 0
        invariant
            from <= chars@.len(),
            line_at(s@, n as nat) == line_at(chars@.skip(from as int), k as nat),
        decreases k,
    {
        let ghost rest = chars@.skip(from as int);
        let mut end: usize = from;
        while end < chars.len() && chars[end] != '\n'
            invariant
                from <= end <= chars@.len(),
                rest == chars@.skip(from as int),
                find_from(rest, 0, '\n') == find_from(rest, (end - from) as nat, '\n'),
            decreases chars@.len() - end,
        {
            assert(rest[end - from] == chars@[end as int]);
            end += 1;
        }
        if end < chars.len() {
            assert(rest[end - from] == chars@[end as int]);
        }
        if end == chars.len() {
            return None;
        }
        assert(rest.skip(end - from + 1) =~= chars@.skip(end + 1));
        from = end + 1;
        k -= 1;
    }
    if from == chars.len() {
        return None;
    }
    let rest: String = string_of(&chars, from, chars.len());
    assert(rest@ =~= chars@.skip(from as int));
    Some(first_line(rest.as_str()))
}

// ---------------------------------------------------------------------------
// Order
// ---------------------------------------------------------------------------

/// The lexicographic order of byte strings.
pub open spec fn bytes_lt(a: Seq<u8>, b: Seq<u8>) -> bool
    decreases a.len(),
{
    if b.len() == 0 {
        false
    } else if a.len() == 0 {
        true
    } else if a[0] != b[0] {
        a[0] < b[0]
    } else {
        bytes_lt(a.drop_first(), b.drop_first())
    }
}

/// The order of strings: that of the bytes of their encodings.
pub open spec fn text_lt(a: Seq<char>, b: Seq<char>) -> bool {
    bytes_lt(encode_utf8(a), encode_utf8(b))
}

/// Whether one string comes before another.
pub fn str_lt(a: &str, b: &str) -> (r: bool)
    ensures
        r == text_lt(a@, b@),
{
    let x: &[u8] = a.as_bytes();
    let y: &[u8] = b.as_bytes();
    let mut i: usize = 0;
    assert(x@.skip(0) =~= x@);
    assert(y@.skip(0) =~= y@);
    while i < x.len() && i < y.len()
        invariant
            x@ == encode_utf8(a@),
            y@ == encode_utf8(b@),
            i <= x@.len(),
            i <= y@.len(),
            text_lt(a@, b@) == bytes_lt(x@.skip(i as int), y@.skip(i as int)),
        decreases x@.len() - i,
    {
        assert(x@.skip(i as int)[0] == x@[i as int]);
        assert(y@.skip(i as int)[0] == y@[i as int]);
        assert(x@.skip(i as int).drop_first() =~= x@.skip(i + 1));
        assert(y@.skip(i as int).drop_first() =~= y@.skip(i + 1));
        if x[i] != y[i] {
            return x[i] < y[i];
        }
        i += 1;
    }
    i < y.len()
}

pub proof fn lemma_bytes_order(a: Seq<u8>, b: Seq<u8>, c: Seq<u8>)
    ensures
        !bytes_lt(a, a),
        bytes_lt(a, b) && bytes_lt(b, c) ==> bytes_lt(a, c),
        bytes_lt(a, b) || bytes_lt(b, a) || a == b,
        !(bytes_lt(a, b) && bytes_lt(b, a)),
    decreases a.len() + b.len() + c.len(),
{
    if a.len() > 0 {
        lemma_bytes_order(
            a.drop_first(),
            if b.len() > 0 {
                b.drop_first()
            } else {
                b
            },
            if c.len() > 0 {
                c.drop_first()
            } else {
                c
            },
        );
    }
    if a.len() > 0 && b.len() > 0 && a[0] == b[0] && a.drop_first() == b.drop_first() {
        assert(a =~= seq![a[0]] + a.drop_first());
        assert(b =~= seq![b[0]] + b.drop_first());
    }
    if a.len() == 0 && b.len() == 0 {
        assert(a =~= b);
    }
}

/// The order of strings is a strict total order.
pub proof fn lemma_text_order(a: Seq<char>, b: Seq<char>, c: Seq<char>)
    ensures
        !text_lt(a, a),
        text_lt(a, b) && text_lt(b, c) ==> text_lt(a, c),
        text_lt(a, b) || text_lt(b, a) || a == b,
        !(text_lt(a, b) && text_lt(b, a)),
{
    lemma_bytes_order(encode_utf8(a), encode_utf8(b), encode_utf8(c));
    encode_utf8_decode_utf8(a);
    encode_utf8_decode_utf8(b);
}

/// Texts are ordered by the first byte in which they differ; one that the other begins with comes
/// first.
pub proof fn law_text_order(a: Seq<char>, b: Seq<char>, k: int)
    requires
        0 <= k <= encode_utf8(a).len(),
        k < encode_utf8(b).len(),
        forall|i: int| 0 <= i < k ==> encode_utf8(a)[i] == encode_utf8(b)[i],
        k < encode_utf8(a).len() ==> encode_utf8(a)[k] < encode_utf8(b)[k],
    ensures
        text_lt(a, b),
{
    lemma_bytes_lt(encode_utf8(a), encode_utf8(b), k);
}

proof fn lemma_bytes_lt(a: Seq<u8>, b: Seq<u8>, k: int)
    requires
        0 <= k <= a.len(),
        k < b.len(),
        forall|i: int| 0 <= i < k ==> a[i] == b[i],
        k < a.len() ==> a[k] < b[k],
    ensures
        bytes_lt(a, b),
    decreases k,
{
    if k > 0 {
        assert(a[0] == b[0]);
        let x = a.drop_first();
        let y = b.drop_first();
        assert forall|i: int| 0 <= i < k - 1 implies x[i] == y[i] by {
            assert(a[i + 1] == b[i + 1]);
        }
        lemma_bytes_lt(x, y, k - 1);
    }
}

proof fn lemma_find_at(s: Seq<char>, i: nat, n: nat, c: char)
    requires
        i <= n < s.len(),
        s[n as int] == c,
        forall|k: int| i <= k < n ==> s[k] != c,
    ensures
        find_from(s, i, c) == n,
    decreases n - i,
{
    if i < n {
        lemma_find_at(s, i + 1, n, c);
    }
}

proof fn lemma_find_none(s: Seq<char>, i: nat, c: char)
    requires
        i <= s.len(),
        forall|k: int| i <= k < s.len() ==> s[k] != c,
    ensures
        find_from(s, i, c) == s.len(),
    decreases s.len() - i,
{
    if i < s.len() {
        lemma_find_none(s, i + 1, c);
    }
}

/// A text is read line by line: what stands before the first line break is its first line, and the
/// other lines are those of what stands behind it. A carriage return before the break is no part
/// of the line.
pub proof fn law_lines(line: Seq<char>, rest: Seq<char>, n: nat)
    requires
        !line.contains('\n'),
    ensures
        line.len() > 0 ==> line_at(line, 0) == Some(line) && first_line_spec(line) == line,
        line_at(line, n + 1) is None,
        line.len() == 0 || line.last() != '\r' ==> line_at(line + "\n"@ + rest, 0) == Some(line)
            && first_line_spec(line + "\n"@ + rest) == line,
        line_at(line + "\r\n"@ + rest, 0) == Some(line),
        line_at(line + "\n"@ + rest, n + 1) == line_at(rest, n),
{
    reveal_strlit("\n");
    reveal_strlit("\r\n");
    let s = line + "\n"@ + rest;
    let t = line + "\r\n"@ + rest;
    let k = line.len();
    assert forall|i: int| 0 <= i < k implies line[i] != '\n' by {
        assert(line.contains(line[i]));
    }
    lemma_find_none(line, 0, '\n');
    assert forall|i: int| 0 <= i < k implies s[i] != '\n' by {
        assert(s[i] == line[i]);
    }
    assert(s[k as int] == '\n');
    lemma_find_at(s, 0, k, '\n');
    assert(s.take(k as int) =~= line);
    if k > 0 {
        assert(s[k - 1] == line.last());
    }
    assert(s.skip(k as int + 1) =~= rest);
    assert forall|i: int| 0 <= i < k + 1 implies t[i] != '\n' by {
        if i < k {
            assert(t[i] == line[i]);
        } else {
            assert(t[i] == '\r');
        }
    }
    assert(t[k as int + 1] == '\n');
    lemma_find_at(t, 0, k + 1, '\n');
    assert(t[k as int] == '\r');
    assert(t.take(k as int) =~= line);
}

/// A text without the white space around it is a part of the text, begins and ends with none, and
/// all that stands before and behind it is white space.
pub proof fn law_trimmed(s: Seq<char>) -> (r: (Seq<char>, Seq<char>))
    ensures
        s == r.0 + trimmed(s) + r.1,
        forall|i: int| 0 <= i < r.0.len() ==> whitespace(#[trigger] r.0[i]),
        forall|i: int| 0 <= i < r.1.len() ==> whitespace(#[trigger] r.1[i]),
        trimmed(s).len() > 0 ==> !whitespace(trimmed(s)[0]) && !whitespace(trimmed(s).last()),
{
    let front = lemma_trim_start(s);
    let mid = trim_start_spec(s);
    let back = lemma_trim_end(mid);
    let t = trimmed(s);
    assert(s =~= front + t + back);
    if t.len() > 0 {
        assert(t[0] == mid[0]);
    }
    (front, back)
}

proof fn lemma_trim_start(s: Seq<char>) -> (front: Seq<char>)
    ensures
        s == front + trim_start_spec(s),
        forall|i: int| 0 <= i < front.len() ==> whitespace(#[trigger] front[i]),
        trim_start_spec(s).len() > 0 ==> !whitespace(trim_start_spec(s)[0]),
    decreases s.len(),
{
    if s.len() > 0 && whitespace(s[0]) {
        let rest = lemma_trim_start(s.drop_first());
        let front = seq![s[0]] + rest;
        assert(s =~= seq![s[0]] + s.drop_first());
        assert(s.drop_first() == rest + trim_start_spec(s));
        assert(seq![s[0]] + (rest + trim_start_spec(s)) =~= front + trim_start_spec(s));
        assert forall|i: int| 0 <= i < front.len() implies whitespace(#[trigger] front[i]) by {
            if i > 0 {
                assert(front[i] == rest[i - 1]);
            }
        }
        front
    } else {
        assert(s =~= Seq::<char>::empty() + s);
        Seq::empty()
    }
}

proof fn lemma_trim_end(s: Seq<char>) -> (back: Seq<char>)
    ensures
        s == trim_end_spec(s) + back,
        forall|i: int| 0 <= i < back.len() ==> whitespace(#[trigger] back[i]),
        trim_end_spec(s).len() > 0 ==> !whitespace(trim_end_spec(s).last()),
    decreases s.len(),
{
    if s.len() > 0 && whitespace(s.last()) {
        let rest = lemma_trim_end(s.drop_last());
        let back = rest.push(s.last());
        assert(s =~= s.drop_last().push(s.last()));
        assert(s.drop_last() == trim_end_spec(s) + rest);
        assert((trim_end_spec(s) + rest).push(s.last()) =~= trim_end_spec(s) + back);
        assert forall|i: int| 0 <= i < back.len() implies whitespace(#[trigger] back[i]) by {
            if i < rest.len() {
                assert(back[i] == rest[i]);
            }
        }
        back
    } else {
        assert(s =~= s + Seq::<char>::empty());
        Seq::empty()
    }
}

} // verus!
