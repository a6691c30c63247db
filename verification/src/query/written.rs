//! How queries are written, and that what is written is read back.

use vstd::prelude::*;
use crate::query::ast::{
    AtomV, Combinator, FieldAccessV, NameMatchV, QueryV, SelectorNodeV, SelectorV, Sigil,
};
use crate::query::parser;
use crate::query::parser::TokenV;

verus! {

// ---------------------------------------------------------------------------
// Tokens of a query
// ---------------------------------------------------------------------------

/// The token of a sigil.
pub open spec fn sigil_tokens(sigil: Option<Sigil>) -> Seq<TokenV> {
    match sigil {
        Some(Sigil::Def) => seq![TokenV::Star],
        Some(Sigil::Ref) => seq![TokenV::Amp],
        None => Seq::empty(),
    }
}

/// The token of a type.
pub open spec fn type_tokens(node_type: Option<Seq<char>>) -> Seq<TokenV> {
    match node_type {
        Some(t) => seq![TokenV::Ident(t)],
        None => Seq::empty(),
    }
}

/// The tokens of a name: `#"name"` or `#/regex/`.
pub open spec fn name_tokens(name_match: Option<NameMatchV>) -> Seq<TokenV> {
    match name_match {
        Some(NameMatchV::Exact(n)) => seq![TokenV::Hash, TokenV::QuotedStr(n)],
        Some(NameMatchV::Regex(n)) => seq![TokenV::Hash, TokenV::Regex(n)],
        None => Seq::empty(),
    }
}

/// The tokens of an atom.
pub open spec fn atom_tokens(a: AtomV) -> Seq<TokenV> {
    sigil_tokens(a.sigil) + type_tokens(a.node_type) + name_tokens(a.name_match)
}

/// The tokens of a capture in a group: ` @name`.
pub open spec fn capture_tokens(capture: Option<Seq<char>>) -> Seq<TokenV> {
    match capture {
        Some(c) => seq![TokenV::Whitespace, TokenV::At, TokenV::Ident(c)],
        None => Seq::empty(),
    }
}

/// The tokens of a node: an atom, or a group in parentheses.
pub open spec fn node_tokens(node: SelectorNodeV) -> Seq<TokenV>
    decreases node,
{
    match node {
        SelectorNodeV::Bare(a) => atom_tokens(a),
        SelectorNodeV::Group { query, capture } => seq![TokenV::LParen] + query_tokens(*query)
            + capture_tokens(capture) + seq![TokenV::RParen],
    }
}

/// The tokens of a field access: `.field(query)` or `.field()`.
pub open spec fn access_tokens(access: FieldAccessV) -> Seq<TokenV>
    decreases access,
{
    seq![TokenV::Dot, TokenV::Ident(access.field), TokenV::LParen] + (match access.inner {
        Some(q) => query_tokens(*q),
        None => Seq::empty(),
    }) + seq![TokenV::RParen]
}

/// The tokens of field accesses.
pub open spec fn accesses_tokens(accesses: Seq<FieldAccessV>) -> Seq<TokenV>
    decreases accesses,
{
    if accesses.len() == 0 {
        Seq::empty()
    } else {
        access_tokens(accesses[0]) + accesses_tokens(accesses.drop_first())
    }
}

/// The tokens of a selector.
pub open spec fn selector_tokens(sel: SelectorV) -> Seq<TokenV>
    decreases sel,
{
    node_tokens(sel.node) + accesses_tokens(sel.fields)
}

/// The token of a combinator.
pub open spec fn combinator_token(c: Combinator) -> TokenV {
    match c {
        Combinator::Descendant => TokenV::Whitespace,
        Combinator::Child => TokenV::Gt,
        Combinator::Adjacent => TokenV::Plus,
        Combinator::Sibling => TokenV::Tilde,
    }
}

/// The tokens of what combinators join to a selector.
pub open spec fn tail_tokens(tail: Seq<(Combinator, SelectorV)>) -> Seq<TokenV>
    decreases tail,
{
    if tail.len() == 0 {
        Seq::empty()
    } else {
        seq![combinator_token(tail[0].0)] + selector_tokens(tail[0].1) + tail_tokens(
            tail.drop_first(),
        )
    }
}

/// The tokens of a query.
pub open spec fn query_tokens(q: QueryV) -> Seq<TokenV>
    decreases q,
{
    selector_tokens(q.head) + tail_tokens(q.tail)
}

/// How a token is written.
pub open spec fn token_text(t: TokenV) -> Seq<char> {
    match t {
        TokenV::Star => seq!['*'],
        TokenV::Amp => seq!['&'],
        TokenV::Gt => seq!['>'],
        TokenV::Plus => seq!['+'],
        TokenV::Tilde => seq!['~'],
        TokenV::Dot => seq!['.'],
        TokenV::LParen => seq!['('],
        TokenV::RParen => seq![')'],
        TokenV::At => seq!['@'],
        TokenV::Hash => seq!['#'],
        TokenV::Ident(w) => w,
        TokenV::QuotedStr(n) => seq!['"'] + n + seq!['"'],
        TokenV::Regex(n) => seq!['/'] + n + seq!['/'],
        TokenV::Whitespace => seq![' '],
        TokenV::Eof => Seq::empty(),
    }
}

/// How tokens are written.
pub open spec fn tokens_text(toks: Seq<TokenV>) -> Seq<char>
    decreases toks.len(),
{
    if toks.len() == 0 {
        Seq::empty()
    } else {
        token_text(toks[0]) + tokens_text(toks.drop_first())
    }
}

/// How a query is written: one blank for a descendant, `>`, `+` and `~` without blanks, names
/// between quotes, regular expressions between slashes, groups and fields in parentheses.
pub open spec fn query_text(q: QueryV) -> Seq<char> {
    tokens_text(query_tokens(q))
}

// ---------------------------------------------------------------------------
// Queries that can be written
// ---------------------------------------------------------------------------

/// Whether an atom can be written: it has some part, its type is a word, and what stands
/// between quotes or slashes holds none of them.
pub open spec fn atom_writable(a: AtomV) -> bool {
    &&& a.sigil is Some || a.node_type is Some || a.name_match is Some
    &&& a.node_type matches Some(t) ==> parser::is_plain_word(t)
    &&& match a.name_match {
        Some(NameMatchV::Exact(n)) => !n.contains('"'),
        Some(NameMatchV::Regex(n)) => !n.contains('/'),
        None => true,
    }
}

pub open spec fn node_writable(node: SelectorNodeV) -> bool
    decreases node,
{
    match node {
        SelectorNodeV::Bare(a) => atom_writable(a),
        SelectorNodeV::Group { query, capture } => query_writable(*query) && (capture matches Some(
            c,
        ) ==> parser::is_plain_word(c)),
    }
}

pub open spec fn access_writable(access: FieldAccessV) -> bool
    decreases access,
{
    parser::is_plain_word(access.field) && match access.inner {
        Some(q) => query_writable(*q),
        None => true,
    }
}

pub open spec fn accesses_writable(accesses: Seq<FieldAccessV>) -> bool
    decreases accesses,
{
    accesses.len() == 0 || access_writable(accesses[0]) && accesses_writable(accesses.drop_first())
}

pub open spec fn selector_writable(sel: SelectorV) -> bool
    decreases sel,
{
    node_writable(sel.node) && accesses_writable(sel.fields)
}

pub open spec fn tail_writable(tail: Seq<(Combinator, SelectorV)>) -> bool
    decreases tail,
{
    tail.len() == 0 || selector_writable(tail[0].1) && tail_writable(tail.drop_first())
}

/// Whether a query can be written: types, fields and captures are words, and the atoms can
/// be written.
pub open spec fn query_writable(q: QueryV) -> bool
    decreases q,
{
    selector_writable(q.head) && tail_writable(q.tail)
}

/// Whether the characters that the language gives a meaning of their own are none of an
/// identifier.
pub open spec fn signs_are_no_words() -> bool {
    !parser::is_word('*') && !parser::is_word('&') && !parser::is_word('>') && !parser::is_word('+')
        && !parser::is_word('~') && !parser::is_word('.') && !parser::is_word('(')
        && !parser::is_word(')') && !parser::is_word('@') && !parser::is_word('#')
        && !parser::is_word('"') && !parser::is_word('/') && !parser::is_word(' ')
}

// ---------------------------------------------------------------------------
// From the text to the tokens
// ---------------------------------------------------------------------------

/// Whether a token is written as it is read.
spec fn token_ok(t: TokenV) -> bool {
    match t {
        TokenV::Ident(w) => parser::is_plain_word(w),
        TokenV::QuotedStr(n) => !n.contains('"'),
        TokenV::Regex(n) => !n.contains('/'),
        TokenV::Eof => false,
        _ => true,
    }
}

/// Whether two tokens stay apart when they are written one after the other.
spec fn pair_ok(a: TokenV, b: TokenV) -> bool {
    &&& !(a is Ident && b is Ident)
    &&& !(a is Whitespace && b is Whitespace)
}

/// Whether tokens are read as they are written.
spec fn lexable(toks: Seq<TokenV>) -> bool {
    &&& forall|k: int| 0 <= k < toks.len() ==> token_ok(#[trigger] toks[k])
    &&& forall|k: int|
        0 <= k < toks.len() - 1 ==> pair_ok(#[trigger] toks[k], toks[k + 1])
}

proof fn lemma_lexable_concat(a: Seq<TokenV>, b: Seq<TokenV>)
    requires
        lexable(a),
        lexable(b),
        a.len() > 0 && b.len() > 0 ==> pair_ok(a.last(), b[0]),
    ensures
        lexable(a + b),
{
    let c = a + b;
    assert forall|k: int| 0 <= k < c.len() implies token_ok(#[trigger] c[k]) by {
        if k < a.len() {
            assert(token_ok(a[k]));
        } else {
            assert(token_ok(b[k - a.len()]));
        }
    }
    assert forall|k: int| 0 <= k < c.len() - 1 implies pair_ok(#[trigger] c[k], c[k + 1]) by {
        if k + 1 < a.len() {
            assert(pair_ok(a[k], a[k + 1]));
        } else if k >= a.len() {
            assert(pair_ok(b[k - a.len()], b[k - a.len() + 1]));
        }
    }
}

/// The tokens of a text that is written are read from it.
#[verifier::rlimit(40)]
proof fn lemma_lex(s: Seq<char>, i: nat, toks: Seq<TokenV>)
    requires
        signs_are_no_words(),
        i <= s.len(),
        s.skip(i as int) == tokens_text(toks),
        lexable(toks),
    ensures
        parser::tokens_from(s, i) == toks.push(TokenV::Eof),
    decreases toks.len(),
{
    let rest_text = s.skip(i as int);
    if toks.len() == 0 {
        assert(rest_text.len() == 0);
        assert(parser::tokens_from(s, i) =~= toks.push(TokenV::Eof));
    } else {
        let t = toks[0];
        let w = token_text(t);
        let rest = toks.drop_first();
        let after = tokens_text(rest);
        let j = i + w.len();
        assert(token_ok(t));
        assert(w.len() > 0);
        assert(rest_text =~= w + after);
        assert(rest_text.len() == s.len() - i);
        assert(s.subrange(i as int, j as int) =~= w) by {
            assert forall|k: int| 0 <= k < w.len() implies s[i + k] == w[k] by {
                assert(rest_text[k] == (w + after)[k]);
            }
        }
        assert(s.skip(j as int) =~= after) by {
            assert forall|k: int| 0 <= k < after.len() implies s[j + k] == after[k] by {
                assert(rest_text[w.len() + k] == (w + after)[w.len() + k]);
            }
        }
        assert(lexable(rest)) by {
            assert forall|k: int| 0 <= k < rest.len() implies token_ok(#[trigger] rest[k]) by {
                assert(token_ok(toks[k + 1]));
            }
            assert forall|k: int| 0 <= k < rest.len() - 1 implies pair_ok(
                #[trigger] rest[k],
                rest[k + 1],
            ) by {
                assert(pair_ok(toks[k + 1], toks[k + 2]));
            }
        }
        lemma_lex(s, j, rest);
        if j < s.len() {
            assert(rest.len() > 0);
            assert(pair_ok(toks[0], toks[1]));
            assert(token_ok(rest[0]));
            lemma_first_char(rest);
            assert(s[j as int] == s.skip(j as int)[0]);
        }
        lemma_token(s, i, t);
        assert(parser::tokens_from(s, i) =~= toks.push(TokenV::Eof)) by {
            assert(toks.push(TokenV::Eof) =~= seq![t] + rest.push(TokenV::Eof));
        }
    }
}

/// What a text of tokens begins with.
proof fn lemma_first_char(toks: Seq<TokenV>)
    requires
        signs_are_no_words(),
        toks.len() > 0,
        token_ok(toks[0]),
    ensures
        tokens_text(toks).len() > 0,
        !(toks[0] is Ident) ==> !parser::is_word(tokens_text(toks)[0]),
        !(toks[0] is Whitespace) ==> !parser::is_blank(tokens_text(toks)[0]),
{
    let w = token_text(toks[0]);
    assert(w.len() > 0);
    assert(tokens_text(toks)[0] == w[0]);
    if let TokenV::Ident(x) = toks[0] {
        assert(parser::is_plain(x[0]));
    }
}

proof fn lemma_token(s: Seq<char>, i: nat, t: TokenV)
    requires
        signs_are_no_words(),
        token_ok(t),
        i + token_text(t).len() <= s.len(),
        s.subrange(i as int, (i + token_text(t).len()) as int) == token_text(t),
        i + token_text(t).len() < s.len() && t is Ident ==> !parser::is_word(
            s[(i + token_text(t).len()) as int],
        ),
        i + token_text(t).len() < s.len() && t is Whitespace ==> !parser::is_blank(
            s[(i + token_text(t).len()) as int],
        ),
    ensures
        parser::token_from(s, i) == (t, i + token_text(t).len()),
{
    let w = token_text(t);
    let j = i + w.len();
    assert(s[i as int] == s.subrange(i as int, j as int)[0]);
    match t {
        TokenV::Ident(x) => {
            parser::lemma_word_token(s, i, x);
        },
        TokenV::QuotedStr(n) => {
            assert(s.subrange((i + 1) as int, (i + 1 + n.len()) as int) =~= n) by {
                assert forall|k: int| 0 <= k < n.len() implies s[i + 1 + k] == n[k] by {
                    assert(s.subrange(i as int, j as int)[1 + k] == w[1 + k]);
                }
            }
            assert(s.subrange(i as int, j as int)[w.len() - 1] == w[w.len() - 1]);
            parser::lemma_delimited(s, i + 1, n, '"');
        },
        TokenV::Regex(n) => {
            assert(s.subrange((i + 1) as int, (i + 1 + n.len()) as int) =~= n) by {
                assert forall|k: int| 0 <= k < n.len() implies s[i + 1 + k] == n[k] by {
                    assert(s.subrange(i as int, j as int)[1 + k] == w[1 + k]);
                }
            }
            assert(s.subrange(i as int, j as int)[w.len() - 1] == w[w.len() - 1]);
            parser::lemma_delimited(s, i + 1, n, '/');
        },
        TokenV::Whitespace => {
            parser::lemma_scan_to(s, i + 1, i + 1, parser::non_blank());
        },
        _ => {},
    }
}

// ---------------------------------------------------------------------------
// The tokens of a query stay apart
// ---------------------------------------------------------------------------

/// Whether a token begins a selector.
spec fn starts(t: TokenV) -> bool {
    match t {
        TokenV::Star | TokenV::Amp | TokenV::Ident(_) | TokenV::LParen | TokenV::Hash => true,
        _ => false,
    }
}

/// Whether tokens are those of a selector or a query as far as their ends show.
spec fn framed(toks: Seq<TokenV>) -> bool {
    &&& lexable(toks)
    &&& toks.len() > 0
    &&& starts(toks[0])
    &&& !(toks.last() is Whitespace)
}

proof fn lemma_atom_framed(a: AtomV)
    requires
        atom_writable(a),
    ensures
        framed(atom_tokens(a)),
{
    let x = sigil_tokens(a.sigil);
    let y = type_tokens(a.node_type);
    let z = name_tokens(a.name_match);
    assert(lexable(x));
    assert(lexable(y));
    assert(lexable(z));
    lemma_lexable_concat(x, y);
    if z.len() > 0 {
        assert(z[0] == TokenV::Hash);
    }
    lemma_lexable_concat(x + y, z);
    let all = atom_tokens(a);
    if a.sigil is Some {
        assert(all[0] == x[0]);
    } else if a.node_type is Some {
        assert(all[0] == y[0]);
    } else {
        assert(all[0] == z[0]);
    }
    if a.name_match is Some {
        assert(all.last() == z.last());
    } else if a.node_type is Some {
        assert(all.last() == y.last());
    } else {
        assert(all.last() == x.last());
    }
}

proof fn lemma_group_framed(q: Seq<TokenV>, capture: Option<Seq<char>>)
    requires
        framed(q),
        capture matches Some(c) ==> parser::is_plain_word(c),
    ensures
        framed(seq![TokenV::LParen] + q + capture_tokens(capture) + seq![TokenV::RParen]),
{
    let l = seq![TokenV::LParen];
    let c = capture_tokens(capture);
    let r = seq![TokenV::RParen];
    assert(lexable(l));
    assert(lexable(c));
    assert(lexable(r));
    lemma_lexable_concat(l, q);
    assert((l + q).last() == q.last());
    lemma_lexable_concat(l + q, c);
    lemma_lexable_concat(l + q + c, r);
    assert((l + q + c + r)[0] == l[0]);
    assert((l + q + c + r).last() == r[0]);
}

proof fn lemma_node_framed(node: SelectorNodeV)
    requires
        node_writable(node),
    ensures
        framed(node_tokens(node)),
    decreases node,
{
    match node {
        SelectorNodeV::Bare(a) => {
            lemma_atom_framed(a);
        },
        SelectorNodeV::Group { query, capture } => {
            lemma_query_framed(*query);
            lemma_group_framed(query_tokens(*query), capture);
        },
    }
}

proof fn lemma_access_framed(access: FieldAccessV)
    requires
        access_writable(access),
    ensures
        lexable(access_tokens(access)),
        access_tokens(access).len() > 0,
        access_tokens(access)[0] == TokenV::Dot,
        access_tokens(access).last() == TokenV::RParen,
    decreases access,
{
    let head = seq![TokenV::Dot, TokenV::Ident(access.field), TokenV::LParen];
    let inner = match access.inner {
        Some(q) => query_tokens(*q),
        None => Seq::empty(),
    };
    if let Some(q) = access.inner {
        lemma_query_framed(*q);
    }
    lemma_lexable_concat(head, inner);
    lemma_lexable_concat(head + inner, seq![TokenV::RParen]);
    assert(access_tokens(access)[0] == head[0]);
}

proof fn lemma_accesses_framed(accesses: Seq<FieldAccessV>)
    requires
        accesses_writable(accesses),
    ensures
        lexable(accesses_tokens(accesses)),
        accesses_tokens(accesses).len() > 0 ==> accesses_tokens(accesses)[0] == TokenV::Dot
            && accesses_tokens(accesses).last() == TokenV::RParen,
    decreases accesses,
{
    if accesses.len() > 0 {
        lemma_access_framed(accesses[0]);
        lemma_accesses_framed(accesses.drop_first());
        let a = access_tokens(accesses[0]);
        let b = accesses_tokens(accesses.drop_first());
        lemma_lexable_concat(a, b);
        assert((a + b)[0] == a[0]);
        if b.len() == 0 {
            assert(a + b =~= a);
        }
    }
}

proof fn lemma_selector_framed(sel: SelectorV)
    requires
        selector_writable(sel),
    ensures
        framed(selector_tokens(sel)),
    decreases sel,
{
    lemma_node_framed(sel.node);
    lemma_accesses_framed(sel.fields);
    let a = node_tokens(sel.node);
    let b = accesses_tokens(sel.fields);
    lemma_lexable_concat(a, b);
    assert((a + b)[0] == a[0]);
    if b.len() == 0 {
        assert(a + b =~= a);
    }
}

proof fn lemma_tail_framed(tail: Seq<(Combinator, SelectorV)>)
    requires
        tail_writable(tail),
    ensures
        lexable(tail_tokens(tail)),
        tail_tokens(tail).len() > 0 ==> !(tail_tokens(tail).last() is Whitespace)
            && tail_tokens(tail)[0] == combinator_token(tail[0].0),
        tail.len() > 0 ==> tail_tokens(tail).len() > 0,
    decreases tail,
{
    if tail.len() > 0 {
        let c = seq![combinator_token(tail[0].0)];
        let a = selector_tokens(tail[0].1);
        let b = tail_tokens(tail.drop_first());
        lemma_selector_framed(tail[0].1);
        lemma_tail_framed(tail.drop_first());
        lemma_lexable_concat(c, a);
        assert((c + a).last() == a.last());
        lemma_lexable_concat(c + a, b);
        assert((c + a + b)[0] == c[0]);
        if b.len() == 0 {
            assert(c + a + b =~= c + a);
        }
    }
}

proof fn lemma_query_framed(q: QueryV)
    requires
        query_writable(q),
    ensures
        framed(query_tokens(q)),
    decreases q,
{
    lemma_selector_framed(q.head);
    lemma_tail_framed(q.tail);
    let a = selector_tokens(q.head);
    let b = tail_tokens(q.tail);
    lemma_lexable_concat(a, b);
    assert((a + b)[0] == a[0]);
    if b.len() == 0 {
        assert(a + b =~= a);
    }
}

// ---------------------------------------------------------------------------
// From the tokens to the query
// ---------------------------------------------------------------------------

/// Whether tokens stand in others at a position.
spec fn stands(toks: Seq<TokenV>, p: nat, part: Seq<TokenV>) -> bool {
    &&& p + part.len() <= toks.len()
    &&& forall|k: int| 0 <= k < part.len() ==> toks[p + k] == #[trigger] part[k]
}

proof fn lemma_stands(toks: Seq<TokenV>, p: nat, a: Seq<TokenV>, b: Seq<TokenV>)
    requires
        stands(toks, p, a + b),
    ensures
        stands(toks, p, a),
        stands(toks, p + a.len(), b),
{
    assert forall|k: int| 0 <= k < a.len() implies toks[p + k] == #[trigger] a[k] by {
        assert((a + b)[k] == a[k]);
    }
    assert forall|k: int| 0 <= k < b.len() implies toks[p + a.len() + k] == #[trigger] b[k] by {
        assert((a + b)[a.len() + k] == b[k]);
    }
}

/// Whether a query ends at a position.
spec fn ends_query(toks: Seq<TokenV>, p: nat) -> bool {
    match parser::tok_at(toks, p) {
        TokenV::RParen | TokenV::Eof => true,
        TokenV::Whitespace => parser::tok_at(toks, p + 1) == TokenV::At,
        _ => false,
    }
}

/// Whether a selector ends at a position.
spec fn ends_selector(toks: Seq<TokenV>, p: nat) -> bool {
    match parser::tok_at(toks, p) {
        TokenV::RParen
        | TokenV::Eof
        | TokenV::Whitespace
        | TokenV::Gt
        | TokenV::Plus
        | TokenV::Tilde => true,
        _ => false,
    }
}

/// Whether a node of a selector ends at a position.
spec fn ends_node(toks: Seq<TokenV>, p: nat) -> bool {
    ends_selector(toks, p) || parser::tok_at(toks, p) == TokenV::Dot
}

proof fn lemma_atom_read(toks: Seq<TokenV>, p: nat, a: AtomV)
    requires
        atom_writable(a),
        stands(toks, p, atom_tokens(a)),
        ends_node(toks, p + atom_tokens(a).len()),
    ensures
        parser::atom_at(toks, p) == (Ok::<AtomV, Seq<char>>(a), p + atom_tokens(a).len()),
{
    let x = sigil_tokens(a.sigil);
    let y = type_tokens(a.node_type);
    let z = name_tokens(a.name_match);
    lemma_stands(toks, p, x + y, z);
    lemma_stands(toks, p, x, y);
    let p1 = p + x.len();
    let p2 = p1 + y.len();
    assert(p2 + z.len() == p + atom_tokens(a).len());
    if a.sigil is Some {
        assert(toks[p as int] == x[0]);
    }
    if a.node_type is Some {
        assert(toks[p1 as int] == y[0]);
    }
    if a.name_match is Some {
        assert(toks[p2 as int] == z[0]);
        assert(toks[(p2 + 1) as int] == z[1]);
    }
}

proof fn lemma_node_read(toks: Seq<TokenV>, p: nat, node: SelectorNodeV)
    requires
        node_writable(node),
        stands(toks, p, node_tokens(node)),
        ends_node(toks, p + node_tokens(node).len()),
    ensures
        parser::node_at(toks, p) == (
            Ok::<SelectorNodeV, Seq<char>>(node),
            p + node_tokens(node).len(),
        ),
    decreases node,
{
    match node {
        SelectorNodeV::Bare(a) => {
            lemma_atom_read(toks, p, a);
            lemma_node_framed(node);
            assert(toks[p as int] == node_tokens(node)[0]);
            lemma_atom_first(a);
        },
        SelectorNodeV::Group { query, capture } => {
            let q = query_tokens(*query);
            let c = capture_tokens(capture);
            let l = seq![TokenV::LParen];
            let r = seq![TokenV::RParen];
            lemma_stands(toks, p, l + q + c, r);
            lemma_stands(toks, p, l + q, c);
            lemma_stands(toks, p, l, q);
            assert(toks[p as int] == l[0]);
            lemma_query_framed(*query);
            assert(toks[(p + 1) as int] == q[0]);
            assert(parser::skip_ws(toks, p + 1) == p + 1);
            let e = p + 1 + q.len();
            assert(toks[(e + c.len()) as int] == r[0]);
            if capture is Some {
                assert(toks[e as int] == c[0]);
                assert(toks[(e + 1) as int] == c[1]);
                assert(toks[(e + 2) as int] == c[2]);
                assert(parser::skip_ws(toks, e + 1) == e + 1);
                assert(parser::skip_ws(toks, e) == e + 1);
            } else {
                assert(parser::skip_ws(toks, e) == e);
            }
            assert(ends_query(toks, e));
            lemma_query_read(toks, p + 1, *query);
            assert(parser::skip_ws(toks, e + c.len()) == e + c.len());
        },
    }
}

/// An atom does not begin with a parenthesis.
proof fn lemma_atom_first(a: AtomV)
    requires
        atom_writable(a),
    ensures
        atom_tokens(a).len() > 0,
        atom_tokens(a)[0] != TokenV::LParen,
{
    let x = sigil_tokens(a.sigil);
    let y = type_tokens(a.node_type);
    let z = name_tokens(a.name_match);
    if a.sigil is Some {
        assert(atom_tokens(a)[0] == x[0]);
    } else if a.node_type is Some {
        assert(atom_tokens(a)[0] == y[0]);
    } else {
        assert(atom_tokens(a)[0] == z[0]);
    }
}

proof fn lemma_access_read(toks: Seq<TokenV>, p: nat, access: FieldAccessV)
    requires
        access_writable(access),
        stands(toks, p, access_tokens(access)),
    ensures
        parser::field_at(toks, p) == (
            Ok::<FieldAccessV, Seq<char>>(access),
            p + access_tokens(access).len(),
        ),
    decreases access,
{
    let head = seq![TokenV::Dot, TokenV::Ident(access.field), TokenV::LParen];
    let inner = match access.inner {
        Some(q) => query_tokens(*q),
        None => Seq::empty(),
    };
    let r = seq![TokenV::RParen];
    lemma_stands(toks, p, head + inner, r);
    lemma_stands(toks, p, head, inner);
    assert(toks[(p + 1) as int] == head[1]);
    assert(toks[(p + 2) as int] == head[2]);
    let e = p + 3 + inner.len();
    assert(toks[e as int] == r[0]);
    assert(parser::skip_ws(toks, e) == e);
    match access.inner {
        Some(q) => {
            lemma_query_framed(*q);
            assert(toks[(p + 3) as int] == inner[0]);
            assert(parser::skip_ws(toks, p + 3) == p + 3);
            assert(ends_query(toks, e));
            lemma_query_read(toks, p + 3, *q);
            assert(parser::field_inner_at(toks, p + 3) == (
                Ok::<Option<Box<QueryV>>, Seq<char>>(access.inner),
                e,
            ));
        },
        None => {
            assert(parser::skip_ws(toks, p + 3) == p + 3);
        },
    }
}

proof fn lemma_accesses_read(toks: Seq<TokenV>, p: nat, accesses: Seq<FieldAccessV>)
    requires
        accesses_writable(accesses),
        stands(toks, p, accesses_tokens(accesses)),
        ends_selector(toks, p + accesses_tokens(accesses).len()),
    ensures
        parser::fields_at(toks, p) == (
            Ok::<Seq<FieldAccessV>, Seq<char>>(accesses),
            p + accesses_tokens(accesses).len(),
        ),
    decreases accesses,
{
    if accesses.len() == 0 {
        assert(accesses =~= Seq::empty());
    } else {
        let a = access_tokens(accesses[0]);
        let rest = accesses.drop_first();
        let b = accesses_tokens(rest);
        lemma_stands(toks, p, a, b);
        lemma_access_framed(accesses[0]);
        assert(toks[p as int] == a[0]);
        lemma_access_read(toks, p, accesses[0]);
        lemma_accesses_read(toks, p + a.len(), rest);
        assert(seq![accesses[0]] + rest =~= accesses);
    }
}

proof fn lemma_selector_read(toks: Seq<TokenV>, p: nat, sel: SelectorV)
    requires
        selector_writable(sel),
        stands(toks, p, selector_tokens(sel)),
        ends_selector(toks, p + selector_tokens(sel).len()),
    ensures
        parser::selector_at(toks, p) == (
            Ok::<SelectorV, Seq<char>>(sel),
            p + selector_tokens(sel).len(),
        ),
    decreases sel,
{
    let a = node_tokens(sel.node);
    let b = accesses_tokens(sel.fields);
    lemma_stands(toks, p, a, b);
    lemma_accesses_framed(sel.fields);
    if b.len() > 0 {
        assert(toks[(p + a.len()) as int] == b[0]);
    }
    assert(ends_node(toks, p + a.len()));
    lemma_node_read(toks, p, sel.node);
    lemma_accesses_read(toks, p + a.len(), sel.fields);
}

proof fn lemma_tail_read(toks: Seq<TokenV>, p: nat, tail: Seq<(Combinator, SelectorV)>)
    requires
        tail_writable(tail),
        stands(toks, p, tail_tokens(tail)),
        ends_query(toks, p + tail_tokens(tail).len()),
    ensures
        parser::tail_at(toks, p) == (
            Ok::<Seq<(Combinator, SelectorV)>, Seq<char>>(tail),
            p + tail_tokens(tail).len(),
        ),
    decreases tail,
{
    if tail.len() == 0 {
        assert(tail =~= Seq::empty());
        assert(parser::combinator_at(toks, p) is None);
    } else {
        let c = seq![combinator_token(tail[0].0)];
        let a = selector_tokens(tail[0].1);
        let rest = tail.drop_first();
        let b = tail_tokens(rest);
        lemma_stands(toks, p, c + a, b);
        lemma_stands(toks, p, c, a);
        assert(toks[p as int] == c[0]);
        lemma_selector_framed(tail[0].1);
        assert(toks[(p + 1) as int] == a[0]);
        assert(parser::skip_ws(toks, p + 1) == p + 1);
        assert(parser::combinator_at(toks, p) == Some((tail[0].0, p + 1)));
        lemma_tail_framed(rest);
        let e = p + 1 + a.len();
        if b.len() > 0 {
            assert(toks[e as int] == b[0]);
        }
        assert(ends_selector(toks, e));
        lemma_selector_read(toks, p + 1, tail[0].1);
        lemma_tail_read(toks, e, rest);
        assert(seq![tail[0]] + rest =~= tail);
    }
}

proof fn lemma_query_read(toks: Seq<TokenV>, p: nat, q: QueryV)
    requires
        query_writable(q),
        stands(toks, p, query_tokens(q)),
        ends_query(toks, p + query_tokens(q).len()),
    ensures
        parser::query_at(toks, p) == (Ok::<QueryV, Seq<char>>(q), p + query_tokens(q).len()),
    decreases q,
{
    let a = selector_tokens(q.head);
    let b = tail_tokens(q.tail);
    lemma_stands(toks, p, a, b);
    lemma_selector_framed(q.head);
    lemma_tail_framed(q.tail);
    assert(toks[p as int] == a[0]);
    assert(parser::skip_ws(toks, p) == p);
    if b.len() > 0 {
        assert(toks[(p + a.len()) as int] == b[0]);
    }
    assert(ends_selector(toks, p + a.len()));
    lemma_selector_read(toks, p, q.head);
    lemma_tail_read(toks, p + a.len(), q.tail);
}

/// A query that is written is read back: nothing is lost, merged or put in another order.
pub proof fn law_query_is_read_back(q: QueryV)
    requires
        query_writable(q),
    ensures
        signs_are_no_words() ==> parser::parsed(query_text(q)) == Ok::<QueryV, Seq<char>>(q),
{
    if signs_are_no_words() {
        let part = query_tokens(q);
        let s = query_text(q);
        lemma_query_framed(q);
        assert(s.skip(0) =~= s);
        lemma_lex(s, 0, part);
        let toks = part.push(TokenV::Eof);
        let e = part.len();
        assert(toks[e as int] == TokenV::Eof);
        assert(stands(toks, 0, part));
        lemma_query_read(toks, 0, q);
        assert(parser::skip_ws(toks, e) == e);
    }
}

} // verus!
