//! Lexer and recursive-descent parser of the selector language.

use vstd::prelude::*;
use crate::query::ast::{
    Atom, AtomV, Combinator, FieldAccess, FieldAccessV, NameMatch, NameMatchV, Query, QueryV,
    Selector, SelectorNode, SelectorNodeV, SelectorV, Sigil,
};
use crate::text;
use crate::text::{chars_of, decimal, string_of};

verus! {

broadcast use vstd::string::group_string_axioms;

/// A lexical token.
#[derive(Debug)]
pub enum Token {
    Star,
    Amp,
    Gt,
    Plus,
    Tilde,
    Dot,
    LParen,
    RParen,
    At,
    Hash,
    Ident(String),
    QuotedStr(String),
    Regex(String),
    Whitespace,
    Eof,
}

/// View of a [`Token`].
#[verifier::ext_equal]
pub enum TokenV {
    Star,
    Amp,
    Gt,
    Plus,
    Tilde,
    Dot,
    LParen,
    RParen,
    At,
    Hash,
    Ident(Seq<char>),
    QuotedStr(Seq<char>),
    Regex(Seq<char>),
    Whitespace,
    Eof,
}

impl View for Token {
    type V = TokenV;

    open spec fn view(&self) -> TokenV {
        match *self {
            Token::Star => TokenV::Star,
            Token::Amp => TokenV::Amp,
            Token::Gt => TokenV::Gt,
            Token::Plus => TokenV::Plus,
            Token::Tilde => TokenV::Tilde,
            Token::Dot => TokenV::Dot,
            Token::LParen => TokenV::LParen,
            Token::RParen => TokenV::RParen,
            Token::At => TokenV::At,
            Token::Hash => TokenV::Hash,
            Token::Ident(s) => TokenV::Ident(s@),
            Token::QuotedStr(s) => TokenV::QuotedStr(s@),
            Token::Regex(s) => TokenV::Regex(s@),
            Token::Whitespace => TokenV::Whitespace,
            Token::Eof => TokenV::Eof,
        }
    }
}

impl Clone for Token {
    fn clone(&self) -> (r: Self)
        ensures
            r@ == self@,
    {
        match self {
            Token::Star => Token::Star,
            Token::Amp => Token::Amp,
            Token::Gt => Token::Gt,
            Token::Plus => Token::Plus,
            Token::Tilde => Token::Tilde,
            Token::Dot => Token::Dot,
            Token::LParen => Token::LParen,
            Token::RParen => Token::RParen,
            Token::At => Token::At,
            Token::Hash => Token::Hash,
            Token::Ident(s) => Token::Ident(s.clone()),
            Token::QuotedStr(s) => Token::QuotedStr(s.clone()),
            Token::Regex(s) => Token::Regex(s.clone()),
            Token::Whitespace => Token::Whitespace,
            Token::Eof => Token::Eof,
        }
    }
}

// ---------------------------------------------------------------------------
// Lexical structure
// ---------------------------------------------------------------------------

/// A blank of the language: a space or a tab.
pub open spec fn is_blank(c: char) -> bool {
    c == ' ' || c == '\t'
}

/// A character of an identifier.
pub open spec fn is_word(c: char) -> bool {
    text::alphanumeric(c) || c == '_'
}

/// Holds of the character `q` alone.
pub open spec fn equals(q: char) -> spec_fn(char) -> bool {
    |c: char| c == q
}

/// Holds of what is no blank.
pub open spec fn non_blank() -> spec_fn(char) -> bool {
    |c: char| !is_blank(c)
}

/// Holds of what is no character of an identifier.
pub open spec fn non_word() -> spec_fn(char) -> bool {
    |c: char| !is_word(c)
}

/// The first position from `i` on whose character satisfies `stop`, or the length.
pub open spec fn scan(s: Seq<char>, i: nat, stop: spec_fn(char) -> bool) -> nat
    decreases s.len() - i,
{
    if i >= s.len() || stop(s[i as int]) {
        i
    } else {
        scan(s, i + 1, stop)
    }
}

pub proof fn lemma_scan(s: Seq<char>, i: nat, stop: spec_fn(char) -> bool)
    requires
        i <= s.len(),
    ensures
        i <= scan(s, i, stop) <= s.len(),
    decreases s.len() - i,
{
    if i < s.len() && !stop(s[i as int]) {
        lemma_scan(s, i + 1, stop);
    }
}

/// The text from `i` up to the next `quote`, and the position after that quote. A text
/// that is not closed runs to the end.
pub open spec fn delimited(s: Seq<char>, i: nat, quote: char) -> (Seq<char>, nat) {
    let end = scan(s, i, equals(quote));
    (s.subrange(i as int, end as int), if end < s.len() { end + 1 } else { end })
}

/// The token that starts at `i`, and the position after it.
pub open spec fn token_from(s: Seq<char>, i: nat) -> (TokenV, nat) {
    if i >= s.len() {
        (TokenV::Eof, i)
    } else {
        let c = s[i as int];
        if is_blank(c) {
            (TokenV::Whitespace, scan(s, i + 1, non_blank()))
        } else if c == '*' {
            (TokenV::Star, i + 1)
        } else if c == '&' {
            (TokenV::Amp, i + 1)
        } else if c == '>' {
            (TokenV::Gt, i + 1)
        } else if c == '+' {
            (TokenV::Plus, i + 1)
        } else if c == '~' {
            (TokenV::Tilde, i + 1)
        } else if c == '.' {
            (TokenV::Dot, i + 1)
        } else if c == '(' {
            (TokenV::LParen, i + 1)
        } else if c == ')' {
            (TokenV::RParen, i + 1)
        } else if c == '@' {
            (TokenV::At, i + 1)
        } else if c == '#' {
            (TokenV::Hash, i + 1)
        } else if c == '"' {
            let d = delimited(s, i + 1, '"');
            (TokenV::QuotedStr(d.0), d.1)
        } else if c == '/' {
            let d = delimited(s, i + 1, '/');
            (TokenV::Regex(d.0), d.1)
        } else if is_word(c) {
            let end = scan(s, i + 1, non_word());
            (TokenV::Ident(s.subrange(i as int, end as int)), end)
        } else {
            (TokenV::Ident(seq![c]), i + 1)
        }
    }
}

pub proof fn lemma_token_from(s: Seq<char>, i: nat)
    requires
        i < s.len(),
    ensures
        i < token_from(s, i).1 <= s.len(),
        token_from(s, i).0 != TokenV::Eof,
{
    lemma_scan(s, i + 1, non_blank());
    lemma_scan(s, i + 1, non_word());
    lemma_scan(s, i + 1, equals('"'));
    lemma_scan(s, i + 1, equals('/'));
}

/// The tokens of the text from `i` on; the last one, and only that one, is `Eof`.
pub open spec fn tokens_from(s: Seq<char>, i: nat) -> Seq<TokenV>
    decreases s.len() - i,
{
    if i >= s.len() {
        seq![TokenV::Eof]
    } else {
        proof {
            lemma_token_from(s, i);
        }
        let t = token_from(s, i);
        seq![t.0] + tokens_from(s, t.1)
    }
}

struct Lexer {
    chars: Vec<char>,
    pos: usize,
}

impl Lexer {
    spec fn wf(self) -> bool {
        self.pos <= self.chars@.len()
    }

    fn new(s: &str) -> (r: Self)
        ensures
            r.wf(),
            r.chars@ == s@,
            r.pos == 0,
    {
        Lexer { chars: chars_of(s), pos: 0 }
    }

    /// Moves past the text up to `quote`, and past the quote.
    fn delimited_text(&mut self, quote: char) -> (r: String)
        requires
            old(self).wf(),
        ensures
            final(self).wf(),
            final(self).chars == old(self).chars,
            (r@, final(self).pos as nat) == delimited(old(self).chars@, old(self).pos as nat, quote),
    {
        let ghost stop = equals(quote);
        let start: usize = self.pos;
        let mut end: usize = start;
        while end < self.chars.len() && self.chars[end] != quote
            invariant
                start <= end <= self.chars@.len(),
                stop == equals(quote),
                scan(self.chars@, start as nat, stop) == scan(self.chars@, end as nat, stop),
                *self == *old(self),
            decreases self.chars@.len() - end,
        {
            end += 1;
        }
        let text: String = string_of(&self.chars, start, end);
        self.pos = if end < self.chars.len() {
            end + 1
        } else {
            end
        };
        text
    }

    fn next_token(&mut self) -> (r: Token)
        requires
            old(self).wf(),
        ensures
            final(self).wf(),
            final(self).chars == old(self).chars,
            (r@, final(self).pos as nat) == token_from(old(self).chars@, old(self).pos as nat),
    {
        let start: usize = self.pos;
        if start >= self.chars.len() {
            return Token::Eof;
        }
        let c: char = self.chars[start];
        if c == ' ' || c == '\t' {
            let ghost stop = non_blank();
            self.pos = start + 1;
            while self.pos < self.chars.len() && (self.chars[self.pos] == ' '
                || self.chars[self.pos] == '\t')
                invariant
                    start < self.pos <= self.chars@.len(),
                    self.chars == old(self).chars,
                    stop == non_blank(),
                    scan(self.chars@, start as nat + 1, stop) == scan(
                        self.chars@,
                        self.pos as nat,
                        stop,
                    ),
                decreases self.chars@.len() - self.pos,
            {
                self.pos = self.pos + 1;
            }
            return Token::Whitespace;
        }
        self.pos = start + 1;
        if c == '*' {
            Token::Star
        } else if c == '&' {
            Token::Amp
        } else if c == '>' {
            Token::Gt
        } else if c == '+' {
            Token::Plus
        } else if c == '~' {
            Token::Tilde
        } else if c == '.' {
            Token::Dot
        } else if c == '(' {
            Token::LParen
        } else if c == ')' {
            Token::RParen
        } else if c == '@' {
            Token::At
        } else if c == '#' {
            Token::Hash
        } else if c == '"' {
            Token::QuotedStr(self.delimited_text('"'))
        } else if c == '/' {
            Token::Regex(self.delimited_text('/'))
        } else if c.is_alphanumeric() || c == '_' {
            let ghost stop = non_word();
            while self.pos < self.chars.len() && (self.chars[self.pos].is_alphanumeric()
                || self.chars[self.pos] == '_')
                invariant
                    start < self.pos <= self.chars@.len(),
                    self.chars == old(self).chars,
                    stop == non_word(),
                    scan(self.chars@, start as nat + 1, stop) == scan(
                        self.chars@,
                        self.pos as nat,
                        stop,
                    ),
                decreases self.chars@.len() - self.pos,
            {
                self.pos = self.pos + 1;
            }
            Token::Ident(string_of(&self.chars, start, self.pos))
        } else {
            let text: String = string_of(&self.chars, start, start + 1);
            assert(text@ =~= seq![c]);
            Token::Ident(text)
        }
    }

    fn tokenize(self) -> (r: Vec<Token>)
        requires
            self.wf(),
        ensures
            text::views(r@) == tokens_from(self.chars@, self.pos as nat),
    {
        let mut lexer = self;
        let mut tokens: Vec<Token> = Vec::new();
        while lexer.pos < lexer.chars.len()
            invariant
                lexer.wf(),
                lexer.chars == self.chars,
                text::views(tokens@) + tokens_from(lexer.chars@, lexer.pos as nat)
                    == tokens_from(self.chars@, self.pos as nat),
            decreases lexer.chars@.len() - lexer.pos,
        {
            proof {
                lemma_token_from(lexer.chars@, lexer.pos as nat);
            }
            let ghost before = tokens@;
            let ghost rest = tokens_from(lexer.chars@, token_from(lexer.chars@, lexer.pos as nat).1);
            let t: Token = lexer.next_token();
            tokens.push(t);
            assert(text::views(tokens@) + rest =~= text::views(before) + (seq![t@] + rest));
        }
        tokens.push(Token::Eof);
        assert(text::views(tokens@) =~= text::views(tokens@.drop_last()) + seq![TokenV::Eof]);
        tokens
    }
}

// ---------------------------------------------------------------------------
// Grammar
// ---------------------------------------------------------------------------

/// The token at position `p`; past the end there is only `Eof`.
pub open spec fn tok_at(toks: Seq<TokenV>, p: nat) -> TokenV {
    if p < toks.len() {
        toks[p as int]
    } else {
        TokenV::Eof
    }
}

/// How many tokens there are from `p` on.
pub open spec fn left(toks: Seq<TokenV>, p: nat) -> nat {
    if p < toks.len() {
        (toks.len() - p) as nat
    } else {
        0
    }
}

/// The first position from `p` on that does not hold white space.
pub open spec fn skip_ws(toks: Seq<TokenV>, p: nat) -> nat
    decreases left(toks, p),
{
    if tok_at(toks, p) == TokenV::Whitespace {
        skip_ws(toks, p + 1)
    } else {
        p
    }
}

pub proof fn lemma_skip_ws(toks: Seq<TokenV>, p: nat)
    ensures
        skip_ws(toks, p) >= p,
        tok_at(toks, skip_ws(toks, p)) != TokenV::Whitespace,
        p <= toks.len() ==> skip_ws(toks, p) <= toks.len(),
    decreases left(toks, p),
{
    if tok_at(toks, p) == TokenV::Whitespace {
        lemma_skip_ws(toks, p + 1);
    }
}

/// What a parse gives: a value or an error message, and the position it stops at.
pub type Parsed<T> = (Result<T, Seq<char>>, nat);

/// The later of two positions.
pub open spec fn later(p: nat, q: nat) -> nat {
    if p <= q {
        q
    } else {
        p
    }
}

/// Whether a selector can start at `p`.
pub open spec fn selector_starts(toks: Seq<TokenV>, p: nat) -> bool {
    match tok_at(toks, p) {
        TokenV::Star | TokenV::Amp | TokenV::Ident(_) | TokenV::LParen | TokenV::Hash => true,
        _ => false,
    }
}

/// The combinator that a token stands for.
pub open spec fn symbol_of(t: TokenV) -> Option<Combinator> {
    match t {
        TokenV::Gt => Some(Combinator::Child),
        TokenV::Plus => Some(Combinator::Adjacent),
        TokenV::Tilde => Some(Combinator::Sibling),
        _ => None,
    }
}

/// The combinator that is written at `p`, and the position after it and the white space
/// that follows.
pub open spec fn symbol_at(toks: Seq<TokenV>, p: nat) -> Option<(Combinator, nat)> {
    match symbol_of(tok_at(toks, p)) {
        Some(c) => Some((c, skip_ws(toks, p + 1))),
        None => None,
    }
}

/// The combinator at `p`, and the position after it. White space joins two selectors
/// where a selector follows, and may stand before any other combinator.
pub open spec fn combinator_at(toks: Seq<TokenV>, p: nat) -> Option<(Combinator, nat)> {
    if tok_at(toks, p) == TokenV::Whitespace {
        if selector_starts(toks, p + 1) {
            Some((Combinator::Descendant, p + 1))
        } else {
            symbol_at(toks, p + 1)
        }
    } else {
        symbol_at(toks, p)
    }
}

/// What follows a `#`.
pub open spec fn name_match_at(toks: Seq<TokenV>, p: nat) -> Parsed<NameMatchV> {
    match tok_at(toks, p) {
        TokenV::QuotedStr(s) => (Ok(NameMatchV::Exact(s)), p + 1),
        TokenV::Regex(s) => (Ok(NameMatchV::Regex(s)), p + 1),
        TokenV::Ident(s) => (Ok(NameMatchV::Exact(s)), p + 1),
        _ => (Err("expected name match after #"@), p),
    }
}

/// `sigil? ident? ("#" name)?`
pub open spec fn atom_at(toks: Seq<TokenV>, p: nat) -> Parsed<AtomV> {
    let (sigil, p1) = match tok_at(toks, p) {
        TokenV::Star => (Some(Sigil::Def), p + 1),
        TokenV::Amp => (Some(Sigil::Ref), p + 1),
        _ => (None, p),
    };
    let (node_type, p2) = match tok_at(toks, p1) {
        TokenV::Ident(name) => (Some(name), p1 + 1),
        _ => (None, p1),
    };
    if tok_at(toks, p2) == TokenV::Hash {
        match name_match_at(toks, p2 + 1) {
            (Ok(m), p3) => (Ok(AtomV { sigil, node_type, name_match: Some(m) }), p3),
            (Err(e), p3) => (Err(e), p3),
        }
    } else {
        (Ok(AtomV { sigil, node_type, name_match: None }), p2)
    }
}

/// `"(" query ("@" ident)? ")"` or an atom.
pub open spec fn node_at(toks: Seq<TokenV>, p: nat) -> Parsed<SelectorNodeV>
    decreases left(toks, p), 0int,
{
    if tok_at(toks, p) == TokenV::LParen {
        proof {
            lemma_skip_ws(toks, p + 1);
        }
        match query_at(toks, skip_ws(toks, p + 1)) {
            (Err(e), p1) => (Err(e), p1),
            (Ok(query), p1) => {
                let p2 = skip_ws(toks, p1);
                if tok_at(toks, p2) == TokenV::At {
                    match tok_at(toks, p2 + 1) {
                        TokenV::Ident(name) => close_group(toks, p2 + 2, query, Some(name)),
                        _ => (Err("expected capture name after @"@), p2 + 2),
                    }
                } else {
                    close_group(toks, p2, query, None)
                }
            },
        }
    } else {
        match atom_at(toks, p) {
            (Ok(a), p1) => (Ok(SelectorNodeV::Bare(a)), p1),
            (Err(e), p1) => (Err(e), p1),
        }
    }
}

/// The end of a group: `")"`.
pub open spec fn close_group(
    toks: Seq<TokenV>,
    p: nat,
    query: QueryV,
    capture: Option<Seq<char>>,
) -> Parsed<SelectorNodeV> {
    let p1 = skip_ws(toks, p);
    if tok_at(toks, p1) == TokenV::RParen {
        (Ok(SelectorNodeV::Group { query: Box::new(query), capture }), p1 + 1)
    } else {
        (Err("expected )"@), p1)
    }
}

/// The list that starts with `first` and goes on as `rest` says.
pub open spec fn cons<T>(first: T, rest: Parsed<Seq<T>>) -> Parsed<Seq<T>> {
    match rest {
        (Ok(items), p) => (Ok(seq![first] + items), p),
        (Err(e), p) => (Err(e), p),
    }
}

/// The query that is a group and nothing more.
pub open spec fn captured_query(q: QueryV, capture: Seq<char>) -> QueryV {
    QueryV {
        head: SelectorV {
            node: SelectorNodeV::Group { query: Box::new(q), capture: Some(capture) },
            fields: Seq::empty(),
        },
        tail: Seq::empty(),
    }
}

/// What a field access holds between its parentheses, up to the closing one. With a
/// capture it is the group that the parentheses would make.
pub open spec fn field_inner_at(toks: Seq<TokenV>, p: nat) -> Parsed<Option<Box<QueryV>>>
    decreases left(toks, p), 5int,
{
    if tok_at(toks, p) == TokenV::RParen {
        (Ok(None), p)
    } else {
        match query_at(toks, p) {
            (Err(e), p1) => (Err(e), p1),
            (Ok(q), p1) => {
                let p2 = skip_ws(toks, p1);
                if tok_at(toks, p2) == TokenV::At {
                    match tok_at(toks, p2 + 1) {
                        TokenV::Ident(name) => (
                            Ok(Some(Box::new(captured_query(q, name)))),
                            p2 + 2,
                        ),
                        _ => (Err("expected capture name after @"@), p2 + 2),
                    }
                } else {
                    (Ok(Some(Box::new(q))), p2)
                }
            },
        }
    }
}

/// `"." ident "(" (query capture?)? ")"`
pub open spec fn field_at(toks: Seq<TokenV>, p: nat) -> Parsed<FieldAccessV>
    decreases left(toks, p), 0int,
{
    match tok_at(toks, p + 1) {
        TokenV::Ident(field) => if tok_at(toks, p + 2) != TokenV::LParen {
            (Err("expected ( after field name"@), p + 2)
        } else {
            proof {
                lemma_skip_ws(toks, p + 3);
            }
            match field_inner_at(toks, skip_ws(toks, p + 3)) {
                (Err(e), p1) => (Err(e), p1),
                (Ok(inner), p1) => {
                    let p2 = skip_ws(toks, p1);
                    if tok_at(toks, p2) == TokenV::RParen {
                        (Ok(FieldAccessV { field, inner }), p2 + 1)
                    } else {
                        (Err("expected ) to close field access"@), p2)
                    }
                },
            }
        },
        _ => (Err("expected field name after ."@), p + 2),
    }
}

/// Any number of field accesses, each of them from its `.` on.
pub open spec fn fields_at(toks: Seq<TokenV>, p: nat) -> Parsed<Seq<FieldAccessV>>
    decreases left(toks, p), 1int,
{
    if tok_at(toks, p) != TokenV::Dot {
        (Ok(Seq::empty()), p)
    } else {
        match field_at(toks, p) {
            (Err(e), p1) => (Err(e), p1),
            (Ok(field), p1) => cons(field, fields_at(toks, later(p + 1, p1))),
        }
    }
}

/// A node and its field accesses.
pub open spec fn selector_at(toks: Seq<TokenV>, p: nat) -> Parsed<SelectorV>
    decreases left(toks, p), 2int,
{
    match node_at(toks, p) {
        (Err(e), p1) => (Err(e), p1),
        (Ok(node), p1) => match fields_at(toks, later(p, p1)) {
            (Err(e), p2) => (Err(e), p2),
            (Ok(fields), p2) => (Ok(SelectorV { node, fields }), p2),
        },
    }
}

/// `(combinator selector)*`
pub open spec fn tail_at(toks: Seq<TokenV>, p: nat) -> Parsed<Seq<(Combinator, SelectorV)>>
    decreases left(toks, p), 3int,
{
    match combinator_at(toks, p) {
        None => (Ok(Seq::empty()), p),
        Some((c, p1)) => {
            proof {
                lemma_skip_ws(toks, p + 1);
                lemma_skip_ws(toks, p + 2);
            }
            match selector_at(toks, p1) {
                (Err(e), p2) => (Err(e), p2),
                (Ok(sel), p2) => cons((c, sel), tail_at(toks, later(p1, p2))),
            }
        },
    }
}

/// A selector and what combinators join to it.
pub open spec fn query_at(toks: Seq<TokenV>, p: nat) -> Parsed<QueryV>
    decreases left(toks, p), 4int,
{
    proof {
        lemma_skip_ws(toks, p);
    }
    let p0 = skip_ws(toks, p);
    match selector_at(toks, p0) {
        (Err(e), p1) => (Err(e), p1),
        (Ok(head), p1) => match tail_at(toks, later(p0, p1)) {
            (Err(e), p2) => (Err(e), p2),
            (Ok(tail), p2) => (Ok(QueryV { head, tail }), p2),
        },
    }
}

/// What [`parse`] gives for a text: its one query, with white space round it and nothing
/// else, or the message of the first error.
pub open spec fn parsed(s: Seq<char>) -> Result<QueryV, Seq<char>> {
    let toks = tokens_from(s, 0);
    match query_at(toks, 0) {
        (Err(e), _) => Err(e),
        (Ok(q), p) => {
            let end = skip_ws(toks, p);
            if tok_at(toks, end) == TokenV::Eof {
                Ok(q)
            } else {
                Err("unexpected input at position "@ + text::decimal_digits(end))
            }
        },
    }
}

// ---------------------------------------------------------------------------
// Reading atoms back
// ---------------------------------------------------------------------------

/// Whether a text is a word: all of it characters of an identifier, and none of them one
/// that the language gives a meaning of its own.
pub open spec fn is_plain_word(s: Seq<char>) -> bool {
    s.len() > 0 && forall|i: int| 0 <= i < s.len() ==> is_plain(#[trigger] s[i])
}

/// Whether a character is one of an identifier, and of nothing else.
pub open spec fn is_plain(c: char) -> bool {
    is_word(c) && !is_blank(c) && c != '*' && c != '&' && c != '>' && c != '+' && c != '~' && c
        != '.' && c != '(' && c != ')' && c != '@' && c != '#' && c != '"' && c != '/'
}

/// How a sigil is written.
pub open spec fn sigil_text(sigil: Option<Sigil>) -> Seq<char> {
    match sigil {
        Some(Sigil::Def) => seq!['*'],
        Some(Sigil::Ref) => seq!['&'],
        None => Seq::empty(),
    }
}

/// How the type of a node is written.
pub open spec fn type_text(node_type: Option<Seq<char>>) -> Seq<char> {
    match node_type {
        Some(t) => t,
        None => Seq::empty(),
    }
}

/// How a name is written: as a word where that is wanted, or else between quotes; a regular
/// expression between slashes.
pub open spec fn name_text(name_match: Option<NameMatchV>, quoted: bool) -> Seq<char> {
    match name_match {
        Some(NameMatchV::Exact(n)) => if quoted {
            seq!['#', '"'] + n + seq!['"']
        } else {
            seq!['#'] + n
        },
        Some(NameMatchV::Regex(n)) => seq!['#', '/'] + n + seq!['/'],
        None => Seq::empty(),
    }
}

/// How an atom is written.
pub open spec fn atom_text(a: AtomV, quoted: bool) -> Seq<char> {
    sigil_text(a.sigil) + type_text(a.node_type) + name_text(a.name_match, quoted)
}

/// Whether an atom can be written: its type is a word and ends where the name begins, a
/// name without quotes is a word, and what stands between quotes or slashes holds none of
/// them.
pub open spec fn can_be_written(a: AtomV, quoted: bool) -> bool {
    &&& !is_word('#')
    &&& a.node_type matches Some(t) ==> is_plain_word(t)
    &&& match a.name_match {
        Some(NameMatchV::Exact(n)) => if quoted {
            !n.contains('"')
        } else {
            is_plain_word(n)
        },
        Some(NameMatchV::Regex(n)) => !n.contains('/'),
        None => true,
    }
}

pub proof fn lemma_scan_to(s: Seq<char>, i: nat, j: nat, stop: spec_fn(char) -> bool)
    requires
        i <= j <= s.len(),
        forall|k: int| i <= k < j ==> !stop(#[trigger] s[k]),
        j < s.len() ==> stop(s[j as int]),
    ensures
        scan(s, i, stop) == j,
    decreases j - i,
{
    if i < j {
        lemma_scan_to(s, i + 1, j, stop);
    }
}

/// A word is one token.
pub proof fn lemma_word_token(s: Seq<char>, i: nat, w: Seq<char>)
    requires
        is_plain_word(w),
        i + w.len() <= s.len(),
        s.subrange(i as int, (i + w.len()) as int) == w,
        i + w.len() < s.len() ==> !is_word(s[(i + w.len()) as int]),
    ensures
        token_from(s, i) == (TokenV::Ident(w), i + w.len()),
{
    let j = i + w.len();
    assert forall|k: int| i <= k < j implies is_plain(#[trigger] s[k]) by {
        assert(w[k - i] == s[k]);
    }
    assert(is_plain(s[i as int]));
    assert forall|k: int| i + 1 <= k < j implies !non_word()(#[trigger] s[k]) by {
        assert(is_plain(s[k]));
    }
    lemma_scan_to(s, i + 1, j, non_word());
}

/// What stands between two quotes is one token.
pub proof fn lemma_delimited(s: Seq<char>, i: nat, n: Seq<char>, quote: char)
    requires
        !n.contains(quote),
        i + n.len() < s.len(),
        s.subrange(i as int, (i + n.len()) as int) == n,
        s[(i + n.len()) as int] == quote,
    ensures
        delimited(s, i, quote) == (n, i + n.len() + 1),
{
    let j = i + n.len();
    assert forall|k: int| i <= k < j implies !equals(quote)(#[trigger] s[k]) by {
        assert(n[k - i] == s[k]);
        assert(n.contains(n[k - i]));
    }
    lemma_scan_to(s, i, j, equals(quote));
}

spec fn sigil_tokens(sigil: Option<Sigil>) -> Seq<TokenV> {
    match sigil {
        Some(Sigil::Def) => seq![TokenV::Star],
        Some(Sigil::Ref) => seq![TokenV::Amp],
        None => Seq::empty(),
    }
}

spec fn type_tokens(node_type: Option<Seq<char>>) -> Seq<TokenV> {
    match node_type {
        Some(t) => seq![TokenV::Ident(t)],
        None => Seq::empty(),
    }
}

spec fn name_tokens(name_match: Option<NameMatchV>, quoted: bool) -> Seq<TokenV> {
    match name_match {
        Some(NameMatchV::Exact(n)) => if quoted {
            seq![TokenV::Hash, TokenV::QuotedStr(n), TokenV::Eof]
        } else {
            seq![TokenV::Hash, TokenV::Ident(n), TokenV::Eof]
        },
        Some(NameMatchV::Regex(n)) => seq![TokenV::Hash, TokenV::Regex(n), TokenV::Eof],
        None => seq![TokenV::Eof],
    }
}

proof fn lemma_name_tokens(s: Seq<char>, i: nat, a: AtomV, quoted: bool)
    requires
        can_be_written(a, quoted),
        i <= s.len(),
        s.skip(i as int) == name_text(a.name_match, quoted),
    ensures
        tokens_from(s, i) == name_tokens(a.name_match, quoted),
{
    let rest = s.skip(i as int);
    assert(rest.len() == s.len() - i);
    assert(rest.len() == name_text(a.name_match, quoted).len());
    if let Some(m) = a.name_match {
        assert(rest.len() > 0 && rest[0] == '#');
        assert(s[i as int] == rest[0]);
        assert(token_from(s, i) == (TokenV::Hash, i + 1));
        let (n, quote) = match m {
            NameMatchV::Exact(n) => (n, '"'),
            NameMatchV::Regex(n) => (n, '/'),
        };
        if m is Exact && !quoted {
            assert(s.subrange((i + 1) as int, (i + 1 + n.len()) as int) =~= n) by {
                assert forall|k: int| 0 <= k < n.len() implies s[i + 1 + k] == n[k] by {
                    assert(rest[1 + k] == n[k]);
                }
            }
            lemma_word_token(s, i + 1, n);
            assert(s.len() == i + 1 + n.len());
            assert(tokens_from(s, i + 1 + n.len()) == seq![TokenV::Eof]);
            assert(tokens_from(s, i + 1) == seq![TokenV::Ident(n)] + seq![TokenV::Eof]);
            assert(tokens_from(s, i) =~= seq![TokenV::Hash, TokenV::Ident(n), TokenV::Eof]);
        } else {
            assert(s.len() == i + n.len() + 3);
            assert(rest[1] == quote && s[(i + 1) as int] == rest[1]);
            assert(s.subrange((i + 2) as int, (i + 2 + n.len()) as int) =~= n) by {
                assert forall|k: int| 0 <= k < n.len() implies s[i + 2 + k] == n[k] by {
                    assert(rest[2 + k] == n[k]);
                }
            }
            assert(rest[(2 + n.len()) as int] == quote);
            assert(s[(i + 2 + n.len()) as int] == rest[(2 + n.len()) as int]);
            lemma_delimited(s, i + 2, n, quote);
            let t = if m is Exact {
                TokenV::QuotedStr(n)
            } else {
                TokenV::Regex(n)
            };
            assert(token_from(s, i + 1) == (t, i + 3 + n.len()));
            assert(tokens_from(s, i + 3 + n.len()) == seq![TokenV::Eof]);
            assert(tokens_from(s, i + 1) == seq![t] + seq![TokenV::Eof]);
            assert(tokens_from(s, i) =~= seq![TokenV::Hash, t, TokenV::Eof]);
        }
    }
}

proof fn lemma_type_tokens(s: Seq<char>, i: nat, a: AtomV, quoted: bool)
    requires
        can_be_written(a, quoted),
        i <= s.len(),
        s.skip(i as int) == type_text(a.node_type) + name_text(a.name_match, quoted),
    ensures
        tokens_from(s, i) == type_tokens(a.node_type) + name_tokens(a.name_match, quoted),
{
    let rest = s.skip(i as int);
    let name = name_text(a.name_match, quoted);
    match a.node_type {
        Some(t) => {
            let j = i + t.len();
            assert(rest.len() == t.len() + name.len());
            assert(s.subrange(i as int, j as int) =~= t) by {
                assert forall|k: int| 0 <= k < t.len() implies s[i + k] == t[k] by {
                    assert(rest[k] == t[k]);
                }
            }
            assert(s.skip(j as int) =~= name) by {
                assert forall|k: int| 0 <= k < name.len() implies s[j + k] == name[k] by {
                    assert(rest[t.len() + k] == name[k]);
                }
            }
            if j < s.len() {
                assert(s[j as int] == s.skip(j as int)[0]);
                assert(name[0] == '#');
            }
            lemma_word_token(s, i, t);
            lemma_name_tokens(s, j, a, quoted);
            assert(tokens_from(s, i) =~= type_tokens(a.node_type) + name_tokens(
                a.name_match,
                quoted,
            ));
        },
        None => {
            assert(rest =~= name);
            lemma_name_tokens(s, i, a, quoted);
            assert(type_tokens(a.node_type) + name_tokens(a.name_match, quoted) =~= name_tokens(
                a.name_match,
                quoted,
            ));
        },
    }
}

spec fn atom_tokens(a: AtomV, quoted: bool) -> Seq<TokenV> {
    sigil_tokens(a.sigil) + (type_tokens(a.node_type) + name_tokens(a.name_match, quoted))
}

proof fn lemma_atom_tokens(a: AtomV, quoted: bool)
    requires
        can_be_written(a, quoted),
    ensures
        tokens_from(atom_text(a, quoted), 0) == atom_tokens(a, quoted),
{
    let s = atom_text(a, quoted);
    let sigil = sigil_text(a.sigil);
    let types = type_text(a.node_type) + name_text(a.name_match, quoted);
    assert(s =~= sigil + types);
    assert(s.skip(sigil.len() as int) =~= types);
    lemma_type_tokens(s, sigil.len(), a, quoted);
    let tail = type_tokens(a.node_type) + name_tokens(a.name_match, quoted);
    if a.sigil is Some {
        assert(s[0] == sigil[0]);
        assert(tokens_from(s, 1) == tail);
    } else {
        assert(sigil_tokens(a.sigil) + tail =~= tail);
    }
}

proof fn lemma_atom_at(a: AtomV, quoted: bool)
    ensures
        atom_at(atom_tokens(a, quoted), 0) == (
            Ok::<AtomV, Seq<char>>(a),
            (atom_tokens(a, quoted).len() - 1) as nat,
        ),
        tok_at(atom_tokens(a, quoted), 0) != TokenV::Whitespace,
        tok_at(atom_tokens(a, quoted), 0) != TokenV::LParen,
        atom_tokens(a, quoted).last() == TokenV::Eof,
{
    let toks = atom_tokens(a, quoted);
    let names = name_tokens(a.name_match, quoted);
    let p1 = sigil_tokens(a.sigil).len();
    let p2 = p1 + type_tokens(a.node_type).len();
    assert(toks.len() == p2 + names.len());
    assert(a.sigil is Some ==> toks[0] == sigil_tokens(a.sigil)[0]);
    assert(a.node_type is Some ==> toks[p1 as int] == type_tokens(a.node_type)[0]);
    assert(toks[p2 as int] == names[0]);
    assert(toks[toks.len() - 1] == names[names.len() - 1]);
    if a.name_match is Some {
        assert(toks[(p2 + 1) as int] == names[1]);
    }
}

proof fn lemma_lone_atom(toks: Seq<TokenV>, a: AtomV)
    requires
        toks.len() > 0,
        toks.last() == TokenV::Eof,
        tok_at(toks, 0) != TokenV::Whitespace,
        tok_at(toks, 0) != TokenV::LParen,
        atom_at(toks, 0) == (Ok::<AtomV, Seq<char>>(a), (toks.len() - 1) as nat),
    ensures
        query_at(toks, 0) == (
            Ok::<QueryV, Seq<char>>(
                QueryV {
                    head: SelectorV { node: SelectorNodeV::Bare(a), fields: Seq::empty() },
                    tail: Seq::empty(),
                },
            ),
            (toks.len() - 1) as nat,
        ),
{
    let end = (toks.len() - 1) as nat;
    assert(tok_at(toks, end) == TokenV::Eof);
    assert(skip_ws(toks, 0) == 0);
    assert(node_at(toks, 0) == (Ok::<SelectorNodeV, Seq<char>>(SelectorNodeV::Bare(a)), end));
    assert(fields_at(toks, end) == (Ok::<Seq<FieldAccessV>, Seq<char>>(Seq::empty()), end));
    assert(later(0, end) == end);
    assert(combinator_at(toks, end) is None);
    assert(tail_at(toks, end) == (
        Ok::<Seq<(Combinator, SelectorV)>, Seq<char>>(Seq::empty()),
        end,
    ));
}

/// An atom that is written is read back: a sigil, a type and a name, each of them where
/// there is one. A name that is a word is the same with quotes and without.
pub proof fn law_atom_is_read_back(a: AtomV, quoted: bool)
    ensures
        can_be_written(a, quoted) ==> parsed(atom_text(a, quoted)) == Ok::<QueryV, Seq<char>>(
            QueryV {
                head: SelectorV { node: SelectorNodeV::Bare(a), fields: Seq::empty() },
                tail: Seq::empty(),
            },
        ),
{
    if can_be_written(a, quoted) {
        let toks = atom_tokens(a, quoted);
        lemma_atom_tokens(a, quoted);
        lemma_atom_at(a, quoted);
        lemma_lone_atom(toks, a);
        assert(tok_at(toks, (toks.len() - 1) as nat) == TokenV::Eof);
    }
}

// ---------------------------------------------------------------------------
// Parser
// ---------------------------------------------------------------------------

pub struct Parser {
    tokens: Vec<Token>,
    pos: usize,
}

/// The query that is a group and nothing more.
fn capture_query(query: Query, capture: String) -> (r: Query)
    ensures
        r@ == captured_query(query@, capture@),
{
    let r = Query {
        head: Selector {
            node: SelectorNode::Group { query: Box::new(query), capture: Some(capture) },
            fields: Vec::new(),
        },
        tail: Vec::new(),
    };
    assert(r@.head.fields =~= Seq::empty());
    assert(r@.tail =~= Seq::empty());
    r
}

impl Parser {
    /// The tokens of the text.
    pub closed spec fn toks(self) -> Seq<TokenV> {
        text::views(self.tokens@)
    }

    /// The position of the next token.
    pub closed spec fn at(self) -> nat {
        self.pos as nat
    }

    /// The list of tokens ends in its one `Eof`, and the position is in the list or right
    /// after it.
    pub closed spec fn wf(self) -> bool {
        &&& self.pos <= self.tokens@.len()
        &&& self.toks().len() > 0
        &&& self.toks().last() == TokenV::Eof
    }

    pub fn new(s: &str) -> (r: Self)
        ensures
            r.wf(),
            r.toks() == tokens_from(s@, 0),
            r.at() == 0,
    {
        proof {
            lemma_tokens_end(s@, 0);
        }
        Parser { tokens: Lexer::new(s).tokenize(), pos: 0 }
    }

    fn peek(&self) -> (r: Token)
        ensures
            r@ == tok_at(self.toks(), self.at()),
    {
        if self.pos < self.tokens.len() {
            self.tokens[self.pos].clone()
        } else {
            Token::Eof
        }
    }

    /// Moves to the next token.
    fn advance(&mut self) -> (r: Token)
        requires
            old(self).wf(),
            old(self).at() < old(self).toks().len(),
        ensures
            final(self).wf(),
            final(self).toks() == old(self).toks(),
            final(self).at() == old(self).at() + 1,
            r@ == tok_at(old(self).toks(), old(self).at()),
    {
        let t: Token = self.tokens[self.pos].clone();
        assert(self.pos < self.tokens.len());
        self.pos = self.pos + 1;
        t
    }

    fn skip_whitespace(&mut self)
        requires
            old(self).wf(),
        ensures
            final(self).wf(),
            final(self).toks() == old(self).toks(),
            final(self).at() == skip_ws(old(self).toks(), old(self).at()),
            final(self).at() >= old(self).at(),
    {
        while matches!(self.peek(), Token::Whitespace)
            invariant
                self.wf(),
                self.toks() == old(self).toks(),
                self.at() >= old(self).at(),
                skip_ws(self.toks(), self.at()) == skip_ws(old(self).toks(), old(self).at()),
            decreases self.toks().len() - self.at(),
        {
            self.advance();
        }
    }

    pub fn parse_query(&mut self) -> (r: Result<Query, String>)
        requires
            old(self).wf(),
        ensures
            final(self).wf(),
            final(self).toks() == old(self).toks(),
            final(self).at() >= old(self).at(),
            (text::result_view(r), final(self).at()) == query_at(old(self).toks(), old(self).at()),
        decreases left(old(self).toks(), old(self).at()), 4int,
    {
        self.skip_whitespace();
        let ghost toks = self.toks();
        let ghost p0 = self.at();
        let head: Selector = match self.parse_selector() {
            Ok(s) => s,
            Err(e) => {
                return Err(e);
            },
        };
        let ghost p1 = self.at();
        let mut tail: Vec<(Combinator, Selector)> = Vec::new();
        assert(joined(tail_views(tail@), tail_at(toks, self.at())) == tail_at(toks, p1)) by {
            lemma_joined_empty(tail_at(toks, p1));
            assert(tail_views(tail@) =~= Seq::empty());
        }
        loop
            invariant_except_break
                joined(tail_views(tail@), tail_at(toks, self.at())) == tail_at(toks, p1),
            invariant
                self.wf(),
                self.toks() == toks,
                toks == old(self).toks(),
                self.at() >= p1 >= p0 >= old(self).at(),
                p0 == skip_ws(toks, old(self).at()),
                selector_at(toks, p0) == (Ok::<SelectorV, Seq<char>>(head@), p1),
            ensures
                tail_at(toks, p1) == (
                    Ok::<Seq<(Combinator, SelectorV)>, Seq<char>>(tail_views(tail@)),
                    self.at(),
                ),
            decreases left(toks, self.at()),
        {
            let combinator: Combinator = match self.parse_combinator() {
                Some(c) => c,
                None => {
                    assert(tail_views(tail@) + Seq::<(Combinator, SelectorV)>::empty()
                        =~= tail_views(tail@));
                    break ;
                },
            };
            let sel: Selector = match self.parse_selector() {
                Ok(s) => s,
                Err(e) => {
                    return Err(e);
                },
            };
            let ghost before = tail@;
            tail.push((combinator, sel));
            proof {
                assert(tail_views(tail@) =~= tail_views(before).push((combinator, sel@)));
                lemma_joined_step(
                    tail_views(before),
                    (combinator, sel@),
                    tail_at(toks, self.at()),
                );
            }
        }
        assert(tail_views(tail@) =~= (Query { head, tail })@.tail);
        Ok(Query { head, tail })
    }

    /// Moves past the combinator at the position, if there is one.
    fn parse_combinator(&mut self) -> (r: Option<Combinator>)
        requires
            old(self).wf(),
        ensures
            final(self).wf(),
            final(self).toks() == old(self).toks(),
            match combinator_at(old(self).toks(), old(self).at()) {
                None => r is None && final(self).at() == old(self).at(),
                Some((c, p)) => r == Some(c) && final(self).at() == p && p > old(self).at(),
            },
    {
        if matches!(self.peek(), Token::Whitespace) {
            assert(self.pos < self.tokens.len());
            if self.is_selector_start_at(self.pos + 1) {
                self.advance();
                return Some(Combinator::Descendant);
            }
            if self.symbol_at(self.pos + 1).is_none() {
                return None;
            }
            self.advance();
        }
        let symbol: Option<Combinator> = self.symbol_at(self.pos);
        if symbol.is_some() {
            self.advance();
            self.skip_whitespace();
        }
        symbol
    }

    /// The combinator that the token at a position stands for.
    fn symbol_at(&self, idx: usize) -> (r: Option<Combinator>)
        ensures
            r == symbol_of(tok_at(self.toks(), idx as nat)),
    {
        if idx < self.tokens.len() {
            match &self.tokens[idx] {
                Token::Gt => Some(Combinator::Child),
                Token::Plus => Some(Combinator::Adjacent),
                Token::Tilde => Some(Combinator::Sibling),
                _ => None,
            }
        } else {
            None
        }
    }

    fn is_selector_start_at(&self, idx: usize) -> (r: bool)
        ensures
            r == selector_starts(self.toks(), idx as nat),
    {
        if idx < self.tokens.len() {
            match &self.tokens[idx] {
                Token::Star | Token::Amp | Token::Ident(_) | Token::LParen | Token::Hash => true,
                _ => false,
            }
        } else {
            false
        }
    }

    fn parse_selector(&mut self) -> (r: Result<Selector, String>)
        requires
            old(self).wf(),
        ensures
            final(self).wf(),
            final(self).toks() == old(self).toks(),
            final(self).at() >= old(self).at(),
            (text::result_view(r), final(self).at()) == selector_at(
                old(self).toks(),
                old(self).at(),
            ),
        decreases left(old(self).toks(), old(self).at()), 2int,
    {
        let ghost toks = self.toks();
        let node: SelectorNode = match self.parse_node() {
            Ok(n) => n,
            Err(e) => {
                return Err(e);
            },
        };
        let ghost p1 = self.at();
        let mut fields: Vec<FieldAccess> = Vec::new();
        proof {
            lemma_joined_empty(fields_at(toks, p1));
            assert(text::views(fields@) =~= Seq::empty());
        }
        while matches!(self.peek(), Token::Dot)
            invariant
                self.wf(),
                self.toks() == toks,
                toks == old(self).toks(),
                self.at() >= p1 >= old(self).at(),
                node_at(toks, old(self).at()) == (Ok::<SelectorNodeV, Seq<char>>(node@), p1),
                joined(text::views(fields@), fields_at(toks, self.at())) == fields_at(toks, p1),
            decreases left(toks, self.at()),
        {
            let access: FieldAccess = match self.parse_field() {
                Ok(f) => f,
                Err(e) => {
                    return Err(e);
                },
            };
            let ghost before = fields@;
            let ghost view = access@;
            fields.push(access);
            proof {
                assert(text::views(fields@) =~= text::views(before).push(view));
                lemma_joined_step(text::views(before), view, fields_at(toks, self.at()));
            }
        }
        let sel = Selector { node, fields };
        assert(text::views(fields@) + Seq::<FieldAccessV>::empty() =~= sel@.fields);
        Ok(sel)
    }

    #[verifier::spinoff_prover]
    #[verifier::rlimit(40)]
    fn parse_field(&mut self) -> (r: Result<FieldAccess, String>)
        requires
            old(self).wf(),
            tok_at(old(self).toks(), old(self).at()) == TokenV::Dot,
        ensures
            final(self).wf(),
            final(self).toks() == old(self).toks(),
            final(self).at() > old(self).at(),
            (text::result_view(r), final(self).at()) == field_at(old(self).toks(), old(self).at()),
        decreases left(old(self).toks(), old(self).at()), 0int,
    {
        let ghost toks = self.toks();
        self.advance();
        let field: String = match self.advance() {
            Token::Ident(name) => name,
            _ => {
                return Err("expected field name after .".to_string());
            },
        };
        if !matches!(self.peek(), Token::LParen) {
            return Err("expected ( after field name".to_string());
        }
        self.advance();
        self.skip_whitespace();
        let ghost start = self.at();
        let inner: Option<Box<Query>> = if matches!(self.peek(), Token::RParen) {
            None
        } else {
            match self.parse_query() {
                Ok(q) => {
                    let ghost p1 = self.at();
                    assert(query_at(toks, start) == (Ok::<QueryV, Seq<char>>(q@), p1));
                    self.skip_whitespace();
                    if matches!(self.peek(), Token::At) {
                        self.advance();
                        match self.advance() {
                            Token::Ident(name) => Some(Box::new(capture_query(q, name))),
                            _ => {
                                return Err("expected capture name after @".to_string());
                            },
                        }
                    } else {
                        Some(Box::new(q))
                    }
                },
                Err(e) => {
                    return Err(e);
                },
            }
        };
        self.skip_whitespace();
        if !matches!(self.peek(), Token::RParen) {
            return Err("expected ) to close field access".to_string());
        }
        self.advance();
        Ok(FieldAccess { field, inner })
    }

    #[verifier::spinoff_prover]
    #[verifier::rlimit(40)]
    fn parse_node(&mut self) -> (r: Result<SelectorNode, String>)
        requires
            old(self).wf(),
        ensures
            final(self).wf(),
            final(self).toks() == old(self).toks(),
            final(self).at() >= old(self).at(),
            (text::result_view(r), final(self).at()) == node_at(old(self).toks(), old(self).at()),
        decreases left(old(self).toks(), old(self).at()), 0int,
    {
        let ghost toks = self.toks();
        if !matches!(self.peek(), Token::LParen) {
            return match self.parse_atom() {
                Ok(a) => Ok(SelectorNode::Bare(a)),
                Err(e) => Err(e),
            };
        }
        self.advance();
        self.skip_whitespace();
        let query: Query = match self.parse_query() {
            Ok(q) => q,
            Err(e) => {
                return Err(e);
            },
        };
        let ghost p1 = self.at();
        assert(query_at(toks, skip_ws(toks, old(self).at() + 1)) == (Ok::<QueryV, Seq<char>>(query@), p1));
        self.skip_whitespace();
        let capture: Option<String> = if matches!(self.peek(), Token::At) {
            self.advance();
            match self.advance() {
                Token::Ident(name) => Some(name),
                _ => {
                    return Err("expected capture name after @".to_string());
                },
            }
        } else {
            None
        };
        self.skip_whitespace();
        if !matches!(self.peek(), Token::RParen) {
            return Err("expected )".to_string());
        }
        self.advance();
        Ok(SelectorNode::Group { query: Box::new(query), capture })
    }

    fn parse_atom(&mut self) -> (r: Result<Atom, String>)
        requires
            old(self).wf(),
        ensures
            final(self).wf(),
            final(self).toks() == old(self).toks(),
            final(self).at() >= old(self).at(),
            (text::result_view(r), final(self).at()) == atom_at(old(self).toks(), old(self).at()),
    {
        let sigil: Option<Sigil> = match self.peek() {
            Token::Star => {
                self.advance();
                Some(Sigil::Def)
            },
            Token::Amp => {
                self.advance();
                Some(Sigil::Ref)
            },
            _ => None,
        };
        let node_type: Option<String> = match self.peek() {
            Token::Ident(name) => {
                self.advance();
                Some(name)
            },
            _ => None,
        };
        let name_match: Option<NameMatch> = if matches!(self.peek(), Token::Hash) {
            self.advance();
            match self.parse_name_match() {
                Ok(m) => Some(m),
                Err(e) => {
                    return Err(e);
                },
            }
        } else {
            None
        };
        Ok(Atom { sigil, node_type, name_match })
    }

    fn parse_name_match(&mut self) -> (r: Result<NameMatch, String>)
        requires
            old(self).wf(),
        ensures
            final(self).wf(),
            final(self).toks() == old(self).toks(),
            final(self).at() >= old(self).at(),
            (text::result_view(r), final(self).at()) == name_match_at(
                old(self).toks(),
                old(self).at(),
            ),
    {
        match self.peek() {
            Token::QuotedStr(s) => {
                self.advance();
                Ok(NameMatch::Exact(s))
            },
            Token::Regex(s) => {
                self.advance();
                Ok(NameMatch::Regex(s))
            },
            Token::Ident(s) => {
                self.advance();
                Ok(NameMatch::Exact(s))
            },
            _ => Err("expected name match after #".to_string()),
        }
    }
}

/// The views of the joined selectors.
spec fn tail_views(tail: Seq<(Combinator, Selector)>) -> Seq<(Combinator, SelectorV)> {
    tail.map_values(|t: (Combinator, Selector)| (t.0, t.1@))
}

/// What was read already, and what the rest gives.
spec fn joined<T>(done: Seq<T>, rest: Parsed<Seq<T>>) -> Parsed<Seq<T>> {
    match rest {
        (Ok(items), p) => (Ok(done + items), p),
        (Err(e), p) => (Err(e), p),
    }
}

proof fn lemma_joined_empty<T>(rest: Parsed<Seq<T>>)
    ensures
        joined(Seq::empty(), rest) == rest,
{
    if let (Ok(items), p) = rest {
        assert(Seq::<T>::empty() + items =~= items);
    }
}

proof fn lemma_joined_step<T>(done: Seq<T>, next: T, rest: Parsed<Seq<T>>)
    ensures
        joined(done, cons(next, rest)) == joined(done.push(next), rest),
{
    if let (Ok(items), p) = rest {
        assert(done + (seq![next] + items) =~= done.push(next) + items);
    }
}

proof fn lemma_tokens_end(s: Seq<char>, i: nat)
    ensures
        tokens_from(s, i).len() > 0,
        tokens_from(s, i).last() == TokenV::Eof,
    decreases s.len() - i,
{
    if i < s.len() {
        lemma_token_from(s, i);
        lemma_tokens_end(s, token_from(s, i).1);
    }
}

/// The query that a text holds.
pub fn parse(s: &str) -> (r: Result<Query, String>)
    ensures
        text::result_view(r) == parsed(s@),
{
    let mut parser = Parser::new(s);
    let query: Query = match parser.parse_query() {
        Ok(q) => q,
        Err(e) => {
            return Err(e);
        },
    };
    parser.skip_whitespace();
    if !matches!(parser.peek(), Token::Eof) {
        let mut message: String = "unexpected input at position ".to_string();
        message.append(decimal(parser.pos).as_str());
        return Err(message);
    }
    Ok(query)
}

} // verus!
