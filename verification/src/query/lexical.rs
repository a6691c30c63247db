//! How the text of a query is cut into tokens, and where blanks make no difference.

use vstd::prelude::*;
use crate::query::ast::{Combinator, NameMatchV};
use crate::query::parser;
use crate::query::parser::TokenV;
use crate::text;

verus! {

proof fn lemma_scanned(s: Seq<char>, i: nat, stop: spec_fn(char) -> bool)
    requires
        i <= s.len(),
    ensures
        ({
            let end = parser::scan(s, i, stop);
            &&& i <= end <= s.len()
            &&& forall|k: int| i <= k < end ==> !stop(#[trigger] s[k])
            &&& end < s.len() ==> stop(s[end as int])
        }),
    decreases s.len() - i,
{
    if i < s.len() && !stop(s[i as int]) {
        lemma_scanned(s, i + 1, stop);
    }
}

/// A token is what stands in the text from its start to its end, as far as it goes: a run of
/// blanks, a whole word, what stands between two quotes or two slashes, or a single character.
pub proof fn law_token(s: Seq<char>, i: nat)
    requires
        i < s.len(),
    ensures
        ({
            let (t, j) = parser::token_from(s, i);
            let c = s[i as int];
            &&& i < j <= s.len()
            &&& t == TokenV::Whitespace <==> parser::is_blank(c)
            &&& match t {
                TokenV::Whitespace => {
                    &&& forall|k: int| i <= k < j ==> parser::is_blank(#[trigger] s[k])
                    &&& j < s.len() ==> !parser::is_blank(s[j as int])
                },
                TokenV::Ident(w) => {
                    &&& w == s.subrange(i as int, j as int)
                    &&& parser::is_word(c) ==> {
                        &&& forall|k: int| i <= k < j ==> parser::is_word(#[trigger] s[k])
                        &&& j < s.len() ==> !parser::is_word(s[j as int])
                    }
                    &&& !parser::is_word(c) ==> j == i + 1
                },
                TokenV::QuotedStr(n) => is_between(s, i, j, '"', n),
                TokenV::Regex(n) => is_between(s, i, j, '/', n),
                TokenV::Star => c == '*' && j == i + 1,
                TokenV::Amp => c == '&' && j == i + 1,
                TokenV::Gt => c == '>' && j == i + 1,
                TokenV::Plus => c == '+' && j == i + 1,
                TokenV::Tilde => c == '~' && j == i + 1,
                TokenV::Dot => c == '.' && j == i + 1,
                TokenV::LParen => c == '(' && j == i + 1,
                TokenV::RParen => c == ')' && j == i + 1,
                TokenV::At => c == '@' && j == i + 1,
                TokenV::Hash => c == '#' && j == i + 1,
                TokenV::Eof => false,
            }
        }),
{
    lemma_scanned(s, i + 1, parser::non_blank());
    lemma_scanned(s, i + 1, parser::non_word());
    lemma_scanned(s, i + 1, parser::equals('"'));
    lemma_scanned(s, i + 1, parser::equals('/'));
    let (t, j) = parser::token_from(s, i);
    let c = s[i as int];
    if parser::is_blank(c) {
        assert forall|k: int| i <= k < j implies parser::is_blank(#[trigger] s[k]) by {
            if k > i {
                assert(!parser::non_blank()(s[k]));
            }
        }
    }
    if t is Ident {
        if parser::is_word(c) {
            assert forall|k: int| i <= k < j implies parser::is_word(#[trigger] s[k]) by {
                if k > i {
                    assert(!parser::non_word()(s[k]));
                }
            }
        } else {
            assert(s.subrange(i as int, j as int) =~= seq![c]);
        }
    }
    if c == '"' && t is QuotedStr {
        lemma_between(s, i, '"');
    }
    if c == '/' && t is Regex {
        lemma_between(s, i, '/');
    }
}

/// Whether a text stands between two marks, and holds none of them. A text that is not closed runs
/// to the end.
pub open spec fn is_between(s: Seq<char>, i: nat, j: nat, mark: char, n: Seq<char>) -> bool {
    let end = i + 1 + n.len();
    &&& s[i as int] == mark
    &&& end <= s.len() && n == s.subrange(i as int + 1, end as int)
    &&& !n.contains(mark)
    &&& if end < s.len() {
        s[end as int] == mark && j == end + 1
    } else {
        j == end
    }
}

proof fn lemma_between(s: Seq<char>, i: nat, mark: char)
    requires
        i < s.len(),
        s[i as int] == mark,
    ensures
        ({
            let (n, j) = parser::delimited(s, i + 1, mark);
            is_between(s, i, j, mark, n)
        }),
{
    let stop = parser::equals(mark);
    lemma_scanned(s, i + 1, stop);
    let (n, j) = parser::delimited(s, i + 1, mark);
    if n.contains(mark) {
        let k = n.index_of(mark);
        assert(!stop(s[i + 1 + k]));
    }
}

/// Between two selectors, blanks before and behind `>`, `+` and `~` make no difference; blanks
/// alone are a combinator of their own where a selector follows, and nothing where none does.
pub proof fn law_combinator(toks: Seq<TokenV>, p: nat, c: Combinator, sign: TokenV)
    requires
        p + 3 < toks.len(),
        (c == Combinator::Child && sign == TokenV::Gt) || (c == Combinator::Adjacent && sign
            == TokenV::Plus) || (c == Combinator::Sibling && sign == TokenV::Tilde),
    ensures
        toks[p as int] == sign && toks[(p + 1) as int] != TokenV::Whitespace ==> parser::combinator_at(toks, p)
            == Some((c, p + 1)),
        toks[p as int] == sign && toks[(p + 1) as int] == TokenV::Whitespace && toks[(p + 2) as int]
            != TokenV::Whitespace ==> parser::combinator_at(toks, p) == Some((c, p + 2)),
        toks[p as int] == TokenV::Whitespace && toks[(p + 1) as int] == sign && toks[(p + 2) as int]
            != TokenV::Whitespace ==> parser::combinator_at(toks, p) == Some((c, p + 2)),
        toks[p as int] == TokenV::Whitespace && toks[(p + 1) as int] == sign && toks[(p + 2) as int]
            == TokenV::Whitespace && toks[(p + 3) as int] != TokenV::Whitespace ==> parser::combinator_at(
            toks,
            p,
        ) == Some((c, p + 3)),
        toks[p as int] == TokenV::Whitespace && (toks[(p + 1) as int] is Ident || toks[(p + 1) as int] == TokenV::Star
            || toks[(p + 1) as int] == TokenV::Amp || toks[(p + 1) as int] == TokenV::LParen || toks[(p + 1) as int]
            == TokenV::Hash) ==> parser::combinator_at(toks, p) == Some(
            (Combinator::Descendant, p + 1),
        ),
        toks[p as int] == TokenV::Whitespace && (toks[(p + 1) as int] == TokenV::RParen || toks[(p + 1) as int]
            == TokenV::At || toks[(p + 1) as int] == TokenV::Eof) ==> parser::combinator_at(toks, p) is None,
{
    reveal_with_fuel(parser::skip_ws, 3);
}

/// Blanks before a query make no difference.
pub proof fn law_blanks_before_a_query(toks: Seq<TokenV>, p: nat)
    requires
        parser::tok_at(toks, p) == TokenV::Whitespace,
    ensures
        parser::query_at(toks, p) == parser::query_at(toks, p + 1),
{
    assert(parser::skip_ws(toks, p) == parser::skip_ws(toks, p + 1));
}

/// What stands behind `#` is a name: a word or what stands in quotes as it is, and what stands
/// between slashes as a regular expression.
pub proof fn law_name(toks: Seq<TokenV>, p: nat, s: Seq<char>)
    ensures
        parser::tok_at(toks, p) == TokenV::Ident(s) ==> parser::name_match_at(toks, p) == (
            Ok::<NameMatchV, Seq<char>>(NameMatchV::Exact(s)),
            p + 1,
        ),
        parser::tok_at(toks, p) == TokenV::QuotedStr(s) ==> parser::name_match_at(toks, p) == (
            Ok::<NameMatchV, Seq<char>>(NameMatchV::Exact(s)),
            p + 1,
        ),
        parser::tok_at(toks, p) == TokenV::Regex(s) ==> parser::name_match_at(toks, p) == (
            Ok::<NameMatchV, Seq<char>>(NameMatchV::Regex(s)),
            p + 1,
        ),
        parser::name_match_at(toks, p).0 is Ok <==> parser::tok_at(toks, p) is Ident
            || parser::tok_at(toks, p) is QuotedStr || parser::tok_at(toks, p) is Regex,
{
}

/// Letters, digits and underscores make words; a space or a tab is a blank.
pub proof fn law_characters(c: char)
    ensures
        parser::is_blank(c) <==> c == ' ' || c == '\t',
        parser::is_word('_'),
        text::alphanumeric(c) ==> parser::is_word(c),
        parser::is_word(c) && c != '_' ==> text::alphanumeric(c),
{
}

} // verus!
