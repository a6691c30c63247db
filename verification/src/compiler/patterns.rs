//! What the patterns of queries say.

use vstd::prelude::*;
use crate::compiler;
use crate::compiler::lang::{Table, VariantV};
use crate::compiler::{CompiledV, FragmentV};
use crate::query::ast::{
    AtomV, Combinator, FieldAccessV, NameMatchV, QueryV, SelectorNodeV, SelectorV,
};
use crate::order;
use crate::text;

verus! {

broadcast use vstd::string::group_string_axioms;

// ---------------------------------------------------------------------------
// Strings
// ---------------------------------------------------------------------------

/// What a string of a pattern stands for: a backslash and an `n` are a line break, and a backslash
/// and anything else are that.
pub open spec fn unescaped(s: Seq<char>) -> Seq<char>
    decreases s.len(),
{
    if s.len() == 0 {
        Seq::empty()
    } else if s[0] == '\\' && s.len() > 1 {
        seq![
            if s[1] == 'n' {
                '\n'
            } else {
                s[1]
            },
        ] + unescaped(s.skip(2))
    } else {
        seq![s[0]] + unescaped(s.skip(1))
    }
}

proof fn lemma_escaped_add(a: Seq<char>, b: Seq<char>)
    ensures
        compiler::escaped(a + b) == compiler::escaped(a) + compiler::escaped(b),
    decreases b.len(),
{
    if b.len() == 0 {
        assert(a + b =~= a);
        assert(compiler::escaped(a) + compiler::escaped(b) =~= compiler::escaped(a));
    } else {
        lemma_escaped_add(a, b.drop_last());
        assert((a + b).drop_last() =~= a + b.drop_last());
        assert((a + b).last() == b.last());
        assert(compiler::escaped(a + b) =~= compiler::escaped(a) + compiler::escaped(b));
    }
}

/// A text stands in a string of a pattern so that it is read back as it is, whatever it holds.
pub proof fn law_string_is_read_back(s: Seq<char>)
    ensures
        unescaped(compiler::escaped(s)) == s,
    decreases s.len(),
{
    if s.len() > 0 {
        let one = seq![s[0]];
        let rest = s.skip(1);
        assert(s =~= one + rest);
        lemma_escaped_add(one, rest);
        law_string_is_read_back(rest);
        assert(one.drop_last() =~= Seq::empty());
        assert(compiler::escaped(one.drop_last()) =~= Seq::empty());
        assert(compiler::escaped(one) =~= compiler::escaped_char(s[0]));
        let e = compiler::escaped(s);
        let first = compiler::escaped_char(s[0]);
        assert(e =~= first + compiler::escaped(rest));
        assert(e.skip(first.len() as int) =~= compiler::escaped(rest));
        assert(unescaped(e) =~= one + unescaped(compiler::escaped(rest)));
    }
}

/// Whether a quote ends the string that a text stands in: one without a backslash before it.
pub open spec fn is_closed(s: Seq<char>) -> bool
    decreases s.len(),
{
    if s.len() == 0 {
        false
    } else if s[0] == '\\' {
        s.len() > 1 && is_closed(s.skip(2))
    } else {
        s[0] == '"' || is_closed(s.skip(1))
    }
}

/// No text ends the string of a pattern that it stands in.
pub proof fn law_string_stays_open(s: Seq<char>)
    ensures
        !is_closed(compiler::escaped(s)),
    decreases s.len(),
{
    if s.len() > 0 {
        let one = seq![s[0]];
        let rest = s.skip(1);
        assert(s =~= one + rest);
        lemma_escaped_add(one, rest);
        law_string_stays_open(rest);
        assert(one.drop_last() =~= Seq::empty());
        assert(compiler::escaped(one.drop_last()) =~= Seq::empty());
        assert(compiler::escaped(one) =~= compiler::escaped_char(s[0]));
        let e = compiler::escaped(s);
        let first = compiler::escaped_char(s[0]);
        assert(e =~= first + compiler::escaped(rest));
        assert(e.skip(first.len() as int) =~= compiler::escaped(rest));
    }
}

/// An exact name is tested for equality, and a regular expression for a match, on a capture.
pub proof fn law_name_predicate(cap: Seq<char>, s: Seq<char>)
    ensures
        compiler::name_predicate_spec(cap, NameMatchV::Exact(s)) == "(#eq? "@ + cap + " \""@
            + compiler::escaped(s) + "\")"@,
        compiler::name_predicate_spec(cap, NameMatchV::Regex(s)) == "(#match? "@ + cap + " \""@
            + compiler::escaped(s) + "\")"@,
{
}

// ---------------------------------------------------------------------------
// Atoms
// ---------------------------------------------------------------------------

/// A name that lies deeper stands in the node and the field before it.
pub proof fn law_name_path(
    path: Seq<(Seq<char>, Seq<char>)>,
    node: Seq<char>,
    field: Seq<char>,
    inner: Seq<char>,
)
    ensures
        compiler::along(path.push((node, field)), inner) == compiler::along(
            path,
            "("@ + node + " "@ + field + ": "@ + inner + ")"@,
        ),
        compiler::along(Seq::empty(), inner) == inner,
    decreases path.len(),
{
    let longer = path.push((node, field));
    let deeper = "("@ + node + " "@ + field + ": "@ + inner + ")"@;
    if path.len() == 0 {
        assert(longer.drop_first() =~= Seq::empty());
        assert(compiler::along(longer.drop_first(), inner) == inner);
    } else {
        assert(longer.drop_first() =~= path.drop_first().push((node, field)));
        law_name_path(path.drop_first(), node, field, inner);
        assert(longer[0] == path[0]);
    }
}

/// The pattern of a variant without a name is its node, and what always holds of it. With a name
/// it has the name in its place, with a capture that the name is tested on; a node that is its
/// own name has the test ready for its own capture.
pub proof fn law_variant_pattern(v: VariantV, atom: AtomV, ids: usize)
    ensures
        ({
            let f = compiler::variant_fragment(v, atom, ids).0;
            let cap = "@_n"@ + text::decimal_digits(ids as nat);
            &&& f.params_field == v.params_field && f.params_container == v.params_container
            &&& f.params_needs_bridge == v.params_needs_bridge
            &&& f.body_field == v.body_field && f.body_container == v.body_container
            &&& f.outer_capture is None && f.marks.len() == 0 && f.siblings.len() == 0
                && f.inside.len() == 0 && !f.deep_captures
            &&& match (atom.name_match, v.name_field) {
                (Some(nm), Some(field)) => {
                    &&& f.node_body == v.node + " "@ + field + ": "@ + compiler::along(
                        v.name_path,
                        "("@ + v.name_node + ") "@ + cap,
                    )
                    &&& f.predicates == seq![compiler::name_predicate_spec(cap, nm)]
                    &&& f.pending is None
                },
                (Some(nm), None) => {
                    &&& f.node_body == v.node
                    &&& f.predicates.len() == 0
                    &&& f.pending == (if v.name_node == v.node {
                        Some(nm)
                    } else {
                        None
                    })
                },
                (None, _) => {
                    &&& f.node_body == v.node + v.always_constraint.unwrap_or(Seq::empty())
                    &&& f.predicates.len() == 0
                    &&& f.pending is None
                },
            }
        }),
{
    assert(v.node + Seq::<char>::empty() =~= v.node);
}

/// Whether a fragment is that of a variant, with whatever number its captures have.
pub open spec fn is_of_variant(f: FragmentV, v: VariantV, atom: AtomV) -> bool {
    exists|k: usize| #[trigger] compiler::variant_fragment(v, atom, k).0 == f
}

/// A known type has a fragment for each of its variants, in their order; an unknown one is the
/// name of a node; and no type at all is any node.
pub proof fn law_atom_fragments(table: Table, atom: AtomV, ids: usize)
    ensures
        ({
            let frags = compiler::atom_fragments(table, atom, ids).0;
            match atom.node_type {
                None => frags == seq![compiler::plain_fragment("_"@, atom.name_match)],
                Some(t) => match table(t, atom.sigil) {
                    None => frags == seq![compiler::plain_fragment(t, atom.name_match)],
                    Some(vs) => frags.len() == vs.len() && forall|i: int|
                        0 <= i < vs.len() ==> is_of_variant(#[trigger] frags[i], vs[i], atom),
                },
            }
        }),
{
    if let Some(t) = atom.node_type {
        if let Some(vs) = table(t, atom.sigil) {
            lemma_variants(vs, atom, ids);
        }
    }
}

proof fn lemma_variants(vs: Seq<VariantV>, atom: AtomV, ids: usize)
    ensures
        compiler::variant_fragments(vs, atom, ids).0.len() == vs.len(),
        forall|i: int|
            0 <= i < vs.len() ==> is_of_variant(
                #[trigger] compiler::variant_fragments(vs, atom, ids).0[i],
                vs[i],
                atom,
            ),
    decreases vs.len(),
{
    if vs.len() > 0 {
        let init = vs.drop_last();
        lemma_variants(init, atom, ids);
        let (before, ids1) = compiler::variant_fragments(init, atom, ids);
        let frags = compiler::variant_fragments(vs, atom, ids).0;
        assert forall|i: int| 0 <= i < vs.len() implies is_of_variant(
            #[trigger] frags[i],
            vs[i],
            atom,
        ) by {
            if i < init.len() {
                assert(frags[i] == before[i]);
                assert(is_of_variant(before[i], init[i], atom));
            } else {
                assert(compiler::variant_fragment(vs[i], atom, ids1).0 == frags[i]);
            }
        }
    }
}

// ---------------------------------------------------------------------------
// Fragments
// ---------------------------------------------------------------------------

/// A name that is not tested yet is tested on the capture of its node, a new one if it has none.
pub proof fn law_pending_name(f: FragmentV, ids: usize, nm: NameMatchV)
    requires
        f.pending == Some(nm),
    ensures
        ({
            let g = compiler::resolved(f, ids).0;
            &&& g.pending is None
            &&& g.node_body == f.node_body
            &&& g.outer_capture is Some && (f.outer_capture is Some ==> g.outer_capture
                == f.outer_capture)
            &&& g.predicates == f.predicates.push(
                compiler::name_predicate_spec("@"@ + g.outer_capture->Some_0, nm),
            )
        }),
{
}

/// A pattern on its own is a node with a capture, then what follows it under the same parent, then
/// what is tested. It is in parentheses where there is more than the node.
pub proof fn law_pattern_of_fragment(f: FragmentV, ids: usize)
    requires
        f.pending is None,
        f.outer_capture is Some,
    ensures
        ({
            let node = "("@ + f.node_body + ")"@ + " @"@ + f.outer_capture->Some_0 + f.marks
                + f.siblings;
            let t = compiler::emitted(f, ids).0;
            &&& f.predicates.len() == 0 && f.siblings.len() == 0 ==> t == node
            &&& f.predicates.len() == 0 && f.siblings.len() > 0 ==> t == "("@ + node + ")"@
            &&& f.predicates.len() > 0 ==> t == "("@ + node + " "@ + text::join_spec(
                f.predicates,
                " "@,
            ) + ")"@
        }),
{
}

/// What stands in the parameters of a fragment, or in its arguments, stands in their container,
/// in their field. Where the field belongs to a node in between, that stands around it. A
/// fragment without parameters drops out.
pub proof fn law_in_params(outer: FragmentV, inner: FragmentV)
    ensures
        ({
            let none = Seq::<Seq<char>>::empty();
            let r = compiler::injected(outer, "params"@, inner, Seq::empty(), none);
            let node = compiler::inlined(inner);
            match outer.params_field {
                None => r is None,
                Some(field) => r is Some && r->Some_0.predicates == outer.predicates
                    + inner.predicates && r->Some_0.inside == outer.inside + inner.inside
                    && r->Some_0.outer_capture == outer.outer_capture && r->Some_0.node_body
                    == outer.node_body + ({
                    let value = match outer.params_container {
                        Some(c) => "("@ + c + " "@ + node + ")"@,
                        None => node,
                    };
                    if outer.params_needs_bridge {
                        " (_ "@ + field + ": "@ + value + ")"@
                    } else {
                        " "@ + field + ": "@ + value
                    }
                }),
            }
        }),
{
    let none = Seq::<Seq<char>>::empty();
    let r = compiler::injected(outer, "params"@, inner, Seq::empty(), none);
    assert(inner.marks + Seq::<char>::empty() =~= inner.marks);
    let same = FragmentV { marks: inner.marks + Seq::<char>::empty(), ..inner };
    assert(same == inner);
    if let Some(field) = outer.params_field {
        assert(r->Some_0.predicates =~= outer.predicates + inner.predicates);
        let value = match outer.params_container {
            Some(c) => "("@ + c + " "@ + compiler::inlined(inner) + ")"@,
            None => compiler::inlined(inner),
        };
        match outer.params_container {
            Some(c) => {
                assert(value + Seq::<char>::empty() =~= value);
            },
            None => {},
        }
        assert(compiler::contained(outer.params_container, inner, Seq::empty()) == value);
        assert(r->Some_0.node_body =~= outer.node_body + (if outer.params_needs_bridge {
            " (_ "@ + field + ": "@ + value + ")"@
        } else {
            " "@ + field + ": "@ + value
        }));
    }
}

/// What stands in a field that is neither the parameters nor the body stands in the field of that
/// name.
pub proof fn law_in_field(outer: FragmentV, field: Seq<char>, inner: FragmentV)
    requires
        field != "params"@,
    ensures
        ({
            let none = Seq::<Seq<char>>::empty();
            let r = compiler::injected(outer, field, inner, Seq::empty(), none);
            r is Some && r->Some_0.predicates == outer.predicates + inner.predicates
                && r->Some_0.node_body == outer.node_body + " "@ + field + ": "@
                + compiler::inlined(inner)
        }),
{
    let none = Seq::<Seq<char>>::empty();
    let r = compiler::injected(outer, field, inner, Seq::empty(), none);
    assert(inner.marks + Seq::<char>::empty() =~= inner.marks);
    assert(FragmentV { marks: inner.marks + Seq::<char>::empty(), ..inner } == inner);
    assert(r->Some_0.predicates =~= outer.predicates + inner.predicates);
}

/// What stands in a field goes into each fragment that has the field, in each of its
/// alternatives.
pub proof fn law_into_each(
    outer: Seq<FragmentV>,
    field: Seq<char>,
    inner: Seq<FragmentV>,
    marks: Seq<char>,
    preds: Seq<Seq<char>>,
    i: int,
    j: int,
)
    requires
        0 <= i < outer.len(),
        0 <= j < inner.len(),
    ensures
        compiler::injected(outer[i], field, inner[j], marks, preds) matches Some(x)
            ==> compiler::injected_all(outer, field, inner, marks, preds).contains(x),
    decreases outer.len(),
{
    if let Some(x) = compiler::injected(outer[i], field, inner[j], marks, preds) {
        let init = outer.drop_last();
        let before = compiler::injected_all(init, field, inner, marks, preds);
        let own = compiler::injected_each(outer.last(), field, inner, marks, preds);
        let all = compiler::injected_all(outer, field, inner, marks, preds);
        if i < init.len() {
            law_into_each(init, field, inner, marks, preds, i, j);
            assert(all[before.index_of(x)] == x);
        } else {
            lemma_into_one(outer.last(), field, inner, marks, preds, j);
            assert(all[before.len() + own.index_of(x)] == x);
        }
    }
}

proof fn lemma_into_one(
    outer: FragmentV,
    field: Seq<char>,
    inner: Seq<FragmentV>,
    marks: Seq<char>,
    preds: Seq<Seq<char>>,
    j: int,
)
    requires
        0 <= j < inner.len(),
    ensures
        compiler::injected(outer, field, inner[j], marks, preds) matches Some(x)
            ==> compiler::injected_each(outer, field, inner, marks, preds).contains(x),
    decreases inner.len(),
{
    if let Some(x) = compiler::injected(outer, field, inner[j], marks, preds) {
        let init = inner.drop_last();
        let before = compiler::injected_each(outer, field, init, marks, preds);
        let all = compiler::injected_each(outer, field, inner, marks, preds);
        if j < init.len() {
            lemma_into_one(outer, field, init, marks, preds, j);
            assert(all[before.index_of(x)] == x);
        } else {
            assert(all[before.len() as int] == x);
        }
    }
}

/// A field access without a text of its own puts what it holds, with the names in it tested, into
/// the field; one that holds nothing asks that there is something in it.
pub proof fn law_field_access(
    frags: Seq<FragmentV>,
    field: Seq<char>,
    inner: Option<Seq<FragmentV>>,
    ids: usize,
)
    requires
        field != "body"@,
    ensures
        ({
            let none = Seq::<Seq<char>>::empty();
            let what = match inner {
                Some(inner) => if field == "params"@ {
                    compiler::placed(inner)
                } else {
                    inner
                },
                None => seq![compiler::plain_fragment("_"@, None)],
            };
            compiler::accessed(frags, field, inner, none, ids).0 == compiler::injected_all(
                frags,
                field,
                compiler::resolved_all(what, ids).0,
                Seq::empty(),
                none,
            )
        }),
{
}

/// The body of a fragment is the node of its body field, of the kind of a body where there is
/// one. A fragment without a body drops out.
pub proof fn law_body(outer: FragmentV)
    ensures
        ({
            let none = Seq::<Seq<char>>::empty();
            let r = compiler::embodied(outer, Seq::empty(), none, Seq::empty());
            match outer.body_field {
                None => r is None,
                Some(field) => r is Some && r->Some_0.predicates == outer.predicates
                    && r->Some_0.node_body == outer.node_body + " "@ + field + ": ("@ + (
                match outer.body_container {
                    Some(c) => c,
                    None => "_"@,
                }) + ")"@,
            }
        }),
{
    let none = Seq::<Seq<char>>::empty();
    let r = compiler::embodied(outer, Seq::empty(), none, Seq::empty());
    if let Some(field) = outer.body_field {
        assert(r->Some_0.predicates =~= outer.predicates);
        let node = match outer.body_container {
            Some(c) => c,
            None => "_"@,
        };
        let t = outer.node_body + " "@ + field + ": ("@ + node + ")"@;
        assert(t + Seq::<char>::empty() =~= t);
    }
}

/// What is asked for in a body is searched for inside the node of the body, at any depth, in each
/// fragment that has one.
pub proof fn law_body_access(frags: Seq<FragmentV>, inner: Seq<FragmentV>, ids: usize, i: int)
    requires
        0 <= i < frags.len(),
        inner.len() > 0,
        frags[i].body_field is Some,
    ensures
        ({
            let none = Seq::<Seq<char>>::empty();
            let r = compiler::accessed(frags, "body"@, Some(inner), none, ids).0;
            let cap = "_in"@ + text::decimal_digits(ids as nat);
            let pattern = compiler::alternation(inner, compiler::next_id(ids)).0;
            exists|k: int|
                0 <= k < r.len() && (#[trigger] r[k]).node_body == frags[i].node_body + " "@
                    + frags[i].body_field->Some_0 + ": ("@ + (match frags[i].body_container {
                    Some(c) => c,
                    None => "_"@,
                }) + ")"@ + (" @"@ + cap) && r[k].inside.contains((cap, pattern))
        }),
{
    let none = Seq::<Seq<char>>::empty();
    let (cap, inside, ids1) = compiler::search(inner, ids);
    let marks = Seq::<char>::empty() + " @"@ + cap;
    assert(marks =~= " @"@ + cap);
    let r = compiler::accessed(frags, "body"@, Some(inner), none, ids).0;
    assert(r == compiler::embodied_all(frags, marks, none, inside));
    let x = compiler::embodied(frags[i], marks, none, inside)->Some_0;
    lemma_embodied(frags, marks, none, inside, i);
    let k = r.index_of(x);
    let pattern = compiler::alternation(inner, compiler::next_id(ids)).0;
    assert(inside[0] == (cap, pattern));
    let n = frags[i].inside.len() as int;
    assert(x.inside[n] == (cap, pattern));
    assert(r[k] == x);
}

proof fn lemma_embodied(
    frags: Seq<FragmentV>,
    marks: Seq<char>,
    preds: Seq<Seq<char>>,
    inside: Seq<compiler::SearchV>,
    i: int,
)
    requires
        0 <= i < frags.len(),
        frags[i].body_field is Some,
    ensures
        compiler::embodied_all(frags, marks, preds, inside).contains(
            compiler::embodied(frags[i], marks, preds, inside)->Some_0,
        ),
    decreases frags.len(),
{
    let init = frags.drop_last();
    let x = compiler::embodied(frags[i], marks, preds, inside)->Some_0;
    let before = compiler::embodied_all(init, marks, preds, inside);
    let all = compiler::embodied_all(frags, marks, preds, inside);
    if i < init.len() {
        lemma_embodied(init, marks, preds, inside, i);
        assert(all[before.index_of(x)] == x);
    } else {
        assert(all[before.len() as int] == x);
    }
}

/// A child stands in its parent; a sibling stands behind it, with an anchor between them where it
/// is the next one. What is tested of either is tested of both.
pub proof fn law_joined(head: FragmentV, tail: FragmentV)
    ensures
        ({
            let child = compiler::joined(head, tail, Combinator::Child);
            let next = compiler::joined(head, tail, Combinator::Adjacent);
            let later = compiler::joined(head, tail, Combinator::Sibling);
            let node = compiler::inlined(tail);
            &&& child.node_body == head.node_body + " "@ + node && child.siblings == head.siblings
            &&& next.siblings == head.siblings + " . "@ + node && next.node_body == head.node_body
            &&& later.siblings == head.siblings + " "@ + node && later.node_body == head.node_body
            &&& child.predicates == head.predicates + tail.predicates
            &&& next.predicates == head.predicates + tail.predicates
            &&& later.predicates == head.predicates + tail.predicates
            &&& child.outer_capture == head.outer_capture && next.outer_capture
                == head.outer_capture && later.outer_capture == head.outer_capture
        }),
{
}

/// Every alternative of the one side goes with every alternative of the other.
pub proof fn law_joined_each(
    heads: Seq<FragmentV>,
    tails: Seq<FragmentV>,
    combinator: Combinator,
    i: int,
    j: int,
)
    requires
        0 <= i < heads.len(),
        0 <= j < tails.len(),
    ensures
        compiler::joined_all(heads, tails, combinator).len() == heads.len() * tails.len(),
        compiler::joined_all(heads, tails, combinator).contains(
            compiler::joined(heads[i], tails[j], combinator),
        ),
    decreases heads.len(),
{
    let init = heads.drop_last();
    let before = compiler::joined_all(init, tails, combinator);
    let own = Seq::new(
        tails.len(),
        |k: int| compiler::joined(heads.last(), tails[k], combinator),
    );
    let all = compiler::joined_all(heads, tails, combinator);
    let x = compiler::joined(heads[i], tails[j], combinator);
    lemma_joined_len(heads, tails, combinator);
    if i < init.len() {
        law_joined_each(init, tails, combinator, i, j);
        assert(all[before.index_of(x)] == x);
    } else {
        assert(own[j] == x);
        assert(all[before.len() + j] == x);
    }
}

proof fn lemma_joined_len(heads: Seq<FragmentV>, tails: Seq<FragmentV>, combinator: Combinator)
    ensures
        compiler::joined_all(heads, tails, combinator).len() == heads.len() * tails.len(),
    decreases heads.len(),
{
    if heads.len() > 0 {
        lemma_joined_len(heads.drop_last(), tails, combinator);
        let n = heads.len() as int;
        let m = tails.len() as int;
        assert((n - 1) * m + m == n * m) by (nonlinear_arith);
    }
}

/// A group gives its capture to its nodes, besides their own; a name in it is tested on that
/// capture.
pub proof fn law_group(f: FragmentV, cap: Seq<char>, ids: usize)
    ensures
        ({
            let g = compiler::grouped(f, Some(cap), ids).0;
            &&& g.outer_capture == Some(cap)
            &&& g.node_body == f.node_body && g.siblings == f.siblings && g.inside == f.inside
            &&& g.pending is None
            &&& match f.pending {
                Some(nm) => g.predicates == f.predicates.push(
                    compiler::name_predicate_spec("@"@ + cap, nm),
                ),
                None => g.predicates == f.predicates && g.marks == (match f.outer_capture {
                    Some(c) => " @"@ + c,
                    None => Seq::empty(),
                }) + f.marks,
            }
        }),
{
    assert(Seq::<char>::empty() + f.marks =~= f.marks);
}

// ---------------------------------------------------------------------------
// Two phases
// ---------------------------------------------------------------------------

/// A selector with one field access.
pub open spec fn with_access(node: SelectorNodeV, field: Seq<char>, q: QueryV) -> QueryV {
    QueryV {
        head: SelectorV {
            node,
            fields: seq![FieldAccessV { field, inner: Some(Box::new(q)) }],
        },
        tail: Seq::empty(),
    }
}

/// A query in a field other than the parameters is searched for in two phases: first the nodes
/// that have the field, by the pattern of the selector alone, and then, in the field of each, the
/// query by its own pattern.
pub proof fn law_field_is_searched(
    table: Table,
    node: SelectorNodeV,
    field: Seq<char>,
    sel: SelectorV,
    ids: usize,
)
    requires
        field != "params"@,
        compiler::lone_text(sel) is None,
        compiler::node_fragments(table, node, ids).0.len() > 0,
        ({
            let (outer_frags, ids1) = compiler::node_fragments(table, node, ids);
            let ids2 = compiler::alternation(outer_frags, ids1).1;
            compiler::selector_fragments(table, sel, ids2).0.len() > 0
        }),
    ensures
        ({
            let q = QueryV { head: sel, tail: Seq::empty() };
            let (outer_frags, ids1) = compiler::node_fragments(table, node, ids);
            let (outer_text, ids2) = compiler::alternation(outer_frags, ids1);
            let (inner_frags, ids3) = compiler::selector_fragments(table, sel, ids2);
            let inner_text = compiler::alternation(inner_frags, ids3).0;
            match compiler::compiled(table, with_access(node, field, q), ids).0 {
                CompiledV::Scoped { outer, scope_field, inner } => outer == outer_text
                    && scope_field == field && inner == inner_text,
                CompiledV::ScopedSearch { outer, scope_field, inner, .. } => outer == outer_text
                    && scope_field == field && inner == inner_text,
                _ => false,
            }
        }),
{
    let q = QueryV { head: sel, tail: Seq::empty() };
    let full = with_access(node, field, q);
    let fields = full.head.fields;
    let access = fields[0];
    assert(compiler::tail_texts(q.tail).len() == 0);
    assert(compiler::field_texts(access.inner) =~= Seq::empty());
    assert(compiler::is_scope(access));
    assert(compiler::first_scope(fields, 0) == Some(0nat));
    let start = compiler::node_fragments(table, node, ids);
    assert(fields.take(0) =~= Seq::empty());
    assert(fields.skip(1) =~= Seq::empty());
    assert(compiler::accesses_fragments(table, start, fields.take(0)) == start);
    assert(compiler::outer_fragments(table, full.head, 0, ids) == start);
    let (outer_text, ids2) = compiler::alternation(start.0, start.1);
    compiler::law_alternation(start.0, start.1);
    let found = compiler::selector_fragments(table, sel, ids2);
    assert(compiler::field_joined(table, (Some(found.0), found.1), q.tail) == (
        Some(found.0),
        found.1,
    ));
    assert(compiler::field_fragments(table, access.inner, ids2) == (Some(found.0), found.1));
    compiler::law_alternation(found.0, found.1);
}

// ---------------------------------------------------------------------------
// Alternatives and texts
// ---------------------------------------------------------------------------

/// A pattern without a capture of its own gets one for the whole match.
pub proof fn law_whole_match_is_captured(f: FragmentV, ids: usize)
    requires
        f.pending is None,
        f.outer_capture is None,
    ensures
        compiler::emitted(f, ids).0 == compiler::emitted(
            (FragmentV {
                outer_capture: Some("_root"@ + text::decimal_digits(ids as nat)),
                ..f
            }),
            ids,
        ).0,
{
}

/// Whether texts are those of fragments, one by one, with whatever numbers their captures have.
pub open spec fn are_texts_of(parts: Seq<Seq<char>>, frags: Seq<FragmentV>) -> bool {
    &&& parts.len() == frags.len()
    &&& forall|i: int| 0 <= i < frags.len() ==> is_text_of(#[trigger] parts[i], frags[i])
}

/// Whether a text is that of a fragment.
pub open spec fn is_text_of(t: Seq<char>, f: FragmentV) -> bool {
    exists|k: usize| #[trigger] compiler::emitted(f, k).0 == t
}

proof fn lemma_texts(frags: Seq<FragmentV>, ids: usize)
    ensures
        are_texts_of(compiler::emitted_all(frags, ids).0, frags),
    decreases frags.len(),
{
    if frags.len() > 0 {
        let init = frags.drop_last();
        lemma_texts(init, ids);
        let (before, ids1) = compiler::emitted_all(init, ids);
        let parts = compiler::emitted_all(frags, ids).0;
        assert forall|i: int| 0 <= i < frags.len() implies is_text_of(
            #[trigger] parts[i],
            frags[i],
        ) by {
            if i < init.len() {
                assert(parts[i] == before[i]);
                assert(is_text_of(before[i], init[i]));
            } else {
                assert(compiler::emitted(frags[i], ids1).0 == parts[i]);
            }
        }
    }
}

proof fn lemma_all_distinct(frags: Seq<FragmentV>)
    requires
        forall|i: int, j: int|
            0 <= i < j < frags.len() ==> !compiler::same_pattern(
                #[trigger] frags[i],
                #[trigger] frags[j],
            ),
    ensures
        compiler::distinct(frags) == frags,
    decreases frags.len(),
{
    if frags.len() > 0 {
        let init = frags.drop_last();
        let n = frags.len() - 1;
        assert forall|i: int, j: int| 0 <= i < j < init.len() implies !compiler::same_pattern(
            #[trigger] init[i],
            #[trigger] init[j],
        ) by {
            assert(!compiler::same_pattern(frags[i], frags[j]));
        }
        lemma_all_distinct(init);
        assert(!compiler::has_pattern(init, frags.last())) by {
            assert forall|i: int| 0 <= i < init.len() implies !#[trigger] compiler::same_pattern(
                init[i],
                frags.last(),
            ) by {
                assert(!compiler::same_pattern(frags[i], frags[n]));
            }
        }
        assert(compiler::distinct(frags) =~= frags);
    } else {
        assert(compiler::distinct(frags) =~= frags);
    }
}

/// Fragments that are different patterns are alternatives: all of them, in their order, between
/// brackets.
pub proof fn law_alternatives(frags: Seq<FragmentV>, ids: usize) -> (parts: Seq<Seq<char>>)
    requires
        frags.len() > 1,
        forall|i: int, j: int|
            0 <= i < j < frags.len() ==> !compiler::same_pattern(
                #[trigger] frags[i],
                #[trigger] frags[j],
            ),
    ensures
        are_texts_of(parts, frags),
        compiler::alternation(frags, ids).0 == "["@ + text::join_spec(parts, "\n "@) + "]"@,
{
    lemma_all_distinct(frags);
    lemma_texts(frags, ids);
    compiler::emitted_all(frags, ids).0
}

/// Among parameters and arguments, only the name of a field drops out, and only where there is
/// something else besides.
pub proof fn law_placed(frags: Seq<FragmentV>, i: int)
    requires
        0 <= i < frags.len(),
    ensures
        frags[i].node_body != "field_identifier"@ ==> compiler::placed(frags).contains(frags[i]),
        compiler::placed(frags).len() > 0,
        (forall|j: int|
            0 <= j < frags.len() ==> (#[trigger] frags[j]).node_body == "field_identifier"@)
            ==> compiler::placed(frags) == frags,
{
    let p = |f: FragmentV| compiler::is_placed(f);
    order::lemma_filter_keeps(frags, p, frags[i]);
    assert(frags.contains(frags[i]));
    let kept = frags.filter(p);
    if kept.len() > 0 {
        order::lemma_filter_keeps(frags, p, kept[0]);
        assert(kept.contains(kept[0]));
        let j = frags.index_of(kept[0]);
        assert(p(frags[j]));
    }
}

/// A text without a type in a field is matched on the node of the field: each such text with a
/// predicate of its own.
pub proof fn law_text_across_nodes(cap: Seq<char>, texts: Seq<Seq<char>>, i: int)
    requires
        0 <= i < texts.len(),
    ensures
        compiler::text_predicates(cap, texts).len() == texts.len(),
        compiler::text_predicates(cap, texts)[i] == "(#match? "@ + cap + " \""@
            + compiler::escaped(texts[i]) + "\")"@,
{
}

} // verus!
