//! Places in a tree, and what is found when a tree is walked.
//!
//! A walk is given by its steps: which nodes it goes to from a node, and what it knows there.
//! A place is a way of such steps: the position of a node among those that the walk starts
//! from, then the position among those that it goes to from there, and so on.

use vstd::prelude::*;

verus! {

/// The node at a place, with what is known there.
pub open spec fn at<T, C>(
    nodes: Seq<T>,
    known: C,
    steps: spec_fn(T, C) -> (Seq<T>, C),
    p: Seq<nat>,
) -> Option<(T, C)>
    decreases p.len(),
{
    if p.len() == 0 || p[0] >= nodes.len() {
        None
    } else {
        let n = nodes[p[0] as int];
        if p.len() == 1 {
            Some((n, known))
        } else {
            let (inner, then) = steps(n, known);
            at(inner, then, steps, p.drop_first())
        }
    }
}

/// Whether a place comes before another one in the text: what is below a node comes behind
/// it, and before all that follows it.
pub open spec fn before(p: Seq<nat>, q: Seq<nat>) -> bool
    decreases p.len(),
{
    if q.len() == 0 {
        false
    } else if p.len() == 0 {
        true
    } else if p[0] != q[0] {
        p[0] < q[0]
    } else {
        before(p.drop_first(), q.drop_first())
    }
}

/// What a walk finds at a place.
pub open spec fn found_at<T, C, A>(
    nodes: Seq<T>,
    known: C,
    steps: spec_fn(T, C) -> (Seq<T>, C),
    value: spec_fn(T, C) -> Option<A>,
    p: Seq<nat>,
) -> Option<A> {
    match at(nodes, known, steps, p) {
        Some((n, c)) => value(n, c),
        None => None,
    }
}

/// Whether `ps` are all places where a walk finds something, in the order of the text, and
/// `out` is what it finds there.
pub open spec fn gathers<T, C, A>(
    out: Seq<A>,
    ps: Seq<Seq<nat>>,
    nodes: Seq<T>,
    known: C,
    steps: spec_fn(T, C) -> (Seq<T>, C),
    value: spec_fn(T, C) -> Option<A>,
) -> bool {
    &&& out.len() == ps.len()
    &&& forall|i: int, j: int| 0 <= i < j < ps.len() ==> before(#[trigger] ps[i], #[trigger] ps[j])
    &&& forall|i: int|
        0 <= i < ps.len() ==> found_at(nodes, known, steps, value, #[trigger] ps[i]) == Some(out[i])
    &&& forall|p: Seq<nat>|
        (#[trigger] found_at(nodes, known, steps, value, p)) is Some ==> ps.contains(p)
}

/// Whether `out` is all that a walk finds, in the order of the text.
pub open spec fn gathered<T, C, A>(
    out: Seq<A>,
    nodes: Seq<T>,
    known: C,
    steps: spec_fn(T, C) -> (Seq<T>, C),
    value: spec_fn(T, C) -> Option<A>,
) -> bool {
    exists|ps: Seq<Seq<nat>>| #[trigger] gathers(out, ps, nodes, known, steps, value)
}

/// The steps of a walk that goes no further than the nodes that it starts from.
pub open spec fn no_steps<T, C>() -> spec_fn(T, C) -> (Seq<T>, C) {
    |n: T, c: C| (Seq::<T>::empty(), c)
}

/// A list of what is there.
pub open spec fn some_of<A>(x: Option<A>) -> Seq<A> {
    match x {
        Some(x) => seq![x],
        None => Seq::empty(),
    }
}

/// Lists, one behind another.
pub open spec fn joined<A>(lists: Seq<Seq<A>>) -> Seq<A>
    decreases lists.len(),
{
    if lists.len() == 0 {
        Seq::empty()
    } else {
        joined(lists.drop_last()) + lists.last()
    }
}

pub proof fn lemma_joined<A>(a: Seq<Seq<A>>, b: Seq<Seq<A>>)
    ensures
        joined(a + b) == joined(a) + joined(b),
    decreases b.len(),
{
    if b.len() == 0 {
        assert(a + b =~= a);
        assert(joined(a) + joined(b) =~= joined(a));
    } else {
        lemma_joined(a, b.drop_last());
        assert((a + b).drop_last() =~= a + b.drop_last());
        assert(joined(a + b) =~= joined(a) + joined(b));
    }
}

/// What is in one of the lists is in all of them together.
pub proof fn lemma_joined_has<A>(lists: Seq<Seq<A>>, x: A)
    ensures
        joined(lists).contains(x) <==> exists|i: int|
            0 <= i < lists.len() && (#[trigger] lists[i]).contains(x),
    decreases lists.len(),
{
    if lists.len() > 0 {
        let init = lists.drop_last();
        let n = lists.len() - 1;
        let before = joined(init);
        let all = joined(lists);
        let own = lists.last();
        lemma_joined_has(init, x);
        assert(lists[n] == own);
        if all.contains(x) {
            let k = all.index_of(x);
            if k < before.len() {
                assert(before[k] == x);
                let i = choose|i: int| 0 <= i < init.len() && (#[trigger] init[i]).contains(x);
                assert(lists[i] == init[i]);
            } else {
                assert(own[k - before.len()] == x);
            }
        }
        if exists|i: int| 0 <= i < lists.len() && (#[trigger] lists[i]).contains(x) {
            let i = choose|i: int| 0 <= i < lists.len() && (#[trigger] lists[i]).contains(x);
            if i < n {
                assert(init[i] == lists[i]);
                assert(all[before.index_of(x)] == x);
            } else {
                assert(all[before.len() + own.index_of(x)] == x);
            }
        }
    }
}

proof fn lemma_not_before_itself(p: Seq<nat>)
    ensures
        !before(p, p),
    decreases p.len(),
{
    if p.len() > 0 {
        lemma_not_before_itself(p.drop_first());
    }
}

/// What is at a place is found.
pub proof fn lemma_found<T, C, A>(
    out: Seq<A>,
    nodes: Seq<T>,
    known: C,
    steps: spec_fn(T, C) -> (Seq<T>, C),
    value: spec_fn(T, C) -> Option<A>,
    p: Seq<nat>,
)
    requires
        gathered(out, nodes, known, steps, value),
        found_at(nodes, known, steps, value, p) is Some,
    ensures
        out.contains(found_at(nodes, known, steps, value, p)->Some_0),
{
    let ps = choose|ps: Seq<Seq<nat>>| #[trigger] gathers(out, ps, nodes, known, steps, value);
    let i = ps.index_of(p);
    assert(found_at(nodes, known, steps, value, ps[i]) == Some(out[i]));
}

/// Nowhere is nothing.
pub proof fn lemma_gathered_none<T, C, A>(
    known: C,
    steps: spec_fn(T, C) -> (Seq<T>, C),
    value: spec_fn(T, C) -> Option<A>,
)
    ensures
        gathered(Seq::<A>::empty(), Seq::<T>::empty(), known, steps, value),
{
    let none = Seq::<Seq<nat>>::empty();
    assert(gathers(Seq::<A>::empty(), none, Seq::<T>::empty(), known, steps, value));
}

/// The place `q` among the nodes that a walk goes to from the node at position `k`.
pub open spec fn below(k: nat, q: Seq<nat>) -> Seq<nat> {
    seq![k] + q
}

proof fn lemma_at_below<T, C>(
    nodes: Seq<T>,
    known: C,
    steps: spec_fn(T, C) -> (Seq<T>, C),
    k: nat,
    q: Seq<nat>,
)
    requires
        k < nodes.len(),
    ensures
        q.len() > 0 ==> at(nodes, known, steps, below(k, q)) == at(
            steps(nodes[k as int], known).0,
            steps(nodes[k as int], known).1,
            steps,
            q,
        ),
        at(nodes, known, steps, below(k, Seq::empty())) == Some((nodes[k as int], known)),
        below(k, q).drop_first() == q,
{
    assert(below(k, q).drop_first() =~= q);
    assert(below(k, Seq::<nat>::empty()).len() == 1);
}

/// What a walk finds from nodes and one more: what it finds from those, what that one is, and
/// what it finds from there.
pub proof fn lemma_gathered_push<T, C, A>(
    init: Seq<T>,
    n: T,
    known: C,
    steps: spec_fn(T, C) -> (Seq<T>, C),
    value: spec_fn(T, C) -> Option<A>,
    out1: Seq<A>,
    out2: Seq<A>,
)
    requires
        gathered(out1, init, known, steps, value),
        gathered(out2, steps(n, known).0, steps(n, known).1, steps, value),
    ensures
        gathered(out1 + (some_of(value(n, known)) + out2), init.push(n), known, steps, value),
{
    let ps1 = choose|ps: Seq<Seq<nat>>| #[trigger] gathers(out1, ps, init, known, steps, value);
    let (inner, then) = steps(n, known);
    let ps2 = choose|ps: Seq<Seq<nat>>| #[trigger] gathers(out2, ps, inner, then, steps, value);
    let k = init.len();
    let own = some_of(value(n, known));
    let own_ps = if value(n, known) is Some {
        seq![below(k, Seq::empty())]
    } else {
        Seq::empty()
    };
    let lower = Seq::new(ps2.len(), |i: int| below(k, ps2[i]));
    let ps = ps1 + (own_ps + lower);
    let out = out1 + (own + out2);
    let nodes = init.push(n);
    let a = ps1.len() as int;
    let b = a + own_ps.len();
    assert(nodes[k as int] == n);
    assert forall|i: int| 0 <= i < ps.len() implies found_at(
        nodes,
        known,
        steps,
        value,
        #[trigger] ps[i],
    ) == Some(out[i]) by {
        if i < a {
            assert(ps[i] == ps1[i]);
            assert(found_at(init, known, steps, value, ps1[i]) == Some(out1[i]));
        } else if i < b {
            lemma_at_below(nodes, known, steps, k, Seq::empty());
            assert(ps[i] == below(k, Seq::empty()));
            assert(out[i] == own[0]);
        } else {
            let q = ps2[i - b];
            assert(ps[i] == lower[i - b]);
            assert(found_at(inner, then, steps, value, q) == Some(out2[i - b]));
            lemma_at_below(nodes, known, steps, k, q);
            assert(out[i] == out2[i - b]);
        }
    }
    assert forall|i: int, j: int| 0 <= i < j < ps.len() implies before(
        #[trigger] ps[i],
        #[trigger] ps[j],
    ) by {
        if i < a {
            assert(ps[i] == ps1[i]);
            assert(found_at(init, known, steps, value, ps1[i]) == Some(out1[i]));
            if j < a {
                assert(before(ps1[i], ps1[j]));
            } else {
                assert(ps[j][0] == k);
                assert(ps1[i][0] < k);
            }
        } else if i < b {
            let q = ps2[j - b];
            assert(ps[j] == lower[j - b]);
            assert(found_at(inner, then, steps, value, q) == Some(out2[j - b]));
            lemma_at_below(nodes, known, steps, k, q);
            lemma_at_below(nodes, known, steps, k, Seq::empty());
            assert(before(Seq::empty(), q));
        } else {
            lemma_at_below(nodes, known, steps, k, ps2[i - b]);
            lemma_at_below(nodes, known, steps, k, ps2[j - b]);
            assert(ps[i] == lower[i - b] && ps[j] == lower[j - b]);
            assert(before(ps2[i - b], ps2[j - b]));
        }
    }
    assert forall|p: Seq<nat>|
        (#[trigger] found_at(nodes, known, steps, value, p)) is Some implies ps.contains(p) by {
        if p[0] < k {
            assert(at(nodes, known, steps, p) == at(init, known, steps, p));
            assert(found_at(init, known, steps, value, p) is Some);
            let i = ps1.index_of(p);
            assert(ps[i] == p);
        } else if p.len() == 1 {
            assert(p =~= below(k, Seq::empty()));
            assert(ps[a] == p);
        } else {
            let q = p.drop_first();
            assert(p =~= below(k, q));
            lemma_at_below(nodes, known, steps, k, q);
            assert(found_at(inner, then, steps, value, q) is Some);
            let i = ps2.index_of(q);
            assert(lower[i] == p);
            assert(ps[b + i] == p);
        }
    }
    assert(gathers(out, ps, nodes, known, steps, value));
}

/// What a walk finds is found once at each place: as many things as there are places.
pub proof fn law_places_are_distinct<T, C, A>(
    out: Seq<A>,
    ps: Seq<Seq<nat>>,
    nodes: Seq<T>,
    known: C,
    steps: spec_fn(T, C) -> (Seq<T>, C),
    value: spec_fn(T, C) -> Option<A>,
)
    requires
        gathers(out, ps, nodes, known, steps, value),
    ensures
        ps.no_duplicates(),
        ps.len() == out.len(),
        forall|p: Seq<nat>|
            ps.contains(p) <==> (#[trigger] found_at(nodes, known, steps, value, p)) is Some,
{
    assert forall|i: int, j: int| 0 <= i < ps.len() && 0 <= j < ps.len() && i != j implies ps[i]
        != ps[j] by {
        lemma_not_before_itself(ps[i]);
        if i < j {
            assert(before(ps[i], ps[j]));
        } else {
            assert(before(ps[j], ps[i]));
        }
    }
}

} // verus!
