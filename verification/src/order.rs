//! Stable sorting.

use vstd::prelude::*;
use crate::text;
use crate::text::{push_string, str_lt};

verus! {

/// `x` in a sorted list, behind everything that does not come after it.
pub open spec fn insert<T>(s: Seq<T>, x: T, lt: spec_fn(T, T) -> bool) -> Seq<T>
    decreases s.len(),
{
    if s.len() > 0 && lt(x, s.last()) {
        insert(s.drop_last(), x, lt).push(s.last())
    } else {
        s.push(x)
    }
}

/// The items in order; those that neither comes before the other keep their places.
pub open spec fn stable_sort<T>(s: Seq<T>, lt: spec_fn(T, T) -> bool) -> Seq<T>
    decreases s.len(),
{
    if s.len() == 0 {
        s
    } else {
        insert(stable_sort(s.drop_last(), lt), s.last(), lt)
    }
}

/// Nothing comes before an item that stands in front of it.
pub open spec fn is_sorted<T>(s: Seq<T>, lt: spec_fn(T, T) -> bool) -> bool {
    forall|i: int, j: int| 0 <= i < j < s.len() ==> !lt(#[trigger] s[j], #[trigger] s[i])
}

/// A strict weak order: what `lt` leaves undecided is an equivalence.
pub open spec fn is_order<T>(lt: spec_fn(T, T) -> bool) -> bool {
    &&& forall|a: T, b: T| #[trigger] lt(a, b) ==> !lt(b, a)
    &&& forall|a: T, b: T, c: T|
        !(#[trigger] lt(a, b)) && !(#[trigger] lt(b, c)) ==> !lt(a, c)
}

proof fn lemma_insert<T>(s: Seq<T>, x: T, lt: spec_fn(T, T) -> bool)
    ensures
        insert(s, x, lt).to_multiset() == s.to_multiset().insert(x),
        insert(s, x, lt).len() == s.len() + 1,
        is_order(lt) && is_sorted(s, lt) ==> is_sorted(insert(s, x, lt), lt),
    decreases s.len(),
{
    broadcast use vstd::seq_lib::group_to_multiset_ensures;

    let r = insert(s, x, lt);
    if s.len() > 0 && lt(x, s.last()) {
        let init = s.drop_last();
        let y = s.last();
        lemma_insert(init, x, lt);
        assert(s =~= init.push(y));
        assert(r.to_multiset() =~= s.to_multiset().insert(x));
        if is_order(lt) && is_sorted(s, lt) {
            assert(is_sorted(init, lt));
            let p = insert(init, x, lt);
            assert forall|i: int, j: int| 0 <= i < j < r.len() implies !lt(
                #[trigger] r[j],
                #[trigger] r[i],
            ) by {
                if j == p.len() {
                    assert(p.to_multiset().contains(p[i])) by {
                        p.to_multiset_ensures();
                        assert(p.contains(p[i]));
                    }
                    if p[i] == x {
                    } else {
                        assert(init.to_multiset().contains(p[i]));
                        init.to_multiset_ensures();
                        assert(init.contains(p[i]));
                        let k = init.index_of(p[i]);
                        assert(s[k] == p[i]);
                        assert(s[s.len() - 1] == y);
                    }
                } else {
                    assert(r[i] == p[i] && r[j] == p[j]);
                }
            }
        }
    } else {
        if is_order(lt) && is_sorted(s, lt) {
            assert forall|i: int, j: int| 0 <= i < j < r.len() implies !lt(
                #[trigger] r[j],
                #[trigger] r[i],
            ) by {
                if j == s.len() && s.len() > 0 {
                    assert(!lt(x, s.last()));
                    if i < s.len() - 1 {
                        assert(!lt(s[s.len() - 1], s[i]));
                    }
                }
            }
        }
    }
}

/// Sorting keeps the items, each as often as it was there, and puts them in order.
pub proof fn law_sort_orders<T>(s: Seq<T>, lt: spec_fn(T, T) -> bool)
    ensures
        stable_sort(s, lt).to_multiset() == s.to_multiset(),
        stable_sort(s, lt).len() == s.len(),
        is_order(lt) ==> is_sorted(stable_sort(s, lt), lt),
    decreases s.len(),
{
    broadcast use vstd::seq_lib::group_to_multiset_ensures;

    if s.len() > 0 {
        law_sort_orders(s.drop_last(), lt);
        lemma_insert(stable_sort(s.drop_last(), lt), s.last(), lt);
        assert(s =~= s.drop_last().push(s.last()));
    }
}

/// Two sorted lists as one. Of two items that neither comes before the other, that of the
/// first list stands first.
pub open spec fn merged<T>(a: Seq<T>, b: Seq<T>, lt: spec_fn(T, T) -> bool) -> Seq<T>
    decreases a.len() + b.len(),
{
    if a.len() == 0 {
        b
    } else if b.len() == 0 {
        a
    } else if lt(b.last(), a.last()) {
        merged(a.drop_last(), b, lt).push(a.last())
    } else {
        merged(a, b.drop_last(), lt).push(b.last())
    }
}

proof fn lemma_merge_push<T>(a: Seq<T>, b: Seq<T>, x: T, lt: spec_fn(T, T) -> bool)
    requires
        is_order(lt),
        b.len() > 0 ==> !lt(x, b.last()),
    ensures
        merged(a, b.push(x), lt) == insert(merged(a, b, lt), x, lt),
    decreases a.len(),
{
    let bx = b.push(x);
    assert(bx.last() == x);
    assert(bx.drop_last() =~= b);
    let m = merged(a, b, lt);
    if a.len() > 0 {
        if lt(x, a.last()) {
            lemma_merge_push(a.drop_last(), b, x, lt);
            assert(m.last() == a.last());
            assert(m.drop_last() =~= merged(a.drop_last(), b, lt));
        } else {
            assert(m.len() > 0 ==> !lt(x, m.last()));
        }
    }
}

proof fn lemma_merge_insert<T>(a: Seq<T>, b: Seq<T>, x: T, lt: spec_fn(T, T) -> bool)
    requires
        is_order(lt),
    ensures
        merged(a, insert(b, x, lt), lt) == insert(merged(a, b, lt), x, lt),
    decreases a.len() + b.len(),
{
    if b.len() > 0 && lt(x, b.last()) {
        let y = b.last();
        let bx = insert(b, x, lt);
        let init = insert(b.drop_last(), x, lt);
        assert(bx.last() == y);
        assert(bx.drop_last() =~= init);
        let m = merged(a, b, lt);
        if a.len() > 0 {
            if lt(y, a.last()) {
                lemma_merge_insert(a.drop_last(), b, x, lt);
                assert(m.drop_last() =~= merged(a.drop_last(), b, lt));
                assert(lt(x, a.last()));
            } else {
                lemma_merge_insert(a, b.drop_last(), x, lt);
                assert(m.drop_last() =~= merged(a, b.drop_last(), lt));
            }
        }
    } else {
        lemma_merge_push(a, b, x, lt);
    }
}

/// Lists that are sorted apart and then merged are sorted together.
pub proof fn law_merge_sorts<T>(s: Seq<T>, t: Seq<T>, lt: spec_fn(T, T) -> bool)
    requires
        is_order(lt),
    ensures
        merged(stable_sort(s, lt), stable_sort(t, lt), lt) == stable_sort(s + t, lt),
    decreases t.len(),
{
    if t.len() == 0 {
        assert(s + t =~= s);
        assert(stable_sort(t, lt) == t);
        assert(merged(stable_sort(s, lt), t, lt) =~= stable_sort(s, lt));
    } else {
        let init = t.drop_last();
        law_merge_sorts(s, init, lt);
        lemma_merge_insert(stable_sort(s, lt), stable_sort(init, lt), t.last(), lt);
        assert((s + t).drop_last() =~= s + init);
        assert((s + t).last() == t.last());
    }
}

/// Sorting by a key, and then taking the keys, is taking the keys and sorting them.
pub proof fn lemma_sort_map<A, B>(s: Seq<A>, f: spec_fn(A) -> B, lt: spec_fn(B, B) -> bool)
    ensures
        stable_sort(s, |x: A, y: A| lt(f(x), f(y))).map_values(f) == stable_sort(
            s.map_values(f),
            lt,
        ),
    decreases s.len(),
{
    let g = |x: A, y: A| lt(f(x), f(y));
    if s.len() > 0 {
        lemma_sort_map(s.drop_last(), f, lt);
        assert(s.map_values(f).drop_last() =~= s.drop_last().map_values(f));
        lemma_insert_map(stable_sort(s.drop_last(), g), s.last(), f, lt);
    } else {
        assert(s.map_values(f) =~= Seq::empty());
        assert(stable_sort(s, g).map_values(f) =~= stable_sort(s.map_values(f), lt));
    }
}

proof fn lemma_insert_map<A, B>(s: Seq<A>, x: A, f: spec_fn(A) -> B, lt: spec_fn(B, B) -> bool)
    ensures
        insert(s, x, |x: A, y: A| lt(f(x), f(y))).map_values(f) == insert(
            s.map_values(f),
            f(x),
            lt,
        ),
    decreases s.len(),
{
    let g = |x: A, y: A| lt(f(x), f(y));
    let m = s.map_values(f);
    if s.len() > 0 && g(x, s.last()) {
        lemma_insert_map(s.drop_last(), x, f, lt);
        assert(m.drop_last() =~= s.drop_last().map_values(f));
        assert(insert(s, x, g).map_values(f) =~= insert(s.drop_last(), x, g).map_values(f).push(
            m.last(),
        ));
    } else {
        assert(insert(s, x, g).map_values(f) =~= m.push(f(x)));
    }
}

/// Merges two sorted lists of positions.
fn merge<F: Fn(usize, usize) -> bool>(
    a: &Vec<usize>,
    b: &Vec<usize>,
    less: &F,
    Ghost(lt): Ghost<spec_fn(usize, usize) -> bool>,
) -> (r: Vec<usize>)
    requires
        forall|i: int, j: int|
            0 <= i < a@.len() && 0 <= j < b@.len() ==> #[trigger] call_requires(
                *less,
                (b@[j], a@[i]),
            ),
        forall|x: usize, y: usize, c: bool| #[trigger]
            call_ensures(*less, (x, y), c) ==> c == lt(x, y),
    ensures
        r@ == merged(a@, b@, lt),
{
    // what stands behind the items that are left, the last one first
    let mut tail: Vec<usize> = Vec::new();
    let mut i: usize = a.len();
    let mut j: usize = b.len();
    let ghost whole = merged(a@, b@, lt);
    assert(a@.take(i as int) =~= a@);
    assert(b@.take(j as int) =~= b@);
    assert(whole =~= merged(a@.take(i as int), b@.take(j as int), lt) + tail@.reverse());
    while i > 0 && j > 0
        invariant
            i <= a@.len(),
            j <= b@.len(),
            forall|i: int, j: int|
                0 <= i < a@.len() && 0 <= j < b@.len() ==> #[trigger] call_requires(
                    *less,
                    (b@[j], a@[i]),
                ),
            forall|x: usize, y: usize, c: bool| #[trigger]
                call_ensures(*less, (x, y), c) ==> c == lt(x, y),
            whole == merged(a@.take(i as int), b@.take(j as int), lt) + tail@.reverse(),
        decreases i + j,
    {
        let ghost m = merged(a@.take(i as int), b@.take(j as int), lt);
        let ghost before = tail@;
        assert(a@.take(i as int).drop_last() =~= a@.take(i - 1));
        assert(b@.take(j as int).drop_last() =~= b@.take(j - 1));
        assert(call_requires(*less, (b@[j - 1], a@[i - 1])));
        if less(b[j - 1], a[i - 1]) {
            i -= 1;
            tail.push(a[i]);
        } else {
            j -= 1;
            tail.push(b[j]);
        }
        assert(tail@.reverse() =~= seq![tail@.last()] + before.reverse());
        assert(whole =~= merged(a@.take(i as int), b@.take(j as int), lt) + tail@.reverse());
    }
    let mut out: Vec<usize> = Vec::new();
    let mut k: usize = 0;
    while k < i
        invariant
            k <= i <= a@.len(),
            out@ =~= a@.take(k as int),
        decreases i - k,
    {
        out.push(a[k]);
        k += 1;
    }
    k = 0;
    while k < j
        invariant
            k <= j <= b@.len(),
            out@ =~= a@.take(i as int) + b@.take(k as int),
        decreases j - k,
    {
        out.push(b[k]);
        k += 1;
    }
    assert(a@.take(i as int) + b@.take(j as int) =~= merged(
        a@.take(i as int),
        b@.take(j as int),
        lt,
    ));
    while tail.len() > 0
        invariant
            whole == out@ + tail@.reverse(),
        decreases tail@.len(),
    {
        let ghost before = tail@;
        let ghost done = out@;
        if let Some(x) = tail.pop() {
            out.push(x);
            assert(before.reverse() =~= seq![x] + tail@.reverse());
            assert(out@ + tail@.reverse() =~= done + before.reverse());
        }
    }
    assert(whole =~= out@);
    out
}

/// Sorts a part of a list of positions.
fn sort_part<F: Fn(usize, usize) -> bool>(
    v: &Vec<usize>,
    from: usize,
    to: usize,
    less: &F,
    Ghost(lt): Ghost<spec_fn(usize, usize) -> bool>,
) -> (r: Vec<usize>)
    requires
        from <= to <= v@.len(),
        is_order(lt),
        forall|a: usize, b: usize|
            v@.contains(a) && v@.contains(b) ==> #[trigger] call_requires(*less, (a, b)),
        forall|a: usize, b: usize, c: bool| #[trigger]
            call_ensures(*less, (a, b), c) ==> c == lt(a, b),
    ensures
        r@ == stable_sort(v@.subrange(from as int, to as int), lt),
        forall|k: int| 0 <= k < r@.len() ==> v@.contains(#[trigger] r@[k]),
    decreases to - from,
{
    let ghost part = v@.subrange(from as int, to as int);
    if to - from <= 1 {
        let mut out: Vec<usize> = Vec::new();
        if from < to {
            out.push(v[from]);
            assert(part.drop_last() =~= Seq::empty());
            assert(stable_sort(part.drop_last(), lt) =~= Seq::empty());
        }
        assert(out@ =~= stable_sort(part, lt));
        return out;
    }
    let middle: usize = from + (to - from) / 2;
    let a: Vec<usize> = sort_part(v, from, middle, less, Ghost(lt));
    let b: Vec<usize> = sort_part(v, middle, to, less, Ghost(lt));
    let r: Vec<usize> = merge(&a, &b, less, Ghost(lt));
    proof {
        let left = v@.subrange(from as int, middle as int);
        let right = v@.subrange(middle as int, to as int);
        law_merge_sorts(left, right, lt);
        assert(left + right =~= part);
        law_sort_orders(part, lt);
        assert forall|k: int| 0 <= k < r@.len() implies v@.contains(#[trigger] r@[k]) by {
            part.to_multiset_ensures();
            r@.to_multiset_ensures();
            assert(r@.contains(r@[k]));
            assert(part.to_multiset().contains(r@[k]));
            let i = part.index_of(r@[k]);
            assert(v@[from + i] == r@[k]);
        }
    }
    r
}

/// Sorts a list of positions by the order that `less` decides.
pub(crate) fn sort_positions<F: Fn(usize, usize) -> bool>(
    v: &Vec<usize>,
    less: F,
    Ghost(lt): Ghost<spec_fn(usize, usize) -> bool>,
) -> (r: Vec<usize>)
    requires
        is_order(lt),
        forall|a: usize, b: usize|
            v@.contains(a) && v@.contains(b) ==> #[trigger] call_requires(less, (a, b)),
        forall|a: usize, b: usize, c: bool| #[trigger]
            call_ensures(less, (a, b), c) ==> c == lt(a, b),
    ensures
        r@ == stable_sort(v@, lt),
{
    assert(v@.subrange(0, v@.len() as int) =~= v@);
    sort_part(v, 0, v.len(), &less, Ghost(lt))
}

/// The positions of which `keep` holds.
pub(crate) fn filter_positions<F: Fn(usize) -> bool>(
    v: &Vec<usize>,
    keep: F,
    Ghost(p): Ghost<spec_fn(usize) -> bool>,
) -> (r: Vec<usize>)
    requires
        forall|a: usize| v@.contains(a) ==> #[trigger] call_requires(keep, (a,)),
        forall|a: usize, c: bool| #[trigger] call_ensures(keep, (a,), c) ==> c == p(a),
    ensures
        r@ == v@.filter(p),
{
    let mut out: Vec<usize> = Vec::new();
    let mut i: usize = 0;
    proof {
        reveal(Seq::filter);
        assert(v@.take(0).filter(p) =~= Seq::empty());
    }
    while i < v.len()
        invariant
            i <= v@.len(),
            out@ == v@.take(i as int).filter(p),
            forall|a: usize| v@.contains(a) ==> #[trigger] call_requires(keep, (a,)),
            forall|a: usize, c: bool| #[trigger] call_ensures(keep, (a,), c) ==> c == p(a),
        decreases v@.len() - i,
    {
        let x: usize = v[i];
        proof {
            reveal(Seq::filter);
            assert(v@.contains(x));
            assert(v@.take(i + 1).drop_last() =~= v@.take(i as int));
            assert(v@.take(i + 1).last() == x);
        }
        if keep(x) {
            out.push(x);
        }
        i += 1;
    }
    assert(v@.take(i as int) =~= v@);
    out
}

/// The items without those that repeat the one right before them.
pub open spec fn no_repeats<T>(s: Seq<T>) -> Seq<T>
    decreases s.len(),
{
    if s.len() <= 1 {
        s
    } else if s.last() == s[s.len() - 2] {
        no_repeats(s.drop_last())
    } else {
        no_repeats(s.drop_last()).push(s.last())
    }
}

/// The items without those that repeat the one right before them.
pub(crate) fn drop_repeats(v: &Vec<usize>) -> (r: Vec<usize>)
    ensures
        r@ == no_repeats(v@),
{
    let mut out: Vec<usize> = Vec::new();
    let mut i: usize = 0;
    assert(out@ =~= no_repeats(v@.take(0)));
    while i < v.len()
        invariant
            i <= v@.len(),
            out@ == no_repeats(v@.take(i as int)),
        decreases v@.len() - i,
    {
        assert(v@.take(i + 1).drop_last() =~= v@.take(i as int));
        assert(v@.take(i + 1).last() == v@[i as int]);
        if i == 0 {
            out.push(v[0]);
            assert(out@ =~= v@.take(1));
        } else {
            assert(v@.take(i + 1)[i - 1] == v@[i - 1]);
            if v[i] != v[i - 1] {
                out.push(v[i]);
            }
        }
        i += 1;
    }
    assert(v@.take(i as int) =~= v@);
    out
}

/// The first position of which `p` holds.
pub open spec fn first_where(s: Seq<usize>, p: spec_fn(usize) -> bool) -> Option<usize> {
    if s.filter(p).len() > 0 {
        Some(s.filter(p)[0])
    } else {
        None
    }
}

/// The order of numbers.
pub open spec fn numeric() -> spec_fn(usize, usize) -> bool {
    |a: usize, b: usize| a < b
}

/// The positions in ascending order, each of them once.
pub(crate) fn sort_distinct(v: &Vec<usize>) -> (r: Vec<usize>)
    ensures
        r@ == no_repeats(stable_sort(v@, numeric())),
{
    let less = |a: usize, b: usize| -> (r: bool)
        ensures
            r == (a < b),
        { a < b };
    assert(is_order(numeric()));
    drop_repeats(&sort_positions(v, less, Ghost(numeric())))
}

proof fn lemma_no_repeats<T>(s: Seq<T>)
    ensures
        forall|x: T| #[trigger] no_repeats(s).contains(x) <==> s.contains(x),
        s.len() > 0 ==> no_repeats(s).len() > 0 && no_repeats(s).last() == s.last(),
    decreases s.len(),
{
    if s.len() > 1 {
        let init = s.drop_last();
        lemma_no_repeats(init);
        let r = no_repeats(s);
        assert(init.last() == s[s.len() - 2]);
        assert forall|x: T| #[trigger] r.contains(x) <==> s.contains(x) by {
            if s.contains(x) {
                let i = s.index_of(x);
                if i < init.len() {
                    assert(init[i] == x);
                    assert(no_repeats(init).contains(x));
                    let k = no_repeats(init).index_of(x);
                    assert(r[k] == x);
                } else {
                    assert(r[r.len() - 1] == x);
                }
            }
            if r.contains(x) {
                let k = r.index_of(x);
                if k < no_repeats(init).len() {
                    assert(no_repeats(init)[k] == x);
                    assert(no_repeats(init).contains(x));
                    assert(init.contains(x));
                    let i = init.index_of(x);
                    assert(s[i] == x);
                } else {
                    assert(s[s.len() - 1] == x);
                }
            }
        }
    }
}

/// A strict total order: of two items that differ, one comes before the other.
pub open spec fn is_total<T>(lt: spec_fn(T, T) -> bool) -> bool {
    is_order(lt) && forall|a: T, b: T| a != b && !(#[trigger] lt(a, b)) ==> lt(b, a)
}

/// Sorting and dropping repeats gives the items that there were, in ascending order and
/// each of them once.
pub proof fn law_sort_distinct<T>(s: Seq<T>, lt: spec_fn(T, T) -> bool)
    requires
        is_total(lt),
    ensures
        forall|x: T| #[trigger]
            no_repeats(stable_sort(s, lt)).contains(x) <==> s.contains(x),
        forall|i: int, j: int|
            0 <= i < j < no_repeats(stable_sort(s, lt)).len() ==> lt(
                #[trigger] no_repeats(stable_sort(s, lt))[i],
                #[trigger] no_repeats(stable_sort(s, lt))[j],
            ),
{
    let t = stable_sort(s, lt);
    law_sort_orders(s, lt);
    lemma_no_repeats(t);
    assert forall|x: T| #[trigger] no_repeats(t).contains(x) <==> s.contains(x) by {
        s.to_multiset_ensures();
        t.to_multiset_ensures();
        assert(s.to_multiset().contains(x) <==> t.to_multiset().contains(x));
        assert(no_repeats(t).contains(x) <==> t.contains(x));
    }
    lemma_no_repeats_increasing(t, lt);
}

/// What a filter keeps are the items that it holds of.
pub proof fn lemma_filter_keeps<T>(s: Seq<T>, p: spec_fn(T) -> bool, x: T)
    ensures
        s.filter(p).contains(x) <==> s.contains(x) && p(x),
    decreases s.len(),
{
    reveal(Seq::filter);
    if s.len() > 0 {
        let init = s.drop_last();
        lemma_filter_keeps(init, p, x);
        let kept = init.filter(p);
        let all = s.filter(p);
        if s.contains(x) && p(x) {
            if init.contains(x) {
                assert(all[kept.index_of(x)] == x);
            } else {
                let k = s.index_of(x);
                if k < s.len() - 1 {
                    assert(init[k] == x);
                }
                assert(all[kept.len() as int] == x);
            }
        }
        if all.contains(x) {
            let k = all.index_of(x);
            if k < kept.len() {
                assert(kept[k] == x);
                assert(kept.contains(x));
                assert(s[init.index_of(x)] == x);
            } else {
                assert(s[s.len() - 1] == x);
            }
        }
    }
}

proof fn lemma_increasing_unique<T>(a: Seq<T>, b: Seq<T>, lt: spec_fn(T, T) -> bool)
    requires
        is_total(lt),
        forall|i: int, j: int| 0 <= i < j < a.len() ==> lt(#[trigger] a[i], #[trigger] a[j]),
        forall|i: int, j: int| 0 <= i < j < b.len() ==> lt(#[trigger] b[i], #[trigger] b[j]),
        forall|x: T| #[trigger] a.contains(x) <==> b.contains(x),
    ensures
        a == b,
    decreases a.len(),
{
    if a.len() == 0 {
        if b.len() > 0 {
            assert(b.contains(b[0]));
            assert(a.contains(b[0]));
        }
        assert(a =~= b);
    } else {
        assert(a.contains(a.last()));
        assert(b.contains(a.last()));
        let k = b.index_of(a.last());
        assert(b.contains(b.last()));
        assert(a.contains(b.last()));
        let m = a.index_of(b.last());
        if k < b.len() - 1 {
            assert(lt(b[k], b[b.len() - 1]));
            if m < a.len() - 1 {
                assert(lt(a[m], a[a.len() - 1]));
            }
        }
        assert(a.last() == b.last());
        let (c, d) = (a.drop_last(), b.drop_last());
        assert forall|x: T| #[trigger] c.contains(x) <==> d.contains(x) by {
            if c.contains(x) {
                let i = c.index_of(x);
                assert(a[i] == x);
                assert(lt(a[i], a[a.len() - 1]));
                assert(a.contains(x));
                let j = b.index_of(x);
                assert(j != b.len() - 1);
                assert(d[j] == x);
            }
            if d.contains(x) {
                let i = d.index_of(x);
                assert(b[i] == x);
                assert(lt(b[i], b[b.len() - 1]));
                assert(b.contains(x));
                assert(a.contains(x));
                let j = a.index_of(x);
                assert(j != a.len() - 1);
                assert(c[j] == x);
            }
        }
        lemma_increasing_unique(c, d, lt);
        assert(a =~= c.push(a.last()));
        assert(b =~= d.push(b.last()));
    }
}

/// What sorting and dropping repeats gives depends on the items alone, not on their order
/// or on how often they stand there.
pub proof fn law_sort_distinct_by_items<T>(s: Seq<T>, t: Seq<T>, lt: spec_fn(T, T) -> bool)
    requires
        is_total(lt),
        forall|x: T| #[trigger] s.contains(x) <==> t.contains(x),
    ensures
        no_repeats(stable_sort(s, lt)) == no_repeats(stable_sort(t, lt)),
{
    law_sort_distinct(s, lt);
    law_sort_distinct(t, lt);
    let a = no_repeats(stable_sort(s, lt));
    let b = no_repeats(stable_sort(t, lt));
    assert forall|x: T| #[trigger] a.contains(x) <==> b.contains(x) by {
        assert(s.contains(x) <==> t.contains(x));
    }
    lemma_increasing_unique(a, b, lt);
}

proof fn lemma_no_repeats_increasing<T>(t: Seq<T>, lt: spec_fn(T, T) -> bool)
    requires
        is_total(lt),
        is_sorted(t, lt),
    ensures
        forall|i: int, j: int|
            0 <= i < j < no_repeats(t).len() ==> lt(
                #[trigger] no_repeats(t)[i],
                #[trigger] no_repeats(t)[j],
            ),
    decreases t.len(),
{
    if t.len() > 1 {
        let init = t.drop_last();
        assert(is_sorted(init, lt)) by {
            assert forall|i: int, j: int| 0 <= i < j < init.len() implies !lt(
                #[trigger] init[j],
                #[trigger] init[i],
            ) by {
                assert(!lt(t[j], t[i]));
            }
        }
        lemma_no_repeats_increasing(init, lt);
        lemma_no_repeats(init);
        let q = no_repeats(init);
        let r = no_repeats(t);
        assert forall|i: int, j: int| 0 <= i < j < r.len() implies lt(
            #[trigger] r[i],
            #[trigger] r[j],
        ) by {
            if j < q.len() {
                assert(lt(q[i], q[j]));
            } else {
                let x = t[t.len() - 1];
                let y = t[t.len() - 2];
                assert(!lt(x, y));
                assert(lt(y, x));
                assert(q.last() == y);
                if i < q.len() - 1 {
                    assert(lt(q[i], q[q.len() - 1]));
                    assert(!lt(y, q[i]));
                    assert(!lt(x, q[i]));
                    assert(q[i] != x);
                }
            }
        }
    }
}

/// Sorting adds nothing.
pub proof fn lemma_sort_bound(s: Seq<usize>, lt: spec_fn(usize, usize) -> bool, n: nat)
    requires
        forall|k: int| 0 <= k < s.len() ==> (#[trigger] s[k]) < n,
    ensures
        forall|k: int|
            0 <= k < stable_sort(s, lt).len() ==> (#[trigger] stable_sort(s, lt)[k]) < n,
{
    let t = stable_sort(s, lt);
    law_sort_orders(s, lt);
    assert forall|k: int| 0 <= k < t.len() implies (#[trigger] t[k]) < n by {
        s.to_multiset_ensures();
        t.to_multiset_ensures();
        assert(t.contains(t[k]));
        assert(s.to_multiset().contains(t[k]));
        assert(s.contains(t[k]));
        assert(s[s.index_of(t[k])] < n);
    }
}

/// Sorting and dropping repeats adds nothing.
pub proof fn lemma_sort_distinct_bound(s: Seq<usize>, n: nat)
    requires
        forall|k: int| 0 <= k < s.len() ==> (#[trigger] s[k]) < n,
    ensures
        forall|k: int|
            0 <= k < no_repeats(stable_sort(s, numeric())).len() ==> (#[trigger] no_repeats(
                stable_sort(s, numeric()),
            )[k]) < n,
{
    let t = no_repeats(stable_sort(s, numeric()));
    law_sort_distinct(s, numeric());
    assert forall|k: int| 0 <= k < t.len() implies (#[trigger] t[k]) < n by {
        assert(t.contains(t[k]));
        assert(s.contains(t[k]));
        assert(s[s.index_of(t[k])] < n);
    }
}

/// The order of strings.
pub open spec fn text_order() -> spec_fn(Seq<char>, Seq<char>) -> bool {
    |a: Seq<char>, b: Seq<char>| text::text_lt(a, b)
}

/// The order of strings is a strict weak order.
pub proof fn lemma_text_order()
    ensures
        is_order(text_order()),
{
    let lt = text_order();
    assert forall|a: Seq<char>, b: Seq<char>| #[trigger] lt(a, b) implies !lt(b, a) by {
        text::lemma_text_order(a, b, a);
    }
    assert forall|a: Seq<char>, b: Seq<char>, c: Seq<char>|
        !(#[trigger] lt(a, b)) && !(#[trigger] lt(b, c)) implies !lt(a, c) by {
        text::lemma_text_order(a, b, c);
        text::lemma_text_order(b, c, a);
        text::lemma_text_order(c, b, a);
        text::lemma_text_order(a, c, b);
        text::lemma_text_order(b, a, c);
    }
}

/// The numbers below `n`, in ascending order.
pub open spec fn upto(n: usize) -> Seq<usize> {
    Seq::new(n as nat, |i: int| i as usize)
}

/// The numbers below `n`, in ascending order.
pub(crate) fn count_to(n: usize) -> (r: Vec<usize>)
    ensures
        r@ == upto(n),
{
    let mut out: Vec<usize> = Vec::new();
    let mut i: usize = 0;
    while i < n
        invariant
            i <= n,
            out@ =~= upto(i),
        decreases n - i,
    {
        out.push(i);
        i += 1;
    }
    out
}

/// Sorts a list of strings.
pub fn sort_strings(v: &Vec<String>) -> (r: Vec<String>)
    ensures
        text::views(r@) == stable_sort(text::views(v@), text_order()),
{
    let ghost all = text::views(v@);
    let ghost f = |i: usize| all[i as int];
    let ghost lt = |a: usize, b: usize| text_order()(f(a), f(b));
    proof {
        lemma_text_order();
    }
    let less = |a: usize, b: usize| -> (r: bool)
        requires
            a < v@.len(),
            b < v@.len(),
        ensures
            r == text::text_lt(text::views(v@)[a as int], text::views(v@)[b as int]),
        { str_lt(v[a].as_str(), v[b].as_str()) };
    let at: Vec<usize> = count_to(v.len());
    let sorted: Vec<usize> = sort_positions(&at, less, Ghost(lt));
    proof {
        lemma_sort_bound(at@, lt, v@.len());
        lemma_sort_map(at@, f, text_order());
        assert(at@.map_values(f) =~= all);
    }
    let mut out: Vec<String> = Vec::new();
    let mut i: usize = 0;
    while i < sorted.len()
        invariant
            i <= sorted@.len(),
            all == text::views(v@),
            f == (|i: usize| all[i as int]),
            forall|k: int| 0 <= k < sorted@.len() ==> (#[trigger] sorted@[k]) < v@.len(),
            text::views(out@) =~= sorted@.map_values(f).take(i as int),
        decreases sorted@.len() - i,
    {
        assert(sorted@[i as int] < v@.len());
        push_string(&mut out, v[sorted[i]].clone());
        i += 1;
    }
    assert(sorted@.map_values(f).take(i as int) =~= sorted@.map_values(f));
    out
}

} // verus!
