//! Project-wide call graph: every definition indexed, every call site
//! resolved, with forward/reverse adjacency for in-memory traversal.

use vstd::prelude::*;
use crate::files::{FileV, SourceFile};
use crate::order;
use crate::order::sort_positions;
use crate::resolve;
use crate::resolve::{
    AnyResolver, CallV, Def, DefId, DefIdV, DefIndex, DefV, IndexV, ResolvedCall, Resolver,
    resolver_for,
};
use crate::text;
use crate::text::{str_eq, str_lt};

verus! {

broadcast use vstd::string::group_string_axioms;

/// Graph node identity: a known definition (file:line) or an external name.
#[derive(Debug, PartialEq, Eq, Hash)]
pub enum NodeKey {
    Def(DefId),
    External(String),
}

/// View of a [`NodeKey`].
#[verifier::ext_equal]
pub enum KeyV {
    Def(DefIdV),
    External(Seq<char>),
}

impl View for NodeKey {
    type V = KeyV;

    open spec fn view(&self) -> KeyV {
        match *self {
            NodeKey::Def(id) => KeyV::Def(id@),
            NodeKey::External(name) => KeyV::External(name@),
        }
    }
}

impl Clone for NodeKey {
    fn clone(&self) -> (r: Self)
        ensures
            r@ == self@,
    {
        match self {
            NodeKey::Def(id) => NodeKey::Def(id.clone()),
            NodeKey::External(name) => NodeKey::External(name.clone()),
        }
    }
}

impl NodeKey {
    /// Whether two keys stand for the same node.
    pub fn same(&self, other: &NodeKey) -> (r: bool)
        ensures
            r == (self@ == other@),
    {
        match (self, other) {
            (NodeKey::Def(a), NodeKey::Def(b)) => a.line == b.line && str_eq(
                a.file.as_str(),
                b.file.as_str(),
            ),
            (NodeKey::External(a), NodeKey::External(b)) => str_eq(a.as_str(), b.as_str()),
            _ => false,
        }
    }
}

// ── Adjacency ────────────────────────────────────────────────────────────────

/// Lists of edges by node.
#[derive(Debug)]
pub struct EdgeMap {
    entries: Vec<(NodeKey, Vec<usize>)>,
}

spec fn entries_view(entries: Seq<(NodeKey, Vec<usize>)>) -> Seq<(KeyV, Seq<usize>)> {
    entries.map_values(|e: (NodeKey, Vec<usize>)| (e.0@, e.1@))
}

/// The position of the first entry with a key.
spec fn first_at(entries: Seq<(KeyV, Seq<usize>)>, key: KeyV) -> Option<nat>
    decreases entries.len(),
{
    if entries.len() == 0 {
        None
    } else {
        match first_at(entries.drop_last(), key) {
            Some(i) => Some(i),
            None => if entries.last().0 == key {
                Some((entries.len() - 1) as nat)
            } else {
                None
            },
        }
    }
}

proof fn lemma_first_at(entries: Seq<(KeyV, Seq<usize>)>, key: KeyV)
    ensures
        first_at(entries, key) matches Some(i) ==> i < entries.len() && entries[i as int].0 == key,
        first_at(entries, key) is None ==> forall|i: int|
            0 <= i < entries.len() ==> (#[trigger] entries[i]).0 != key,
    decreases entries.len(),
{
    if entries.len() > 0 {
        lemma_first_at(entries.drop_last(), key);
        if first_at(entries, key) is None {
            assert forall|i: int| 0 <= i < entries.len() implies (#[trigger] entries[i]).0
                != key by {
                if i < entries.len() - 1 {
                    assert(entries.drop_last()[i].0 != key);
                }
            }
        }
    }
}

/// A list that differs in the lists of edges alone has its keys at the same places.
proof fn lemma_first_at_keys(a: Seq<(KeyV, Seq<usize>)>, b: Seq<(KeyV, Seq<usize>)>, key: KeyV)
    requires
        a.len() == b.len(),
        forall|i: int| 0 <= i < a.len() ==> (#[trigger] a[i]).0 == b[i].0,
    ensures
        first_at(a, key) == first_at(b, key),
    decreases a.len(),
{
    if a.len() > 0 {
        assert(a[a.len() - 1].0 == b[b.len() - 1].0);
        assert forall|i: int| 0 <= i < a.drop_last().len() implies (#[trigger] a.drop_last()[i]).0
            == b.drop_last()[i].0 by {
            assert(a[i].0 == b[i].0);
        }
        lemma_first_at_keys(a.drop_last(), b.drop_last(), key);
    }
}

spec fn map_of(entries: Seq<(KeyV, Seq<usize>)>) -> Map<KeyV, Seq<usize>> {
    Map::new(
        |k: KeyV| first_at(entries, k) is Some,
        |k: KeyV| entries[first_at(entries, k)->Some_0 as int].1,
    )
}

impl View for EdgeMap {
    type V = Map<KeyV, Seq<usize>>;

    closed spec fn view(&self) -> Map<KeyV, Seq<usize>> {
        map_of(entries_view(self.entries@))
    }
}

impl EdgeMap {
    /// The position of the first entry with a key.
    fn position(&self, key: &NodeKey) -> (r: Option<usize>)
        ensures
            (match r {
                Some(i) => Some(i as nat),
                None => None,
            }) == first_at(entries_view(self.entries@), key@),
            r matches Some(i) ==> i < self.entries@.len(),
    {
        let ghost es = entries_view(self.entries@);
        let mut i: usize = 0;
        while i < self.entries.len()
            invariant
                i <= self.entries@.len(),
                es == entries_view(self.entries@),
                first_at(es.take(i as int), key@) is None,
            decreases self.entries@.len() - i,
        {
            assert(es.take(i + 1).drop_last() =~= es.take(i as int));
            assert(es.take(i + 1).last() == es[i as int]);
            if self.entries[i].0.same(key) {
                proof {
                    lemma_first_prefix(es, i + 1, key@);
                }
                return Some(i);
            }
            i += 1;
        }
        assert(es.take(i as int) =~= es);
        None
    }

    /// The edges at a node.
    pub fn get(&self, key: &NodeKey) -> (r: Option<&Vec<usize>>)
        ensures
            r is Some <==> self@.contains_key(key@),
            r matches Some(v) ==> v@ == self@[key@],
    {
        match self.position(key) {
            Some(i) => Some(&self.entries[i].1),
            None => None,
        }
    }
}

/// What is found in the front of a list is found in all of it.
proof fn lemma_first_prefix(entries: Seq<(KeyV, Seq<usize>)>, n: int, key: KeyV)
    requires
        0 <= n <= entries.len(),
        first_at(entries.take(n), key) is Some,
    ensures
        first_at(entries, key) == first_at(entries.take(n), key),
    decreases entries.len() - n,
{
    if n == entries.len() {
        assert(entries.take(n) =~= entries);
    } else {
        assert(entries.take(n + 1).drop_last() =~= entries.take(n));
        lemma_first_prefix(entries, n + 1, key);
    }
}

/// The positions of a key, in ascending order.
pub open spec fn edges_at(keys: Seq<KeyV>, key: KeyV) -> Seq<usize>
    decreases keys.len(),
{
    if keys.len() == 0 {
        Seq::empty()
    } else {
        let init = edges_at(keys.drop_last(), key);
        if keys.last() == key {
            init.push((keys.len() - 1) as usize)
        } else {
            init
        }
    }
}

proof fn lemma_edges_at(keys: Seq<KeyV>, key: KeyV)
    requires
        keys.len() <= usize::MAX,
    ensures
        forall|k: int|
            0 <= k < edges_at(keys, key).len() ==> (#[trigger] edges_at(keys, key)[k])
                < keys.len() && keys[edges_at(keys, key)[k] as int] == key,
        forall|i: int|
            0 <= i < keys.len() && #[trigger] keys[i] == key ==> edges_at(keys, key).contains(
                i as usize,
            ),
        forall|k: int, m: int|
            0 <= k < m < edges_at(keys, key).len() ==> #[trigger] edges_at(keys, key)[k]
                < #[trigger] edges_at(keys, key)[m],
    decreases keys.len(),
{
    if keys.len() > 0 {
        let init = edges_at(keys.drop_last(), key);
        let e = edges_at(keys, key);
        lemma_edges_at(keys.drop_last(), key);
        assert forall|k: int| 0 <= k < e.len() implies (#[trigger] e[k]) < keys.len()
            && keys[e[k] as int] == key by {
            if k < init.len() {
                assert(init[k] < keys.len() - 1);
            }
        }
        assert forall|i: int| 0 <= i < keys.len() && #[trigger] keys[i] == key implies e.contains(
            i as usize,
        ) by {
            if i < keys.len() - 1 {
                assert(keys.drop_last()[i] == key);
                let k = init.index_of(i as usize);
                assert(e[k] == i as usize);
            } else {
                assert(e[e.len() - 1] == i as usize);
            }
        }
    }
}

/// The order of calls by line, and then by what is called.
pub open spec fn site_lt(a: CallV, b: CallV) -> bool {
    a.line < b.line || (a.line == b.line && text::text_lt(a.callee_display, b.callee_display))
}

/// The order of positions by the site of the call.
pub open spec fn by_site(calls: Seq<CallV>) -> spec_fn(usize, usize) -> bool {
    |a: usize, b: usize| site_lt(calls[a as int], calls[b as int])
}

proof fn lemma_site_order(calls: Seq<CallV>)
    ensures
        order::is_order(by_site(calls)),
{
    let lt = by_site(calls);
    assert forall|a: usize, b: usize| #[trigger] lt(a, b) implies !lt(b, a) by {
        let (x, y) = (calls[a as int].callee_display, calls[b as int].callee_display);
        text::lemma_text_order(x, y, x);
    }
    assert forall|a: usize, b: usize, c: usize|
        !(#[trigger] lt(a, b)) && !(#[trigger] lt(b, c)) implies !lt(a, c) by {
        let (x, y, z) = (
            calls[a as int].callee_display,
            calls[b as int].callee_display,
            calls[c as int].callee_display,
        );
        text::lemma_text_order(x, y, z);
        text::lemma_text_order(y, z, x);
        text::lemma_text_order(z, y, x);
        text::lemma_text_order(x, z, y);
        text::lemma_text_order(y, x, z);
    }
}

/// The edges at each node that has any, in the order of their sites.
pub open spec fn adjacency(keys: Seq<KeyV>, calls: Seq<CallV>) -> Map<KeyV, Seq<usize>> {
    Map::new(
        |k: KeyV| edges_at(keys, k).len() > 0,
        |k: KeyV| order::stable_sort(edges_at(keys, k), by_site(calls)),
    )
}

/// The edges at each node, in ascending order.
fn group_edges(keys: &Vec<NodeKey>) -> (r: EdgeMap)
    ensures
        r@ == Map::new(
            |k: KeyV| edges_at(text::views(keys@), k).len() > 0,
            |k: KeyV| edges_at(text::views(keys@), k),
        ),
{
    let ghost all = text::views(keys@);
    let mut map = EdgeMap { entries: Vec::new() };
    let mut i: usize = 0;
    while i < keys.len()
        invariant
            i <= keys@.len(),
            all == text::views(keys@),
            forall|k: KeyV|
                #![trigger edges_at(all.take(i as int), k)]
                match first_at(entries_view(map.entries@), k) {
                    Some(j) => edges_at(all.take(i as int), k).len() > 0 && entries_view(
                        map.entries@,
                    )[j as int].1 == edges_at(all.take(i as int), k),
                    None => edges_at(all.take(i as int), k).len() == 0,
                },
        decreases keys@.len() - i,
    {
        let key: &NodeKey = &keys[i];
        let ghost before = entries_view(map.entries@);
        let ghost now = all.take(i + 1);
        assert(now.drop_last() =~= all.take(i as int));
        assert(now.last() == key@);
        proof {
            lemma_first_at(before, key@);
        }
        match map.position(key) {
            Some(j) => {
                map.entries[j].1.push(i);
                let ghost after = entries_view(map.entries@);
                proof {
                    assert(after.len() == before.len());
                    assert forall|m: int| 0 <= m < after.len() implies (#[trigger] after[m]).0
                        == before[m].0 by {}
                    assert forall|k: KeyV|
                        #![trigger edges_at(now, k)]
                        match first_at(after, k) {
                            Some(j) => edges_at(now, k).len() > 0 && after[j as int].1 == edges_at(
                                now,
                                k,
                            ),
                            None => edges_at(now, k).len() == 0,
                        } by {
                        lemma_first_at_keys(after, before, k);
                        lemma_first_at(before, k);
                        let old_edges = edges_at(all.take(i as int), k);
                        if k == key@ {
                            assert(after[j as int].1 =~= before[j as int].1.push(i));
                        } else if let Some(m) = first_at(before, k) {
                            assert(m != j);
                            assert(after[m as int].1 =~= before[m as int].1);
                        }
                    }
                }
            },
            None => {
                let mut list: Vec<usize> = Vec::new();
                list.push(i);
                map.entries.push((key.clone(), list));
                let ghost after = entries_view(map.entries@);
                proof {
                    assert(after =~= before.push((key@, seq![i])));
                    assert(after.drop_last() =~= before);
                    assert forall|k: KeyV|
                        #![trigger edges_at(now, k)]
                        match first_at(after, k) {
                            Some(j) => edges_at(now, k).len() > 0 && after[j as int].1 == edges_at(
                                now,
                                k,
                            ),
                            None => edges_at(now, k).len() == 0,
                        } by {
                        lemma_first_at(before, k);
                        let old_edges = edges_at(all.take(i as int), k);
                        if k == key@ {
                            assert(edges_at(now, k) =~= seq![i]);
                        }
                    }
                }
            },
        }
        i += 1;
    }
    proof {
        assert(all.take(i as int) =~= all);
        let es = entries_view(map.entries@);
        let want = Map::new(
            |k: KeyV| edges_at(all, k).len() > 0,
            |k: KeyV| edges_at(all, k),
        );
        assert forall|k: KeyV| map@.contains_key(k) <==> want.contains_key(k) by {
            let e = edges_at(all.take(i as int), k);
        }
        assert forall|k: KeyV| #[trigger] map@.contains_key(k) implies map@[k] == want[k] by {
            let e = edges_at(all.take(i as int), k);
        }
        assert(map@ =~= want);
    }
    map
}

/// Sorts a list of positions of calls by their sites.
fn sort_by_site(v: &Vec<usize>, calls: &Vec<ResolvedCall>) -> (r: Vec<usize>)
    requires
        forall|k: int| 0 <= k < v@.len() ==> (#[trigger] v@[k]) < calls@.len(),
    ensures
        r@ == order::stable_sort(v@, by_site(text::views(calls@))),
{
    let less = |a: usize, b: usize| -> (r: bool)
        requires
            a < calls@.len(),
            b < calls@.len(),
        ensures
            r == site_lt(text::views(calls@)[a as int], text::views(calls@)[b as int]),
        {
            calls[a].line < calls[b].line || (calls[a].line == calls[b].line && str_lt(
                calls[a].callee_display.as_str(),
                calls[b].callee_display.as_str(),
            ))
        };
    proof {
        lemma_site_order(text::views(calls@));
    }
    sort_positions(v, less, Ghost(by_site(text::views(calls@))))
}

/// The edges at each node, in the order of their sites.
fn sorted_edges(keys: &Vec<NodeKey>, calls: &Vec<ResolvedCall>) -> (r: EdgeMap)
    requires
        keys@.len() == calls@.len(),
    ensures
        r@ == adjacency(text::views(keys@), text::views(calls@)),
{
    let ghost kv = text::views(keys@);
    let ghost cv = text::views(calls@);
    let plain: EdgeMap = group_edges(keys);
    let ghost es = entries_view(plain.entries@);
    let mut map = EdgeMap { entries: Vec::new() };
    let mut i: usize = 0;
    while i < plain.entries.len()
        invariant
            i <= plain.entries@.len(),
            kv == text::views(keys@),
            cv == text::views(calls@),
            es == entries_view(plain.entries@),
            keys@.len() == calls@.len(),
            plain@ == Map::new(|k: KeyV| edges_at(kv, k).len() > 0, |k: KeyV| edges_at(kv, k)),
            map.entries@.len() == i,
            forall|m: int|
                0 <= m < i ==> (#[trigger] entries_view(map.entries@)[m]).0 == es[m].0,
            forall|m: int|
                0 <= m < i && first_at(es, es[m].0) == Some(m as nat) ==> (
                #[trigger] entries_view(map.entries@)[m]).1 == order::stable_sort(
                    es[m].1,
                    by_site(cv),
                ),
        decreases plain.entries@.len() - i,
    {
        let ghost before = entries_view(map.entries@);
        let list: &Vec<usize> = &plain.entries[i].1;
        let key: &NodeKey = &plain.entries[i].0;
        // only the first entry of a key counts
        let sorted: Vec<usize> = match plain.position(key) {
            Some(j) => if i == j {
                proof {
                    assert(keys.len() == keys@.len());
                    lemma_edges_at(kv, key@);
                    assert(plain@.contains_key(key@));
                    assert(list@ == plain@[key@]);
                }
                sort_by_site(list, calls)
            } else {
                Vec::new()
            },
            None => Vec::new(),
        };
        map.entries.push((key.clone(), sorted));
        assert(entries_view(map.entries@) =~= before.push((key@, sorted@)));
        i += 1;
    }
    proof {
        let after = entries_view(map.entries@);
        let want = adjacency(kv, cv);
        assert forall|k: KeyV| map@.contains_key(k) <==> want.contains_key(k) by {
            lemma_first_at_keys(after, es, k);
            assert(plain@.contains_key(k) <==> edges_at(kv, k).len() > 0);
        }
        assert forall|k: KeyV| #[trigger] map@.contains_key(k) implies map@[k] == want[k] by {
            lemma_first_at_keys(after, es, k);
            lemma_first_at(es, k);
            let m = first_at(es, k)->Some_0;
            assert(after[m as int].0 == es[m as int].0);
            assert(plain@.contains_key(k));
            assert(plain@[k] == es[m as int].1);
        }
        assert(map@ =~= want);
    }
    map
}

// ── Edges ────────────────────────────────────────────────────────────────────

/// The definition that a call leads to.
pub open spec fn target_of(c: CallV) -> Option<usize> {
    match c.target {
        Some((t, _)) => Some(t),
        None => None,
    }
}

/// Whether two calls are the same edge.
pub open spec fn same_edge(a: CallV, b: CallV) -> bool {
    a.caller == b.caller && a.callee_display == b.callee_display && target_of(a) == target_of(b)
}

/// Whether there is an edge for a call.
pub open spec fn has_edge(edges: Seq<CallV>, c: CallV) -> bool {
    exists|k: int| 0 <= k < edges.len() && same_edge(#[trigger] edges[k], c)
}

/// One edge per caller and callee; the first call site wins.
pub open spec fn first_sites(calls: Seq<CallV>) -> Seq<CallV>
    decreases calls.len(),
{
    if calls.len() == 0 {
        Seq::empty()
    } else {
        let init = first_sites(calls.drop_last());
        if has_edge(init, calls.last()) {
            init
        } else {
            init.push(calls.last())
        }
    }
}

/// There is one edge per caller and callee: each call has an edge, no two edges are the
/// same, and each edge is the first call of its kind.
pub proof fn law_one_edge_per_pair(calls: Seq<CallV>)
    ensures
        forall|i: int| 0 <= i < calls.len() ==> has_edge(first_sites(calls), #[trigger] calls[i]),
        forall|i: int, j: int|
            0 <= i < j < first_sites(calls).len() ==> !same_edge(
                #[trigger] first_sites(calls)[i],
                #[trigger] first_sites(calls)[j],
            ),
        forall|k: int|
            0 <= k < first_sites(calls).len() ==> is_first_site(
                calls,
                #[trigger] first_sites(calls)[k],
            ),
    decreases calls.len(),
{
    if calls.len() > 0 {
        let init = calls.drop_last();
        let x = calls.last();
        law_one_edge_per_pair(init);
        let e = first_sites(init);
        let r = first_sites(calls);
        assert forall|i: int| 0 <= i < calls.len() implies has_edge(r, #[trigger] calls[i]) by {
            if i < init.len() {
                assert(has_edge(e, init[i]));
                let k = choose|k: int| 0 <= k < e.len() && same_edge(#[trigger] e[k], init[i]);
                assert(same_edge(r[k], calls[i]));
            } else if has_edge(e, x) {
                let k = choose|k: int| 0 <= k < e.len() && same_edge(#[trigger] e[k], x);
                assert(same_edge(r[k], calls[i]));
            } else {
                assert(same_edge(r[e.len() as int], calls[i]));
            }
        }
        assert forall|i: int, j: int| 0 <= i < j < r.len() implies !same_edge(
            #[trigger] r[i],
            #[trigger] r[j],
        ) by {
            if j < e.len() {
                assert(!same_edge(e[i], e[j]));
            } else {
                assert(r[i] == e[i]);
            }
        }
        assert forall|k: int| 0 <= k < r.len() implies is_first_site(calls, #[trigger] r[k]) by {
            if k < e.len() {
                assert(is_first_site(init, e[k]));
                let i = choose|i: int|
                    0 <= i < init.len() && #[trigger] init[i] == e[k] && forall|j: int|
                        0 <= j < i ==> !same_edge(#[trigger] init[j], e[k]);
                assert(calls[i] == r[k]);
                assert forall|j: int| 0 <= j < i implies !same_edge(#[trigger] calls[j], r[k]) by {
                    assert(init[j] == calls[j]);
                }
            } else {
                let i = calls.len() - 1;
                assert(calls[i] == r[k]);
                assert forall|j: int| 0 <= j < i implies !same_edge(#[trigger] calls[j], r[k]) by {
                    assert(has_edge(e, init[j]));
                    if same_edge(calls[j], x) {
                        let m = choose|m: int|
                            0 <= m < e.len() && same_edge(#[trigger] e[m], init[j]);
                        assert(same_edge(e[m], x));
                    }
                }
            }
        }
    }
}

/// Whether a call is the first one of its caller, callee and target.
pub open spec fn is_first_site(calls: Seq<CallV>, c: CallV) -> bool {
    exists|i: int|
        0 <= i < calls.len() && #[trigger] calls[i] == c && forall|j: int|
            0 <= j < i ==> !same_edge(#[trigger] calls[j], c)
}

fn is_same_edge(a: &ResolvedCall, b: &ResolvedCall) -> (r: bool)
    ensures
        r == same_edge(a@, b@),
{
    let same_target: bool = match (&a.target, &b.target) {
        (Some((t, _)), Some((u, _))) => *t == *u,
        (None, None) => true,
        _ => false,
    };
    same_target && a.caller == b.caller && str_eq(
        a.callee_display.as_str(),
        b.callee_display.as_str(),
    )
}

/// The positions of the edges of each caller.
spec fn lists_callers(by_caller: Seq<Vec<usize>>, edges: Seq<CallV>) -> bool {
    &&& forall|c: int, m: int|
        0 <= c < by_caller.len() && 0 <= m < by_caller[c]@.len() ==> (
        #[trigger] by_caller[c]@[m]) < edges.len()
    &&& forall|k: int|
        0 <= k < edges.len() ==> (#[trigger] edges[k]).caller < by_caller.len()
            && by_caller[edges[k].caller as int]@.contains(k as usize)
}

fn find_edge(edges: &Vec<ResolvedCall>, list: &Vec<usize>, call: &ResolvedCall) -> (r: bool)
    requires
        forall|m: int| 0 <= m < list@.len() ==> (#[trigger] list@[m]) < edges@.len(),
        forall|k: int|
            0 <= k < edges@.len() && (#[trigger] text::views(edges@)[k]).caller == call@.caller
                ==> list@.contains(k as usize),
    ensures
        r == has_edge(text::views(edges@), call@),
{
    let ghost all = text::views(edges@);
    let mut m: usize = 0;
    while m < list.len()
        invariant
            m <= list@.len(),
            all == text::views(edges@),
            forall|m: int| 0 <= m < list@.len() ==> (#[trigger] list@[m]) < edges@.len(),
            forall|j: int| 0 <= j < m ==> !same_edge(all[(#[trigger] list@[j]) as int], call@),
        decreases list@.len() - m,
    {
        let k: usize = list[m];
        assert(all[k as int] == edges@[k as int]@);
        if is_same_edge(&edges[k], call) {
            return true;
        }
        m += 1;
    }
    proof {
        assert(edges.len() == edges@.len());
        assert forall|k: int| 0 <= k < all.len() implies !same_edge(#[trigger] all[k], call@) by {
            if all[k].caller == call@.caller {
                let j = list@.index_of(k as usize);
                assert(list@[j] == k);
                assert(!same_edge(all[list@[j] as int], call@));
            }
        }
    }
    false
}

/// Appends a call, unless there is an edge for it.
fn push_edge(edges: &mut Vec<ResolvedCall>, by_caller: &mut Vec<Vec<usize>>, call: ResolvedCall)
    requires
        lists_callers(old(by_caller)@, text::views(old(edges)@)),
        call.caller < old(by_caller)@.len(),
    ensures
        lists_callers(final(by_caller)@, text::views(final(edges)@)),
        final(by_caller)@.len() == old(by_caller)@.len(),
        text::views(final(edges)@) == if has_edge(text::views(old(edges)@), call@) {
            text::views(old(edges)@)
        } else {
            text::views(old(edges)@).push(call@)
        },
{
    let ghost all = text::views(edges@);
    let caller: usize = call.caller;
    assert forall|k: int|
        0 <= k < edges@.len() && (#[trigger] all[k]).caller == call@.caller implies by_caller@[
        caller as int]@.contains(k as usize) by {}
    if find_edge(edges, &by_caller[caller], &call) {
        return;
    }
    let ghost lists = by_caller@;
    let n: usize = edges.len();
    let ghost view = call@;
    by_caller[caller].push(n);
    edges.push(call);
    proof {
        let now = text::views(edges@);
        assert(now =~= all.push(view));
        assert(by_caller@[caller as int]@ =~= lists[caller as int]@.push(n));
        assert forall|c: int, m: int|
            0 <= c < by_caller@.len() && 0 <= m < by_caller@[c]@.len() implies (
        #[trigger] by_caller@[c]@[m]) < now.len() by {
            if c == caller && m == lists[c]@.len() {
            } else {
                assert(lists[c]@[m] < all.len());
            }
        }
        assert forall|k: int| 0 <= k < now.len() implies (#[trigger] now[k]).caller
            < by_caller@.len() && by_caller@[now[k].caller as int]@.contains(k as usize) by {
            if k < all.len() {
                assert(all[k] == now[k]);
                let c = all[k].caller as int;
                let m = lists[c]@.index_of(k as usize);
                assert(lists[c]@[m] == k as usize);
                assert(by_caller@[c]@[m] == k as usize);
            } else {
                assert(by_caller@[caller as int]@[lists[caller as int]@.len() as int] == n);
            }
        }
    }
}

// ── The graph ────────────────────────────────────────────────────────────────

pub struct CallGraph {
    pub index: DefIndex,
    pub calls: Vec<ResolvedCall>,
    /// caller NodeKey -> indices into `calls`
    pub fwd: EdgeMap,
    /// callee NodeKey -> indices into `calls`
    pub rev: EdgeMap,
}

/// View of a [`CallGraph`].
#[verifier::ext_equal]
pub struct GraphV {
    pub index: IndexV,
    pub calls: Seq<CallV>,
    pub fwd: Map<KeyV, Seq<usize>>,
    pub rev: Map<KeyV, Seq<usize>>,
}

impl View for CallGraph {
    type V = GraphV;

    open spec fn view(&self) -> GraphV {
        GraphV {
            index: self.index@,
            calls: text::views(self.calls@),
            fwd: self.fwd@,
            rev: self.rev@,
        }
    }
}

/// Whether all edges of a map are among `n`.
pub open spec fn edges_known(m: Map<KeyV, Seq<usize>>, n: nat) -> bool {
    forall|k: KeyV, i: int|
        m.contains_key(k) && 0 <= i < m[k].len() ==> (#[trigger] m[k][i]) < n
}

impl CallGraph {
    /// The edges are calls of the graph, and the calls are of definitions in the index.
    pub open spec fn wf(self) -> bool {
        &&& self.index.wf()
        &&& resolve::calls_known(self@.calls, self@.index.defs.len())
        &&& edges_known(self@.fwd, self@.calls.len())
        &&& edges_known(self@.rev, self@.calls.len())
    }
}

/// The index of the definitions of a project.
pub open spec fn indexed(files: Seq<FileV>) -> IndexV
    decreases files.len(),
{
    if files.len() == 0 {
        IndexV { defs: Seq::empty(), impls: Seq::empty() }
    } else {
        let init = indexed(files.drop_last());
        let f = files.last();
        match f.source {
            Some(source) => IndexV {
                defs: init.defs + resolve::defs_in(f.lang_name, f.file, source),
                impls: init.impls + resolve::impls_in(f.lang_name, f.file, source),
            },
            None => init,
        }
    }
}

/// The resolved calls of the files of a project.
pub open spec fn all_calls(files: Seq<FileV>, index: IndexV) -> Seq<CallV>
    decreases files.len(),
{
    if files.len() == 0 {
        Seq::empty()
    } else {
        let init = all_calls(files.drop_last(), index);
        let f = files.last();
        match f.source {
            Some(source) => init + resolve::calls_in(f.lang_name, f.file, source, index),
            None => init,
        }
    }
}

/// The node of the caller of a call.
pub open spec fn caller_key(defs: Seq<DefV>, c: CallV) -> KeyV {
    KeyV::Def(defs[c.caller as int].id)
}

/// The node of what a call leads to.
pub open spec fn callee_key(defs: Seq<DefV>, c: CallV) -> KeyV {
    match c.target {
        Some((t, _)) => KeyV::Def(defs[t as int].id),
        None => KeyV::External(c.callee_display),
    }
}

/// The nodes that a list of calls leads from.
pub open spec fn caller_keys(defs: Seq<DefV>, calls: Seq<CallV>) -> Seq<KeyV> {
    calls.map_values(|c: CallV| caller_key(defs, c))
}

/// The nodes that a list of calls leads to.
pub open spec fn callee_keys(defs: Seq<DefV>, calls: Seq<CallV>) -> Seq<KeyV> {
    calls.map_values(|c: CallV| callee_key(defs, c))
}

/// The graph of an index and calls.
pub open spec fn graph_with(index: IndexV, calls: Seq<CallV>) -> GraphV {
    GraphV {
        index,
        calls,
        fwd: adjacency(caller_keys(index.defs, calls), calls),
        rev: adjacency(callee_keys(index.defs, calls), calls),
    }
}

/// A node has the edges that lead from it, in the forward direction, and those that lead
/// to it, in the other: all of them, each once, in the order of their sites, and no others.
pub proof fn law_edges_of_a_node(index: IndexV, calls: Seq<CallV>, key: KeyV)
    requires
        calls.len() <= usize::MAX,
    ensures
        lists_edges(
            graph_with(index, calls).fwd,
            key,
            calls,
            |c: CallV| caller_key(index.defs, c) == key,
        ),
        lists_edges(
            graph_with(index, calls).rev,
            key,
            calls,
            |c: CallV| callee_key(index.defs, c) == key,
        ),
{
    lemma_lists_edges(
        caller_keys(index.defs, calls),
        calls,
        key,
        |c: CallV| caller_key(index.defs, c) == key,
    );
    lemma_lists_edges(
        callee_keys(index.defs, calls),
        calls,
        key,
        |c: CallV| callee_key(index.defs, c) == key,
    );
}

/// Whether a map has at a node the positions of the calls of which `p` holds: all of them,
/// each once, in the order of their sites, and no others.
pub open spec fn lists_edges(
    m: Map<KeyV, Seq<usize>>,
    key: KeyV,
    calls: Seq<CallV>,
    p: spec_fn(CallV) -> bool,
) -> bool {
    &&& m.contains_key(key) <==> exists|i: int| 0 <= i < calls.len() && p(#[trigger] calls[i])
    &&& m.contains_key(key) ==> {
        &&& forall|i: usize| #[trigger]
            m[key].contains(i) <==> i < calls.len() && p(calls[i as int])
        &&& m[key].no_duplicates()
        &&& order::is_sorted(m[key], by_site(calls))
    }
}

proof fn lemma_lists_edges(
    keys: Seq<KeyV>,
    calls: Seq<CallV>,
    key: KeyV,
    p: spec_fn(CallV) -> bool,
)
    requires
        calls.len() <= usize::MAX,
        keys.len() == calls.len(),
        forall|i: int| 0 <= i < calls.len() ==> (#[trigger] keys[i] == key) == p(calls[i]),
    ensures
        lists_edges(adjacency(keys, calls), key, calls, p),
{
    let m = adjacency(keys, calls);
    let e = edges_at(keys, key);
    let s = order::stable_sort(e, by_site(calls));
    lemma_edges_at(keys, key);
    lemma_site_order(calls);
    order::law_sort_orders(e, by_site(calls));
    if e.len() > 0 {
        assert(keys[e[0] as int] == key);
        assert(p(calls[e[0] as int]));
    }
    if exists|i: int| 0 <= i < calls.len() && p(#[trigger] calls[i]) {
        let i = choose|i: int| 0 <= i < calls.len() && p(#[trigger] calls[i]);
        assert(keys[i] == key);
        assert(e.contains(i as usize));
    }
    e.to_multiset_ensures();
    s.to_multiset_ensures();
    assert forall|i: usize| #[trigger] s.contains(i) <==> i < calls.len() && p(
        calls[i as int],
    ) by {
        assert(s.to_multiset().contains(i) <==> e.to_multiset().contains(i));
        if e.contains(i) {
            let k = e.index_of(i);
            assert(keys[e[k] as int] == key);
        }
        if i < calls.len() && p(calls[i as int]) {
            assert(keys[i as int] == key);
        }
    }
    assert(e.no_duplicates());
    e.lemma_multiset_has_no_duplicates();
    s.lemma_multiset_has_no_duplicates_conv();
}

/// The call graph of a project.
pub open spec fn graph_of(files: Seq<FileV>) -> GraphV {
    let index = indexed(files);
    graph_with(index, first_sites(all_calls(files, index)))
}

/// Appends definitions to an index.
fn push_defs(index: &mut DefIndex, defs: &Vec<Def>)
    requires
        old(index).wf(),
    ensures
        final(index).wf(),
        final(index)@ == (IndexV {
            defs: old(index)@.defs + text::views(defs@),
            ..old(index)@
        }),
{
    let ghost before = index@;
    let ghost all = text::views(defs@);
    assert(index@.defs =~= before.defs + all.take(0));
    let mut i: usize = 0;
    while i < defs.len()
        invariant
            i <= defs@.len(),
            index.wf(),
            all == text::views(defs@),
            index@.impls == before.impls,
            index@.defs == before.defs + all.take(i as int),
        decreases defs@.len() - i,
    {
        index.push(defs[i].clone());
        assert(all[i as int] == defs@[i as int]@);
        i += 1;
        assert(index@.defs =~= before.defs + all.take(i as int));
    }
    assert(all.take(i as int) =~= all);
}

/// Indexes every definition of the files.
pub fn build_index(files: &Vec<SourceFile>) -> (r: DefIndex)
    ensures
        r.wf(),
        r@ == indexed(text::views(files@)),
{
    let ghost all = text::views(files@);
    let mut index = DefIndex::default();
    let mut i: usize = 0;
    assert(all.take(0) =~= Seq::empty());
    while i < files.len()
        invariant
            i <= files@.len(),
            all == text::views(files@),
            index.wf(),
            index@ == indexed(all.take(i as int)),
        decreases files@.len() - i,
    {
        let f: &SourceFile = &files[i];
        assert(all.take(i + 1).drop_last() =~= all.take(i as int));
        assert(all.take(i + 1).last() == f@);
        if let Some(source) = &f.source {
            let resolver: AnyResolver = resolver_for(f.lang_name);
            let defs: Vec<Def> = resolver.collect_defs(f.file.as_str(), source.as_slice());
            push_defs(&mut index, &defs);
            let mut impls: Vec<(String, String)> = resolver.collect_impls(
                f.file.as_str(),
                source.as_slice(),
            );
            let ghost before = index;
            let ghost added = resolve::pairs_view(impls@);
            index.impls.append(&mut impls);
            assert(index@.impls =~= before@.impls + added);
            assert(index.wf()) by {
                assert forall|name: Seq<char>|
                    {
                        &&& #[trigger] index.by_name@.contains_key(name)
                            ==> index.by_name@[name]@ == resolve::positions(index@.defs, name)
                        &&& !index.by_name@.contains_key(name) ==> resolve::positions(
                            index@.defs,
                            name,
                        ).len() == 0
                    } by {
                    assert(before.by_name@.contains_key(name) || !before.by_name@.contains_key(
                        name,
                    ));
                }
            }
        }
        i += 1;
    }
    assert(all.take(i as int) =~= all);
    index
}

/// Appends the edges of the calls of a file.
fn push_edges(
    calls: &Vec<ResolvedCall>,
    edges: &mut Vec<ResolvedCall>,
    by_caller: &mut Vec<Vec<usize>>,
    Ghost(earlier): Ghost<Seq<CallV>>,
)
    requires
        lists_callers(old(by_caller)@, text::views(old(edges)@)),
        resolve::calls_known(text::views(calls@), old(by_caller)@.len()),
        text::views(old(edges)@) == first_sites(earlier),
    ensures
        lists_callers(final(by_caller)@, text::views(final(edges)@)),
        final(by_caller)@.len() == old(by_caller)@.len(),
        text::views(final(edges)@) == first_sites(earlier + text::views(calls@)),
{
    let ghost all = text::views(calls@);
    let ghost n = by_caller@.len();
    let mut i: usize = 0;
    assert(earlier + all.take(0) =~= earlier);
    while i < calls.len()
        invariant
            i <= calls@.len(),
            all == text::views(calls@),
            by_caller@.len() == n,
            resolve::calls_known(all, n),
            lists_callers(by_caller@, text::views(edges@)),
            text::views(edges@) == first_sites(earlier + all.take(i as int)),
        decreases calls@.len() - i,
    {
        let ghost now = earlier + all.take(i + 1);
        assert(now.drop_last() =~= earlier + all.take(i as int));
        assert(now.last() == calls@[i as int]@);
        assert(all[i as int].caller < n);
        push_edge(edges, by_caller, calls[i].clone());
        i += 1;
    }
    assert(all.take(i as int) =~= all);
}

fn empty_lists(n: usize) -> (r: Vec<Vec<usize>>)
    ensures
        r@.len() == n,
        forall|c: int| 0 <= c < n ==> (#[trigger] r@[c])@.len() == 0,
{
    let mut out: Vec<Vec<usize>> = Vec::new();
    let mut i: usize = 0;
    while i < n
        invariant
            i <= n,
            out@.len() == i,
            forall|c: int| 0 <= c < i ==> (#[trigger] out@[c])@.len() == 0,
        decreases n - i,
    {
        out.push(Vec::new());
        i += 1;
    }
    out
}

proof fn lemma_first_sites_known(calls: Seq<CallV>, n: nat)
    requires
        resolve::calls_known(calls, n),
    ensures
        resolve::calls_known(first_sites(calls), n),
    decreases calls.len(),
{
    if calls.len() > 0 {
        let init = calls.drop_last();
        assert forall|i: int| 0 <= i < init.len() implies (#[trigger] init[i]).caller < n && (
        init[i].target matches Some(t) ==> t.0 < n) by {
            assert(calls[i].caller < n);
        }
        lemma_first_sites_known(init, n);
        assert(calls[calls.len() - 1].caller < n);
    }
}

/// The edges of the project, resolved against the full index.
fn build_edges(files: &Vec<SourceFile>, index: &DefIndex) -> (r: Vec<ResolvedCall>)
    requires
        index.wf(),
    ensures
        text::views(r@) == first_sites(all_calls(text::views(files@), index@)),
        resolve::calls_known(text::views(r@), index@.defs.len()),
{
    let ghost all = text::views(files@);
    let ghost n = index@.defs.len();
    let mut edges: Vec<ResolvedCall> = Vec::new();
    let mut by_caller: Vec<Vec<usize>> = empty_lists(index.defs.len());
    let mut i: usize = 0;
    assert(all.take(0) =~= Seq::empty());
    assert(text::views(edges@) =~= Seq::empty());
    while i < files.len()
        invariant
            i <= files@.len(),
            index.wf(),
            all == text::views(files@),
            n == index@.defs.len(),
            by_caller@.len() == n,
            lists_callers(by_caller@, text::views(edges@)),
            resolve::calls_known(all_calls(all.take(i as int), index@), n),
            text::views(edges@) == first_sites(all_calls(all.take(i as int), index@)),
        decreases files@.len() - i,
    {
        let f: &SourceFile = &files[i];
        assert(all.take(i + 1).drop_last() =~= all.take(i as int));
        assert(all.take(i + 1).last() == f@);
        if let Some(source) = &f.source {
            let ghost earlier = all_calls(all.take(i as int), index@);
            let resolver: AnyResolver = resolver_for(f.lang_name);
            let calls: Vec<ResolvedCall> = resolver.resolve_calls(
                f.file.as_str(),
                source.as_slice(),
                index,
            );
            let ghost cv = text::views(calls@);
            push_edges(&calls, &mut edges, &mut by_caller, Ghost(earlier));
            assert forall|k: int| 0 <= k < (earlier + cv).len() implies (#[trigger] (earlier
                + cv)[k]).caller < n && ((earlier + cv)[k].target matches Some(t) ==> t.0
                < n) by {
                if k < earlier.len() {
                    assert(earlier[k].caller < n);
                } else {
                    assert(cv[k - earlier.len()].caller < n);
                }
            }
        }
        i += 1;
    }
    assert(all.take(i as int) =~= all);
    proof {
        lemma_first_sites_known(all_calls(all, index@), n);
    }
    edges
}

fn key_of(def: &Def) -> (r: NodeKey)
    ensures
        r@ == KeyV::Def(def@.id),
{
    NodeKey::Def(def.id.clone())
}

/// The nodes that a list of calls leads from, or to.
fn keys_of(index: &DefIndex, calls: &Vec<ResolvedCall>, forward: bool) -> (r: Vec<NodeKey>)
    requires
        resolve::calls_known(text::views(calls@), index@.defs.len()),
    ensures
        text::views(r@) == if forward {
            caller_keys(index@.defs, text::views(calls@))
        } else {
            callee_keys(index@.defs, text::views(calls@))
        },
{
    let ghost cv = text::views(calls@);
    let ghost defs = index@.defs;
    let ghost want = if forward {
        caller_keys(defs, cv)
    } else {
        callee_keys(defs, cv)
    };
    let mut out: Vec<NodeKey> = Vec::new();
    let mut i: usize = 0;
    assert(text::views(out@) =~= want.take(0));
    while i < calls.len()
        invariant
            i <= calls@.len(),
            cv == text::views(calls@),
            defs == index@.defs,
            resolve::calls_known(cv, defs.len()),
            want == if forward {
                caller_keys(defs, cv)
            } else {
                callee_keys(defs, cv)
            },
            text::views(out@) == want.take(i as int),
        decreases calls@.len() - i,
    {
        let c: &ResolvedCall = &calls[i];
        let ghost now = text::views(out@);
        assert(cv[i as int] == c@);
        let key: NodeKey = if forward {
            assert(defs[c.caller as int] == index.defs@[c.caller as int]@);
            key_of(&index.defs[c.caller])
        } else {
            match &c.target {
                Some((t, _)) => {
                    assert(defs[*t as int] == index.defs@[*t as int]@);
                    key_of(&index.defs[*t])
                },
                None => NodeKey::External(c.callee_display.clone()),
            }
        };
        let ghost view = key@;
        out.push(key);
        assert(text::views(out@) =~= now.push(view));
        i += 1;
        assert(text::views(out@) =~= want.take(i as int));
    }
    assert(want.take(i as int) =~= want);
    out
}

proof fn lemma_adjacency_known(keys: Seq<KeyV>, calls: Seq<CallV>)
    requires
        keys.len() <= usize::MAX,
    ensures
        edges_known(adjacency(keys, calls), keys.len()),
{
    let m = adjacency(keys, calls);
    assert forall|k: KeyV, i: int| m.contains_key(k) && 0 <= i < m[k].len() implies (
    #[trigger] m[k][i]) < keys.len() by {
        lemma_edges_at(keys, k);
        order::lemma_sort_bound(edges_at(keys, k), by_site(calls), keys.len());
    }
}

/// The graph of an index and calls.
pub fn link(index: DefIndex, calls: Vec<ResolvedCall>) -> (r: CallGraph)
    requires
        index.wf(),
        resolve::calls_known(text::views(calls@), index@.defs.len()),
    ensures
        r.wf(),
        r@ == graph_with(index@, text::views(calls@)),
{
    let callers: Vec<NodeKey> = keys_of(&index, &calls, true);
    let callees: Vec<NodeKey> = keys_of(&index, &calls, false);
    proof {
        assert(text::views(callers@).len() == text::views(calls@).len());
        assert(text::views(callees@).len() == text::views(calls@).len());
        assert(callers.len() == callers@.len());
        lemma_adjacency_known(text::views(callers@), text::views(calls@));
        lemma_adjacency_known(text::views(callees@), text::views(calls@));
    }
    // deterministic traversal: edges in call-site order
    let fwd: EdgeMap = sorted_edges(&callers, &calls);
    let rev: EdgeMap = sorted_edges(&callees, &calls);
    CallGraph { index, calls, fwd, rev }
}

/// The call graph of the files of a project. Those that could not be read are left out.
pub fn build(files: &Vec<SourceFile>) -> (r: CallGraph)
    ensures
        r.wf(),
        r@ == graph_of(text::views(files@)),
{
    // Pass 1: index every definition.
    let index: DefIndex = build_index(files);
    // Pass 2: resolve call sites against the full index.
    let edges: Vec<ResolvedCall> = build_edges(files, &index);
    link(index, edges)
}

} // verus!
