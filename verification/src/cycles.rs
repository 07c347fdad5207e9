//! Connectivity of undirected edge sets: flooding, vertex degrees and cycle tests.

use vstd::prelude::*;
use std::collections::{BTreeMap, BTreeSet};
use crate::graph::{Edge, Triangle, sorted, sorted_spec, opposite_spec, corners_equal, active_vertices, active_vertices_spec};
use vstd::std_specs::btree::spec_btree_keys_iter;
use vstd::std_specs::iter::IteratorSpec;

verus! {

broadcast use vstd::std_specs::btree::group_btree_axioms;

/// `a` and `b` are joined by an edge of `edges`, in either orientation.
pub open spec fn adj(edges: Set<Edge>, a: usize, b: usize) -> bool {
    edges.contains((a, b)) || edges.contains((b, a))
}

/// The endpoints of the edges.
pub open spec fn verts(edges: Set<Edge>) -> Set<usize> {
    Set::new(|v: usize| exists|e: Edge| #[trigger] edges.contains(e) && (e.0 == v || e.1 == v))
}

/// `s` is closed under stepping along edges.
pub open spec fn closed(edges: Set<Edge>, s: Set<usize>) -> bool {
    forall|a: usize, b: usize| s.contains(a) && #[trigger] adj(edges, a, b) ==> s.contains(b)
}

/// The connected component of `v`: the vertices in every edge-closed set containing `v`.
pub open spec fn component(edges: Set<Edge>, v: usize) -> Set<usize> {
    Set::new(|u: usize| forall|s: Set<usize>| closed(edges, s) && s.contains(v) ==> #[trigger] s.contains(u))
}

/// Every two endpoints lie in one component.
pub open spec fn connected(edges: Set<Edge>) -> bool {
    forall|u: usize, v: usize|
        verts(edges).contains(u) && verts(edges).contains(v) ==> #[trigger] component(edges, u).contains(v)
}

/// The degree of `v`: each edge counts once for each endpoint equal to `v`.
pub open spec fn degree(edges: Set<Edge>, v: usize) -> nat {
    edges.filter(first_is(v)).len() + edges.filter(second_is(v)).len()
}

/// The predicate "the first endpoint is `v`".
pub open spec fn first_is(v: usize) -> spec_fn(Edge) -> bool {
    |e: Edge| e.0 == v
}

/// The predicate "the second endpoint is `v`".
pub open spec fn second_is(v: usize) -> spec_fn(Edge) -> bool {
    |e: Edge| e.1 == v
}

pub proof fn lemma_component_closed(edges: Set<Edge>, v: usize)
    ensures
        closed(edges, component(edges, v)),
        component(edges, v).contains(v),
{
    assert forall|a: usize, b: usize| component(edges, v).contains(a) && #[trigger] adj(edges, a, b) implies component(edges, v).contains(b) by {
        assert forall|s: Set<usize>| closed(edges, s) && s.contains(v) implies #[trigger] s.contains(b) by {
            assert(s.contains(a));
        }
    }
}

pub proof fn lemma_component_symmetric(edges: Set<Edge>, u: usize, v: usize)
    requires
        component(edges, u).contains(v),
    ensures
        component(edges, v).contains(u),
        component(edges, v) == component(edges, u),
{
    lemma_component_closed(edges, v);
    lemma_component_closed(edges, u);
    let cv = component(edges, v);
    if !cv.contains(u) {
        let t = Set::new(|x: usize| !cv.contains(x));
        assert forall|a: usize, b: usize| t.contains(a) && #[trigger] adj(edges, a, b) implies t.contains(b) by {
            if cv.contains(b) {
                assert(adj(edges, b, a));
            }
        }
        assert(closed(edges, t) && t.contains(u));
        assert(t.contains(v));
    }
    assert forall|x: usize| component(edges, v).contains(x) implies component(edges, u).contains(x) by {
        assert forall|s: Set<usize>| closed(edges, s) && s.contains(u) implies #[trigger] s.contains(x) by {
            assert(s.contains(v));
        }
    }
    assert forall|x: usize| component(edges, u).contains(x) implies component(edges, v).contains(x) by {
        assert forall|s: Set<usize>| closed(edges, s) && s.contains(v) implies #[trigger] s.contains(x) by {
            assert(s.contains(u));
        }
    }
    assert(component(edges, v) =~= component(edges, u));
}

/// Flood from `start` along `edges`: the connected component of `start`.
pub fn flood(edges: &Vec<Edge>, start: usize) -> (out: BTreeSet<usize>)
    ensures
        out@ == component(edges@.to_set(), start),
{
    let ghost es = edges@.to_set();
    let ghost ends: Seq<usize> = Seq::new(2 * edges@.len() + 1, |k: int| if k == 2 * edges@.len() { start } else if k % 2 == 0 { edges@[k / 2].0 } else { edges@[k / 2].1 });
    let mut reached: BTreeSet<usize> = BTreeSet::new();
    let mut stack: Vec<usize> = Vec::new();
    reached.insert(start);
    stack.push(start);
    proof {
        assert(ends[2 * edges@.len() as int] == start);
        assert(stack@[0] == start);
    }
    while stack.len() > 0
        invariant
            es == edges@.to_set(),
            ends.len() == 2 * edges@.len() + 1,
            forall|k: int| 0 <= k < ends.len() ==> #[trigger] ends[k] == (if k == 2 * edges@.len() { start } else if k % 2 == 0 { edges@[k / 2].0 } else { edges@[k / 2].1 }),
            reached@.contains(start),
            reached@.finite(),
            reached@.subset_of(ends.to_set()),
            forall|k: int| 0 <= k < stack@.len() ==> reached@.contains(#[trigger] stack@[k]),
            stack@.no_duplicates(),
            forall|s: Set<usize>| #[trigger] closed(es, s) && s.contains(start) ==> reached@.subset_of(s),
            forall|a: usize, b: usize| reached@.contains(a) && !stack@.contains(a) && #[trigger] adj(es, a, b) ==> reached@.contains(b),
        decreases 2 * (ends.len() - reached@.len()) + stack@.len(),
    {
        proof {
            ends.lemma_cardinality_of_set();
            vstd::set_lib::lemma_len_subset(reached@, ends.to_set());
        }
        let ghost old_stack = stack@;
        let node = stack.pop().unwrap();
        let ghost popped_stack = stack@;
        let ghost before = reached@;
        proof {
            assert(old_stack =~= popped_stack.push(node));
            assert(old_stack[popped_stack.len() as int] == node);
            assert forall|a: usize, b: usize| before.contains(a) && a != node && !popped_stack.contains(a) && #[trigger] adj(es, a, b) implies reached@.contains(b) by {
                if old_stack.contains(a) {
                    let k = choose|k: int| 0 <= k < old_stack.len() && old_stack[k] == a;
                    if k < popped_stack.len() {
                        assert(popped_stack[k] == a);
                    }
                }
            }
        }
        let mut i: usize = 0;
        while i < edges.len()
            invariant
                es == edges@.to_set(),
                ends.len() == 2 * edges@.len() + 1,
                forall|k: int| 0 <= k < ends.len() ==> #[trigger] ends[k] == (if k == 2 * edges@.len() { start } else if k % 2 == 0 { edges@[k / 2].0 } else { edges@[k / 2].1 }),
                i <= edges@.len(),
                before.contains(node),
                before.subset_of(reached@),
                reached@.contains(start),
                reached@.finite(),
                reached@.subset_of(ends.to_set()),
                reached@.len() - before.len() == stack@.len() - popped_stack.len(),
                stack@.len() >= popped_stack.len(),
                stack@.subrange(0, popped_stack.len() as int) == popped_stack,
                forall|k: int| popped_stack.len() <= k < stack@.len() ==> !before.contains(#[trigger] stack@[k]),
                forall|x: usize| reached@.contains(x) && !before.contains(x) ==> #[trigger] stack@.subrange(popped_stack.len() as int, stack@.len() as int).contains(x),
                forall|k: int| 0 <= k < stack@.len() ==> reached@.contains(#[trigger] stack@[k]),
                stack@.no_duplicates(),
                !popped_stack.contains(node),
                forall|s: Set<usize>| #[trigger] closed(es, s) && s.contains(start) ==> reached@.subset_of(s),
                forall|a: usize, b: usize| before.contains(a) && a != node && !popped_stack.contains(a) && #[trigger] adj(es, a, b) ==> reached@.contains(b),
                forall|j: int| 0 <= j < i ==> ((#[trigger] edges@[j]).0 == node ==> reached@.contains(edges@[j].1)) && (edges@[j].1 == node ==> reached@.contains(edges@[j].0)),
            decreases edges@.len() - i,
        {
            let (a, b) = edges[i];
            let next: Option<usize> = if a == node { Some(b) } else if b == node { Some(a) } else { None };
            if let Some(n) = next {
                if !reached.contains(&n) {
                    let ghost r0 = reached@;
                    let ghost s0 = stack@;
                    proof {
                        assert(es.contains(edges@[i as int]));
                        assert(adj(es, node, n));
                        assert forall|s: Set<usize>| #[trigger] closed(es, s) && s.contains(start) implies reached@.insert(n).subset_of(s) by {
                            assert(reached@.subset_of(s));
                            assert(s.contains(node));
                        }
                        if a == node {
                            assert(ends[2 * i + 1] == n);
                        } else {
                            assert(ends[2 * i as int] == n);
                        }
                        assert(ends.to_set().contains(n));
                    }
                    reached.insert(n);
                    stack.push(n);
                    proof {
                        assert(stack@.subrange(0, popped_stack.len() as int) =~= popped_stack);
                        assert forall|x: usize| reached@.contains(x) && !before.contains(x) implies #[trigger] stack@.subrange(popped_stack.len() as int, stack@.len() as int).contains(x) by {
                            let sub = stack@.subrange(popped_stack.len() as int, stack@.len() as int);
                            if x == n {
                                assert(sub[sub.len() - 1] == n);
                            } else {
                                assert(stack@.drop_last() =~= s0);
                                assert(r0.contains(x));
                                let old_sub = s0.subrange(popped_stack.len() as int, s0.len() as int);
                                assert(old_sub.contains(x));
                                let k = choose|k: int| 0 <= k < old_sub.len() && old_sub[k] == x;
                                assert(sub[k] == x);
                            }
                        }
                    }
                }
            }
            i = i + 1;
        }
        proof {
            ends.lemma_cardinality_of_set();
            vstd::set_lib::lemma_len_subset(reached@, ends.to_set());
            assert forall|a: usize, b: usize| reached@.contains(a) && !stack@.contains(a) && #[trigger] adj(es, a, b) implies reached@.contains(b) by {
                if a == node {
                    if es.contains((a, b)) {
                        let j = choose|j: int| 0 <= j < edges@.len() && edges@[j] == (a, b);
                        assert(edges@[j].0 == node);
                    } else {
                        let j = choose|j: int| 0 <= j < edges@.len() && edges@[j] == (b, a);
                        assert(edges@[j].1 == node);
                    }
                } else if before.contains(a) {
                    if popped_stack.contains(a) {
                        let k = choose|k: int| 0 <= k < popped_stack.len() && popped_stack[k] == a;
                        assert(stack@[k] == a);
                    }
                } else {
                    let sub = stack@.subrange(popped_stack.len() as int, stack@.len() as int);
                    assert(sub.contains(a));
                    let k = choose|k: int| 0 <= k < sub.len() && sub[k] == a;
                    assert(stack@[popped_stack.len() + k] == a);
                }
            }
        }
    }
    proof {
        lemma_component_closed(es, start);
        assert forall|u: usize| reached@.contains(u) <==> component(es, start).contains(u) by {
            if component(es, start).contains(u) {
                assert(closed(es, reached@));
            }
            if reached@.contains(u) {
                assert(reached@.subset_of(component(es, start)));
            }
        }
        assert(reached@ =~= component(es, start));
    }
    reached
}


/// The elements of an edge set, in its iteration order.
pub fn edge_set_to_vec(edges: &BTreeSet<Edge>) -> (out: Vec<Edge>)
    ensures
        out@.to_set() == edges@,
        out@.no_duplicates(),
        forall|a: int, b: int| 0 <= a < b < out@.len() ==> crate::graph::edge_lt(out@[a], out@[b]),
{
    let mut out: Vec<Edge> = Vec::new();
    let ghost full = spec_btree_keys_iter(edges).remaining();
    for e in it: edges.iter()
        invariant
            it.seq() == full,
            full.no_duplicates(),
            out@.len() == it.index(),
            forall|j: int| 0 <= j < it.index() ==> out@[j] == *#[trigger] full[j],
    {
        out.push(*e);
    }
    proof {
        assert(out@.len() == full.len());
        assert(out@ =~= full.unref());
        assert(full.unref().to_set() == edges@);
        assert forall|a: int, b: int| 0 <= a < out@.len() && 0 <= b < out@.len() && a != b implies out@[a] != out@[b] by {
            assert(full[a] != full[b]);
        }
        crate::graph::lemma_increasing_edge_refs(full);
    }
    out
}

/// Endpoint occurrences of `v` in a sequence of edges.
pub open spec fn endpoint_count(s: Seq<Edge>, v: usize) -> nat
    decreases s.len(),
{
    if s.len() == 0 {
        0
    } else {
        endpoint_count(s.drop_last(), v) + (if s.last().0 == v { 1nat } else { 0nat }) + (if s.last().1
            == v { 1nat } else { 0nat })
    }
}

pub proof fn lemma_endpoint_count_degree(s: Seq<Edge>, v: usize)
    requires
        s.no_duplicates(),
    ensures
        endpoint_count(s, v) == degree(s.to_set(), v),
    decreases s.len(),
{
    broadcast use vstd::seq_lib::group_seq_properties;
    let f0 = first_is(v);
    let f1 = second_is(v);
    if s.len() == 0 {
        assert(s.to_set() =~= Set::empty());
        assert(s.to_set().filter(f0) =~= Set::empty());
        assert(s.to_set().filter(f1) =~= Set::empty());
    } else {
        let p = s.drop_last();
        let x = s.last();
        assert(p.no_duplicates());
        lemma_endpoint_count_degree(p, v);
        assert(s =~= p.push(x));
        assert(s.to_set() =~= p.to_set().insert(x));
        assert(!p.to_set().contains(x)) by {
            if p.contains(x) {
                let j = choose|j: int| 0 <= j < p.len() && p[j] == x;
                assert(s[j] == s[s.len() - 1]);
            }
        }
        p.to_set().lemma_len_filter(f0);
        p.to_set().lemma_len_filter(f1);
        if f0(x) {
            assert(s.to_set().filter(f0) =~= p.to_set().filter(f0).insert(x));
            assert(s.to_set().filter(f0).len() == p.to_set().filter(f0).len() + 1);
        } else {
            assert(s.to_set().filter(f0) =~= p.to_set().filter(f0));
        }
        if f1(x) {
            assert(s.to_set().filter(f1) =~= p.to_set().filter(f1).insert(x));
            assert(s.to_set().filter(f1).len() == p.to_set().filter(f1).len() + 1);
        } else {
            assert(s.to_set().filter(f1) =~= p.to_set().filter(f1));
        }
        assert(endpoint_count(s, v) == endpoint_count(p, v) + (if x.0 == v { 1nat } else { 0nat }) + (if x.1 == v { 1nat } else { 0nat }));
    }
}

/// Whether the edges form one simple path: exactly two endpoints of degree
/// one, none above two, all connected.
pub open spec fn single_path_spec(edges: Set<Edge>) -> bool {
    &&& verts(edges).filter(|v: usize| degree(edges, v) == 1).len() == 2
    &&& forall|v: usize| verts(edges).contains(v) ==> #[trigger] degree(edges, v) <= 2
    &&& connected(edges)
}

/// Whether the edges form one cycle: non-empty, every endpoint of degree two, connected.
pub open spec fn single_cycle_spec(edges: Set<Edge>) -> bool {
    &&& edges.len() > 0
    &&& forall|v: usize| verts(edges).contains(v) ==> #[trigger] degree(edges, v) == 2
    &&& connected(edges)
}

pub(crate) proof fn lemma_verts_of_seq(s: Seq<Edge>)
    ensures
        verts(s.to_set()) =~= Set::new(|v: usize| exists|j: int| 0 <= j < s.len() && (s[j].0 == v || s[j].1 == v)),
{
    assert forall|v: usize| verts(s.to_set()).contains(v) <==> exists|j: int| 0 <= j < s.len() && (s[j].0 == v || s[j].1 == v) by {
        if verts(s.to_set()).contains(v) {
            let e = choose|e: Edge| #[trigger] s.to_set().contains(e) && (e.0 == v || e.1 == v);
            let j = choose|j: int| 0 <= j < s.len() && s[j] == e;
        }
        if exists|j: int| 0 <= j < s.len() && (s[j].0 == v || s[j].1 == v) {
            let j = choose|j: int| 0 <= j < s.len() && (s[j].0 == v || s[j].1 == v);
            assert(s.to_set().contains(s[j]));
        }
    }
}

pub(crate) proof fn lemma_connected_from(edges: Set<Edge>, start: usize)
    requires
        verts(edges).contains(start),
    ensures
        connected(edges) <==> verts(edges).subset_of(component(edges, start)),
{
    lemma_component_closed(edges, start);
    if verts(edges).subset_of(component(edges, start)) {
        assert forall|u: usize, v: usize| verts(edges).contains(u) && verts(edges).contains(v) implies #[trigger] component(edges, u).contains(v) by {
            lemma_component_symmetric(edges, start, u);
        }
    }
}

pub(crate) proof fn lemma_component_within_verts(edges: Set<Edge>, start: usize)
    requires
        verts(edges).contains(start),
    ensures
        component(edges, start).subset_of(verts(edges)),
{
    assert(closed(edges, verts(edges))) by {
        assert forall|a: usize, b: usize| verts(edges).contains(a) && #[trigger] adj(edges, a, b) implies verts(edges).contains(b) by {
            if edges.contains((a, b)) {
                assert(edges.contains((a, b)) && ((a, b).1 == b));
            } else {
                assert(edges.contains((b, a)) && ((b, a).0 == b));
            }
        }
    }
}

/// Whether the edges form one cycle: every endpoint has degree two and all endpoints are connected.
pub fn single_cycle_edges(edges: &BTreeSet<Edge>) -> (r: bool)
    ensures
        r == single_cycle_spec(edges@),
{
    let list = edge_set_to_vec(edges);
    let ghost es = edges@;
    let mut degrees: BTreeMap<usize, usize> = BTreeMap::new();
    let mut i: usize = 0;
    while i < list.len()
        invariant
            i <= list@.len(),
            list@.no_duplicates(),
            list@.to_set() == es,
            es == edges@,
            forall|v: usize| #[trigger] degrees@.contains_key(v) <==> exists|j: int| 0 <= j < i && (list@[j].0 == v || list@[j].1 == v),
            forall|v: usize| #[trigger] degrees@.contains_key(v) ==> degrees@[v] as int == (if endpoint_count(list@.take(i as int), v) < 3 { endpoint_count(list@.take(i as int), v) as int } else { 3 }),
        decreases list@.len() - i,
    {
        let (a, b) = list[i];
        proof {
            assert(list@.take(i + 1).drop_last() =~= list@.take(i as int));
            assert(list@.take(i + 1).last() == (a, b));
        }
        let ca: usize = match degrees.get(&a) { Some(c) => *c, None => 0 };
        degrees.insert(a, if ca < 3 { ca + 1 } else { 3 });
        let cb: usize = match degrees.get(&b) { Some(c) => *c, None => 0 };
        degrees.insert(b, if cb < 3 { cb + 1 } else { 3 });
        proof {
            assert forall|v: usize| #[trigger] degrees@.contains_key(v) <==> exists|j: int| 0 <= j < i + 1 && (list@[j].0 == v || list@[j].1 == v) by {
                if v == a || v == b {
                    assert(list@[i as int].0 == a && list@[i as int].1 == b);
                }
            }
            assert forall|v: usize| #[trigger] degrees@.contains_key(v) implies degrees@[v] as int == (if endpoint_count(list@.take(i + 1), v) < 3 { endpoint_count(list@.take(i + 1), v) as int } else { 3 }) by {
                if v != a && v != b {
                    assert(exists|j: int| 0 <= j < i && (list@[j].0 == v || list@[j].1 == v));
                } else if v == a && v != b {
                    if exists|j: int| 0 <= j < i && (list@[j].0 == v || list@[j].1 == v) {
                    } else {
                        assert(endpoint_count(list@.take(i as int), v) == 0) by {
                            lemma_endpoint_count_zero(list@.take(i as int), v);
                        }
                    }
                } else if v == b && v != a {
                    if exists|j: int| 0 <= j < i && (list@[j].0 == v || list@[j].1 == v) {
                    } else {
                        lemma_endpoint_count_zero(list@.take(i as int), v);
                    }
                } else {
                    if exists|j: int| 0 <= j < i && (list@[j].0 == v || list@[j].1 == v) {
                    } else {
                        lemma_endpoint_count_zero(list@.take(i as int), v);
                    }
                }
            }
        }
        i = i + 1;
    }
    proof {
        assert(list@.take(list@.len() as int) =~= list@);
        lemma_verts_of_seq(list@);
        assert(degrees@.dom() =~= verts(es));
    }
    if list.len() == 0 {
        proof {
            assert(es.len() == 0) by {
                assert(es =~= Set::<Edge>::empty());
            }
        }
        return false;
    }
    let ghost full = vstd::std_specs::btree::spec_btree_map_iter(&degrees).remaining();
    let mut start: usize = 0;
    let mut first = true;
    for kv in it: degrees.iter()
        invariant
            it.seq() == full,
            list@.no_duplicates(),
            list@.to_set() == es,
            es == edges@,
            degrees@.dom() == verts(es),
            forall|v: usize| #[trigger] degrees@.contains_key(v) ==> degrees@[v] as int == (if endpoint_count(list@, v) < 3 { endpoint_count(list@, v) as int } else { 3 }),
            first ==> it.index() == 0,
            !first ==> degrees@.contains_key(start),
            forall|j: int| 0 <= j < it.index() ==> *(#[trigger] full[j]).1 == 2,
    {
        let (k, d) = kv;
        proof {
            assert(degrees@.contains_key(*k));
            assert(degrees@[*k] == *d);
        }
        if *d != 2 {
            proof {
                lemma_endpoint_count_degree(list@, *k);
                assert(verts(es).contains(*k));
                assert(degree(es, *k) != 2);
                assert(!single_cycle_spec(es));
            }
            return false;
        }
        if first {
            start = *k;
            first = false;
        }
    }
    proof {
        assert(full.len() == degrees@.dom().len());
        assert(full.len() > 0) by {
            let e = list@[0];
            assert(verts(es).contains(e.0)) by {
                assert(es.contains(e));
            }
        }
        assert(!first);
        assert forall|v: usize| verts(es).contains(v) implies #[trigger] degree(es, v) == 2 by {
            assert(full.contains((&v, &degrees@[v])));
            let j = choose|j: int| 0 <= j < full.len() && full[j] == (&v, &degrees@[v]);
            lemma_endpoint_count_degree(list@, v);
        }
    }
    let reached = flood(&list, start);
    proof {
        lemma_connected_from(es, start);
        lemma_component_within_verts(es, start);
        assert(reached@ == component(list@.to_set(), start));
        assert(reached@.subset_of(degrees@.dom()));
        vstd::set_lib::lemma_len_subset(reached@, degrees@.dom());
        if reached@.len() == degrees@.dom().len() {
            vstd::set_lib::lemma_subset_equality(reached@, degrees@.dom());
            assert(connected(es));
        } else {
            if connected(es) {
                assert(degrees@.dom().subset_of(reached@));
                assert(degrees@.dom() =~= reached@);
            }
        }
        assert(es.len() > 0) by {
            assert(es.contains(list@[0]));
        }
    }
    reached.len() == degrees.len()
}

/// Whether the edges form one simple path: exactly two endpoints of degree
/// one, none of degree above two, all connected.
pub fn is_single_path(edges: &BTreeSet<Edge>) -> (r: bool)
    ensures
        r == single_path_spec(edges@),
{
    let list = edge_set_to_vec(edges);
    let ghost es = edges@;
    let mut degrees: BTreeMap<usize, usize> = BTreeMap::new();
    let mut i: usize = 0;
    while i < list.len()
        invariant
            i <= list@.len(),
            list@.no_duplicates(),
            list@.to_set() == es,
            es == edges@,
            forall|v: usize| #[trigger] degrees@.contains_key(v) <==> exists|j: int| 0 <= j < i && (list@[j].0 == v || list@[j].1 == v),
            forall|v: usize| #[trigger] degrees@.contains_key(v) ==> degrees@[v] as int == (if endpoint_count(list@.take(i as int), v) < 3 { endpoint_count(list@.take(i as int), v) as int } else { 3 }),
        decreases list@.len() - i,
    {
        let (a, b) = list[i];
        proof {
            assert(list@.take(i + 1).drop_last() =~= list@.take(i as int));
            assert(list@.take(i + 1).last() == (a, b));
        }
        let ca: usize = match degrees.get(&a) { Some(c) => *c, None => 0 };
        degrees.insert(a, if ca < 3 { ca + 1 } else { 3 });
        let cb: usize = match degrees.get(&b) { Some(c) => *c, None => 0 };
        degrees.insert(b, if cb < 3 { cb + 1 } else { 3 });
        proof {
            assert forall|v: usize| #[trigger] degrees@.contains_key(v) <==> exists|j: int| 0 <= j < i + 1 && (list@[j].0 == v || list@[j].1 == v) by {
                if v == a || v == b {
                    assert(list@[i as int].0 == a && list@[i as int].1 == b);
                }
            }
            assert forall|v: usize| #[trigger] degrees@.contains_key(v) implies degrees@[v] as int == (if endpoint_count(list@.take(i + 1), v) < 3 { endpoint_count(list@.take(i + 1), v) as int } else { 3 }) by {
                if v != a && v != b {
                    assert(exists|j: int| 0 <= j < i && (list@[j].0 == v || list@[j].1 == v));
                } else if v == a && v != b {
                    if exists|j: int| 0 <= j < i && (list@[j].0 == v || list@[j].1 == v) {
                    } else {
                        assert(endpoint_count(list@.take(i as int), v) == 0) by {
                            lemma_endpoint_count_zero(list@.take(i as int), v);
                        }
                    }
                } else if v == b && v != a {
                    if exists|j: int| 0 <= j < i && (list@[j].0 == v || list@[j].1 == v) {
                    } else {
                        lemma_endpoint_count_zero(list@.take(i as int), v);
                    }
                } else {
                    if exists|j: int| 0 <= j < i && (list@[j].0 == v || list@[j].1 == v) {
                    } else {
                        lemma_endpoint_count_zero(list@.take(i as int), v);
                    }
                }
            }
        }
        i = i + 1;
    }
    proof {
        assert(list@.take(list@.len() as int) =~= list@);
        lemma_verts_of_seq(list@);
        assert(degrees@.dom() =~= verts(es));
    }
    if list.len() == 0 {
        proof {
            assert(verts(es).filter(|v: usize| degree(es, v) == 1) =~= Set::<usize>::empty());
        }
        return false;
    }
    let ghost full = vstd::std_specs::btree::spec_btree_map_iter(&degrees).remaining();
    let mut start: usize = 0;
    let mut first = true;
    let mut ends: BTreeSet<usize> = BTreeSet::new();
    let mut too_high = false;
    for kv in it: degrees.iter()
        invariant
            it.seq() == full,
            list@.no_duplicates(),
            list@.to_set() == es,
            es == edges@,
            degrees@.dom() == verts(es),
            forall|v: usize| #[trigger] degrees@.contains_key(v) ==> degrees@[v] as int == (if endpoint_count(list@, v) < 3 { endpoint_count(list@, v) as int } else { 3 }),
            first ==> it.index() == 0,
            !first ==> degrees@.contains_key(start),
            forall|v: usize| #[trigger] ends@.contains(v) <==> exists|j: int| 0 <= j < it.index() && *full[j].0 == v && *full[j].1 == 1,
            too_high <==> exists|j: int| 0 <= j < it.index() && *(#[trigger] full[j]).1 > 2,
    {
        let (k, d) = kv;
        proof {
            assert(degrees@.contains_key(*k));
            assert(degrees@[*k] == *d);
        }
        if *d == 1 {
            ends.insert(*k);
        }
        if *d > 2 {
            too_high = true;
        }
        if first {
            start = *k;
            first = false;
        }
    }
    proof {
        assert(full.len() == degrees@.dom().len());
        assert(full.len() > 0) by {
            let e = list@[0];
            assert(verts(es).contains(e.0)) by {
                assert(es.contains(e));
            }
        }
        assert(!first);
        assert forall|v: usize| #[trigger] ends@.contains(v) <==> verts(es).filter(|w: usize| degree(es, w) == 1).contains(v) by {
            if verts(es).contains(v) {
                assert(full.contains((&v, &degrees@[v])));
                lemma_endpoint_count_degree(list@, v);
            }
            if ends@.contains(v) {
                let j = choose|j: int| 0 <= j < full.len() && *full[j].0 == v && *full[j].1 == 1;
                assert(degrees@.contains_key(*full[j].0));
                lemma_endpoint_count_degree(list@, v);
            }
        }
        assert(ends@ =~= verts(es).filter(|w: usize| degree(es, w) == 1));
        assert(too_high <==> exists|v: usize| verts(es).contains(v) && degree(es, v) > 2) by {
            if too_high {
                let j = choose|j: int| 0 <= j < full.len() && *(#[trigger] full[j]).1 > 2;
                assert(degrees@.contains_key(*full[j].0));
                lemma_endpoint_count_degree(list@, *full[j].0);
            }
            if exists|v: usize| verts(es).contains(v) && degree(es, v) > 2 {
                let v = choose|v: usize| verts(es).contains(v) && degree(es, v) > 2;
                assert(full.contains((&v, &degrees@[v])));
                lemma_endpoint_count_degree(list@, v);
            }
        }
    }
    if ends.len() != 2 || too_high {
        return false;
    }
    let reached = flood(&list, start);
    proof {
        lemma_connected_from(es, start);
        lemma_component_within_verts(es, start);
        assert(reached@ == component(list@.to_set(), start));
        assert(reached@.subset_of(degrees@.dom()));
        vstd::set_lib::lemma_len_subset(reached@, degrees@.dom());
        if reached@.len() == degrees@.dom().len() {
            vstd::set_lib::lemma_subset_equality(reached@, degrees@.dom());
            assert(connected(es));
        } else {
            if connected(es) {
                assert(degrees@.dom().subset_of(reached@));
                assert(degrees@.dom() =~= reached@);
            }
        }
        assert(es.len() > 0) by {
            assert(es.contains(list@[0]));
        }
    }
    reached.len() == degrees.len()
}

proof fn lemma_endpoint_count_zero(s: Seq<Edge>, v: usize)
    requires
        !(exists|j: int| 0 <= j < s.len() && (s[j].0 == v || s[j].1 == v)),
    ensures
        endpoint_count(s, v) == 0,
    decreases s.len(),
{
    if s.len() > 0 {
        let p = s.drop_last();
        assert forall|j: int| 0 <= j < p.len() implies !(p[j].0 == v || p[j].1 == v) by {
            assert(p[j] == s[j]);
        }
        lemma_endpoint_count_zero(p, v);
        assert(s[s.len() - 1] == s.last());
    }
}


/// The neighbours of `v`: every `u` joined to `v` by an edge (a loop makes `v` its own neighbour).
pub open spec fn nbrs(edges: Set<Edge>, v: usize) -> Set<usize> {
    Set::new(|u: usize| adj(edges, v, u))
}

/// One cycle by neighbour sets: non-empty, every endpoint with exactly two
/// neighbours, and connected.
pub open spec fn single_cycle_by_neighbours(edges: Set<Edge>) -> bool {
    &&& edges.len() > 0
    &&& forall|v: usize| verts(edges).contains(v) ==> #[trigger] nbrs(edges, v).len() == 2
    &&& connected(edges)
}

/// The neighbour set of every endpoint.
pub fn neighbour_map(list: &Vec<Edge>) -> (out: BTreeMap<usize, BTreeSet<usize>>)
    ensures
        out@.dom() == verts(list@.to_set()),
        forall|v: usize| #[trigger] out@.contains_key(v) ==> out@[v]@ == nbrs(list@.to_set(), v),
{
    let ghost es = list@.to_set();
    let mut out: BTreeMap<usize, BTreeSet<usize>> = BTreeMap::new();
    let mut i: usize = 0;
    while i < list.len()
        invariant
            i <= list@.len(),
            es == list@.to_set(),
            forall|v: usize| #[trigger] out@.contains_key(v) <==> exists|j: int| 0 <= j < i && (list@[j].0 == v || list@[j].1 == v),
            forall|v: usize, u: usize| out@.contains_key(v) ==> (#[trigger] out@[v]@.contains(u) <==> exists|j: int| 0 <= j < i && (#[trigger] list@[j] == (v, u) || list@[j] == (u, v))),
        decreases list@.len() - i,
    {
        let (a, b) = list[i];
        let ghost before = out@;
        let mut na: BTreeSet<usize> = match out.get(&a) { Some(s) => s.clone(), None => BTreeSet::new() };
        na.insert(b);
        out.insert(a, na);
        let mut nb: BTreeSet<usize> = match out.get(&b) { Some(s) => s.clone(), None => BTreeSet::new() };
        nb.insert(a);
        out.insert(b, nb);
        proof {
            assert(list@[i as int] == (a, b));
            assert forall|v: usize| #[trigger] out@.contains_key(v) <==> exists|j: int| 0 <= j < i + 1 && (list@[j].0 == v || list@[j].1 == v) by {
                if exists|j: int| 0 <= j < i + 1 && (list@[j].0 == v || list@[j].1 == v) {
                    let j = choose|j: int| 0 <= j < i + 1 && (list@[j].0 == v || list@[j].1 == v);
                    if j < i {
                        assert(before.contains_key(v));
                    }
                }
            }
            assert forall|v: usize, u: usize| out@.contains_key(v) implies (#[trigger] out@[v]@.contains(u) <==> exists|j: int| 0 <= j < i + 1 && (#[trigger] list@[j] == (v, u) || list@[j] == (u, v))) by {
                if exists|j: int| 0 <= j < i + 1 && (#[trigger] list@[j] == (v, u) || list@[j] == (u, v)) {
                    let j = choose|j: int| 0 <= j < i + 1 && (#[trigger] list@[j] == (v, u) || list@[j] == (u, v));
                    if j < i {
                        assert(before.contains_key(v)) by {
                            assert(list@[j].0 == v || list@[j].1 == v);
                        }
                        assert(before[v]@.contains(u));
                    }
                }
                if out@[v]@.contains(u) && !(v == a && u == b) && !(v == b && u == a) {
                    assert(before.contains_key(v));
                    assert(before[v]@.contains(u));
                }
            }
        }
        i = i + 1;
    }
    proof {
        assert(list@.take(list@.len() as int) =~= list@);
        crate::cycles::lemma_verts_of_seq(list@);
        assert(out@.dom() =~= verts(es));
        assert forall|v: usize| #[trigger] out@.contains_key(v) implies out@[v]@ == nbrs(es, v) by {
            assert forall|u: usize| out@[v]@.contains(u) <==> nbrs(es, v).contains(u) by {
                if nbrs(es, v).contains(u) {
                    if es.contains((v, u)) {
                        let j = choose|j: int| 0 <= j < list@.len() && list@[j] == (v, u);
                    } else {
                        let j = choose|j: int| 0 <= j < list@.len() && list@[j] == (u, v);
                    }
                }
                if out@[v]@.contains(u) {
                    let j = choose|j: int| 0 <= j < list@.len() && (#[trigger] list@[j] == (v, u) || list@[j] == (u, v));
                    assert(es.contains(list@[j]));
                }
            }
            assert(out@[v]@ =~= nbrs(es, v));
        }
    }
    out
}

/// Whether the edges form one cycle: every vertex has exactly two neighbours and all are connected.
pub fn is_single_cycle(edges: &BTreeSet<Edge>) -> (r: bool)
    ensures
        r == single_cycle_by_neighbours(edges@),
{
    let list = edge_set_to_vec(edges);
    let ghost es = edges@;
    let adjacency = neighbour_map(&list);
    if adjacency.len() == 0 {
        proof {
            assert(adjacency@.dom().len() == 0);
            if es.len() > 0 {
                let e = es.choose();
                assert(es.contains(e));
                assert(verts(es).contains(e.0));
                assert(adjacency@.dom().contains(e.0));
            }
        }
        return false;
    }
    let ghost full = vstd::std_specs::btree::spec_btree_map_iter(&adjacency).remaining();
    let mut start: usize = 0;
    let mut first = true;
    for kv in it: adjacency.iter()
        invariant
            it.seq() == full,
            es == edges@,
            list@.to_set() == es,
            adjacency@.dom() == verts(es),
            forall|v: usize| #[trigger] adjacency@.contains_key(v) ==> adjacency@[v]@ == nbrs(es, v),
            first ==> it.index() == 0,
            !first ==> adjacency@.contains_key(start),
            forall|j: int| 0 <= j < it.index() ==> (#[trigger] full[j]).1@.len() == 2,
    {
        let (k, n) = kv;
        proof {
            assert(adjacency@.contains_key(*k));
            assert(adjacency@[*k] == *n);
        }
        if n.len() != 2 {
            return false;
        }
        if first {
            start = *k;
            first = false;
        }
    }
    proof {
        assert(full.len() == adjacency@.dom().len());
        assert(!first);
        assert forall|v: usize| verts(es).contains(v) implies #[trigger] nbrs(es, v).len() == 2 by {
            assert(full.contains((&v, &adjacency@[v])));
            let j = choose|j: int| 0 <= j < full.len() && full[j] == (&v, &adjacency@[v]);
        }
    }
    let reached = flood(&list, start);
    proof {
        lemma_connected_from(es, start);
        lemma_component_within_verts(es, start);
        vstd::set_lib::lemma_len_subset(reached@, adjacency@.dom());
        if reached@.len() == adjacency@.dom().len() {
            vstd::set_lib::lemma_subset_equality(reached@, adjacency@.dom());
        } else {
            if connected(es) {
                assert(adjacency@.dom() =~= reached@);
            }
        }
        assert(es.len() > 0) by {
            assert(verts(es).contains(start));
            let e = choose|e: Edge| #[trigger] es.contains(e) && (e.0 == start || e.1 == start);
        }
    }
    reached.len() == adjacency.len()
}

/// The link of `vertex`: for each triangle with `vertex` as exactly one corner,
/// the side opposite it.
pub open spec fn simple_link_spec(vertex: usize, tris: Seq<Triangle>) -> Set<Edge> {
    Set::new(|e: Edge| exists|i: int, j: int|
        0 <= i < tris.len() && 0 <= j < 3 && tris[i][j] == vertex && corners_equal(tris[i], vertex) == 1
            && e == #[trigger] opposite_spec(tris[i], j))
}

/// Whether the link of `vertex` in the triangles is one cycle.
pub fn single_cycle_link(vertex: usize, triangles: &[Triangle]) -> (r: bool)
    ensures
        r == single_cycle_spec(simple_link_spec(vertex, triangles@)),
{
    let mut edges: BTreeSet<Edge> = BTreeSet::new();
    let mut i: usize = 0;
    while i < triangles.len()
        invariant
            i <= triangles@.len(),
            forall|e: Edge| #[trigger] edges@.contains(e) <==> exists|k: int, j: int|
                0 <= k < i && 0 <= j < 3 && triangles@[k][j] == vertex && corners_equal(triangles@[k], vertex) == 1
                    && e == opposite_spec(triangles@[k], j),
        decreases triangles@.len() - i,
    {
        let t = triangles[i];
        let ghost old_edges = edges@;
        let ghost ti = triangles@[i as int];
        let count = (if t[0] == vertex { 1usize } else { 0 }) + (if t[1] == vertex { 1usize } else { 0 }) + (if t[2] == vertex { 1usize } else { 0 });
        if count == 1 {
            if t[0] == vertex {
                edges.insert(sorted(t[1], t[2]));
            } else if t[1] == vertex {
                edges.insert(sorted(t[0], t[2]));
            } else {
                edges.insert(sorted(t[0], t[1]));
            }
        }
        proof {
            assert forall|e: Edge| #[trigger] edges@.contains(e) <==> exists|k: int, j: int|
                0 <= k < i + 1 && 0 <= j < 3 && triangles@[k][j] == vertex && corners_equal(triangles@[k], vertex) == 1
                    && e == opposite_spec(triangles@[k], j) by {
                if edges@.contains(e) && !old_edges.contains(e) {
                    if t[0] == vertex {
                        assert(triangles@[i as int][0] == vertex && e == opposite_spec(ti, 0));
                    } else if t[1] == vertex {
                        assert(triangles@[i as int][1] == vertex && e == opposite_spec(ti, 1));
                    } else {
                        assert(triangles@[i as int][2] == vertex && e == opposite_spec(ti, 2));
                    }
                }
                if exists|k: int, j: int|
                    0 <= k < i + 1 && 0 <= j < 3 && triangles@[k][j] == vertex && corners_equal(triangles@[k], vertex) == 1
                        && e == opposite_spec(triangles@[k], j) {
                    let (k, j) = choose|k: int, j: int|
                        0 <= k < i + 1 && 0 <= j < 3 && triangles@[k][j] == vertex && corners_equal(triangles@[k], vertex) == 1
                            && e == opposite_spec(triangles@[k], j);
                    if k < i {
                        assert(old_edges.contains(e));
                    } else {
                        assert(k == i);
                    }
                }
            }
        }
        i = i + 1;
    }
    assert(edges@ =~= simple_link_spec(vertex, triangles@));
    single_cycle_edges(&edges)
}

/// The link of `v`: the side opposite every corner equal to `v`.
pub open spec fn link_spec(v: usize, tris: Seq<Triangle>) -> Set<Edge> {
    Set::new(|e: Edge| exists|i: int, j: int|
        0 <= i < tris.len() && 0 <= j < 3 && tris[i][j] == v && e == #[trigger] opposite_spec(tris[i], j))
}

/// The link edge set of `v`.
pub fn link_edges(v: usize, triangles: &[Triangle]) -> (out: BTreeSet<Edge>)
    ensures
        out@ == link_spec(v, triangles@),
{
    let mut out: BTreeSet<Edge> = BTreeSet::new();
    let mut i: usize = 0;
    while i < triangles.len()
        invariant
            i <= triangles@.len(),
            forall|e: Edge| #[trigger] out@.contains(e) <==> exists|k: int, j: int|
                0 <= k < i && 0 <= j < 3 && triangles@[k][j] == v && e == opposite_spec(triangles@[k], j),
        decreases triangles@.len() - i,
    {
        let t = triangles[i];
        let ghost old_out = out@;
        let ghost ti = triangles@[i as int];
        if t[0] == v {
            out.insert(sorted(t[1], t[2]));
        }
        if t[1] == v {
            out.insert(sorted(t[0], t[2]));
        }
        if t[2] == v {
            out.insert(sorted(t[0], t[1]));
        }
        proof {
            assert forall|e: Edge| #[trigger] out@.contains(e) <==> exists|k: int, j: int|
                0 <= k < i + 1 && 0 <= j < 3 && triangles@[k][j] == v && e == opposite_spec(triangles@[k], j) by {
                if out@.contains(e) && !old_out.contains(e) {
                    if t[0] == v && e == opposite_spec(ti, 0) {
                        assert(triangles@[i as int][0] == v);
                    } else if t[1] == v && e == opposite_spec(ti, 1) {
                        assert(triangles@[i as int][1] == v);
                    } else {
                        assert(triangles@[i as int][2] == v && e == opposite_spec(ti, 2));
                    }
                }
                if exists|k: int, j: int| 0 <= k < i + 1 && 0 <= j < 3 && triangles@[k][j] == v && e == opposite_spec(triangles@[k], j) {
                    let (k, j) = choose|k: int, j: int| 0 <= k < i + 1 && 0 <= j < 3 && triangles@[k][j] == v && e == opposite_spec(triangles@[k], j);
                    if k < i {
                        assert(old_out.contains(e));
                    } else {
                        assert(k == i);
                    }
                }
            }
        }
        i = i + 1;
    }
    assert(out@ =~= link_spec(v, triangles@));
    out
}

/// The degree of every active vertex: the number of distinct edges in its link.
pub fn vertex_degrees(triangles: &[Triangle]) -> (out: BTreeMap<usize, usize>)
    ensures
        out@.dom() == active_vertices_spec(triangles@),
        forall|v: usize| #[trigger] out@.contains_key(v) ==> out@[v] == link_spec(v, triangles@).len(),
{
    let vertices = active_vertices(triangles);
    let mut out: BTreeMap<usize, usize> = BTreeMap::new();
    let ghost full = spec_btree_keys_iter(&vertices).remaining();
    for v in it: vertices.iter()
        invariant
            it.seq() == full,
            full.unref().to_set() == vertices@,
            vertices@ == active_vertices_spec(triangles@),
            forall|x: usize| #[trigger] out@.contains_key(x) <==> exists|j: int| 0 <= j < it.index() && *full[j] == x,
            forall|x: usize| #[trigger] out@.contains_key(x) ==> out@[x] == link_spec(x, triangles@).len(),
    {
        let link = link_edges(*v, triangles);
        out.insert(*v, link.len());
    }
    proof {
        assert forall|x: usize| out@.contains_key(x) <==> active_vertices_spec(triangles@).contains(x) by {
            if active_vertices_spec(triangles@).contains(x) {
                assert(full.unref().to_set().contains(x));
                let j = choose|j: int| 0 <= j < full.unref().len() && full.unref()[j] == x;
                assert(*full[j] == x);
            }
            if out@.contains_key(x) {
                let j = choose|j: int| 0 <= j < full.len() && *full[j] == x;
                assert(full.unref()[j] == x);
                assert(full.unref().to_set().contains(x));
            }
        }
        assert(out@.dom() =~= active_vertices_spec(triangles@));
    }
    out
}


/// The total number of neighbours over the vertices of `c`.
pub open spec fn nbr_total(edges: Set<Edge>, c: Set<usize>) -> nat
    decreases c.len(),
{
    if c.len() == 0 || !c.finite() {
        0
    } else {
        let x = c.choose();
        nbrs(edges, x).len() + nbr_total(edges, c.remove(x))
    }
}

/// Neighbour counts summed over a sequence of vertices.
pub open spec fn nbr_sum(edges: Set<Edge>, s: Seq<usize>) -> nat
    decreases s.len(),
{
    if s.len() == 0 {
        0
    } else {
        nbr_sum(edges, s.drop_last()) + nbrs(edges, s.last()).len()
    }
}

proof fn lemma_nbr_sum_remove(edges: Set<Edge>, s: Seq<usize>, k: int)
    requires
        0 <= k < s.len(),
    ensures
        nbr_sum(edges, s) == nbr_sum(edges, s.remove(k)) + nbrs(edges, s[k]).len(),
    decreases s.len(),
{
    if k < s.len() - 1 {
        let p = s.drop_last();
        lemma_nbr_sum_remove(edges, p, k);
        assert(s.remove(k).drop_last() =~= p.remove(k));
        assert(s.remove(k).last() == s.last());
    } else {
        assert(s.remove(k) =~= s.drop_last());
    }
}

pub proof fn lemma_nbr_sum_total(edges: Set<Edge>, s: Seq<usize>)
    requires
        s.no_duplicates(),
    ensures
        nbr_sum(edges, s) == nbr_total(edges, s.to_set()),
    decreases s.len(),
{
    broadcast use vstd::seq_lib::group_seq_properties;
    let c = s.to_set();
    s.unique_seq_to_set();
    if s.len() == 0 {
    } else {
        let x = c.choose();
        assert(c.contains(x));
        let k = choose|k: int| 0 <= k < s.len() && s[k] == x;
        lemma_nbr_sum_remove(edges, s, k);
        let r = s.remove(k);
        assert(r.no_duplicates()) by {
            assert forall|a: int, b: int| 0 <= a < r.len() && 0 <= b < r.len() && a != b implies r[a] != r[b] by {
                let a2 = if a < k { a } else { a + 1 };
                let b2 = if b < k { b } else { b + 1 };
                assert(r[a] == s[a2] && r[b] == s[b2]);
            }
        }
        assert(r.to_set() =~= c.remove(x)) by {
            assert forall|y: usize| r.to_set().contains(y) <==> c.remove(x).contains(y) by {
                if r.to_set().contains(y) {
                    let a = choose|a: int| 0 <= a < r.len() && r[a] == y;
                    let a2 = if a < k { a } else { a + 1 };
                    assert(s[a2] == y);
                    assert(a2 != k);
                }
                if c.remove(x).contains(y) {
                    let a = choose|a: int| 0 <= a < s.len() && s[a] == y;
                    assert(a != k);
                    let a2 = if a < k { a } else { a - 1 };
                    assert(r[a2] == y);
                }
            }
        }
        lemma_nbr_sum_total(edges, r);
        r.unique_seq_to_set();
    }
}

proof fn lemma_nbr_sum_push(edges: Set<Edge>, s: Seq<usize>, x: usize)
    ensures
        nbr_sum(edges, s.push(x)) == nbr_sum(edges, s) + nbrs(edges, x).len(),
{
    assert(s.push(x).drop_last() =~= s);
}

/// Some connected component `c` has a neighbour total of at least `2 * |c|`,
/// that is, at least as many edges as vertices: it holds a cycle.
pub open spec fn has_cycle_component_spec(edges: Set<Edge>) -> bool {
    exists|v: usize| #[trigger] verts(edges).contains(v) && nbr_total(edges, component(edges, v)) / 2 >= component(edges, v).len()
}

/// The elements of a vertex set, in its iteration order.
pub fn vertex_set_to_vec(set: &BTreeSet<usize>) -> (out: Vec<usize>)
    ensures
        out@.to_set() == set@,
        out@.no_duplicates(),
        forall|a: int, b: int| 0 <= a < b < out@.len() ==> out@[a] < out@[b],
{
    let mut out: Vec<usize> = Vec::new();
    let ghost full = spec_btree_keys_iter(set).remaining();
    for e in it: set.iter()
        invariant
            it.seq() == full,
            full.no_duplicates(),
            out@.len() == it.index(),
            forall|j: int| 0 <= j < it.index() ==> out@[j] == *#[trigger] full[j],
    {
        out.push(*e);
    }
    proof {
        assert(out@ =~= full.unref());
        assert forall|a: int, b: int| 0 <= a < out@.len() && 0 <= b < out@.len() && a != b implies out@[a] != out@[b] by {
            assert(full[a] != full[b]);
        }
        crate::graph::lemma_increasing_slot_refs(full);
    }
    out
}

/// Whether some connected component has at least as many edges as vertices.
pub fn has_cycle_component(edges: &BTreeSet<Edge>) -> (r: bool)
    ensures
        r == has_cycle_component_spec(edges@),
{
    let list = edge_set_to_vec(edges);
    let ghost es = edges@;
    let adjacency = neighbour_map(&list);
    let mut keys: Vec<usize> = Vec::new();
    let ghost fullk = vstd::std_specs::btree::spec_btree_map_iter(&adjacency).remaining();
    for kv in it: adjacency.iter()
        invariant
            it.seq() == fullk,
            keys@.len() == it.index(),
            forall|j: int| 0 <= j < it.index() ==> keys@[j] == *(#[trigger] fullk[j]).0,
    {
        keys.push(*kv.0);
    }
    proof {
        assert forall|v: usize| adjacency@.contains_key(v) implies keys@.contains(v) by {
            assert(fullk.contains((&v, &adjacency@[v])));
            let j = choose|j: int| 0 <= j < fullk.len() && fullk[j] == (&v, &adjacency@[v]);
            assert(keys@[j] == v);
        }
        assert forall|j: int| 0 <= j < keys@.len() implies adjacency@.contains_key(#[trigger] keys@[j]) by {
            assert(keys@[j] == *fullk[j].0);
        }
    }
    let mut seen: BTreeSet<usize> = BTreeSet::new();
    let mut i: usize = 0;
    while i < keys.len()
        invariant
            es == edges@,
            list@.to_set() == es,
            adjacency@.dom() == verts(es),
            forall|v: usize| #[trigger] adjacency@.contains_key(v) ==> adjacency@[v]@ == nbrs(es, v),
            forall|v: usize| adjacency@.contains_key(v) ==> keys@.contains(v),
            forall|j: int| 0 <= j < keys@.len() ==> adjacency@.contains_key(#[trigger] keys@[j]),
            i <= keys@.len(),
            forall|j: int| 0 <= j < i ==> seen@.contains(#[trigger] keys@[j]),
            forall|x: usize| #[trigger] seen@.contains(x) ==> exists|v: usize| verts(es).contains(v) && component(es, v).contains(x) && !(nbr_total(es, component(es, v)) / 2 >= component(es, v).len()),
        decreases keys@.len() - i,
    {
        let start = keys[i];
        if !seen.contains(&start) {
            let nodes = flood(&list, start);
            let members = vertex_set_to_vec(&nodes);
            let target: u128 = 2 * (members.len() as u128);
            let mut total: u128 = 0;
            let mut k: usize = 0;
            proof {
                lemma_component_closed(es, start);
                lemma_component_within_verts(es, start);
            }
            while k < members.len()
                invariant
                    adjacency@.dom() == verts(es),
                    forall|v: usize| #[trigger] adjacency@.contains_key(v) ==> adjacency@[v]@ == nbrs(es, v),
                    es == edges@,
                    members@.to_set() == component(es, start),
                    members@.no_duplicates(),
                    verts(es).contains(start),
                    component(es, start).subset_of(verts(es)),
                    k <= members@.len(),
                    target == 2 * members@.len(),
                    total == nbr_sum(es, members@.take(k as int)),
                    total < target,
                decreases members@.len() - k,
            {
                let x = members[k];
                proof {
                    assert(members@.to_set().contains(x));
                    assert(adjacency@.contains_key(x));
                    lemma_nbr_sum_push(es, members@.take(k as int), x);
                    assert(members@.take(k + 1) =~= members@.take(k as int).push(x));
                }
                let degree = match adjacency.get(&x) { Some(n) => n.len(), None => 0 };
                total = total + degree as u128;
                if total >= target {
                    proof {
                        lemma_nbr_sum_prefix_le(es, members@, k + 1);
                        lemma_nbr_sum_total(es, members@);
                        members@.unique_seq_to_set();
                        assert(nbr_total(es, component(es, start)) / 2 >= component(es, start).len());
                        assert(verts(es).contains(start));
                    }
                    return true;
                }
                k = k + 1;
            }
            proof {
                assert(members@.take(members@.len() as int) =~= members@);
                lemma_nbr_sum_total(es, members@);
                members@.unique_seq_to_set();
            }
            let mut q: usize = 0;
            while q < members.len()
                invariant
                    members@.to_set() == component(es, start),
                    verts(es).contains(start),
                    !(nbr_total(es, component(es, start)) / 2 >= component(es, start).len()),
                    q <= members@.len(),
                    i < keys@.len(),
                    forall|j: int| 0 <= j < i ==> seen@.contains(#[trigger] keys@[j]),
                    forall|j: int| 0 <= j < q ==> seen@.contains(#[trigger] members@[j]),
                    forall|x: usize| #[trigger] seen@.contains(x) ==> exists|v: usize| verts(es).contains(v) && component(es, v).contains(x) && !(nbr_total(es, component(es, v)) / 2 >= component(es, v).len()),
                decreases members@.len() - q,
            {
                proof {
                    assert(members@.to_set().contains(members@[q as int]));
                }
                seen.insert(members[q]);
                q = q + 1;
            }
            proof {
                lemma_component_closed(es, start);
                assert(members@.to_set().contains(start));
                let j = choose|j: int| 0 <= j < members@.len() && members@[j] == start;
                assert(seen@.contains(members@[j]));
            }
        }
        i = i + 1;
    }
    proof {
        if has_cycle_component_spec(es) {
            let v = choose|v: usize| #[trigger] verts(es).contains(v) && nbr_total(es, component(es, v)) / 2 >= component(es, v).len();
            assert(keys@.contains(v));
            let j = choose|j: int| 0 <= j < keys@.len() && keys@[j] == v;
            assert(seen@.contains(keys@[j]));
            let w = choose|w: usize| verts(es).contains(w) && component(es, w).contains(v) && !(nbr_total(es, component(es, w)) / 2 >= component(es, w).len());
            lemma_component_symmetric(es, w, v);
        }
    }
    false
}

proof fn lemma_nbr_sum_prefix_le(edges: Set<Edge>, s: Seq<usize>, k: int)
    requires
        0 <= k <= s.len(),
    ensures
        nbr_sum(edges, s.take(k)) <= nbr_sum(edges, s),
    decreases s.len(),
{
    if k < s.len() {
        let p = s.drop_last();
        assert(p.take(k) =~= s.take(k));
        lemma_nbr_sum_prefix_le(edges, p, k);
    } else {
        assert(s.take(k) =~= s);
    }
}


/// The connected components of the edge set.
pub open spec fn components(edges: Set<Edge>) -> Set<Set<usize>> {
    verts(edges).map(|v: usize| component(edges, v))
}

/// The number of cycles when every vertex has exactly two neighbours.
pub open spec fn cycle_component_count_spec(edges: Set<Edge>) -> Option<nat> {
    if edges.len() == 0 || exists|v: usize| #[trigger] verts(edges).contains(v) && nbrs(edges, v).len() != 2 {
        None
    } else {
        Some(components(edges).len())
    }
}

/// The number of connected components, provided the edges are non-empty and
/// every vertex has exactly two neighbours (so each component is a cycle).
pub fn cycle_component_count(edges: &[Edge]) -> (r: Option<usize>)
    ensures
        r matches Some(n) ==> cycle_component_count_spec(edges@.to_set()) == Some(n as nat),
        r is None ==> cycle_component_count_spec(edges@.to_set()) is None,
{
    let mut list: Vec<Edge> = Vec::new();
    let mut c: usize = 0;
    while c < edges.len()
        invariant
            c <= edges@.len(),
            list@ == edges@.take(c as int),
        decreases edges@.len() - c,
    {
        list.push(edges[c]);
        proof {
            assert(edges@.take(c + 1) =~= edges@.take(c as int).push(edges@[c as int]));
        }
        c = c + 1;
    }
    proof {
        assert(edges@.take(edges@.len() as int) =~= edges@);
    }
    let ghost es = edges@.to_set();
    if list.len() == 0 {
        proof {
            assert(es =~= Set::<Edge>::empty());
        }
        return None;
    }
    proof {
        assert(es.contains(list@[0]));
        assert(es.len() > 0) by {
            vstd::seq_lib::seq_to_set_is_finite(edges@);
            if es.len() == 0 {
                es.lemma_len0_is_empty();
            }
        }
    }
    let adjacency = neighbour_map(&list);
    let mut keys: Vec<usize> = Vec::new();
    let ghost fullk = vstd::std_specs::btree::spec_btree_map_iter(&adjacency).remaining();
    for kv in it: adjacency.iter()
        invariant
            it.seq() == fullk,
            es == edges@.to_set(),
            list@.to_set() == es,
            adjacency@.dom() == verts(es),
            forall|v: usize| #[trigger] adjacency@.contains_key(v) ==> adjacency@[v]@ == nbrs(es, v),
            keys@.len() == it.index(),
            forall|j: int| 0 <= j < it.index() ==> keys@[j] == *(#[trigger] fullk[j]).0,
            forall|j: int| 0 <= j < it.index() ==> (#[trigger] fullk[j]).1@.len() == 2,
    {
        let (k, n) = kv;
        proof {
            assert(adjacency@.contains_key(*k));
            assert(adjacency@[*k] == *n);
        }
        if n.len() != 2 {
            proof {
                assert(verts(es).contains(*k) && nbrs(es, *k).len() != 2);
            }
            return None;
        }
        keys.push(*k);
    }
    proof {
        assert forall|v: usize| adjacency@.contains_key(v) implies keys@.contains(v) by {
            assert(fullk.contains((&v, &adjacency@[v])));
            let j = choose|j: int| 0 <= j < fullk.len() && fullk[j] == (&v, &adjacency@[v]);
            assert(keys@[j] == v);
        }
        assert forall|j: int| 0 <= j < keys@.len() implies adjacency@.contains_key(#[trigger] keys@[j]) by {
            assert(keys@[j] == *fullk[j].0);
        }
        assert forall|v: usize| verts(es).contains(v) implies #[trigger] nbrs(es, v).len() == 2 by {
            assert(fullk.contains((&v, &adjacency@[v])));
            let j = choose|j: int| 0 <= j < fullk.len() && fullk[j] == (&v, &adjacency@[v]);
        }
    }
    let mut seen: BTreeSet<usize> = BTreeSet::new();
    let mut count: usize = 0;
    let ghost mut comps: Set<Set<usize>> = Set::empty();
    let mut i: usize = 0;
    while i < keys.len()
        invariant
            list@.to_set() == es,
            adjacency@.dom() == verts(es),
            forall|v: usize| adjacency@.contains_key(v) ==> keys@.contains(v),
            forall|j: int| 0 <= j < keys@.len() ==> adjacency@.contains_key(#[trigger] keys@[j]),
            i <= keys@.len(),
            count <= i,
            comps.finite(),
            count == comps.len(),
            comps.subset_of(components(es)),
            forall|j: int| 0 <= j < i ==> seen@.contains(#[trigger] keys@[j]),
            forall|x: usize| #[trigger] seen@.contains(x) <==> exists|cc: Set<usize>| comps.contains(cc) && #[trigger] cc.contains(x),
        decreases keys@.len() - i,
    {
        let start = keys[i];
        if !seen.contains(&start) {
            let nodes = flood(&list, start);
            let members = vertex_set_to_vec(&nodes);
            let ghost cc = component(es, start);
            proof {
                lemma_component_closed(es, start);
                assert(verts(es).contains(start));
                assert(components(es).contains(cc));
                if comps.contains(cc) {
                    assert(seen@.contains(start));
                }
            }
            let mut q: usize = 0;
            while q < members.len()
                invariant
                    members@.to_set() == cc,
                    q <= members@.len(),
                    i < keys@.len(),
                    forall|j: int| 0 <= j < i ==> seen@.contains(#[trigger] keys@[j]),
                    forall|x: usize| #[trigger] seen@.contains(x) <==> (exists|dd: Set<usize>| comps.contains(dd) && #[trigger] dd.contains(x)) || exists|j: int| 0 <= j < q && members@[j] == x,
                decreases members@.len() - q,
            {
                seen.insert(members[q]);
                proof {
                    assert forall|x: usize| #[trigger] seen@.contains(x) <==> (exists|dd: Set<usize>| comps.contains(dd) && #[trigger] dd.contains(x)) || exists|j: int| 0 <= j < q + 1 && members@[j] == x by {
                        if x == members@[q as int] {
                        }
                    }
                }
                q = q + 1;
            }
            proof {
                let old_comps = comps;
                comps = comps.insert(cc);
                assert forall|x: usize| #[trigger] seen@.contains(x) <==> exists|dd: Set<usize>| comps.contains(dd) && #[trigger] dd.contains(x) by {
                    if seen@.contains(x) {
                        if !(exists|dd: Set<usize>| old_comps.contains(dd) && #[trigger] dd.contains(x)) {
                            let j = choose|j: int| 0 <= j < members@.len() && members@[j] == x;
                            assert(members@.to_set().contains(x));
                            assert(comps.contains(cc) && cc.contains(x));
                        }
                    }
                    if exists|dd: Set<usize>| comps.contains(dd) && #[trigger] dd.contains(x) {
                        let dd = choose|dd: Set<usize>| comps.contains(dd) && #[trigger] dd.contains(x);
                        if dd == cc {
                            assert(members@.to_set().contains(x));
                            let j = choose|j: int| 0 <= j < members@.len() && members@[j] == x;
                        }
                    }
                }
                assert(seen@.contains(start)) by {
                    assert(cc.contains(start));
                }
            }
            count = count + 1;
        }
        i = i + 1;
    }
    proof {
        assert forall|cc: Set<usize>| components(es).contains(cc) implies comps.contains(cc) by {
            let v = choose|v: usize| verts(es).contains(v) && component(es, v) == cc;
            assert(keys@.contains(v));
            let j = choose|j: int| 0 <= j < keys@.len() && keys@[j] == v;
            assert(seen@.contains(keys@[j]));
            let dd = choose|dd: Set<usize>| comps.contains(dd) && #[trigger] dd.contains(v);
            assert(components(es).contains(dd));
            let w = choose|w: usize| verts(es).contains(w) && component(es, w) == dd;
            lemma_component_symmetric(es, w, v);
        }
        assert(comps =~= components(es));
    }
    Some(count)
}

} // verus!
