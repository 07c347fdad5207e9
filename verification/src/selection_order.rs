//! The order in which a selection lists its candidate edges does not matter:
//! two selections of the same distinct indices get the same answer.

use vstd::prelude::*;
use crate::graph::Edge;
use crate::face_band::{AnchorBandPolicy, FaceBandProblem, FaceBandPlan};
use crate::essential_cycle::{VertexAddress, candidate_position, lemma_vertex_lt_order};
use crate::cycle_labels::{
    key_edges, cycle_indices, validated_key, runtime_slot, runtime_edges, slot_vertex, edge_of, interface_indices,
    cycle_plan_inputs, plan_carries, first_slot_at, lemma_canonical_walk_unique,
};
use crate::cycles::{adj, nbrs, closed, component, connected, verts};
use crate::essential_cycle::{
    CanonicalEdgeId, CanonicalVertexId, EssentialCycleProblem, endpoint_order, add_new, numbered_edges,
    chosen_edges, cycle_order, cycle_graph, below, vertex_lt, lemma_below_len, canonical_walk, simple_walk, least_vertex,
    lemma_endpoint_order_unique, seam_crossings, anchor_scan, anchor_violation, touches_fixed_boundary, selection_malformed,
    not_two_regular, selection_error, coarse_side_spec, coarse_side_faces, open_dual_edges, adjacency_cut, edge_selected,
    same_edge, has_self_loop, loop_key, loop_walk, loop_step, first_nbr, second_nbr, lemma_first_nbr,
};

verus! {

/// The endpoints of the edges.
pub open spec fn endpoint_set(edges: Seq<CanonicalEdgeId>) -> Set<CanonicalVertexId> {
    Set::new(|v: CanonicalVertexId| exists|i: int| 0 <= i < edges.len()
        && ((#[trigger] edges[i]).vertices[0] == v || edges[i].vertices[1] == v))
}

proof fn lemma_endpoint_order_set(edges: Seq<CanonicalEdgeId>)
    ensures
        forall|v: CanonicalVertexId| #[trigger] endpoint_order(edges).contains(v) <==> endpoint_set(edges).contains(v),
    decreases edges.len(),
{
    if edges.len() > 0 {
        let rest = edges.drop_last();
        lemma_endpoint_order_set(rest);
        let o = endpoint_order(rest);
        let e = edges.last();
        let a = add_new(o, e.vertices[0]);
        let b = add_new(a, e.vertices[1]);
        assert forall|v: CanonicalVertexId| #[trigger] b.contains(v) <==> endpoint_set(edges).contains(v) by {
            assert(b.contains(v) <==> (o.contains(v) || v == e.vertices[0] || v == e.vertices[1])) by {
                if !o.contains(e.vertices[0]) {
                    assert(a =~= o.push(e.vertices[0]));
                    if a.contains(v) && v != e.vertices[0] {
                        let k = choose|k: int| 0 <= k < a.len() && a[k] == v;
                        assert(o[k] == v);
                    }
                    if o.contains(v) {
                        let k = choose|k: int| 0 <= k < o.len() && o[k] == v;
                        assert(a[k] == v);
                    }
                    assert(a[o.len() as int] == e.vertices[0]);
                }
                if !a.contains(e.vertices[1]) {
                    if b.contains(v) && v != e.vertices[1] {
                        let k = choose|k: int| 0 <= k < b.len() && b[k] == v;
                        assert(a[k] == v);
                    }
                    if a.contains(v) {
                        let k = choose|k: int| 0 <= k < a.len() && a[k] == v;
                        assert(b[k] == v);
                    }
                    assert(b[a.len() as int] == e.vertices[1]);
                }
            }
            if endpoint_set(edges).contains(v) {
                let i = choose|i: int| 0 <= i < edges.len() && ((#[trigger] edges[i]).vertices[0] == v || edges[i].vertices[1] == v);
                if i < edges.len() - 1 {
                    assert(rest[i] == edges[i]);
                    assert(endpoint_set(rest).contains(v));
                }
            }
            if o.contains(v) {
                assert(endpoint_set(rest).contains(v));
                let i = choose|i: int| 0 <= i < rest.len() && ((#[trigger] rest[i]).vertices[0] == v || rest[i].vertices[1] == v);
                assert(edges[i] == rest[i]);
            }
            if v == e.vertices[0] || v == e.vertices[1] {
                assert(edges[edges.len() - 1] == e);
            }
        }
    }
}

/// The position of `v` in `order`.
pub open spec fn pos_in(order: Seq<CanonicalVertexId>, v: CanonicalVertexId) -> int {
    choose|i: int| 0 <= i < order.len() && order[i] == v
}

/// Position `k` of `o1` carried to the position of the same vertex in `o2`.
pub open spec fn carry(o1: Seq<CanonicalVertexId>, o2: Seq<CanonicalVertexId>, k: usize) -> usize {
    pos_in(o2, o1[k as int]) as usize
}

/// Two duplicate-free listings of one vertex set, and two edge lists with the
/// same edges.
pub open spec fn relisted(e1: Seq<CanonicalEdgeId>, o1: Seq<CanonicalVertexId>, e2: Seq<CanonicalEdgeId>,
    o2: Seq<CanonicalVertexId>) -> bool {
    &&& o1.no_duplicates()
    &&& o2.no_duplicates()
    &&& forall|v: CanonicalVertexId| o1.contains(v) <==> o2.contains(v)
    &&& forall|e: CanonicalEdgeId| e1.contains(e) <==> e2.contains(e)
    &&& o2.len() <= usize::MAX
}

proof fn lemma_carry(e1: Seq<CanonicalEdgeId>, o1: Seq<CanonicalVertexId>, e2: Seq<CanonicalEdgeId>, o2: Seq<CanonicalVertexId>)
    requires
        relisted(e1, o1, e2, o2),
    ensures
        o1.len() == o2.len(),
        forall|k: usize| k < o1.len() ==> #[trigger] carry(o1, o2, k) < o2.len() && o2[carry(o1, o2, k) as int] == o1[k as int],
        forall|k: usize, l: usize| k < o1.len() && l < o1.len() && #[trigger] carry(o1, o2, k) == #[trigger] carry(o1, o2, l) ==> k == l,
        forall|m: usize| m < o2.len() ==> #[trigger] carry(o2, o1, m) < o1.len() && carry(o1, o2, carry(o2, o1, m)) == m,
        forall|a: usize, b: usize| a < o1.len() && b < o1.len() ==>
            (#[trigger] numbered_edges(e1, o1).contains((a, b)) <==> numbered_edges(e2, o2).contains((carry(o1, o2, a), carry(o1, o2, b)))),
{
    assert(o1.to_set() =~= o2.to_set());
    o1.unique_seq_to_set();
    o2.unique_seq_to_set();
    assert forall|k: usize| k < o1.len() implies #[trigger] carry(o1, o2, k) < o2.len() && o2[carry(o1, o2, k) as int] == o1[k as int] by {
        assert(o1.contains(o1[k as int]));
    }
    assert forall|m: usize| m < o2.len() implies #[trigger] carry(o2, o1, m) < o1.len() && carry(o1, o2, carry(o2, o1, m)) == m by {
        assert(o2.contains(o2[m as int]));
        let k = carry(o2, o1, m);
        assert(0 <= k < o1.len() && o1[k as int] == o2[m as int]);
        assert(o1.contains(o1[k as int]));
        assert(o2[carry(o1, o2, k) as int] == o1[k as int]);
    }
    assert forall|a: usize, b: usize| a < o1.len() && b < o1.len() implies
        (#[trigger] numbered_edges(e1, o1).contains((a, b)) <==> numbered_edges(e2, o2).contains((carry(o1, o2, a), carry(o1, o2, b)))) by {
        let ca = carry(o1, o2, a);
        let cb = carry(o1, o2, b);
        assert(o2[ca as int] == o1[a as int] && o2[cb as int] == o1[b as int]);
        if numbered_edges(e1, o1).contains((a, b)) {
            let i = choose|i: int| 0 <= i < e1.len() && (a, b).0 < o1.len() && (a, b).1 < o1.len()
                && o1[(a, b).0 as int] == (#[trigger] e1[i]).vertices[0] && o1[(a, b).1 as int] == e1[i].vertices[1];
            assert(e1.contains(e1[i]));
            let j = choose|j: int| 0 <= j < e2.len() && e2[j] == e1[i];
            assert(numbered_edges(e2, o2).contains((ca, cb)));
        }
        if numbered_edges(e2, o2).contains((ca, cb)) {
            let j = choose|j: int| 0 <= j < e2.len() && (ca, cb).0 < o2.len() && (ca, cb).1 < o2.len()
                && o2[(ca, cb).0 as int] == (#[trigger] e2[j]).vertices[0] && o2[(ca, cb).1 as int] == e2[j].vertices[1];
            assert(e2.contains(e2[j]));
            let i = choose|i: int| 0 <= i < e1.len() && e1[i] == e2[j];
            assert(numbered_edges(e1, o1).contains((a, b)));
        }
    }
}

proof fn lemma_nbrs_carried(e1: Seq<CanonicalEdgeId>, o1: Seq<CanonicalVertexId>, e2: Seq<CanonicalEdgeId>, o2: Seq<CanonicalVertexId>,
    k: usize)
    requires
        relisted(e1, o1, e2, o2),
        k < o1.len(),
    ensures
        nbrs(numbered_edges(e2, o2), carry(o1, o2, k)) == nbrs(numbered_edges(e1, o1), k).map(|u: usize| carry(o1, o2, u)),
        nbrs(numbered_edges(e1, o1), k).finite(),
        nbrs(numbered_edges(e1, o1), k).subset_of(below(o1.len() as nat)),
        nbrs(numbered_edges(e2, o2), carry(o1, o2, k)).len() == nbrs(numbered_edges(e1, o1), k).len(),
{
    lemma_carry(e1, o1, e2, o2);
    let g1 = numbered_edges(e1, o1);
    let g2 = numbered_edges(e2, o2);
    let f = |u: usize| carry(o1, o2, u);
    let n1 = nbrs(g1, k);
    let ck = carry(o1, o2, k);
    assert(n1.subset_of(below(o1.len() as nat))) by {
        assert forall|u: usize| n1.contains(u) implies below(o1.len() as nat).contains(u) by {
            if g1.contains((k, u)) {
                let i = choose|i: int| 0 <= i < e1.len() && (k, u).0 < o1.len() && (k, u).1 < o1.len()
                    && o1[(k, u).0 as int] == (#[trigger] e1[i]).vertices[0] && o1[(k, u).1 as int] == e1[i].vertices[1];
            } else {
                let i = choose|i: int| 0 <= i < e1.len() && (u, k).0 < o1.len() && (u, k).1 < o1.len()
                    && o1[(u, k).0 as int] == (#[trigger] e1[i]).vertices[0] && o1[(u, k).1 as int] == e1[i].vertices[1];
            }
        }
    }
    lemma_below_len(o1.len() as nat);
    vstd::set_lib::lemma_len_subset(n1, below(o1.len() as nat));
    assert(nbrs(g2, ck) =~= n1.map(f)) by {
        assert forall|m: usize| nbrs(g2, ck).contains(m) implies n1.map(f).contains(m) by {
            let i = if g2.contains((ck, m)) {
                choose|i: int| 0 <= i < e2.len() && (ck, m).0 < o2.len() && (ck, m).1 < o2.len()
                    && o2[(ck, m).0 as int] == (#[trigger] e2[i]).vertices[0] && o2[(ck, m).1 as int] == e2[i].vertices[1]
            } else {
                choose|i: int| 0 <= i < e2.len() && (m, ck).0 < o2.len() && (m, ck).1 < o2.len()
                    && o2[(m, ck).0 as int] == (#[trigger] e2[i]).vertices[0] && o2[(m, ck).1 as int] == e2[i].vertices[1]
            };
            assert(m < o2.len());
            let u = carry(o2, o1, m);
            assert(carry(o1, o2, u) == m);
            assert(numbered_edges(e1, o1).contains((k, u)) <==> g2.contains((ck, m)));
            assert(numbered_edges(e1, o1).contains((u, k)) <==> g2.contains((m, ck)));
            assert(n1.contains(u));
            assert(f(u) == m);
        }
        assert forall|m: usize| n1.map(f).contains(m) implies nbrs(g2, ck).contains(m) by {
            let u = choose|u: usize| n1.contains(u) && f(u) == m;
            assert(below(o1.len() as nat).contains(u));
            assert(g1.contains((k, u)) <==> g2.contains((ck, m)));
            assert(g1.contains((u, k)) <==> g2.contains((m, ck)));
        }
    }
    assert(vstd::relations::injective_on(f, n1)) by {
        assert forall|x1: usize, x2: usize| n1.contains(x1) && n1.contains(x2) && #[trigger] f(x1) == #[trigger] f(x2) implies x1 == x2 by {
            assert(below(o1.len() as nat).contains(x1) && below(o1.len() as nat).contains(x2));
        }
    }
    vstd::set_lib::lemma_map_size(n1, n1.map(f), f);
}

proof fn lemma_connected_carried(e1: Seq<CanonicalEdgeId>, o1: Seq<CanonicalVertexId>, e2: Seq<CanonicalEdgeId>,
    o2: Seq<CanonicalVertexId>)
    requires
        relisted(e1, o1, e2, o2),
        connected(numbered_edges(e1, o1)),
    ensures
        connected(numbered_edges(e2, o2)),
{
    lemma_carry(e1, o1, e2, o2);
    lemma_carry(e2, o2, e1, o1);
    let g1 = numbered_edges(e1, o1);
    let g2 = numbered_edges(e2, o2);
    assert forall|u2: usize, v2: usize| verts(g2).contains(u2) && verts(g2).contains(v2)
        implies #[trigger] component(g2, u2).contains(v2) by {
        let eu = choose|e: Edge| #[trigger] g2.contains(e) && (e.0 == u2 || e.1 == u2);
        let ev = choose|e: Edge| #[trigger] g2.contains(e) && (e.0 == v2 || e.1 == v2);
        lemma_endpoints_below(e2, o2, eu);
        lemma_endpoints_below(e2, o2, ev);
        let u1 = carry(o2, o1, u2);
        let v1 = carry(o2, o1, v2);
        let ceu = (carry(o2, o1, eu.0), carry(o2, o1, eu.1));
        let cev = (carry(o2, o1, ev.0), carry(o2, o1, ev.1));
        assert(g1.contains(ceu));
        assert(g1.contains(cev));
        assert(verts(g1).contains(u1));
        assert(verts(g1).contains(v1));
        assert(component(g1, u1).contains(v1));
        assert forall|s2: Set<usize>| closed(g2, s2) && s2.contains(u2) implies #[trigger] s2.contains(v2) by {
            let s1 = Set::new(|x: usize| x < o1.len() && s2.contains(carry(o1, o2, x)));
            assert(closed(g1, s1)) by {
                assert forall|a: usize, b: usize| s1.contains(a) && #[trigger] adj(g1, a, b) implies s1.contains(b) by {
                    let ea = if g1.contains((a, b)) { (a, b) } else { (b, a) };
                    lemma_endpoints_below(e1, o1, ea);
                    assert(g2.contains((carry(o1, o2, ea.0), carry(o1, o2, ea.1))));
                    assert(adj(g2, carry(o1, o2, a), carry(o1, o2, b)));
                }
            }
            assert(s1.contains(u1));
            assert(s1.contains(v1));
        }
    }
}

proof fn lemma_endpoints_below(e: Seq<CanonicalEdgeId>, o: Seq<CanonicalVertexId>, x: Edge)
    requires
        numbered_edges(e, o).contains(x),
    ensures
        x.0 < o.len(),
        x.1 < o.len(),
{
}

/// The two selections list the same edges, their vertices in two orders.
pub open spec fn same_cycle_graph(problem: EssentialCycleProblem, s1: Seq<usize>, s2: Seq<usize>) -> bool {
    relisted(chosen_edges(problem, s1), cycle_order(problem, s1), chosen_edges(problem, s2), cycle_order(problem, s2))
}

proof fn lemma_walk_carried(problem: EssentialCycleProblem, s1: Seq<usize>, s2: Seq<usize>, w1: Seq<usize>)
    requires
        same_cycle_graph(problem, s1, s2),
        canonical_walk(problem, s1, w1),
    ensures
        ({
            let o1 = cycle_order(problem, s1);
            let o2 = cycle_order(problem, s2);
            let w2 = Seq::new(w1.len(), |i: int| carry(o1, o2, w1[i]));
            &&& canonical_walk(problem, s2, w2)
            &&& w2.map_values(|i: usize| o2[i as int]) == w1.map_values(|i: usize| o1[i as int])
        }),
{
    let e1 = chosen_edges(problem, s1);
    let e2 = chosen_edges(problem, s2);
    let o1 = cycle_order(problem, s1);
    let o2 = cycle_order(problem, s2);
    let g1 = cycle_graph(problem, s1);
    let g2 = cycle_graph(problem, s2);
    lemma_carry(e1, o1, e2, o2);
    let w2 = Seq::new(w1.len(), |i: int| carry(o1, o2, w1[i]));
    assert forall|a: usize, b: usize| a < o1.len() && b < o1.len() implies
        (#[trigger] adj(g1, a, b) <==> adj(g2, carry(o1, o2, a), carry(o1, o2, b))) by {
        assert(numbered_edges(e1, o1).contains((a, b)) <==> numbered_edges(e2, o2).contains((carry(o1, o2, a), carry(o1, o2, b))));
        assert(numbered_edges(e1, o1).contains((b, a)) <==> numbered_edges(e2, o2).contains((carry(o1, o2, b), carry(o1, o2, a))));
    }
    assert(simple_walk(g2, w2)) by {
        assert forall|x: int, y: int| 0 <= x < y < w2.len() implies w2[x] != w2[y] by {
            assert(w1[x] != w1[y]);
        }
        assert forall|i: int| 0 <= i < w2.len() - 1 implies #[trigger] adj(g2, w2[i], w2[i + 1]) by {
            assert(adj(g1, w1[i], w1[i + 1]));
        }
    }
    assert(adj(g2, w2.last(), w2[0])) by {
        assert(adj(g1, w1.last(), w1[0]));
    }
    assert(least_vertex(o2, w2[0] as int)) by {
        assert forall|j: int| 0 <= j < o2.len() && j != w2[0] implies vertex_lt(o2[w2[0] as int], #[trigger] o2[j]) by {
            let k = carry(o2, o1, j as usize);
            assert(carry(o1, o2, k) == j);
            assert(k != w1[0]);
            assert(o1[k as int] == o2[j]);
            assert(vertex_lt(o1[w1[0] as int], o1[k as int]));
        }
    }
    assert(nbrs(g2, w2[0]).contains(w2[1])) by {
        assert(nbrs(g1, w1[0]).contains(w1[1]));
        assert(adj(g1, w1[0], w1[1]));
    }
    assert forall|x: usize| nbrs(g2, w2[0]).contains(x) && x != w2[1] implies vertex_lt(o2[w2[1] as int], o2[x as int]) by {
        let ex = if g2.contains((w2[0], x)) { (w2[0], x) } else { (x, w2[0]) };
        lemma_endpoints_below(e2, o2, ex);
        let y = carry(o2, o1, x);
        assert(carry(o1, o2, y) == x);
        assert(adj(g1, w1[0], y));
        assert(nbrs(g1, w1[0]).contains(y));
        assert(y != w1[1]);
        assert(o1[y as int] == o2[x as int]);
    }
    assert(w2.map_values(|i: usize| o2[i as int]) =~= w1.map_values(|i: usize| o1[i as int]));
}

/// The two selections name the same indices, as many times in all.
pub open spec fn same_indices(s1: Seq<usize>, s2: Seq<usize>) -> bool {
    &&& s1.len() == s2.len()
    &&& forall|x: usize| s1.contains(x) <==> s2.contains(x)
}

proof fn lemma_endpoint_order_len(edges: Seq<CanonicalEdgeId>)
    ensures
        endpoint_order(edges).len() <= 2 * edges.len(),
    decreases edges.len(),
{
    if edges.len() > 0 {
        lemma_endpoint_order_len(edges.drop_last());
    }
}

proof fn lemma_same_chosen(problem: EssentialCycleProblem, s1: Seq<usize>, s2: Seq<usize>)
    requires
        same_indices(s1, s2),
    ensures
        forall|e: CanonicalEdgeId| chosen_edges(problem, s1).contains(e) <==> chosen_edges(problem, s2).contains(e),
{
    assert forall|e: CanonicalEdgeId| chosen_edges(problem, s1).contains(e) implies chosen_edges(problem, s2).contains(e) by {
        let i = choose|i: int| 0 <= i < chosen_edges(problem, s1).len() && chosen_edges(problem, s1)[i] == e;
        assert(s1.contains(s1[i]));
        let j = choose|j: int| 0 <= j < s2.len() && s2[j] == s1[i];
        assert(chosen_edges(problem, s2)[j] == e);
    }
    assert forall|e: CanonicalEdgeId| chosen_edges(problem, s2).contains(e) implies chosen_edges(problem, s1).contains(e) by {
        let i = choose|i: int| 0 <= i < chosen_edges(problem, s2).len() && chosen_edges(problem, s2)[i] == e;
        assert(s2.contains(s2[i]));
        let j = choose|j: int| 0 <= j < s1.len() && s1[j] == s2[i];
        assert(chosen_edges(problem, s1)[j] == e);
    }
}

proof fn lemma_same_graph(problem: EssentialCycleProblem, s1: Seq<usize>, s2: Seq<usize>)
    requires
        same_indices(s1, s2),
        s1.len() <= usize::MAX / 2,
    ensures
        same_cycle_graph(problem, s1, s2),
        forall|v: CanonicalVertexId| cycle_order(problem, s1).contains(v) <==> cycle_order(problem, s2).contains(v),
{
    let e1 = chosen_edges(problem, s1);
    let e2 = chosen_edges(problem, s2);
    lemma_same_chosen(problem, s1, s2);
    lemma_endpoint_order_unique(e1);
    lemma_endpoint_order_unique(e2);
    lemma_endpoint_order_set(e1);
    lemma_endpoint_order_set(e2);
    lemma_endpoint_order_len(e2);
    assert forall|v: CanonicalVertexId| endpoint_set(e1).contains(v) <==> endpoint_set(e2).contains(v) by {
        if endpoint_set(e1).contains(v) {
            let i = choose|i: int| 0 <= i < e1.len() && ((#[trigger] e1[i]).vertices[0] == v || e1[i].vertices[1] == v);
            assert(e1.contains(e1[i]));
            let j = choose|j: int| 0 <= j < e2.len() && e2[j] == e1[i];
            assert(endpoint_set(e2).contains(v));
        }
        if endpoint_set(e2).contains(v) {
            let i = choose|i: int| 0 <= i < e2.len() && ((#[trigger] e2[i]).vertices[0] == v || e2[i].vertices[1] == v);
            assert(e2.contains(e2[i]));
            let j = choose|j: int| 0 <= j < e1.len() && e1[j] == e2[i];
            assert(endpoint_set(e1).contains(v));
        }
    }
    assert forall|v: CanonicalVertexId| cycle_order(problem, s1).contains(v) <==> cycle_order(problem, s2).contains(v) by {
        assert(endpoint_order(e1).contains(v) <==> endpoint_set(e1).contains(v));
        assert(endpoint_order(e2).contains(v) <==> endpoint_set(e2).contains(v));
    }
}

proof fn lemma_seam_crossings_set(seam: Seq<bool>, s: Seq<usize>)
    requires
        s.no_duplicates(),
    ensures
        seam_crossings(seam, s) == s.to_set().filter(|i: usize| i < seam.len() && seam[i as int]).len(),
        s.to_set().finite(),
    decreases s.len(),
{
    let f = |i: usize| i < seam.len() && seam[i as int];
    if s.len() == 0 {
        assert(s.to_set() =~= Set::<usize>::empty());
        assert(s.to_set().filter(f) =~= Set::<usize>::empty());
    } else {
        let r = s.drop_last();
        assert(r.no_duplicates()) by {
            assert forall|x: int, y: int| 0 <= x < y < r.len() implies r[x] != r[y] by {
                assert(s[x] != s[y]);
            }
        }
        lemma_seam_crossings_set(seam, r);
        assert(s =~= r.push(s.last()));
        r.lemma_push_to_set_commute(s.last());
        assert(!r.to_set().contains(s.last())) by {
            if r.contains(s.last()) {
                let k = choose|k: int| 0 <= k < r.len() && r[k] == s.last();
                assert(s[k] == s[s.len() - 1]);
            }
        }
        if f(s.last()) {
            assert(s.to_set().filter(f) =~= r.to_set().filter(f).insert(s.last()));
        } else {
            assert(s.to_set().filter(f) =~= r.to_set().filter(f));
        }
    }
}

proof fn lemma_anchor_scan_same(policies: Seq<(CanonicalVertexId, AnchorBandPolicy)>, o1: Seq<CanonicalVertexId>,
    o2: Seq<CanonicalVertexId>)
    requires
        forall|v: CanonicalVertexId| o1.contains(v) <==> o2.contains(v),
    ensures
        anchor_scan(policies, o1) == anchor_scan(policies, o2),
    decreases policies.len(),
{
    if policies.len() > 0 {
        lemma_anchor_scan_same(policies.drop_last(), o1, o2);
        assert(anchor_violation(policies.last(), o1) == anchor_violation(policies.last(), o2));
    }
}

proof fn lemma_coarse_side_same(problem: EssentialCycleProblem, s1: Seq<usize>, s2: Seq<usize>)
    requires
        same_indices(s1, s2),
    ensures
        coarse_side_spec(problem, s1) == coarse_side_spec(problem, s2),
{
    assert forall|e: CanonicalEdgeId| edge_selected(problem, s1, e) <==> edge_selected(problem, s2, e) by {
        if edge_selected(problem, s1, e) {
            let j = choose|j: int| 0 <= j < s1.len() && #[trigger] same_edge(problem.candidate_edges@[s1[j] as int], e);
            assert(s1.contains(s1[j]));
            let k = choose|k: int| 0 <= k < s2.len() && s2[k] == s1[j];
            assert(same_edge(problem.candidate_edges@[s2[k] as int], e));
        }
        if edge_selected(problem, s2, e) {
            let j = choose|j: int| 0 <= j < s2.len() && #[trigger] same_edge(problem.candidate_edges@[s2[j] as int], e);
            assert(s2.contains(s2[j]));
            let k = choose|k: int| 0 <= k < s1.len() && s1[k] == s2[j];
            assert(same_edge(problem.candidate_edges@[s1[k] as int], e));
        }
    }
    assert forall|k: int| adjacency_cut(problem, s1, k) <==> adjacency_cut(problem, s2, k) by {
    }
    assert(open_dual_edges(problem, s1) =~= open_dual_edges(problem, s2)) by {
        assert forall|x| open_dual_edges(problem, s1).contains(x) <==> open_dual_edges(problem, s2).contains(x) by {
            if open_dual_edges(problem, s1).contains(x) {
                let k = choose|k: int| 0 <= k < problem.problem_key.face_adjacency_edges@.len()
                    && x == (problem.problem_key.face_adjacency_edges@[k].0.address, problem.problem_key.face_adjacency_edges@[k].1.address)
                    && !#[trigger] adjacency_cut(problem, s1, k);
                assert(!adjacency_cut(problem, s2, k));
            }
            if open_dual_edges(problem, s2).contains(x) {
                let k = choose|k: int| 0 <= k < problem.problem_key.face_adjacency_edges@.len()
                    && x == (problem.problem_key.face_adjacency_edges@[k].0.address, problem.problem_key.face_adjacency_edges@[k].1.address)
                    && !#[trigger] adjacency_cut(problem, s2, k);
                assert(!adjacency_cut(problem, s1, k));
            }
        }
    }
    assert((exists|j: int| 0 <= j < s1.len() && s1[j] >= problem.candidate_edges@.len())
        <==> (exists|j: int| 0 <= j < s2.len() && s2[j] >= problem.candidate_edges@.len())) by {
        if exists|j: int| 0 <= j < s1.len() && s1[j] >= problem.candidate_edges@.len() {
            let j = choose|j: int| 0 <= j < s1.len() && s1[j] >= problem.candidate_edges@.len();
            assert(s1.contains(s1[j]));
            let k = choose|k: int| 0 <= k < s2.len() && s2[k] == s1[j];
        }
        if exists|j: int| 0 <= j < s2.len() && s2[j] >= problem.candidate_edges@.len() {
            let j = choose|j: int| 0 <= j < s2.len() && s2[j] >= problem.candidate_edges@.len();
            assert(s2.contains(s2[j]));
            let k = choose|k: int| 0 <= k < s1.len() && s1[k] == s2[j];
        }
    }
}

proof fn lemma_two_regular_same(problem: EssentialCycleProblem, s1: Seq<usize>, s2: Seq<usize>)
    requires
        same_cycle_graph(problem, s1, s2),
        same_cycle_graph(problem, s2, s1),
    ensures
        not_two_regular(problem, s1) == not_two_regular(problem, s2),
        connected(cycle_graph(problem, s1)) == connected(cycle_graph(problem, s2)),
{
    let e1 = chosen_edges(problem, s1);
    let e2 = chosen_edges(problem, s2);
    let o1 = cycle_order(problem, s1);
    let o2 = cycle_order(problem, s2);
    lemma_carry(e1, o1, e2, o2);
    lemma_carry(e2, o2, e1, o1);
    if exists|k: usize| k < o1.len() && #[trigger] nbrs(cycle_graph(problem, s1), k).len() != 2 {
        let k = choose|k: usize| k < o1.len() && #[trigger] nbrs(cycle_graph(problem, s1), k).len() != 2;
        lemma_nbrs_carried(e1, o1, e2, o2, k);
        assert(nbrs(cycle_graph(problem, s2), carry(o1, o2, k)).len() != 2);
    }
    if exists|k: usize| k < o2.len() && #[trigger] nbrs(cycle_graph(problem, s2), k).len() != 2 {
        let k = choose|k: usize| k < o2.len() && #[trigger] nbrs(cycle_graph(problem, s2), k).len() != 2;
        lemma_nbrs_carried(e2, o2, e1, o1, k);
        assert(nbrs(cycle_graph(problem, s1), carry(o2, o1, k)).len() != 2);
    }
    if connected(cycle_graph(problem, s1)) {
        lemma_connected_carried(e1, o1, e2, o2);
    }
    if connected(cycle_graph(problem, s2)) {
        lemma_connected_carried(e2, o2, e1, o1);
    }
}

/// The order of a selection does not matter: two selections that name the
/// same indices, as many in all, get the same refusal or none, and each
/// canonical walk around the one's cycle has a canonical walk around the
/// other's through the same vertices.
pub proof fn selection_order_is_irrelevant(problem: EssentialCycleProblem, s1: Seq<usize>, s2: Seq<usize>)
    requires
        same_indices(s1, s2),
        s1.len() <= usize::MAX / 2,
    ensures
        selection_error(problem, s1) == selection_error(problem, s2),
        forall|w1: Seq<usize>| #[trigger] canonical_walk(problem, s1, w1) ==> exists|w2: Seq<usize>| canonical_walk(problem, s2, w2)
            && w2.map_values(|i: usize| cycle_order(problem, s2)[i as int])
                == w1.map_values(|i: usize| cycle_order(problem, s1)[i as int]),
{
    assert(s1.to_set() =~= s2.to_set());
    if s1.no_duplicates() {
        s1.unique_seq_to_set();
        s2.lemma_no_dup_set_cardinality();
    }
    if s2.no_duplicates() {
        s2.unique_seq_to_set();
        s1.lemma_no_dup_set_cardinality();
    }
    assert((exists|j: int| 0 <= j < s1.len() && s1[j] >= problem.candidate_edges@.len())
        <==> (exists|j: int| 0 <= j < s2.len() && s2[j] >= problem.candidate_edges@.len())) by {
        if exists|j: int| 0 <= j < s1.len() && s1[j] >= problem.candidate_edges@.len() {
            let j = choose|j: int| 0 <= j < s1.len() && s1[j] >= problem.candidate_edges@.len();
            assert(s1.contains(s1[j]));
            let k = choose|k: int| 0 <= k < s2.len() && s2[k] == s1[j];
        }
        if exists|j: int| 0 <= j < s2.len() && s2[j] >= problem.candidate_edges@.len() {
            let j = choose|j: int| 0 <= j < s2.len() && s2[j] >= problem.candidate_edges@.len();
            assert(s2.contains(s2[j]));
            let k = choose|k: int| 0 <= k < s1.len() && s1[k] == s2[j];
        }
    }
    assert(selection_malformed(problem, s1) == selection_malformed(problem, s2));
    lemma_same_graph(problem, s1, s2);
    lemma_same_graph(problem, s2, s1);
    lemma_two_regular_same(problem, s1, s2);
    let o1 = cycle_order(problem, s1);
    let o2 = cycle_order(problem, s2);
    assert(touches_fixed_boundary(problem, o1) == touches_fixed_boundary(problem, o2)) by {
        if touches_fixed_boundary(problem, o1) {
            let k = choose|k: int| 0 <= k < o1.len() && (problem.coarse_boundary_vertices@.contains(#[trigger] o1[k])
                || problem.fine_boundary_vertices@.contains(o1[k]));
            assert(o1.contains(o1[k]));
            let j = choose|j: int| 0 <= j < o2.len() && o2[j] == o1[k];
            assert(problem.coarse_boundary_vertices@.contains(o2[j]) || problem.fine_boundary_vertices@.contains(o2[j]));
        }
        if touches_fixed_boundary(problem, o2) {
            let k = choose|k: int| 0 <= k < o2.len() && (problem.coarse_boundary_vertices@.contains(#[trigger] o2[k])
                || problem.fine_boundary_vertices@.contains(o2[k]));
            assert(o2.contains(o2[k]));
            let j = choose|j: int| 0 <= j < o1.len() && o1[j] == o2[k];
            assert(problem.coarse_boundary_vertices@.contains(o1[j]) || problem.fine_boundary_vertices@.contains(o1[j]));
        }
    }
    lemma_anchor_scan_same(problem.anchor_policies@, o1, o2);
    if s1.no_duplicates() {
        lemma_seam_crossings_set(problem.dual_seam_crossing_edges@, s1);
        lemma_seam_crossings_set(problem.dual_seam_crossing_edges@, s2);
    }
    lemma_coarse_side_same(problem, s1, s2);
    assert forall|w1: Seq<usize>| #[trigger] canonical_walk(problem, s1, w1) implies exists|w2: Seq<usize>| canonical_walk(problem, s2, w2)
        && w2.map_values(|i: usize| cycle_order(problem, s2)[i as int])
            == w1.map_values(|i: usize| cycle_order(problem, s1)[i as int]) by {
        lemma_walk_carried(problem, s1, s2, w1);
        let w2 = Seq::new(w1.len(), |i: int| carry(o1, o2, w1[i]));
        assert(canonical_walk(problem, s2, w2));
    }
}

pub(crate) proof fn lemma_cycle_indices_ok(candidates: Seq<CanonicalEdgeId>, edges: Seq<CanonicalEdgeId>, upto: int)
    requires
        0 <= upto,
        cycle_indices(candidates, edges, upto) is Ok,
        candidates.len() <= usize::MAX,
    ensures
        ({
            let sel = cycle_indices(candidates, edges, upto)->Ok_0;
            &&& sel.len() == upto
            &&& forall|k: int| 0 <= k < upto ==> candidate_position(candidates, #[trigger] edges[k], candidates.len() as int)
                == Some(sel[k] as int)
        }),
    decreases upto,
{
    if upto > 0 {
        lemma_cycle_indices_ok(candidates, edges, upto - 1);
        crate::cycle_problem::lemma_candidate_position_bound(candidates, edges[upto - 1], candidates.len() as int);
    }
}

/// The runtime edge of a canonical edge: its two runtime slots, smaller first.
pub open spec fn runtime_edge_of(n: usize, addresses: Seq<Option<VertexAddress>>, e: CanonicalEdgeId) -> Edge {
    let l = runtime_slot(n, addresses, e.vertices[0])->Ok_0;
    let r = runtime_slot(n, addresses, e.vertices[1])->Ok_0;
    if l <= r { (l, r) } else { (r, l) }
}

proof fn lemma_runtime_edges_ok(n: usize, addresses: Seq<Option<VertexAddress>>, edges: Seq<CanonicalEdgeId>, upto: int)
    requires
        0 <= upto,
        runtime_edges(n, addresses, edges, upto) is Ok,
    ensures
        ({
            let es = runtime_edges(n, addresses, edges, upto)->Ok_0;
            &&& es.len() == upto
            &&& forall|k: int| 0 <= k < upto ==> runtime_slot(n, addresses, (#[trigger] edges[k]).vertices[0]) is Ok
                && runtime_slot(n, addresses, edges[k].vertices[1]) is Ok
                && es[k] == runtime_edge_of(n, addresses, edges[k])
        }),
    decreases upto,
{
    if upto > 0 {
        lemma_runtime_edges_ok(n, addresses, edges, upto - 1);
    }
}

proof fn lemma_first_slot_exists(addresses: Seq<Option<VertexAddress>>, a: VertexAddress, i: int)
    requires
        0 <= i < addresses.len(),
        addresses[i] == Some(a),
    ensures
        exists|j: int| first_slot_at(addresses, a, j),
    decreases i,
{
    if exists|j: int| 0 <= j < i && addresses[j] == Some(a) {
        let j = choose|j: int| 0 <= j < i && addresses[j] == Some(a);
        lemma_first_slot_exists(addresses, a, j);
    } else {
        assert(first_slot_at(addresses, a, i));
    }
}

/// A frozen vertex of `cycle` names a slot that has no address.
pub open spec fn frozen_slots_unaddressed(addresses: Seq<Option<VertexAddress>>, cycle: Seq<CanonicalVertexId>) -> bool {
    forall|k: int| 0 <= k < cycle.len() ==> match #[trigger] cycle[k] {
        CanonicalVertexId::FrozenSourceSlot { slot, .. } => !(slot < addresses.len() && addresses[slot as int] is Some),
        CanonicalVertexId::Address(_) => true,
    }
}

proof fn lemma_slot_round_trip(n: usize, addresses: Seq<Option<VertexAddress>>, v: CanonicalVertexId)
    requires
        runtime_slot(n, addresses, v) is Ok,
        addresses.len() <= usize::MAX,
        match v {
            CanonicalVertexId::FrozenSourceSlot { slot, .. } => !(slot < addresses.len() && addresses[slot as int] is Some),
            CanonicalVertexId::Address(_) => true,
        },
    ensures
        slot_vertex(n, addresses, runtime_slot(n, addresses, v)->Ok_0) == v,
{
    match v {
        CanonicalVertexId::Address(a) => {
            let i = choose|i: int| 0 <= i < addresses.len() && addresses[i] == Some(a);
            lemma_first_slot_exists(addresses, a, i);
            let j = choose|j: int| first_slot_at(addresses, a, j);
            assert(runtime_slot(n, addresses, v)->Ok_0 == j as usize);
        },
        CanonicalVertexId::FrozenSourceSlot { .. } => {},
    }
}

proof fn lemma_edge_of_symmetric(a: CanonicalVertexId, b: CanonicalVertexId)
    ensures
        edge_of(a, b) == edge_of(b, a),
        edge_of(edge_of(a, b).vertices[0], edge_of(a, b).vertices[1]) == edge_of(a, b),
{
    lemma_vertex_lt_order(a, b, a);
    lemma_vertex_lt_order(b, a, b);
    if a != b {
        assert(edge_of(a, b).vertices =~= edge_of(b, a).vertices);
    }
    let e = edge_of(a, b);
    assert(edge_of(e.vertices[0], e.vertices[1]).vertices =~= e.vertices);
}

/// The candidate position of the canonical edge that a runtime edge names.
pub open spec fn runtime_position(n: usize, addresses: Seq<Option<VertexAddress>>, candidates: Seq<CanonicalEdgeId>, e: Edge)
    -> Option<int> {
    candidate_position(candidates, edge_of(slot_vertex(n, addresses, e.0), slot_vertex(n, addresses, e.1)), candidates.len() as int)
}

proof fn lemma_interface_indices_ok(n: usize, addresses: Seq<Option<VertexAddress>>, candidates: Seq<CanonicalEdgeId>,
    edges: Seq<Edge>, upto: int)
    requires
        0 <= upto <= edges.len(),
        candidates.len() <= usize::MAX,
        forall|j: int| 0 <= j < upto ==> runtime_position(n, addresses, candidates, #[trigger] edges[j]) is Some,
    ensures
        interface_indices(n, addresses, candidates, edges, upto) is Ok,
        ({
            let sel = interface_indices(n, addresses, candidates, edges, upto)->Ok_0;
            &&& sel.len() == upto
            &&& forall|j: int| 0 <= j < upto ==> Some(sel[j] as int) == runtime_position(n, addresses, candidates, #[trigger] edges[j])
        }),
    decreases upto,
{
    if upto > 0 {
        lemma_interface_indices_ok(n, addresses, candidates, edges, upto - 1);
        crate::cycle_problem::lemma_candidate_position_bound(candidates,
            edge_of(slot_vertex(n, addresses, edges[upto - 1].0), slot_vertex(n, addresses, edges[upto - 1].1)), candidates.len() as int);
    }
}

/// A cycle survives the trip through its plan: where an essential cycle
/// gives a plan (its labels and interface edges, in any order), reading the
/// plan's interface back as candidate indices gives a selection that passes
/// every check, and every canonical walk around it lists the cycle's
/// vertices in the cycle's order. This needs each frozen vertex of the cycle
/// to name a slot without an address (such a slot reads back as its address).
pub proof fn cycle_plan_round_trip(n: usize, addresses: Seq<Option<VertexAddress>>, fp: FaceBandProblem,
    problem: EssentialCycleProblem, cycle: Seq<CanonicalVertexId>, plan: FaceBandPlan)
    requires
        addresses.len() <= usize::MAX,
        problem.candidate_edges@.len() <= usize::MAX,
        cycle.len() <= usize::MAX / 2,
        cycle_plan_inputs(n, addresses, fp, problem, cycle) is Ok,
        plan_carries(plan, (cycle_plan_inputs(n, addresses, fp, problem, cycle)->Ok_0).0,
            (cycle_plan_inputs(n, addresses, fp, problem, cycle)->Ok_0).1),
        frozen_slots_unaddressed(addresses, cycle),
    ensures
        interface_indices(n, addresses, problem.candidate_edges@, plan.interface_edges@[0]@,
            plan.interface_edges@[0]@.len() as int) is Ok,
        ({
            let sel = interface_indices(n, addresses, problem.candidate_edges@, plan.interface_edges@[0]@,
                plan.interface_edges@[0]@.len() as int)->Ok_0;
            &&& selection_error(problem, sel) is None
            &&& !has_self_loop(problem, sel)
            &&& forall|w: Seq<usize>| #[trigger] canonical_walk(problem, sel, w)
                ==> w.map_values(|i: usize| cycle_order(problem, sel)[i as int]) == cycle
        }),
{
    let cands = problem.candidate_edges@;
    let e = key_edges(cycle);
    let sel = cycle_indices(cands, e, e.len() as int)->Ok_0;
    let es = runtime_edges(n, addresses, e, e.len() as int)->Ok_0;
    assert((cycle_plan_inputs(n, addresses, fp, problem, cycle)->Ok_0).1 == es);
    lemma_cycle_indices_ok(cands, e, e.len() as int);
    lemma_runtime_edges_ok(n, addresses, e, e.len() as int);
    assert forall|k: int| 0 <= k < es.len() implies runtime_position(n, addresses, cands, #[trigger] es[k]) == Some(sel[k] as int) by {
        let a = cycle[k];
        let b = cycle[(k + 1) % (cycle.len() as int)];
        assert(e[k] == edge_of(a, b));
        lemma_edge_of_symmetric(a, b);
        let v0 = e[k].vertices[0];
        let v1 = e[k].vertices[1];
        assert(v0 == a || v0 == b);
        assert(v1 == a || v1 == b);
        assert(match a { CanonicalVertexId::FrozenSourceSlot { slot, .. } => !(slot < addresses.len() && addresses[slot as int] is Some),
            CanonicalVertexId::Address(_) => true });
        assert(match b { CanonicalVertexId::FrozenSourceSlot { slot, .. } => !(slot < addresses.len() && addresses[slot as int] is Some),
            CanonicalVertexId::Address(_) => true });
        lemma_slot_round_trip(n, addresses, v0);
        lemma_slot_round_trip(n, addresses, v1);
        lemma_edge_of_symmetric(v0, v1);
    }
    let iface = plan.interface_edges@[0]@;
    iface.to_multiset_ensures();
    es.to_multiset_ensures();
    assert(iface.to_multiset() == es.to_multiset());
    assert forall|x: Edge| iface.contains(x) <==> es.contains(x) by {
        assert(iface.contains(x) <==> iface.to_multiset().count(x) > 0);
        assert(es.contains(x) <==> es.to_multiset().count(x) > 0);
    }
    assert(iface.len() == es.len()) by {
        assert(iface.to_multiset().len() == iface.len());
        assert(es.to_multiset().len() == es.len());
    }
    assert forall|j: int| 0 <= j < iface.len() implies runtime_position(n, addresses, cands, #[trigger] iface[j]) is Some by {
        assert(iface.contains(iface[j]));
        assert(es.contains(iface[j]));
        let k = choose|k: int| 0 <= k < es.len() && es[k] == iface[j];
        assert(runtime_position(n, addresses, cands, es[k]) == Some(sel[k] as int));
    }
    lemma_interface_indices_ok(n, addresses, cands, iface, iface.len() as int);
    let sel2 = interface_indices(n, addresses, cands, iface, iface.len() as int)->Ok_0;
    assert(same_indices(sel, sel2)) by {
        assert forall|x: usize| sel.contains(x) <==> sel2.contains(x) by {
            if sel.contains(x) {
                let k = choose|k: int| 0 <= k < sel.len() && sel[k] == x;
                assert(es.contains(es[k]));
                assert(iface.contains(es[k]));
                let j = choose|j: int| 0 <= j < iface.len() && iface[j] == es[k];
                assert(runtime_position(n, addresses, cands, es[k]) == Some(sel[k] as int));
                assert(Some(sel2[j] as int) == runtime_position(n, addresses, cands, iface[j]));
                assert(sel2[j] == x);
            }
            if sel2.contains(x) {
                let j = choose|j: int| 0 <= j < sel2.len() && sel2[j] == x;
                assert(iface.contains(iface[j]));
                assert(es.contains(iface[j]));
                let k = choose|k: int| 0 <= k < es.len() && es[k] == iface[j];
                assert(runtime_position(n, addresses, cands, es[k]) == Some(sel[k] as int));
                assert(Some(sel2[j] as int) == runtime_position(n, addresses, cands, iface[j]));
                assert(sel[k] == x);
            }
        }
    }
    selection_order_is_irrelevant(problem, sel, sel2);
    crate::cycle_labels::lemma_cycle_selection_proper(problem, cycle, sel);
    assert(!has_self_loop(problem, sel2)) by {
        if has_self_loop(problem, sel2) {
            let j = choose|j: int| 0 <= j < sel2.len() && sel2[j] < cands.len()
                && (#[trigger] cands[sel2[j] as int]).vertices[0] == cands[sel2[j] as int].vertices[1];
            assert(sel2.contains(sel2[j]));
            let k = choose|k: int| 0 <= k < sel.len() && sel[k] == sel2[j];
            assert(cands[sel[k] as int].vertices[0] == cands[sel[k] as int].vertices[1]);
        }
    }
    assert forall|w: Seq<usize>| #[trigger] canonical_walk(problem, sel2, w)
        implies w.map_values(|i: usize| cycle_order(problem, sel2)[i as int]) == cycle by {
        selection_order_is_irrelevant(problem, sel2, sel);
        let w1 = choose|w1: Seq<usize>| canonical_walk(problem, sel, w1)
            && w1.map_values(|i: usize| cycle_order(problem, sel)[i as int])
                == w.map_values(|i: usize| cycle_order(problem, sel2)[i as int]);
        let ws = choose|ws: Seq<usize>| canonical_walk(problem, sel, ws);
        lemma_canonical_walk_unique(problem, sel, ws, w1);
        assert(validated_key(problem, sel) == cycle);
    }
}

proof fn lemma_two_nbrs(es: Set<Edge>, q: usize)
    requires
        nbrs(es, q).finite(),
        nbrs(es, q).len() == 2,
    ensures
        exists|a: usize, b: usize| a != b && nbrs(es, q) == set![a, b],
{
    let s0 = nbrs(es, q);
    let a = s0.choose();
    assert(s0.contains(a));
    let s1 = s0.remove(a);
    assert(s1.len() == 1);
    let b = s1.choose();
    assert(s1.contains(b));
    assert(s1.remove(b).len() == 0);
    assert(s1.remove(b) =~= Set::<usize>::empty()) by {
        if s1.remove(b).len() == 0 {
            vstd::set_lib::lemma_set_empty_equivalency_len(s1.remove(b));
        }
    }
    assert(s0 =~= set![a, b]) by {
        assert forall|x: usize| s0.contains(x) implies set![a, b].contains(x) by {
            if x != a && x != b {
                assert(s1.remove(b).contains(x));
            }
        }
    }
}

proof fn lemma_nbr_choice_carried(e1: Seq<CanonicalEdgeId>, o1: Seq<CanonicalVertexId>, e2: Seq<CanonicalEdgeId>,
    o2: Seq<CanonicalVertexId>, q: usize)
    requires
        relisted(e1, o1, e2, o2),
        q < o1.len(),
        nbrs(numbered_edges(e1, o1), q).len() == 2,
    ensures
        first_nbr(numbered_edges(e2, o2), o2, carry(o1, o2, q)) == carry(o1, o2, first_nbr(numbered_edges(e1, o1), o1, q)),
        second_nbr(numbered_edges(e2, o2), o2, carry(o1, o2, q)) == carry(o1, o2, second_nbr(numbered_edges(e1, o1), o1, q)),
        first_nbr(numbered_edges(e1, o1), o1, q) < o1.len(),
        second_nbr(numbered_edges(e1, o1), o1, q) < o1.len(),
        first_nbr(numbered_edges(e1, o1), o1, q) != second_nbr(numbered_edges(e1, o1), o1, q),
{
    let g1 = numbered_edges(e1, o1);
    let g2 = numbered_edges(e2, o2);
    lemma_carry(e1, o1, e2, o2);
    lemma_nbrs_carried(e1, o1, e2, o2, q);
    lemma_two_nbrs(g1, q);
    let (a, b) = choose|a: usize, b: usize| a != b && nbrs(g1, q) == set![a, b];
    assert(nbrs(g1, q).contains(a) && nbrs(g1, q).contains(b));
    assert(a < o1.len() && b < o1.len());
    lemma_first_nbr(g1, o1, q, a, b);
    let ca = carry(o1, o2, a);
    let cb = carry(o1, o2, b);
    let f = |u: usize| carry(o1, o2, u);
    assert(nbrs(g2, carry(o1, o2, q)) =~= set![ca, cb]) by {
        assert(set![a, b].map(f) =~= set![ca, cb]) by {
            assert forall|x: usize| set![a, b].map(f).contains(x) <==> set![ca, cb].contains(x) by {
                if x == ca {
                    assert(set![a, b].contains(a) && f(a) == x);
                }
                if x == cb {
                    assert(set![a, b].contains(b) && f(b) == x);
                }
            }
        }
    }
    lemma_first_nbr(g2, o2, carry(o1, o2, q), ca, cb);
}

proof fn lemma_loop_walk_carried(e1: Seq<CanonicalEdgeId>, o1: Seq<CanonicalVertexId>, e2: Seq<CanonicalEdgeId>,
    o2: Seq<CanonicalVertexId>, start: usize, prev: usize, cur: usize, fuel: nat)
    requires
        relisted(e1, o1, e2, o2),
        start < o1.len(),
        prev < o1.len(),
        cur < o1.len(),
        forall|k: usize| k < o1.len() ==> #[trigger] nbrs(numbered_edges(e1, o1), k).len() == 2,
    ensures
        loop_walk(numbered_edges(e2, o2), o2, carry(o1, o2, start), carry(o1, o2, prev), carry(o1, o2, cur), fuel)
            == loop_walk(numbered_edges(e1, o1), o1, start, prev, cur, fuel).map_values(|u: usize| carry(o1, o2, u)),
        forall|i: int| 0 <= i < loop_walk(numbered_edges(e1, o1), o1, start, prev, cur, fuel).len()
            ==> #[trigger] loop_walk(numbered_edges(e1, o1), o1, start, prev, cur, fuel)[i] < o1.len(),
    decreases fuel,
{
    let g1 = numbered_edges(e1, o1);
    let g2 = numbered_edges(e2, o2);
    lemma_carry(e1, o1, e2, o2);
    let w1 = loop_walk(g1, o1, start, prev, cur, fuel);
    if fuel == 0 || cur == start {
        if fuel != 0 {
            assert(carry(o1, o2, cur) == carry(o1, o2, start));
        }
        assert(w1.map_values(|u: usize| carry(o1, o2, u)) =~= Seq::<usize>::empty());
    } else {
        assert(carry(o1, o2, cur) != carry(o1, o2, start));
        lemma_nbr_choice_carried(e1, o1, e2, o2, cur);
        let next = loop_step(g1, o1, prev, cur);
        assert(loop_step(g2, o2, carry(o1, o2, prev), carry(o1, o2, cur)) == carry(o1, o2, next)) by {
            let f1 = first_nbr(g1, o1, cur);
            if f1 == prev {
            } else {
                assert(carry(o1, o2, f1) != carry(o1, o2, prev));
            }
        }
        lemma_loop_walk_carried(e1, o1, e2, o2, start, cur, next, (fuel - 1) as nat);
        let rest = loop_walk(g1, o1, start, cur, next, (fuel - 1) as nat);
        assert(w1 == seq![cur] + rest);
        assert((seq![cur] + rest).map_values(|u: usize| carry(o1, o2, u))
            =~= seq![carry(o1, o2, cur)] + rest.map_values(|u: usize| carry(o1, o2, u)));
        assert forall|i: int| 0 <= i < w1.len() implies #[trigger] w1[i] < o1.len() by {
            if i > 0 {
                assert(w1[i] == rest[i - 1]);
            }
        }
    }
}

proof fn lemma_least_exists(order: Seq<CanonicalVertexId>)
    requires
        order.len() > 0,
        order.no_duplicates(),
    ensures
        exists|k: int| least_vertex(order, k),
    decreases order.len(),
{
    let n = order.len() as int;
    if n == 1 {
        assert(least_vertex(order, 0));
    } else {
        let r = order.drop_last();
        assert(r.no_duplicates()) by {
            assert forall|x: int, y: int| 0 <= x < y < r.len() implies r[x] != r[y] by {
                assert(order[x] != order[y]);
            }
        }
        lemma_least_exists(r);
        let k = choose|k: int| least_vertex(r, k);
        let last = order[n - 1];
        assert(order[k] != last);
        lemma_vertex_lt_order(order[k], last, order[k]);
        if vertex_lt(order[k], last) {
            assert forall|j: int| 0 <= j < n && j != k implies vertex_lt(order[k], #[trigger] order[j]) by {
                if j < n - 1 {
                    assert(r[j] == order[j]);
                }
            }
            assert(least_vertex(order, k));
        } else {
            assert forall|j: int| 0 <= j < n && j != n - 1 implies vertex_lt(last, #[trigger] order[j]) by {
                if j != k {
                    assert(r[j] == order[j]);
                    lemma_vertex_lt_order(last, order[k], order[j]);
                }
            }
            assert(least_vertex(order, n - 1));
        }
    }
}

proof fn lemma_least_unique(order: Seq<CanonicalVertexId>, k: int, j: int)
    requires
        least_vertex(order, k),
        least_vertex(order, j),
    ensures
        k == j,
{
    if k != j {
        lemma_vertex_lt_order(order[k], order[j], order[k]);
    }
}

/// A selection with a self-loop that passes every check gets the same key
/// in any order of its indices.
pub proof fn loop_key_order_is_irrelevant(problem: EssentialCycleProblem, s1: Seq<usize>, s2: Seq<usize>)
    requires
        same_indices(s1, s2),
        s1.len() <= usize::MAX / 2,
        selection_error(problem, s1) is None,
    ensures
        has_self_loop(problem, s1) == has_self_loop(problem, s2),
        loop_key(problem, s1) == loop_key(problem, s2),
{
    let cands = problem.candidate_edges@;
    if has_self_loop(problem, s1) {
        let j = choose|j: int| 0 <= j < s1.len() && s1[j] < cands.len()
            && (#[trigger] cands[s1[j] as int]).vertices[0] == cands[s1[j] as int].vertices[1];
        assert(s1.contains(s1[j]));
        let k = choose|k: int| 0 <= k < s2.len() && s2[k] == s1[j];
        assert(cands[s2[k] as int].vertices[0] == cands[s2[k] as int].vertices[1]);
    }
    if has_self_loop(problem, s2) {
        let j = choose|j: int| 0 <= j < s2.len() && s2[j] < cands.len()
            && (#[trigger] cands[s2[j] as int]).vertices[0] == cands[s2[j] as int].vertices[1];
        assert(s2.contains(s2[j]));
        let k = choose|k: int| 0 <= k < s1.len() && s1[k] == s2[j];
        assert(cands[s1[k] as int].vertices[0] == cands[s1[k] as int].vertices[1]);
    }
    lemma_same_graph(problem, s1, s2);
    let e1 = chosen_edges(problem, s1);
    let e2 = chosen_edges(problem, s2);
    let o1 = cycle_order(problem, s1);
    let o2 = cycle_order(problem, s2);
    let g1 = cycle_graph(problem, s1);
    let g2 = cycle_graph(problem, s2);
    lemma_carry(e1, o1, e2, o2);
    assert(!not_two_regular(problem, s1));
    assert forall|k: usize| k < o1.len() implies #[trigger] nbrs(numbered_edges(e1, o1), k).len() == 2 by {
        assert(nbrs(g1, k).len() == 2);
    }
    let st1 = (choose|k: int| least_vertex(o1, k)) as usize;
    let st2 = (choose|k: int| least_vertex(o2, k)) as usize;
    let c1 = choose|k: int| least_vertex(o1, k);
    assert(o1.len() >= 3);
    lemma_least_exists(o1);
    assert(least_vertex(o1, c1));
    let cs = carry(o1, o2, c1 as usize);
    assert(least_vertex(o2, cs as int)) by {
        assert forall|j: int| 0 <= j < o2.len() && j != cs implies vertex_lt(o2[cs as int], #[trigger] o2[j]) by {
            let k = carry(o2, o1, j as usize);
            assert(carry(o1, o2, k) == j);
            assert(o1[k as int] == o2[j]);
        }
    }
    let c2 = choose|k: int| least_vertex(o2, k);
    lemma_least_unique(o2, c2, cs as int);
    let fuel = (2 * o1.len() + 2) as nat;
    lemma_nbr_choice_carried(e1, o1, e2, o2, st1);
    lemma_loop_walk_carried(e1, o1, e2, o2, st1, st1, first_nbr(g1, o1, st1), fuel);
    lemma_loop_walk_carried(e1, o1, e2, o2, st1, st1, second_nbr(g1, o1, st1), fuel);
    let wf1 = seq![st1] + loop_walk(g1, o1, st1, st1, first_nbr(g1, o1, st1), fuel);
    let wr1 = seq![st1] + loop_walk(g1, o1, st1, st1, second_nbr(g1, o1, st1), fuel);
    let wf2 = seq![st2] + loop_walk(g2, o2, st2, st2, first_nbr(g2, o2, st2), fuel);
    let wr2 = seq![st2] + loop_walk(g2, o2, st2, st2, second_nbr(g2, o2, st2), fuel);
    assert(wf2.map_values(|i: usize| o2[i as int]) =~= wf1.map_values(|i: usize| o1[i as int])) by {
        assert forall|i: int| 0 <= i < wf1.len() implies #[trigger] wf1[i] < o1.len() by {
            if i > 0 {
                assert(wf1[i] == loop_walk(g1, o1, st1, st1, first_nbr(g1, o1, st1), fuel)[i - 1]);
            }
        }
    }
    assert(wr2.map_values(|i: usize| o2[i as int]) =~= wr1.map_values(|i: usize| o1[i as int])) by {
        assert forall|i: int| 0 <= i < wr1.len() implies #[trigger] wr1[i] < o1.len() by {
            if i > 0 {
                assert(wr1[i] == loop_walk(g1, o1, st1, st1, second_nbr(g1, o1, st1), fuel)[i - 1]);
            }
        }
    }
}

/// Vertex `v` is an end of some selected candidate edge.
pub open spec fn on_selection(problem: EssentialCycleProblem, sel: Seq<usize>, v: CanonicalVertexId) -> bool {
    exists|j: int| 0 <= j < sel.len() && ((#[trigger] problem.candidate_edges@[sel[j] as int]).vertices[0] == v
        || problem.candidate_edges@[sel[j] as int].vertices[1] == v)
}

proof fn lemma_order_on_selection(problem: EssentialCycleProblem, sel: Seq<usize>, v: CanonicalVertexId)
    ensures
        cycle_order(problem, sel).contains(v) <==> on_selection(problem, sel, v),
{
    let e = chosen_edges(problem, sel);
    lemma_endpoint_order_set(e);
    if endpoint_set(e).contains(v) {
        let i = choose|i: int| 0 <= i < e.len() && ((#[trigger] e[i]).vertices[0] == v || e[i].vertices[1] == v);
        assert(e[i] == problem.candidate_edges@[sel[i] as int]);
    }
    if on_selection(problem, sel, v) {
        let j = choose|j: int| 0 <= j < sel.len() && ((#[trigger] problem.candidate_edges@[sel[j] as int]).vertices[0] == v
            || problem.candidate_edges@[sel[j] as int].vertices[1] == v);
        assert(e[j] == problem.candidate_edges@[sel[j] as int]);
        assert(endpoint_set(e).contains(v));
    }
}

proof fn lemma_anchor_scan_none(policies: Seq<(CanonicalVertexId, AnchorBandPolicy)>, order: Seq<CanonicalVertexId>, a: int)
    requires
        anchor_scan(policies, order) is None,
        0 <= a < policies.len(),
    ensures
        (policies[a].1 == AnchorBandPolicy::OnSingleInterface) ==> order.contains(policies[a].0),
        (policies[a].1 != AnchorBandPolicy::OnSingleInterface) ==> !order.contains(policies[a].0),
    decreases policies.len(),
{
    if a < policies.len() - 1 {
        assert(policies.drop_last()[a] == policies[a]);
        lemma_anchor_scan_none(policies.drop_last(), order, a);
    } else {
        assert(anchor_violation(policies.last(), order) is None);
    }
}

/// A selection that passes every check keeps every anchor policy: an anchor
/// to lie on the single interface is an end of a selected edge, and an
/// anchor of any other policy is the end of none. No selected edge ends at a
/// fixed coarse or fine boundary vertex.
pub proof fn accepted_selection_respects_anchors(problem: EssentialCycleProblem, sel: Seq<usize>)
    requires
        selection_error(problem, sel) is None,
    ensures
        forall|a: int| 0 <= a < problem.anchor_policies@.len() ==> {
            let (v, policy) = #[trigger] problem.anchor_policies@[a];
            &&& policy == AnchorBandPolicy::OnSingleInterface ==> on_selection(problem, sel, v)
            &&& policy != AnchorBandPolicy::OnSingleInterface ==> !on_selection(problem, sel, v)
        },
        forall|v: CanonicalVertexId| on_selection(problem, sel, v)
            ==> !problem.coarse_boundary_vertices@.contains(v) && !problem.fine_boundary_vertices@.contains(v),
{
    let order = cycle_order(problem, sel);
    assert forall|a: int| 0 <= a < problem.anchor_policies@.len() implies {
        let (v, policy) = #[trigger] problem.anchor_policies@[a];
        &&& policy == AnchorBandPolicy::OnSingleInterface ==> on_selection(problem, sel, v)
        &&& policy != AnchorBandPolicy::OnSingleInterface ==> !on_selection(problem, sel, v)
    } by {
        lemma_anchor_scan_none(problem.anchor_policies@, order, a);
        lemma_order_on_selection(problem, sel, problem.anchor_policies@[a].0);
    }
    assert forall|v: CanonicalVertexId| on_selection(problem, sel, v)
        implies !problem.coarse_boundary_vertices@.contains(v) && !problem.fine_boundary_vertices@.contains(v) by {
        lemma_order_on_selection(problem, sel, v);
        let k = choose|k: int| 0 <= k < order.len() && order[k] == v;
        if problem.coarse_boundary_vertices@.contains(v) || problem.fine_boundary_vertices@.contains(v) {
            assert(touches_fixed_boundary(problem, order));
        }
    }
}

/// The selected indices whose candidate crosses the dual seam.
pub open spec fn seam_hits(problem: EssentialCycleProblem, sel: Seq<usize>) -> Seq<usize> {
    sel.filter(|i: usize| i < problem.dual_seam_crossing_edges@.len() && problem.dual_seam_crossing_edges@[i as int])
}

proof fn lemma_seam_crossings_count(problem: EssentialCycleProblem, sel: Seq<usize>)
    ensures
        seam_crossings(problem.dual_seam_crossing_edges@, sel) == seam_hits(problem, sel).len(),
    decreases sel.len(),
{
    let p = |i: usize| i < problem.dual_seam_crossing_edges@.len() && problem.dual_seam_crossing_edges@[i as int];
    if sel.len() == 0 {
        assert(sel.filter(p) =~= Seq::<usize>::empty());
    } else {
        let r = sel.drop_last();
        lemma_seam_crossings_count(problem, r);
        assert(sel =~= r.push(sel.last()));
        r.lemma_filter_len_push(p, sel.last());
    }
}

/// A selection that passes every check crosses the dual seam an odd number
/// of times.
pub proof fn accepted_selection_crosses_seam_oddly(problem: EssentialCycleProblem, sel: Seq<usize>)
    requires
        selection_error(problem, sel) is None,
    ensures
        seam_hits(problem, sel).len() % 2 == 1,
{
    lemma_seam_crossings_count(problem, sel);
}

/// The other ends of the selected edges at `v`.
pub open spec fn selection_neighbours(problem: EssentialCycleProblem, sel: Seq<usize>, v: CanonicalVertexId) -> Set<CanonicalVertexId> {
    Set::new(|w: CanonicalVertexId| exists|j: int| 0 <= j < sel.len()
        && (((#[trigger] problem.candidate_edges@[sel[j] as int]).vertices[0] == v && problem.candidate_edges@[sel[j] as int].vertices[1] == w)
        || (problem.candidate_edges@[sel[j] as int].vertices[0] == w && problem.candidate_edges@[sel[j] as int].vertices[1] == v)))
}

proof fn lemma_neighbours_counted(problem: EssentialCycleProblem, sel: Seq<usize>, k: usize)
    requires
        k < cycle_order(problem, sel).len(),
        cycle_order(problem, sel).len() <= usize::MAX,
    ensures
        selection_neighbours(problem, sel, cycle_order(problem, sel)[k as int]).finite(),
        selection_neighbours(problem, sel, cycle_order(problem, sel)[k as int]).len() == nbrs(cycle_graph(problem, sel), k).len(),
{
    let e = chosen_edges(problem, sel);
    let o = cycle_order(problem, sel);
    let g = cycle_graph(problem, sel);
    let n1 = nbrs(g, k);
    let v = o[k as int];
    let f = |u: usize| o[u as int];
    lemma_endpoint_order_unique(e);
    lemma_endpoint_order_set(e);
    assert(n1.subset_of(below(o.len() as nat))) by {
        assert forall|u: usize| n1.contains(u) implies below(o.len() as nat).contains(u) by {
            let x = if g.contains((k, u)) { (k, u) } else { (u, k) };
            lemma_endpoints_below(e, o, x);
        }
    }
    lemma_below_len(o.len() as nat);
    vstd::set_lib::lemma_len_subset(n1, below(o.len() as nat));
    assert(selection_neighbours(problem, sel, v) =~= n1.map(f)) by {
        assert forall|w: CanonicalVertexId| selection_neighbours(problem, sel, v).contains(w) implies n1.map(f).contains(w) by {
            let j = choose|j: int| 0 <= j < sel.len()
                && (((#[trigger] problem.candidate_edges@[sel[j] as int]).vertices[0] == v && problem.candidate_edges@[sel[j] as int].vertices[1] == w)
                || (problem.candidate_edges@[sel[j] as int].vertices[0] == w && problem.candidate_edges@[sel[j] as int].vertices[1] == v));
            assert(e[j] == problem.candidate_edges@[sel[j] as int]);
            assert(endpoint_set(e).contains(w));
            assert(o.contains(w));
            let u = choose|u: int| 0 <= u < o.len() && o[u] == w;
            if e[j].vertices[0] == v && e[j].vertices[1] == w {
                assert(g.contains((k, u as usize)));
            } else {
                assert(g.contains((u as usize, k)));
            }
            assert(adj(g, k, u as usize));
            assert(n1.contains(u as usize) && f(u as usize) == w);
        }
        assert forall|w: CanonicalVertexId| n1.map(f).contains(w) implies selection_neighbours(problem, sel, v).contains(w) by {
            let u = choose|u: usize| n1.contains(u) && f(u) == w;
            if g.contains((k, u)) {
                let i = choose|i: int| 0 <= i < e.len() && (k, u).0 < o.len() && (k, u).1 < o.len()
                    && o[(k, u).0 as int] == (#[trigger] e[i]).vertices[0] && o[(k, u).1 as int] == e[i].vertices[1];
                assert(e[i] == problem.candidate_edges@[sel[i] as int]);
            } else {
                let i = choose|i: int| 0 <= i < e.len() && (u, k).0 < o.len() && (u, k).1 < o.len()
                    && o[(u, k).0 as int] == (#[trigger] e[i]).vertices[0] && o[(u, k).1 as int] == e[i].vertices[1];
                assert(e[i] == problem.candidate_edges@[sel[i] as int]);
            }
        }
    }
    assert(vstd::relations::injective_on(f, n1)) by {
        assert forall|x1: usize, x2: usize| n1.contains(x1) && n1.contains(x2) && #[trigger] f(x1) == #[trigger] f(x2) implies x1 == x2 by {
            assert(below(o.len() as nat).contains(x1) && below(o.len() as nat).contains(x2));
        }
    }
    vstd::set_lib::lemma_map_size(n1, n1.map(f), f);
}

/// A selection that passes every check is one cycle through at least three
/// vertices: every end of a selected edge has exactly two neighbours along
/// the selected edges (itself counted where an edge joins it to itself).
pub proof fn accepted_selection_is_two_regular(problem: EssentialCycleProblem, sel: Seq<usize>)
    requires
        selection_error(problem, sel) is None,
        cycle_order(problem, sel).len() <= usize::MAX,
    ensures
        forall|v: CanonicalVertexId| #[trigger] on_selection(problem, sel, v) ==> selection_neighbours(problem, sel, v).len() == 2,
        exists|a: CanonicalVertexId, b: CanonicalVertexId, c: CanonicalVertexId| a != b && b != c && a != c
            && on_selection(problem, sel, a) && on_selection(problem, sel, b) && on_selection(problem, sel, c),
{
    let o = cycle_order(problem, sel);
    lemma_endpoint_order_unique(chosen_edges(problem, sel));
    assert(!not_two_regular(problem, sel));
    assert forall|v: CanonicalVertexId| #[trigger] on_selection(problem, sel, v) implies selection_neighbours(problem, sel, v).len() == 2 by {
        lemma_order_on_selection(problem, sel, v);
        let k = choose|k: int| 0 <= k < o.len() && o[k] == v;
        lemma_neighbours_counted(problem, sel, k as usize);
        assert(nbrs(cycle_graph(problem, sel), k as usize).len() == 2);
    }
    lemma_order_on_selection(problem, sel, o[0]);
    lemma_order_on_selection(problem, sel, o[1]);
    lemma_order_on_selection(problem, sel, o[2]);
    assert(o.contains(o[0]) && o.contains(o[1]) && o.contains(o[2]));
    assert(o[0] != o[1] && o[1] != o[2] && o[0] != o[2]);
}

/// A key read off a canonical walk starts at its least vertex and leaves it
/// towards the lesser of its two neighbours on the cycle.
pub proof fn canonical_key_starts_least(problem: EssentialCycleProblem, sel: Seq<usize>, w: Seq<usize>)
    requires
        canonical_walk(problem, sel, w),
    ensures
        ({
            let key = w.map_values(|i: usize| cycle_order(problem, sel)[i as int]);
            &&& key.len() >= 3
            &&& forall|i: int| 1 <= i < key.len() ==> vertex_lt(key[0], #[trigger] key[i])
            &&& vertex_lt(key[1], key[key.len() - 1])
        }),
{
    let o = cycle_order(problem, sel);
    let g = cycle_graph(problem, sel);
    let key = w.map_values(|i: usize| o[i as int]);
    assert forall|i: int| 1 <= i < key.len() implies vertex_lt(key[0], #[trigger] key[i]) by {
        assert(w[i] != w[0]);
        assert(w[i] < o.len());
    }
    let last = w[w.len() - 1];
    assert(adj(g, last, w[0]));
    assert(nbrs(g, w[0]).contains(last));
    assert(last != w[1]);
}

} // verus!
