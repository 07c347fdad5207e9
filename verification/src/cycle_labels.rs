//! Lossless conversion between two-band face labellings and essential
//! cycles: a cycle's coarse side gives the labels, and a plan's interface
//! gives back the cycle.

use vstd::prelude::*;
use std::collections::{BTreeMap, BTreeSet};
use crate::graph::Edge;
use crate::essential_cycle::{
    CanonicalVertexId, CanonicalEdgeId, EssentialCycleKey, EssentialCycleProblem, VertexAddress, canonical_edge,
    candidate_position, last_candidate, selection_error, canonical_walk, cycle_order, validate_selected_essential_cycle,
    vertex_lt, cycle_graph, not_two_regular, below, lemma_below_len, lemma_vertex_lt_order, least_vertex,
    simple_walk, has_self_loop, loop_key, same_edge,
};
use crate::cycles::{adj, nbrs};
use crate::face_band::{FaceBandProblem, FaceBandPlan, plan_valid, problem_error, problem_wf, face_band_plan_is_valid,
    plan_for_labels, edge_lists_equal};
use crate::essential_cycle::{coarse_side, coarse_side_spec, cycle_edges, key_edge_matches};
use crate::records::TriangleAddress;
use vstd::std_specs::btree::spec_btree_map_iter;
use vstd::std_specs::iter::IteratorSpec;

verus! {

/// The neighbours of a vertex of the numbered cycle graph are vertices of it.
proof fn lemma_nbrs_finite(problem: EssentialCycleProblem, sel: Seq<usize>, v: usize)
    ensures
        nbrs(cycle_graph(problem, sel), v).finite(),
{
    let n = cycle_order(problem, sel).len();
    let es = cycle_graph(problem, sel);
    assert(nbrs(es, v).subset_of(below(n as nat).insert(v))) by {
        assert forall|u: usize| nbrs(es, v).contains(u) implies below(n as nat).insert(v).contains(u) by {
            if es.contains((v, u)) {
            } else {
                assert(es.contains((u, v)));
            }
        }
    }
    if n <= usize::MAX + 1 {
        lemma_below_len(n as nat);
    }
    assert(below(n as nat).finite()) by {
        assert(below(n as nat).subset_of(Set::new(|k: usize| true)));
        assert(below(n as nat) =~= Set::new(|k: usize| (k as int) < n));
        if n <= usize::MAX + 1 {
            lemma_below_len(n as nat);
        } else {
            lemma_below_len((usize::MAX + 1) as nat);
            assert(below(n as nat) =~= below((usize::MAX + 1) as nat));
        }
    }
    vstd::set_lib::lemma_len_subset(nbrs(es, v), below(n as nat).insert(v));
}

/// A selection that passes every check has exactly one canonical walk.
pub proof fn lemma_canonical_walk_unique(problem: EssentialCycleProblem, sel: Seq<usize>, w1: Seq<usize>, w2: Seq<usize>)
    requires
        !not_two_regular(problem, sel),
        canonical_walk(problem, sel, w1),
        canonical_walk(problem, sel, w2),
    ensures
        w1 == w2,
{
    let order = cycle_order(problem, sel);
    let es = cycle_graph(problem, sel);
    if w1[0] != w2[0] {
        lemma_vertex_lt_order(order[w1[0] as int], order[w2[0] as int], order[w1[0] as int]);
        assert(vertex_lt(order[w1[0] as int], order[w2[0] as int]));
        assert(vertex_lt(order[w2[0] as int], order[w1[0] as int]));
    }
    if w1[1] != w2[1] {
        lemma_vertex_lt_order(order[w1[1] as int], order[w2[1] as int], order[w1[1] as int]);
        assert(vertex_lt(order[w1[1] as int], order[w2[1] as int]));
    }
    let n = w1.len() as int;
    assert forall|i: int| 0 <= i < n implies w1[i] == w2[i] by {
        lemma_walks_agree(problem, sel, w1, w2, i);
    }
    assert(w1 =~= w2);
}

proof fn lemma_walks_agree(problem: EssentialCycleProblem, sel: Seq<usize>, w1: Seq<usize>, w2: Seq<usize>, i: int)
    requires
        !not_two_regular(problem, sel),
        canonical_walk(problem, sel, w1),
        canonical_walk(problem, sel, w2),
        w1[0] == w2[0],
        w1[1] == w2[1],
        0 <= i < w1.len(),
    ensures
        w1[i] == w2[i],
    decreases i,
{
    if i >= 2 {
        lemma_walks_agree(problem, sel, w1, w2, i - 1);
        lemma_walks_agree(problem, sel, w1, w2, i - 2);
        let es = cycle_graph(problem, sel);
        let order = cycle_order(problem, sel);
        let c = w1[i - 1];
        let p = w1[i - 2];
        let im = i - 1;
        let ip = i - 2;
        assert(adj(es, w1[ip], w1[ip + 1]));
        assert(adj(es, w1[im], w1[im + 1]));
        assert(adj(es, w2[im], w2[im + 1]));
        assert(nbrs(es, c).contains(p));
        assert(nbrs(es, c).contains(w1[i]));
        assert(nbrs(es, c).contains(w2[i]));
        assert(w1[i] != p);
        assert(w2[i] != p);
        assert(c < order.len());
        assert(nbrs(es, c).len() == 2);
        if w1[i] != w2[i] {
            lemma_nbrs_finite(problem, sel, c);
            let three = set![p, w1[i], w2[i]];
            assert(three.len() == 3);
            assert(three.subset_of(nbrs(es, c)));
            vstd::set_lib::lemma_len_subset(three, nbrs(es, c));
        }
    }
}

/// The edges of a cycle key: each vertex to the next, cyclically, smaller
/// vertex first.
pub open spec fn key_edges(vs: Seq<CanonicalVertexId>) -> Seq<CanonicalEdgeId> {
    Seq::new(vs.len(), |i: int| edge_of(vs[i], vs[(i + 1) % (vs.len() as int)]))
}

/// The candidate indices of the first `upto` edges, or the refusal for the
/// first edge that is no candidate.
pub open spec fn cycle_indices(candidates: Seq<CanonicalEdgeId>, edges: Seq<CanonicalEdgeId>, upto: int) -> Result<Seq<usize>, Seq<char>>
    decreases upto,
{
    if upto <= 0 {
        Ok(Seq::empty())
    } else {
        match cycle_indices(candidates, edges, upto - 1) {
            Err(m) => Err(m),
            Ok(sel) => match candidate_position(candidates, edges[upto - 1], candidates.len() as int) {
                None => Err("cycle contains a non-candidate edge"@),
                Some(p) => Ok(sel.push(p as usize)),
            },
        }
    }
}

proof fn lemma_cycle_indices_err(candidates: Seq<CanonicalEdgeId>, edges: Seq<CanonicalEdgeId>, k: int, m: int)
    requires
        0 <= k <= m,
        cycle_indices(candidates, edges, k) is Err,
    ensures
        cycle_indices(candidates, edges, m) == cycle_indices(candidates, edges, k),
    decreases m - k,
{
    if k < m {
        lemma_cycle_indices_err(candidates, edges, k, m - 1);
    }
}

/// The key that a selection passing every check validates to.
pub open spec fn validated_key(problem: EssentialCycleProblem, sel: Seq<usize>) -> Seq<CanonicalVertexId> {
    (choose|w: Seq<usize>| canonical_walk(problem, sel, w)).map_values(|i: usize| cycle_order(problem, sel)[i as int])
}

/// Slot `s` is the largest slot with face address `a`.
pub open spec fn last_slot_at(fa: Map<usize, TriangleAddress>, a: TriangleAddress, s: usize) -> bool {
    &&& fa.contains_key(s)
    &&& fa[s] == a
    &&& forall|t: usize| #[trigger] fa.contains_key(t) && fa[t] == a ==> t <= s
}

/// The runtime slot of a face address: the largest slot with it.
pub open spec fn slot_for_address(fa: Map<usize, TriangleAddress>, a: TriangleAddress) -> Option<usize> {
    if exists|s: usize| fa.contains_key(s) && fa[s] == a {
        Some(choose|s: usize| last_slot_at(fa, a, s))
    } else {
        None
    }
}

fn slot_of_address(fa: &BTreeMap<usize, TriangleAddress>, a: TriangleAddress) -> (r: Option<usize>)
    ensures
        r == slot_for_address(fa@, a),
{
    let ghost full = spec_btree_map_iter(fa).remaining();
    let mut best: Option<usize> = None;
    for kv in it: fa.iter()
        invariant
            it.seq() == full,
            full == spec_btree_map_iter(fa).remaining(),
            best matches Some(b) ==> fa@.contains_key(b) && fa@[b] == a
                && forall|j: int| 0 <= j < it.index() && *(#[trigger] full[j]).1 == a ==> *full[j].0 <= b,
            best is None ==> forall|j: int| 0 <= j < it.index() ==> *(#[trigger] full[j]).1 != a,
    {
        let k = *kv.0;
        let v = *kv.1;
        let ghost j0 = it.index();
        proof {
            assert(*full[j0].0 == k && *full[j0].1 == v);
            assert(fa@.contains_key(k) && fa@[k] == v);
        }
        if v == a {
            best = match best {
                None => Some(k),
                Some(b) => if b >= k { Some(b) } else { Some(k) },
            };
        }
    }
    proof {
        match best {
            Some(b) => {
                assert forall|t: usize| #[trigger] fa@.contains_key(t) && fa@[t] == a implies t <= b by {
                    assert(full.contains((&t, &fa@[t])));
                    let j = choose|j: int| 0 <= j < full.len() && full[j] == (&t, &fa@[t]);
                }
                assert(last_slot_at(fa@, a, b));
                let c = choose|s: usize| last_slot_at(fa@, a, s);
                assert(c <= b && b <= c);
            },
            None => {
                assert forall|s: usize| !(fa@.contains_key(s) && fa@[s] == a) by {
                    if fa@.contains_key(s) && fa@[s] == a {
                        assert(full.contains((&s, &fa@[s])));
                        let j = choose|j: int| 0 <= j < full.len() && full[j] == (&s, &fa@[s]);
                    }
                }
            },
        }
    }
    best
}

/// The labels of the first `upto` transition faces: 0 on the coarse side, 1
/// beyond it, each at the face's runtime slot.
pub open spec fn side_labels(faces: Seq<crate::essential_cycle::CanonicalFaceId>, fa: Map<usize, TriangleAddress>,
    coarse: Set<TriangleAddress>, upto: int) -> Result<Map<usize, u8>, Seq<char>>
    decreases upto,
{
    if upto <= 0 {
        Ok(Map::empty())
    } else {
        match side_labels(faces, fa, coarse, upto - 1) {
            Err(m) => Err(m),
            Ok(l) => {
                let a = faces[upto - 1].address;
                match slot_for_address(fa, a) {
                    None => Err("canonical face has no runtime slot"@),
                    Some(s) => Ok(l.insert(s, if coarse.contains(a) { 0u8 } else { 1u8 })),
                }
            },
        }
    }
}

proof fn lemma_side_labels_err(faces: Seq<crate::essential_cycle::CanonicalFaceId>, fa: Map<usize, TriangleAddress>,
    coarse: Set<TriangleAddress>, k: int, m: int)
    requires
        0 <= k <= m,
        side_labels(faces, fa, coarse, k) is Err,
    ensures
        side_labels(faces, fa, coarse, m) == side_labels(faces, fa, coarse, k),
    decreases m - k,
{
    if k < m {
        lemma_side_labels_err(faces, fa, coarse, k, m - 1);
    }
}

/// Slot `i` is the first slot with address `a`.
pub open spec fn first_slot_at(addresses: Seq<Option<VertexAddress>>, a: VertexAddress, i: int) -> bool {
    &&& 0 <= i < addresses.len()
    &&& addresses[i] == Some(a)
    &&& forall|j: int| 0 <= j < i ==> #[trigger] addresses[j] != Some(a)
}

/// The runtime slot of a canonical vertex.
pub open spec fn runtime_slot(n: usize, addresses: Seq<Option<VertexAddress>>, v: CanonicalVertexId) -> Result<usize, Seq<char>> {
    match v {
        CanonicalVertexId::Address(a) => if exists|i: int| 0 <= i < addresses.len() && addresses[i] == Some(a) {
            Ok((choose|i: int| first_slot_at(addresses, a, i)) as usize)
        } else {
            Err("canonical vertex address is absent from source grid"@)
        },
        CanonicalVertexId::FrozenSourceSlot { source_n, slot } => if source_n == n && slot < addresses.len() {
            Ok(slot)
        } else {
            Err("frozen vertex slot belongs to a different source grid"@)
        },
    }
}

fn runtime_vertex(n: usize, addresses: &Vec<Option<VertexAddress>>, v: &CanonicalVertexId) -> (r: Result<usize, String>)
    ensures
        match runtime_slot(n, addresses@, *v) {
            Ok(s) => r matches Ok(x) && x == s,
            Err(m) => r matches Err(e) && e@ == m,
        },
{
    match v {
        CanonicalVertexId::Address(a) => {
            let mut i: usize = 0;
            while i < addresses.len()
                invariant
                    i <= addresses@.len(),
                    *v == CanonicalVertexId::Address(*a),
                    forall|j: int| 0 <= j < i ==> #[trigger] addresses@[j] != Some(*a),
                decreases addresses@.len() - i,
            {
                proof {
                    assert(i < addresses@.len());
                }
                let here = match addresses[i] {
                    Some(x) => x == *a,
                    None => false,
                };
                if here {
                    proof {
                        assert(addresses@[i as int] == Some(*a));
                        assert(first_slot_at(addresses@, *a, i as int));
                        let c = choose|k: int| first_slot_at(addresses@, *a, k);
                        if c < i {
                            assert(addresses@[c] != Some(*a));
                        }
                        if i < c {
                            assert(addresses@[i as int] != Some(*a));
                        }
                        assert(c == i);
                        assert(*v == CanonicalVertexId::Address(*a));
                        assert(exists|k: int| 0 <= k < addresses@.len() && addresses@[k] == Some(*a));
                        assert(runtime_slot(n, addresses@, *v) == Ok::<usize, Seq<char>>(c as usize));
                    }
                    return Ok(i);
                }
                i = i + 1;
            }
            Err("canonical vertex address is absent from source grid".to_string())
        },
        CanonicalVertexId::FrozenSourceSlot { source_n, slot } => {
            if *source_n == n && *slot < addresses.len() {
                Ok(*slot)
            } else {
                Err("frozen vertex slot belongs to a different source grid".to_string())
            }
        },
    }
}

/// The runtime edges of the first `upto` cycle edges, smaller slot first, or
/// the first refusal.
pub open spec fn runtime_edges(n: usize, addresses: Seq<Option<VertexAddress>>, edges: Seq<CanonicalEdgeId>, upto: int)
    -> Result<Seq<Edge>, Seq<char>>
    decreases upto,
{
    if upto <= 0 {
        Ok(Seq::empty())
    } else {
        match runtime_edges(n, addresses, edges, upto - 1) {
            Err(m) => Err(m),
            Ok(es) => match runtime_slot(n, addresses, edges[upto - 1].vertices[0]) {
                Err(m) => Err(m),
                Ok(l) => match runtime_slot(n, addresses, edges[upto - 1].vertices[1]) {
                    Err(m) => Err(m),
                    Ok(r) => Ok(es.push(if l <= r { (l, r) } else { (r, l) })),
                },
            },
        }
    }
}

proof fn lemma_runtime_edges_err(n: usize, addresses: Seq<Option<VertexAddress>>, edges: Seq<CanonicalEdgeId>, k: int, m: int)
    requires
        0 <= k <= m,
        runtime_edges(n, addresses, edges, k) is Err,
    ensures
        runtime_edges(n, addresses, edges, m) == runtime_edges(n, addresses, edges, k),
    decreases m - k,
{
    if k < m {
        lemma_runtime_edges_err(n, addresses, edges, k, m - 1);
    }
}

/// Edges in non-decreasing order.
pub open spec fn edges_nondecreasing(s: Seq<Edge>) -> bool {
    forall|i: int, j: int| 0 <= i < j < s.len() ==> !crate::graph::edge_lt(s[j], s[i])
}

fn insert_edge(list: &mut Vec<Edge>, e: Edge)
    requires
        edges_nondecreasing(old(list)@),
    ensures
        edges_nondecreasing(final(list)@),
        exists|p: int| 0 <= p <= old(list)@.len() && final(list)@ == old(list)@.insert(p, e),
{
    let mut p: usize = 0;
    while p < list.len() && !(e.0 < list[p].0 || (e.0 == list[p].0 && e.1 < list[p].1))
        invariant
            p <= list@.len(),
            list@ == old(list)@,
            edges_nondecreasing(list@),
            forall|k: int| 0 <= k < p ==> !crate::graph::edge_lt(e, #[trigger] list@[k]),
        decreases list@.len() - p,
    {
        p = p + 1;
    }
    let ghost before = list@;
    list.insert(p, e);
    proof {
        assert forall|i: int, j: int| 0 <= i < j < list@.len() implies !crate::graph::edge_lt(list@[j], list@[i]) by {
            if j < p {
                assert(list@[i] == before[i] && list@[j] == before[j]);
            } else if j == p {
                assert(list@[i] == before[i]);
            } else if i == p {
                assert(list@[j] == before[j - 1]);
                if j - 1 > p {
                    assert(!crate::graph::edge_lt(before[j - 1], before[p as int]));
                }
            } else if i < p {
                assert(list@[i] == before[i] && list@[j] == before[j - 1]);
            } else {
                assert(list@[i] == before[i - 1] && list@[j] == before[j - 1]);
            }
        }
    }
}

/// The edges in non-decreasing order.
fn sort_edges(list: &Vec<Edge>) -> (out: Vec<Edge>)
    ensures
        edges_nondecreasing(out@),
        out@.to_multiset() == list@.to_multiset(),
{
    broadcast use vstd::seq_lib::group_to_multiset_ensures;
    let mut out: Vec<Edge> = Vec::new();
    let mut i: usize = 0;
    while i < list.len()
        invariant
            i <= list@.len(),
            edges_nondecreasing(out@),
            out@.to_multiset() == list@.take(i as int).to_multiset(),
        decreases list@.len() - i,
    {
        let ghost before = out@;
        insert_edge(&mut out, list[i]);
        proof {
            assert(list@.take(i + 1) =~= list@.take(i as int).push(list@[i as int]));
            let p = choose|p: int| 0 <= p <= before.len() && out@ == before.insert(p, list@[i as int]);
            vstd::seq_lib::to_multiset_insert(before, p, list@[i as int]);
            vstd::seq_lib::to_multiset_build(list@.take(i as int), list@[i as int]);
        }
        i = i + 1;
    }
    proof {
        assert(list@.take(list@.len() as int) =~= list@);
    }
    out
}

fn keys_equal(a: &Vec<CanonicalVertexId>, b: &Vec<CanonicalVertexId>) -> (r: bool)
    ensures
        r == (a@ == b@),
{
    if a.len() != b.len() {
        return false;
    }
    let mut i: usize = 0;
    while i < a.len()
        invariant
            i <= a@.len(),
            a@.len() == b@.len(),
            forall|k: int| 0 <= k < i ==> a@[k] == b@[k],
        decreases a@.len() - i,
    {
        if !crate::essential_cycle::vertex_ids_equal(&a[i], &b[i]) {
            return false;
        }
        i = i + 1;
    }
    proof {
        assert(a@ =~= b@);
    }
    true
}

/// The canonical vertex of slot `slot` of a source grid of subdivision `n`:
/// its address where it has one, else the slot itself.
pub open spec fn slot_vertex(n: usize, addresses: Seq<Option<VertexAddress>>, slot: usize) -> CanonicalVertexId {
    if slot < addresses.len() && addresses[slot as int] is Some {
        CanonicalVertexId::Address(addresses[slot as int]->0)
    } else {
        CanonicalVertexId::FrozenSourceSlot { source_n: n, slot }
    }
}

/// The canonical vertex of a source slot.
pub fn canonical_vertex(n: usize, addresses: &Vec<Option<VertexAddress>>, slot: usize) -> (v: CanonicalVertexId)
    ensures
        v == slot_vertex(n, addresses@, slot),
{
    if slot < addresses.len() {
        match addresses[slot] {
            Some(a) => CanonicalVertexId::Address(a),
            None => CanonicalVertexId::FrozenSourceSlot { source_n: n, slot },
        }
    } else {
        CanonicalVertexId::FrozenSourceSlot { source_n: n, slot }
    }
}

/// The edge between two canonical vertices, smaller vertex first.
pub open spec fn edge_of(a: CanonicalVertexId, b: CanonicalVertexId) -> CanonicalEdgeId {
    if vertex_lt(b, a) { CanonicalEdgeId { vertices: [b, a] } } else { CanonicalEdgeId { vertices: [a, b] } }
}

pub(crate) fn edge_of_exec(a: CanonicalVertexId, b: CanonicalVertexId) -> (e: CanonicalEdgeId)
    ensures
        e == edge_of(a, b),
{
    let e = canonical_edge(a, b);
    proof {
        assert(e.vertices =~= edge_of(a, b).vertices);
    }
    e
}

/// The candidate indices of the first `upto` edges of a plan's interface, or
/// the refusal for the first edge that is no candidate.
pub open spec fn interface_indices(n: usize, addresses: Seq<Option<VertexAddress>>, candidates: Seq<CanonicalEdgeId>,
    edges: Seq<Edge>, upto: int) -> Result<Seq<usize>, Seq<char>>
    decreases upto,
{
    if upto <= 0 {
        Ok(Seq::empty())
    } else {
        match interface_indices(n, addresses, candidates, edges, upto - 1) {
            Err(m) => Err(m),
            Ok(sel) => {
                let e = edges[upto - 1];
                let id = edge_of(slot_vertex(n, addresses, e.0), slot_vertex(n, addresses, e.1));
                match candidate_position(candidates, id, candidates.len() as int) {
                    None => Err("face-band interface contains a non-candidate edge"@),
                    Some(p) => Ok(sel.push(p as usize)),
                }
            },
        }
    }
}


proof fn lemma_interface_err(n: usize, addresses: Seq<Option<VertexAddress>>, candidates: Seq<CanonicalEdgeId>,
    edges: Seq<Edge>, k: int, m: int)
    requires
        0 <= k <= m,
        interface_indices(n, addresses, candidates, edges, k) is Err,
    ensures
        interface_indices(n, addresses, candidates, edges, m) == interface_indices(n, addresses, candidates, edges, k),
    decreases m - k,
{
    if k < m {
        lemma_interface_err(n, addresses, candidates, edges, k, m - 1);
    }
}

/// The candidate indices of a plan's first interface.
fn interface_selection(n: usize, addresses: &Vec<Option<VertexAddress>>, problem: &EssentialCycleProblem,
    edges: &Vec<Edge>) -> (r: Result<Vec<usize>, String>)
    ensures
        match interface_indices(n, addresses@, problem.candidate_edges@, edges@, edges@.len() as int) {
            Err(m) => r matches Err(e) && e@ == m,
            Ok(sel) => r matches Ok(v) && v@ == sel,
        },
{
    let mut sel: Vec<usize> = Vec::new();
    let mut i: usize = 0;
    while i < edges.len()
        invariant
            i <= edges@.len(),
            interface_indices(n, addresses@, problem.candidate_edges@, edges@, i as int) == Ok::<Seq<usize>, Seq<char>>(sel@),
        decreases edges@.len() - i,
    {
        let (left, right) = edges[i];
        let id = edge_of_exec(canonical_vertex(n, addresses, left), canonical_vertex(n, addresses, right));
        match last_candidate(&problem.candidate_edges, &id) {
            None => {
                proof {
                    lemma_interface_err(n, addresses@, problem.candidate_edges@, edges@, i + 1, edges@.len() as int);
                }
                return Err("face-band interface contains a non-candidate edge".to_string());
            },
            Some(p) => {
                sel.push(p);
            },
        }
        i = i + 1;
    }
    Ok(sel)
}

/// The essential cycle that a valid two-band plan's interface traces: the
/// candidate edges of its first interface, validated as a selection.
pub fn essential_cycle_from_face_band_plan(source_n: usize, addresses: &Vec<Option<VertexAddress>>,
    face_problem: &FaceBandProblem, problem: &EssentialCycleProblem, plan: &FaceBandPlan) -> (r: Result<EssentialCycleKey, String>)
    requires
        problem_error(*face_problem) is None ==> problem_wf(*face_problem),
        problem.dual_seam_crossing_edges.wf(),
    ensures
        source_n != problem.source_n || !plan_valid(*face_problem, *plan)
            ==> (r matches Err(m) && m@ == "face-band plan does not satisfy the matching W2 contract"@),
        source_n == problem.source_n && plan_valid(*face_problem, *plan) && plan.interface_edges@.len() == 0
            ==> (r matches Err(m) && m@ == "W2 face-band plan has no interface"@),
        source_n == problem.source_n && plan_valid(*face_problem, *plan) && plan.interface_edges@.len() > 0 ==>
            match interface_indices(source_n, addresses@, problem.candidate_edges@, plan.interface_edges@[0]@,
                plan.interface_edges@[0]@.len() as int) {
                Err(m) => r matches Err(e) && e@ == m,
                Ok(sel) => match selection_error(*problem, sel) {
                    Some(m) => r matches Err(e) && e@ == m,
                    None => if has_self_loop(*problem, sel) {
                        r matches Ok(key) && key.ordered_vertices@ == loop_key(*problem, sel)
                    } else {
                        r matches Ok(key) && exists|w: Seq<usize>| canonical_walk(*problem, sel, w)
                            && key.ordered_vertices@ == w.map_values(|i: usize| cycle_order(*problem, sel)[i as int])
                    },
                },
            },
{
    if source_n != problem.source_n || !face_band_plan_is_valid(face_problem, plan) {
        return Err("face-band plan does not satisfy the matching W2 contract".to_string());
    }
    if plan.interface_edges.len() == 0 {
        return Err("W2 face-band plan has no interface".to_string());
    }
    let selected = interface_selection(source_n, addresses, problem, &plan.interface_edges[0])?;
    validate_selected_essential_cycle(problem, selected.as_slice())
}

/// A non-decreasing list with the multiset of a strictly increasing one is
/// that list.
proof fn lemma_sorted_multiset_unique(a: Seq<Edge>, b: Seq<Edge>)
    requires
        crate::polygon_incidence::edges_increasing(a),
        edges_nondecreasing(b),
        a.to_multiset() == b.to_multiset(),
    ensures
        a == b,
{
    broadcast use vstd::seq_lib::group_to_multiset_ensures;
    assert(a.no_duplicates()) by {
        assert forall|i: int, j: int| 0 <= i < a.len() && 0 <= j < a.len() && i != j implies a[i] != a[j] by {
            if i < j {
                assert(crate::graph::edge_lt(a[i], a[j]));
            } else {
                assert(crate::graph::edge_lt(a[j], a[i]));
            }
        }
    }
    a.lemma_multiset_has_no_duplicates();
    b.lemma_multiset_has_no_duplicates_conv();
    assert(crate::polygon_incidence::edges_increasing(b)) by {
        assert forall|i: int, j: int| 0 <= i < j < b.len() implies crate::graph::edge_lt(b[i], b[j]) by {
            assert(!crate::graph::edge_lt(b[j], b[i]));
            assert(b[i] != b[j]);
        }
    }
    assert(a.to_set() =~= b.to_set()) by {
        assert forall|x: Edge| a.to_set().contains(x) <==> b.to_set().contains(x) by {
            assert(a.to_multiset().contains(x) <==> a.contains(x));
            assert(b.to_multiset().contains(x) <==> b.contains(x));
        }
    }
    crate::polygon_incidence::lemma_edges_sorted_unique(a, b);
}

/// Where converting a cycle to labels stops: an error, or the labels and the
/// runtime interface edges that the final plan check receives.
pub open spec fn cycle_plan_inputs(n: usize, addresses: Seq<Option<VertexAddress>>, face_problem: FaceBandProblem,
    problem: EssentialCycleProblem, cycle: Seq<CanonicalVertexId>) -> Result<(Map<usize, u8>, Seq<Edge>), Seq<char>> {
    if n != problem.source_n || face_problem.band_count != 2 {
        Err("essential cycle does not match the supplied W2 problem"@)
    } else if cycle.len() < 3 || !cycle.no_duplicates() {
        Err("cycle key requires at least three unique vertices"@)
    } else {
        let edges = key_edges(cycle);
        match cycle_indices(problem.candidate_edges@, edges, edges.len() as int) {
            Err(m) => Err(m),
            Ok(sel) => match selection_error(problem, sel) {
                Some(m) => Err(m),
                None => if validated_key(problem, sel) != cycle {
                    Err("cycle key is not in canonical order"@)
                } else {
                    match coarse_side_spec(problem, sel) {
                        Err(m) => Err(m),
                        Ok(coarse) => match side_labels(problem.transition_faces@, face_problem.face_addresses@, coarse,
                            problem.transition_faces@.len() as int) {
                            Err(m) => Err(m),
                            Ok(labels) => match runtime_edges(n, addresses, edges, edges.len() as int) {
                                Err(m) => Err(m),
                                Ok(es) => Ok((labels, es)),
                            },
                        },
                    }
                },
            },
        }
    }
}

/// The plan has the given labels and one interface: the given edges in
/// increasing order.
pub open spec fn plan_carries(plan: FaceBandPlan, labels: Map<usize, u8>, edges: Seq<Edge>) -> bool {
    &&& plan.labels@ == labels
    &&& plan.interface_edges@.len() == 1
    &&& edges_nondecreasing(plan.interface_edges@[0]@)
    &&& plan.interface_edges@[0]@.to_multiset() == edges.to_multiset()
}

/// The two-band plan of an essential cycle: the faces on the cycle's coarse
/// side are labelled 0 and the others 1, the cycle's edges form the one
/// interface, and the plan must pass the face-band checks.
pub fn face_band_plan_from_essential_cycle(source_n: usize, addresses: &Vec<Option<VertexAddress>>,
    face_problem: &FaceBandProblem, problem: &EssentialCycleProblem, cycle: &EssentialCycleKey) -> (r: Result<FaceBandPlan, String>)
    requires
        problem_error(*face_problem) is None ==> problem_wf(*face_problem),
        problem.dual_seam_crossing_edges.wf(),
    ensures
        match cycle_plan_inputs(source_n, addresses@, *face_problem, *problem, cycle.ordered_vertices@) {
            Err(m) => r matches Err(e) && e@ == m,
            Ok((labels, edges)) => match r {
                Ok(plan) => plan_carries(plan, labels, edges) && plan_valid(*face_problem, plan),
                Err(e) => e@ == "cycle-derived labels fail the legacy W2 hard contract"@
                    && forall|pl: FaceBandPlan| #[trigger] plan_carries(pl, labels, edges) ==> !plan_valid(*face_problem, pl),
            },
        },
{
    if source_n != problem.source_n || face_problem.band_count != 2 {
        return Err("essential cycle does not match the supplied W2 problem".to_string());
    }
    let edges = cycle_edges(cycle)?;
    let ghost vs = cycle.ordered_vertices@;
    proof {
        assert(edges@ =~= key_edges(vs)) by {
            assert forall|i: int| 0 <= i < edges@.len() implies edges@[i] == key_edges(vs)[i] by {
                assert(key_edge_matches(vs, i, edges@[i]));
                assert(edges@[i].vertices =~= key_edges(vs)[i].vertices);
            }
        }
    }
    let mut sel: Vec<usize> = Vec::new();
    let mut i: usize = 0;
    while i < edges.len()
        invariant
            i <= edges@.len(),
            source_n == problem.source_n,
            face_problem.band_count == 2,
            cycle.ordered_vertices@.len() >= 3,
            cycle.ordered_vertices@.no_duplicates(),
            edges@ == key_edges(cycle.ordered_vertices@),
            cycle_indices(problem.candidate_edges@, edges@, i as int) == Ok::<Seq<usize>, Seq<char>>(sel@),
        decreases edges@.len() - i,
    {
        match last_candidate(&problem.candidate_edges, &edges[i]) {
            None => {
                proof {
                    lemma_cycle_indices_err(problem.candidate_edges@, edges@, i + 1, edges@.len() as int);
                }
                return Err("cycle contains a non-candidate edge".to_string());
            },
            Some(p) => {
                sel.push(p);
            },
        }
        i = i + 1;
    }
    let candidate_count = problem.candidate_edges.len();
    proof {
        assert(problem.candidate_edges@.len() == candidate_count);
        lemma_cycle_selection_proper(*problem, cycle.ordered_vertices@, sel@);
    }
    let key = validate_selected_essential_cycle(problem, sel.as_slice())?;
    proof {
        let w = choose|w: Seq<usize>| canonical_walk(*problem, sel@, w)
            && key.ordered_vertices@ == w.map_values(|i: usize| cycle_order(*problem, sel@)[i as int]);
        let w2 = choose|w: Seq<usize>| canonical_walk(*problem, sel@, w);
        lemma_canonical_walk_unique(*problem, sel@, w, w2);
        assert(key.ordered_vertices@ == validated_key(*problem, sel@));
    }
    if !keys_equal(&key.ordered_vertices, &cycle.ordered_vertices) {
        return Err("cycle key is not in canonical order".to_string());
    }
    let coarse = coarse_side(problem, sel.as_slice())?;
    let faces = &problem.transition_faces;
    let mut labels: BTreeMap<usize, u8> = BTreeMap::new();
    let mut k: usize = 0;
    while k < faces.len()
        invariant
            k <= faces@.len(),
            faces@ == problem.transition_faces@,
            source_n == problem.source_n,
            face_problem.band_count == 2,
            cycle.ordered_vertices@.len() >= 3,
            cycle.ordered_vertices@.no_duplicates(),
            edges@ == key_edges(cycle.ordered_vertices@),
            cycle_indices(problem.candidate_edges@, edges@, edges@.len() as int) == Ok::<Seq<usize>, Seq<char>>(sel@),
            selection_error(*problem, sel@) is None,
            validated_key(*problem, sel@) == cycle.ordered_vertices@,
            coarse_side_spec(*problem, sel@) == Ok::<Set<TriangleAddress>, Seq<char>>(coarse@),

            side_labels(faces@, face_problem.face_addresses@, coarse@, k as int) == Ok::<Map<usize, u8>, Seq<char>>(labels@),
        decreases faces@.len() - k,
    {
        let a = faces[k].address;
        match slot_of_address(&face_problem.face_addresses, a) {
            None => {
                proof {
                    lemma_side_labels_err(faces@, face_problem.face_addresses@, coarse@, k + 1, faces@.len() as int);
                }
                return Err("canonical face has no runtime slot".to_string());
            },
            Some(s) => {
                let label: u8 = if coarse.contains(&a) { 0 } else { 1 };
                labels.insert(s, label);
            },
        }
        k = k + 1;
    }
    let mut runtime: Vec<Edge> = Vec::new();
    let mut j: usize = 0;
    while j < edges.len()
        invariant
            j <= edges@.len(),
            source_n == problem.source_n,
            face_problem.band_count == 2,
            cycle.ordered_vertices@.len() >= 3,
            cycle.ordered_vertices@.no_duplicates(),
            edges@ == key_edges(cycle.ordered_vertices@),
            cycle_indices(problem.candidate_edges@, edges@, edges@.len() as int) == Ok::<Seq<usize>, Seq<char>>(sel@),
            selection_error(*problem, sel@) is None,
            validated_key(*problem, sel@) == cycle.ordered_vertices@,
            coarse_side_spec(*problem, sel@) == Ok::<Set<TriangleAddress>, Seq<char>>(coarse@),
            side_labels(problem.transition_faces@, face_problem.face_addresses@, coarse@, problem.transition_faces@.len() as int)
                == Ok::<Map<usize, u8>, Seq<char>>(labels@),
            runtime_edges(source_n, addresses@, edges@, j as int) == Ok::<Seq<Edge>, Seq<char>>(runtime@),
        decreases edges@.len() - j,
    {
        let left = match runtime_vertex(source_n, addresses, &edges[j].vertices[0]) {
            Ok(x) => x,
            Err(e) => {
                proof {
                    lemma_runtime_edges_err(source_n, addresses@, edges@, j + 1, edges@.len() as int);
                }
                return Err(e);
            },
        };
        let right = match runtime_vertex(source_n, addresses, &edges[j].vertices[1]) {
            Ok(x) => x,
            Err(e) => {
                proof {
                    lemma_runtime_edges_err(source_n, addresses@, edges@, j + 1, edges@.len() as int);
                }
                return Err(e);
            },
        };
        runtime.push(if left <= right { (left, right) } else { (right, left) });
        j = j + 1;
    }
    let sorted = sort_edges(&runtime);
    let ghost ls = labels@;
    let ghost es = runtime@;
    match plan_for_labels(face_problem, &labels) {
        None => {
            proof {
                assert forall|pl: FaceBandPlan| #[trigger] plan_carries(pl, ls, es) implies !plan_valid(*face_problem, pl) by {}
            }
            Err("cycle-derived labels fail the legacy W2 hard contract".to_string())
        },
        Some(built) => {
            if built.interface_edges.len() == 1 && edge_lists_equal(&built.interface_edges[0], &sorted) {
                Ok(built)
            } else {
                proof {
                    assert forall|pl: FaceBandPlan| #[trigger] plan_carries(pl, ls, es) implies !plan_valid(*face_problem, pl) by {
                        if plan_valid(*face_problem, pl) {
                            let fp = crate::face_band::fnv_slots(crate::face_band::fingerprint_slots(*face_problem));
                            crate::face_band::lemma_plan_unique(*face_problem, pl, built, fp);
                            assert(built.interface_edges@.len() == 1);
                            lemma_sorted_multiset_unique(pl.interface_edges@[0]@, sorted@);
                        }
                    }
                }
                Err("cycle-derived labels fail the legacy W2 hard contract".to_string())
            }
        },
    }
}

proof fn lemma_position_same(edges: Seq<CanonicalEdgeId>, e: CanonicalEdgeId, upto: int)
    ensures
        candidate_position(edges, e, upto) matches Some(i) ==> same_edge(edges[i], e),
    decreases upto,
{
    if upto > 0 {
        lemma_position_same(edges, e, upto - 1);
    }
}

/// The candidates that a cycle key's edges name join two different vertices.
pub(crate) proof fn lemma_cycle_selection_proper(problem: EssentialCycleProblem, vs: Seq<CanonicalVertexId>, sel: Seq<usize>)
    requires
        vs.len() >= 3,
        vs.no_duplicates(),
        problem.candidate_edges@.len() <= usize::MAX,
        cycle_indices(problem.candidate_edges@, key_edges(vs), vs.len() as int) == Ok::<Seq<usize>, Seq<char>>(sel),
    ensures
        !has_self_loop(problem, sel),
{
    let cands = problem.candidate_edges@;
    let es = key_edges(vs);
    crate::selection_order::lemma_cycle_indices_ok(cands, es, vs.len() as int);
    assert forall|j: int| 0 <= j < sel.len() && sel[j] < cands.len()
        implies (#[trigger] cands[sel[j] as int]).vertices[0] != cands[sel[j] as int].vertices[1] by {
        lemma_position_same(cands, es[j], cands.len() as int);
        let k = (j + 1) % (vs.len() as int);
        assert(k == if j + 1 < vs.len() { j + 1 } else { 0 }) by (nonlinear_arith)
            requires 0 <= j < vs.len(), vs.len() >= 3, k == (j + 1) % (vs.len() as int);
        let a = vs[j];
        let b = vs[k];
        assert(a != b);
        lemma_vertex_lt_order(a, b, a);
        assert(es[j] == edge_of(a, b));
    }
}

} // verus!
