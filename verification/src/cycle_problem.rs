//! The essential-cycle problem of a two-band face problem: its canonical
//! identity (faces by address, vertices by address or frozen slot, candidate
//! primal edges with their dual incidences) and the indexed problem built on
//! it, with the dual seam.

use vstd::prelude::*;
use std::collections::{BTreeMap, BTreeSet};
use crate::essential_cycle::{
    CanonicalVertexId, CanonicalEdgeId, CanonicalFaceId, VertexAddress, vertex_lt, lemma_vertex_lt_order, vertex_less,
    EssentialCycleProblemKey, EssentialCycleProblem, BitSet, candidate_position, same_edge, seam_index,
    crossings_back, seam_path, seam_exists, incidence_unknown, dual_seam, FaceEdge, ordered_pair,
};
use crate::face_band::{FaceBandProblem, AnchorBandPolicy};
use crate::records::TriangleAddress;
use crate::graph::Edge;
use crate::json::{decimal, push_usize};
use crate::cycle_labels::{slot_vertex, edge_of, edge_of_exec, canonical_vertex};
use vstd::std_specs::btree::{spec_btree_map_iter, spec_btree_keys_iter};
use vstd::std_specs::iter::IteratorSpec;

verus! {

/// Strict order on canonical edges: by first vertex, then second.
pub open spec fn edge_id_lt(a: CanonicalEdgeId, b: CanonicalEdgeId) -> bool {
    vertex_lt(a.vertices[0], b.vertices[0]) || (a.vertices[0] == b.vertices[0] && vertex_lt(a.vertices[1], b.vertices[1]))
}

/// Strict order on (edge, incident faces) pairs: by edge, then faces.
pub open spec fn incidence_lt(a: (CanonicalEdgeId, [CanonicalFaceId; 2]), b: (CanonicalEdgeId, [CanonicalFaceId; 2])) -> bool {
    ||| edge_id_lt(a.0, b.0)
    ||| a.0 == b.0 && a.1[0].address < b.1[0].address
    ||| a.0 == b.0 && a.1[0] == b.1[0] && a.1[1].address < b.1[1].address
}

proof fn lemma_incidence_order(a: (CanonicalEdgeId, [CanonicalFaceId; 2]), b: (CanonicalEdgeId, [CanonicalFaceId; 2]),
    c: (CanonicalEdgeId, [CanonicalFaceId; 2]))
    ensures
        !incidence_lt(a, a),
        a != b ==> incidence_lt(a, b) || incidence_lt(b, a),
        incidence_lt(a, b) ==> !incidence_lt(b, a),
        incidence_lt(a, b) && incidence_lt(b, c) ==> incidence_lt(a, c),
{
    lemma_vertex_lt_order(a.0.vertices[0], b.0.vertices[0], c.0.vertices[0]);
    lemma_vertex_lt_order(a.0.vertices[1], b.0.vertices[1], c.0.vertices[1]);
    lemma_vertex_lt_order(b.0.vertices[0], a.0.vertices[0], c.0.vertices[0]);
    lemma_vertex_lt_order(b.0.vertices[1], a.0.vertices[1], c.0.vertices[1]);
    lemma_vertex_lt_order(a.0.vertices[0], a.0.vertices[0], a.0.vertices[0]);
    lemma_vertex_lt_order(a.0.vertices[1], a.0.vertices[1], a.0.vertices[1]);
    if !incidence_lt(a, b) && !incidence_lt(b, a) {
        assert(a.0.vertices =~= b.0.vertices);
        assert(a.0 == b.0);
        assert(a.1 =~= b.1);
    }
}

fn incidence_less(a: &(CanonicalEdgeId, [CanonicalFaceId; 2]), b: &(CanonicalEdgeId, [CanonicalFaceId; 2])) -> (r: bool)
    ensures
        r == incidence_lt(*a, *b),
{
    let a0 = a.0.vertices[0];
    let a1 = a.0.vertices[1];
    let b0 = b.0.vertices[0];
    let b1 = b.0.vertices[1];
    if vertex_less(&a0, &b0) {
        return true;
    }
    if vertex_less(&b0, &a0) {
        proof {
            lemma_vertex_lt_order(b0, a0, a0);
        }
        return false;
    }
    proof {
        lemma_vertex_lt_order(a0, b0, b0);
    }
    if vertex_less(&a1, &b1) {
        return true;
    }
    if vertex_less(&b1, &a1) {
        proof {
            lemma_vertex_lt_order(b1, a1, a1);
        }
        return false;
    }
    proof {
        lemma_vertex_lt_order(a1, b1, b1);
        assert(a.0.vertices =~= b.0.vertices);
    }
    a.1[0].address < b.1[0].address || (a.1[0].address == b.1[0].address && a.1[1].address < b.1[1].address)
}

/// Insert into a strictly increasing list unless present.
fn insert_incidence(list: &mut Vec<(CanonicalEdgeId, [CanonicalFaceId; 2])>, x: (CanonicalEdgeId, [CanonicalFaceId; 2]))
    requires
        forall|i: int, j: int| 0 <= i < j < old(list)@.len() ==> incidence_lt(old(list)@[i], old(list)@[j]),
    ensures
        forall|i: int, j: int| 0 <= i < j < final(list)@.len() ==> incidence_lt(final(list)@[i], final(list)@[j]),
        final(list)@.to_set() == old(list)@.to_set().insert(x),
{
    let mut p: usize = 0;
    while p < list.len() && incidence_less(&list[p], &x)
        invariant
            p <= list@.len(),
            list@ == old(list)@,
            forall|k: int| 0 <= k < p ==> incidence_lt(#[trigger] list@[k], x),
        decreases list@.len() - p,
    {
        p = p + 1;
    }
    if p < list.len() && !incidence_less(&x, &list[p]) {
        proof {
            lemma_incidence_order(x, list@[p as int], x);
            assert(list@[p as int] == x);
            assert(list@.to_set().insert(x) =~= list@.to_set());
        }
        return;
    }
    let ghost before = list@;
    list.insert(p, x);
    proof {
        assert forall|i: int, j: int| 0 <= i < j < list@.len() implies incidence_lt(list@[i], list@[j]) by {
            if j < p {
                assert(list@[i] == before[i] && list@[j] == before[j]);
            } else if j == p {
                assert(list@[i] == before[i]);
            } else if i == p {
                assert(list@[j] == before[j - 1]);
                if j - 1 > p {
                    lemma_incidence_order(x, before[p as int], before[j - 1]);
                }
            } else if i < p {
                assert(list@[i] == before[i] && list@[j] == before[j - 1]);
            } else {
                assert(list@[i] == before[i - 1] && list@[j] == before[j - 1]);
            }
        }
        assert(list@.to_set() =~= before.to_set().insert(x)) by {
            assert forall|y| list@.to_set().contains(y) <==> before.to_set().insert(x).contains(y) by {
                if y == x {
                    assert(list@[p as int] == x);
                }
                if list@.to_set().contains(y) {
                    let k = choose|k: int| 0 <= k < list@.len() && list@[k] == y;
                    if k < p {
                        assert(before[k] == y);
                    } else if k > p {
                        assert(before[k - 1] == y);
                    }
                }
                if before.to_set().contains(y) {
                    let k = choose|k: int| 0 <= k < before.len() && before[k] == y;
                    if k < p {
                        assert(list@[k] == y);
                    } else {
                        assert(list@[k + 1] == y);
                    }
                }
            }
        }
    }
}

/// Insert into a strictly increasing list of addresses unless present.
fn insert_address(list: &mut Vec<u64>, x: u64)
    requires
        forall|i: int, j: int| 0 <= i < j < old(list)@.len() ==> old(list)@[i] < old(list)@[j],
    ensures
        forall|i: int, j: int| 0 <= i < j < final(list)@.len() ==> final(list)@[i] < final(list)@[j],
        final(list)@.to_set() == old(list)@.to_set().insert(x),
{
    let mut p: usize = 0;
    while p < list.len() && list[p] < x
        invariant
            p <= list@.len(),
            list@ == old(list)@,
            forall|k: int| 0 <= k < p ==> #[trigger] list@[k] < x,
        decreases list@.len() - p,
    {
        p = p + 1;
    }
    if p < list.len() && list[p] == x {
        proof {
            assert(list@.to_set().insert(x) =~= list@.to_set());
        }
        return;
    }
    let ghost before = list@;
    list.insert(p, x);
    proof {
        assert forall|i: int, j: int| 0 <= i < j < list@.len() implies list@[i] < list@[j] by {
            if j < p {
                assert(list@[i] == before[i] && list@[j] == before[j]);
            } else if j == p {
                assert(list@[i] == before[i]);
            } else if i == p {
                assert(list@[j] == before[j - 1]);
            } else if i < p {
                assert(list@[i] == before[i] && list@[j] == before[j - 1]);
            } else {
                assert(list@[i] == before[i - 1] && list@[j] == before[j - 1]);
            }
        }
        assert(list@.to_set() =~= before.to_set().insert(x)) by {
            assert forall|y| list@.to_set().contains(y) <==> before.to_set().insert(x).contains(y) by {
                if y == x {
                    assert(list@[p as int] == x);
                }
                if list@.to_set().contains(y) {
                    let k = choose|k: int| 0 <= k < list@.len() && list@[k] == y;
                    if k < p {
                        assert(before[k] == y);
                    } else if k > p {
                        assert(before[k - 1] == y);
                    }
                }
                if before.to_set().contains(y) {
                    let k = choose|k: int| 0 <= k < before.len() && before[k] == y;
                    if k < p {
                        assert(list@[k] == y);
                    } else {
                        assert(list@[k + 1] == y);
                    }
                }
            }
        }
    }
}

/// Strict order on face pairs: by first address, then second.
pub open spec fn face_pair_lt(a: (CanonicalFaceId, CanonicalFaceId), b: (CanonicalFaceId, CanonicalFaceId)) -> bool {
    a.0.address < b.0.address || (a.0.address == b.0.address && a.1.address < b.1.address)
}

/// Insert into a strictly increasing list of face pairs unless present.
fn insert_face_pair(list: &mut Vec<(CanonicalFaceId, CanonicalFaceId)>, x: (CanonicalFaceId, CanonicalFaceId))
    requires
        forall|i: int, j: int| 0 <= i < j < old(list)@.len() ==> face_pair_lt(old(list)@[i], old(list)@[j]),
    ensures
        forall|i: int, j: int| 0 <= i < j < final(list)@.len() ==> face_pair_lt(final(list)@[i], final(list)@[j]),
        final(list)@.to_set() == old(list)@.to_set().insert(x),
{
    let mut p: usize = 0;
    while p < list.len() && (list[p].0.address < x.0.address || (list[p].0.address == x.0.address && list[p].1.address < x.1.address))
        invariant
            p <= list@.len(),
            list@ == old(list)@,
            forall|k: int| 0 <= k < p ==> face_pair_lt(#[trigger] list@[k], x),
        decreases list@.len() - p,
    {
        p = p + 1;
    }
    if p < list.len() && list[p].0.address == x.0.address && list[p].1.address == x.1.address {
        proof {
            assert(list@[p as int] == x);
            assert(list@.to_set().insert(x) =~= list@.to_set());
        }
        return;
    }
    let ghost before = list@;
    list.insert(p, x);
    proof {
        assert forall|i: int, j: int| 0 <= i < j < list@.len() implies face_pair_lt(list@[i], list@[j]) by {
            if j < p {
                assert(list@[i] == before[i] && list@[j] == before[j]);
            } else if j == p {
                assert(list@[i] == before[i]);
            } else if i == p {
                assert(list@[j] == before[j - 1]);
                assert(face_pair_lt(x, before[p as int]));
                if j - 1 > p {
                    assert(face_pair_lt(before[p as int], before[j - 1]));
                }
            } else if i < p {
                assert(list@[i] == before[i] && list@[j] == before[j - 1]);
            } else {
                assert(list@[i] == before[i - 1] && list@[j] == before[j - 1]);
            }
        }
        assert(list@.to_set() =~= before.to_set().insert(x)) by {
            assert forall|y| list@.to_set().contains(y) <==> before.to_set().insert(x).contains(y) by {
                if y == x {
                    assert(list@[p as int] == x);
                }
                if list@.to_set().contains(y) {
                    let k = choose|k: int| 0 <= k < list@.len() && list@[k] == y;
                    if k < p {
                        assert(before[k] == y);
                    } else if k > p {
                        assert(before[k - 1] == y);
                    }
                }
                if before.to_set().contains(y) {
                    let k = choose|k: int| 0 <= k < before.len() && before[k] == y;
                    if k < p {
                        assert(list@[k] == y);
                    } else {
                        assert(list@[k + 1] == y);
                    }
                }
            }
        }
    }
}

/// The refusal for a slot without a face address.
pub open spec fn missing_message(s: usize) -> Seq<char> {
    "face-band slot "@ + decimal(s as nat) + " has no canonical address"@
}

fn missing_slot(s: usize) -> (m: String)
    ensures
        m@ == missing_message(s),
{
    let mut m = "face-band slot ".to_string();
    push_usize(&mut m, s);
    m.append(" has no canonical address");
    m
}

/// The first slot of `slots` without a face address.
pub open spec fn first_missing(fa: Map<usize, TriangleAddress>, slots: Seq<usize>) -> Option<usize>
    decreases slots.len(),
{
    if slots.len() == 0 {
        None
    } else if !fa.contains_key(slots[0]) {
        Some(slots[0])
    } else {
        first_missing(fa, slots.drop_first())
    }
}

/// The addresses of the slots.
pub open spec fn slot_addresses(fa: Map<usize, TriangleAddress>, slots: Seq<usize>) -> Set<TriangleAddress> {
    Set::new(|a: TriangleAddress| exists|i: int| 0 <= i < slots.len() && fa[slots[i]] == a)
}

/// Look up the addresses of a list of slots, in increasing order without
/// repeats; the first slot without one is refused.
fn addresses_of(fa: &BTreeMap<usize, TriangleAddress>, slots: &Vec<usize>) -> (r: Result<Vec<TriangleAddress>, String>)
    ensures
        match first_missing(fa@, slots@) {
            Some(s) => r matches Err(m) && m@ == missing_message(s),
            None => r matches Ok(v) && v@.to_set() == slot_addresses(fa@, slots@)
                && forall|i: int, j: int| 0 <= i < j < v@.len() ==> v@[i] < v@[j],
        },
{
    let mut out: Vec<TriangleAddress> = Vec::new();
    let mut i: usize = 0;
    proof {
        assert(slots@.skip(0) =~= slots@);
        assert(slot_addresses(fa@, slots@.take(0)) =~= Set::<TriangleAddress>::empty());
        assert(out@.to_set() =~= Set::<TriangleAddress>::empty());
    }
    while i < slots.len()
        invariant
            i <= slots@.len(),
            first_missing(fa@, slots@) == first_missing(fa@, slots@.skip(i as int)),
            out@.to_set() == slot_addresses(fa@, slots@.take(i as int)),
            forall|a: int, b: int| 0 <= a < b < out@.len() ==> out@[a] < out@[b],
        decreases slots@.len() - i,
    {
        let s = slots[i];
        proof {
            assert(slots@.skip(i as int)[0] == s);
            assert(slots@.skip(i as int).drop_first() =~= slots@.skip(i + 1));
        }
        let a = match fa.get(&s) {
            Some(a) => *a,
            None => {
                return Err(missing_slot(s));
            },
        };
        let ghost before = out@;
        insert_address(&mut out, a);
        proof {
            let t1 = slots@.take(i + 1);
            let t0 = slots@.take(i as int);
            assert forall|x: TriangleAddress| #[trigger] slot_addresses(fa@, t1).contains(x) == slot_addresses(fa@, t0).insert(a).contains(x) by {
                if slot_addresses(fa@, t1).contains(x) {
                    let k = choose|k: int| 0 <= k < t1.len() && fa@[#[trigger] t1[k]] == x;
                    if k < i {
                        assert(t0[k] == t1[k]);
                        assert(slot_addresses(fa@, t0).contains(x));
                    }
                }
                if x == a {
                    assert(t1[i as int] == s);
                    assert(slot_addresses(fa@, t1).contains(x));
                }
                if slot_addresses(fa@, t0).contains(x) {
                    let k = choose|k: int| 0 <= k < t0.len() && fa@[#[trigger] t0[k]] == x;
                    assert(t1[k] == t0[k]);
                    assert(slot_addresses(fa@, t1).contains(x));
                }
            }
            assert(slot_addresses(fa@, t1) =~= slot_addresses(fa@, t0).insert(a));
        }
        i = i + 1;
    }
    proof {
        assert(slots@.take(slots@.len() as int) =~= slots@);
        assert(slots@.skip(slots@.len() as int).len() == 0);
    }
    Ok(out)
}

/// The slots of a set in increasing order.
fn slot_list(set: &BTreeSet<usize>) -> (out: Vec<usize>)
    ensures
        out@ == spec_btree_keys_iter(set).remaining().map_values(|r: &usize| *r),
        out@.to_set() == set@,
{
    let mut out: Vec<usize> = Vec::new();
    let ghost full = spec_btree_keys_iter(set).remaining();
    for e in it: set.iter()
        invariant
            it.seq() == full,
            full == spec_btree_keys_iter(set).remaining(),
            out@ == full.take(it.index() as int).map_values(|r: &usize| *r),
    {
        let ghost j = it.index();
        out.push(*e);
        proof {
            assert(full.take(j + 1).map_values(|r: &usize| *r) =~= full.take(j as int).map_values(|r: &usize| *r).push(*e));
        }
    }
    proof {
        assert(full.take(full.len() as int) =~= full);
        assert(full.unref().to_set() == set@);
        assert(out@ =~= full.unref());
    }
    out
}

/// Two faces as a pair, smaller address first.
pub open spec fn face_pair(a: TriangleAddress, b: TriangleAddress) -> (CanonicalFaceId, CanonicalFaceId) {
    if a <= b { (CanonicalFaceId { address: a }, CanonicalFaceId { address: b }) }
    else { (CanonicalFaceId { address: b }, CanonicalFaceId { address: a }) }
}

/// The first slot without a face address among the adjacency entries: each
/// face with neighbours, then its neighbours.
pub open spec fn adjacency_missing(fa: Map<usize, TriangleAddress>, entries: Seq<(&usize, &Vec<usize>)>) -> Option<usize>
    decreases entries.len(),
{
    if entries.len() == 0 {
        None
    } else {
        let l = *entries[0].0;
        let list = (*entries[0].1)@;
        let here = if list.len() > 0 && !fa.contains_key(l) { Some(l) } else { first_missing(fa, list) };
        match here {
            Some(x) => Some(x),
            None => adjacency_missing(fa, entries.drop_first()),
        }
    }
}

/// The canonical face pairs of the face adjacency.
pub open spec fn adjacency_pairs(fa: Map<usize, TriangleAddress>, adj: Map<usize, Vec<usize>>) -> Set<(CanonicalFaceId, CanonicalFaceId)> {
    Set::new(|x: (CanonicalFaceId, CanonicalFaceId)| exists|l: usize, i: int| adj.contains_key(l) && 0 <= i < adj[l]@.len()
        && x == #[trigger] face_pair(fa[l], fa[adj[l]@[i]]))
}

/// The face pairs contributed by the first `k` adjacency entries.
pub open spec fn entry_pairs(fa: Map<usize, TriangleAddress>, entries: Seq<(&usize, &Vec<usize>)>, k: int) -> Set<(CanonicalFaceId, CanonicalFaceId)> {
    Set::new(|x: (CanonicalFaceId, CanonicalFaceId)| exists|q: int, i: int| 0 <= q < k && 0 <= i < (*entries[q].1)@.len()
        && x == #[trigger] face_pair(fa[*entries[q].0], fa[(*entries[q].1)@[i]]))
}

fn face_pair_exec(a: TriangleAddress, b: TriangleAddress) -> (r: (CanonicalFaceId, CanonicalFaceId))
    ensures
        r == face_pair(a, b),
{
    if a <= b { (CanonicalFaceId { address: a }, CanonicalFaceId { address: b }) }
    else { (CanonicalFaceId { address: b }, CanonicalFaceId { address: a }) }
}

/// The canonical face pairs of the adjacency, in increasing order; the first
/// slot without a face address is refused.
fn adjacency_edges(problem: &FaceBandProblem) -> (r: Result<Vec<(CanonicalFaceId, CanonicalFaceId)>, String>)
    ensures
        match adjacency_missing(problem.face_addresses@, spec_btree_map_iter(&problem.face_adjacency).remaining()) {
            Some(s) => r matches Err(m) && m@ == missing_message(s),
            None => r matches Ok(v) && v@.to_set() == adjacency_pairs(problem.face_addresses@, problem.face_adjacency@)
                && forall|i: int, j: int| 0 <= i < j < v@.len() ==> face_pair_lt(v@[i], v@[j]),
        },
{
    let fa = &problem.face_addresses;
    let ghost full = spec_btree_map_iter(&problem.face_adjacency).remaining();
    let mut out: Vec<(CanonicalFaceId, CanonicalFaceId)> = Vec::new();
    proof {
        assert(full.skip(0) =~= full);
        assert(out@.to_set() =~= entry_pairs(fa@, full, 0));
    }
    for kv in it: problem.face_adjacency.iter()
        invariant
            it.seq() == full,
            full == spec_btree_map_iter(&problem.face_adjacency).remaining(),
            fa == &problem.face_addresses,
            adjacency_missing(fa@, full) == adjacency_missing(fa@, full.skip(it.index() as int)),
            out@.to_set() == entry_pairs(fa@, full, it.index() as int),
            forall|i: int, j: int| 0 <= i < j < out@.len() ==> face_pair_lt(out@[i], out@[j]),
    {
        let left = *kv.0;
        let list = kv.1;
        let ghost k = it.index();
        proof {
            assert(*full[k].0 == left && *full[k].1 == *list);
            assert(full.skip(k)[0] == full[k]);
            assert(full.skip(k).drop_first() =~= full.skip(k + 1));
        }
        let ghost o0 = out@;
        let mut j: usize = 0;
        proof {
            assert(list@.skip(0) =~= list@);
        }
        while j < list.len()
            invariant
                j <= list@.len(),
                fa == &problem.face_addresses,
                list@ == (*full[k].1)@,
                left == *full[k].0,
                0 <= k < full.len(),
                full == spec_btree_map_iter(&problem.face_adjacency).remaining(),
                adjacency_missing(fa@, full) == adjacency_missing(fa@, full.skip(k)),
                list@.len() > 0 ==> fa@.contains_key(left) || j == 0,
                first_missing(fa@, list@) == first_missing(fa@, list@.skip(j as int)),
                j > 0 ==> fa@.contains_key(left),
                out@.to_set() == entry_pairs(fa@, full, k) + Set::new(|x: (CanonicalFaceId, CanonicalFaceId)|
                    exists|i: int| 0 <= i < j && x == #[trigger] face_pair(fa@[left], fa@[list@[i]])),
                forall|a: int, b: int| 0 <= a < b < out@.len() ==> face_pair_lt(out@[a], out@[b]),
            decreases list@.len() - j,
        {
            let a = match fa.get(&left) {
                Some(a) => *a,
                None => {
                    proof {
                        assert(list@.len() > 0);
                        assert(adjacency_missing(fa@, full.skip(k)) == Some(left));
                    }
                    return Err(missing_slot(left));
                },
            };
            let right = list[j];
            proof {
                assert(list@.skip(j as int)[0] == right);
                assert(list@.skip(j as int).drop_first() =~= list@.skip(j + 1));
            }
            let b = match fa.get(&right) {
                Some(b) => *b,
                None => {
                    proof {
                        assert(first_missing(fa@, list@.skip(j as int)) == Some(right));
                        assert(first_missing(fa@, list@) == Some(right));
                        assert(adjacency_missing(fa@, full.skip(k)) == Some(right));
                    }
                    return Err(missing_slot(right));
                },
            };
            let ghost before = out@;
            insert_face_pair(&mut out, face_pair_exec(a, b));
            proof {
                let prev = Set::new(|x: (CanonicalFaceId, CanonicalFaceId)|
                    exists|i: int| 0 <= i < j && x == #[trigger] face_pair(fa@[left], fa@[list@[i]]));
                let next = Set::new(|x: (CanonicalFaceId, CanonicalFaceId)|
                    exists|i: int| 0 <= i < j + 1 && x == #[trigger] face_pair(fa@[left], fa@[list@[i]]));
                assert(next =~= prev.insert(face_pair(a, b)));
                assert(out@.to_set() =~= entry_pairs(fa@, full, k) + next);
            }
            j = j + 1;
        }
        proof {
            assert(list@.skip(j as int).len() == 0);
            assert(first_missing(fa@, list@) is None);
            assert(adjacency_missing(fa@, full.skip(k)) == adjacency_missing(fa@, full.skip(k + 1)));
            let cur = Set::new(|x: (CanonicalFaceId, CanonicalFaceId)|
                exists|i: int| 0 <= i < j && x == #[trigger] face_pair(fa@[left], fa@[list@[i]]));
            assert(entry_pairs(fa@, full, k + 1) =~= entry_pairs(fa@, full, k) + cur) by {
                assert forall|x: (CanonicalFaceId, CanonicalFaceId)| entry_pairs(fa@, full, k + 1).contains(x)
                    implies (entry_pairs(fa@, full, k) + cur).contains(x) by {
                    let (q, i) = choose|q: int, i: int| 0 <= q < k + 1 && 0 <= i < (*full[q].1)@.len()
                        && x == #[trigger] face_pair(fa@[*full[q].0], fa@[(*full[q].1)@[i]]);
                    if q < k {
                        assert(entry_pairs(fa@, full, k).contains(x));
                    } else {
                        assert(cur.contains(x));
                    }
                }
                assert forall|x: (CanonicalFaceId, CanonicalFaceId)| (entry_pairs(fa@, full, k) + cur).contains(x)
                    implies entry_pairs(fa@, full, k + 1).contains(x) by {
                    if entry_pairs(fa@, full, k).contains(x) {
                        let (q, i) = choose|q: int, i: int| 0 <= q < k && 0 <= i < (*full[q].1)@.len()
                            && x == #[trigger] face_pair(fa@[*full[q].0], fa@[(*full[q].1)@[i]]);
                        assert(0 <= q < k + 1);
                    } else {
                        let i = choose|i: int| 0 <= i < j && x == #[trigger] face_pair(fa@[left], fa@[list@[i]]);
                        assert(x == face_pair(fa@[*full[k].0], fa@[(*full[k].1)@[i]]));
                    }
                }
            }
        }
    }
    proof {
        assert(full.skip(full.len() as int).len() == 0);
        let adj = problem.face_adjacency@;
        assert(entry_pairs(fa@, full, full.len() as int) =~= adjacency_pairs(fa@, adj)) by {
            assert forall|x: (CanonicalFaceId, CanonicalFaceId)| entry_pairs(fa@, full, full.len() as int).contains(x)
                implies adjacency_pairs(fa@, adj).contains(x) by {
                let (q, i) = choose|q: int, i: int| 0 <= q < full.len() && 0 <= i < (*full[q].1)@.len()
                    && x == #[trigger] face_pair(fa@[*full[q].0], fa@[(*full[q].1)@[i]]);
                assert(adj.contains_key(*full[q].0) && adj[*full[q].0] == *full[q].1);
            }
            assert forall|x: (CanonicalFaceId, CanonicalFaceId)| adjacency_pairs(fa@, adj).contains(x)
                implies entry_pairs(fa@, full, full.len() as int).contains(x) by {
                let (l, i) = choose|l: usize, i: int| adj.contains_key(l) && 0 <= i < adj[l]@.len()
                    && x == #[trigger] face_pair(fa@[l], fa@[adj[l]@[i]]);
                assert(full.contains((&l, &adj[l])));
                let q = choose|q: int| 0 <= q < full.len() && full[q] == (&l, &adj[l]);
                assert(x == face_pair(fa@[*full[q].0], fa@[(*full[q].1)@[i]]));
            }
        }
    }
    Ok(out)
}


proof fn lemma_edge_order(a: CanonicalEdgeId, b: CanonicalEdgeId, c: CanonicalEdgeId)
    ensures
        !edge_id_lt(a, a),
        a != b ==> edge_id_lt(a, b) || edge_id_lt(b, a),
        edge_id_lt(a, b) ==> !edge_id_lt(b, a),
        edge_id_lt(a, b) && edge_id_lt(b, c) ==> edge_id_lt(a, c),
{
    lemma_vertex_lt_order(a.vertices[0], b.vertices[0], c.vertices[0]);
    lemma_vertex_lt_order(a.vertices[1], b.vertices[1], c.vertices[1]);
    lemma_vertex_lt_order(b.vertices[0], a.vertices[0], c.vertices[0]);
    lemma_vertex_lt_order(b.vertices[1], a.vertices[1], c.vertices[1]);
    lemma_vertex_lt_order(a.vertices[0], a.vertices[0], a.vertices[0]);
    lemma_vertex_lt_order(a.vertices[1], a.vertices[1], a.vertices[1]);
    if !edge_id_lt(a, b) && !edge_id_lt(b, a) {
        assert(a.vertices =~= b.vertices);
    }
}

fn edge_less(a: &CanonicalEdgeId, b: &CanonicalEdgeId) -> (r: bool)
    ensures
        r == edge_id_lt(*a, *b),
{
    let a0 = a.vertices[0];
    let b0 = b.vertices[0];
    if vertex_less(&a0, &b0) {
        return true;
    }
    if vertex_less(&b0, &a0) {
        proof {
            lemma_vertex_lt_order(b0, a0, a0);
        }
        return false;
    }
    proof {
        lemma_vertex_lt_order(a0, b0, b0);
    }
    vertex_less(&a.vertices[1], &b.vertices[1])
}

fn vertex_equal(a: &CanonicalVertexId, b: &CanonicalVertexId) -> (r: bool)
    ensures
        r == (*a == *b),
{
    proof {
        lemma_vertex_lt_order(*a, *b, *b);
    }
    !vertex_less(a, b) && !vertex_less(b, a)
}

fn edge_equal(a: &CanonicalEdgeId, b: &CanonicalEdgeId) -> (r: bool)
    ensures
        r == (*a == *b),
{
    proof {
        lemma_edge_order(*a, *b, *b);
    }
    !edge_less(a, b) && !edge_less(b, a)
}

/// Insert into a strictly increasing list of edges unless present.
fn insert_edge_id(list: &mut Vec<CanonicalEdgeId>, x: CanonicalEdgeId)
    requires
        forall|i: int, j: int| 0 <= i < j < old(list)@.len() ==> edge_id_lt(old(list)@[i], old(list)@[j]),
    ensures
        forall|i: int, j: int| 0 <= i < j < final(list)@.len() ==> edge_id_lt(final(list)@[i], final(list)@[j]),
        final(list)@.to_set() == old(list)@.to_set().insert(x),
{
    let mut p: usize = 0;
    while p < list.len() && edge_less(&list[p], &x)
        invariant
            p <= list@.len(),
            list@ == old(list)@,
            forall|k: int| 0 <= k < p ==> edge_id_lt(#[trigger] list@[k], x),
        decreases list@.len() - p,
    {
        p = p + 1;
    }
    if p < list.len() && !edge_less(&x, &list[p]) {
        proof {
            lemma_edge_order(x, list@[p as int], x);
            assert(list@.to_set().insert(x) =~= list@.to_set());
        }
        return;
    }
    let ghost before = list@;
    list.insert(p, x);
    proof {
        assert forall|i: int, j: int| 0 <= i < j < list@.len() implies edge_id_lt(list@[i], list@[j]) by {
            if j < p {
                assert(list@[i] == before[i] && list@[j] == before[j]);
            } else if j == p {
                assert(list@[i] == before[i]);
            } else if i == p {
                assert(list@[j] == before[j - 1]);
                if j - 1 > p {
                    lemma_edge_order(x, before[p as int], before[j - 1]);
                }
            } else if i < p {
                assert(list@[i] == before[i] && list@[j] == before[j - 1]);
            } else {
                assert(list@[i] == before[i - 1] && list@[j] == before[j - 1]);
            }
        }
        assert(list@.to_set() =~= before.to_set().insert(x)) by {
            assert forall|y| list@.to_set().contains(y) <==> before.to_set().insert(x).contains(y) by {
                if y == x {
                    assert(list@[p as int] == x);
                }
                if list@.to_set().contains(y) {
                    let k = choose|k: int| 0 <= k < list@.len() && list@[k] == y;
                    if k < p {
                        assert(before[k] == y);
                    } else if k > p {
                        assert(before[k - 1] == y);
                    }
                }
                if before.to_set().contains(y) {
                    let k = choose|k: int| 0 <= k < before.len() && before[k] == y;
                    if k < p {
                        assert(list@[k] == y);
                    } else {
                        assert(list@[k + 1] == y);
                    }
                }
            }
        }
    }
}

/// Insert into a strictly increasing list of vertices unless present.
fn insert_vertex(list: &mut Vec<CanonicalVertexId>, x: CanonicalVertexId)
    requires
        forall|i: int, j: int| 0 <= i < j < old(list)@.len() ==> vertex_lt(old(list)@[i], old(list)@[j]),
    ensures
        forall|i: int, j: int| 0 <= i < j < final(list)@.len() ==> vertex_lt(final(list)@[i], final(list)@[j]),
        final(list)@.to_set() == old(list)@.to_set().insert(x),
{
    let mut p: usize = 0;
    while p < list.len() && vertex_less(&list[p], &x)
        invariant
            p <= list@.len(),
            list@ == old(list)@,
            forall|k: int| 0 <= k < p ==> vertex_lt(#[trigger] list@[k], x),
        decreases list@.len() - p,
    {
        p = p + 1;
    }
    if p < list.len() && !vertex_less(&x, &list[p]) {
        proof {
            lemma_vertex_lt_order(x, list@[p as int], x);
            assert(list@.to_set().insert(x) =~= list@.to_set());
        }
        return;
    }
    let ghost before = list@;
    list.insert(p, x);
    proof {
        assert forall|i: int, j: int| 0 <= i < j < list@.len() implies vertex_lt(list@[i], list@[j]) by {
            if j < p {
                assert(list@[i] == before[i] && list@[j] == before[j]);
            } else if j == p {
                assert(list@[i] == before[i]);
            } else if i == p {
                assert(list@[j] == before[j - 1]);
                if j - 1 > p {
                    lemma_vertex_lt_order(x, before[p as int], before[j - 1]);
                }
            } else if i < p {
                assert(list@[i] == before[i] && list@[j] == before[j - 1]);
            } else {
                assert(list@[i] == before[i - 1] && list@[j] == before[j - 1]);
            }
        }
        assert(list@.to_set() =~= before.to_set().insert(x)) by {
            assert forall|y| list@.to_set().contains(y) <==> before.to_set().insert(x).contains(y) by {
                if y == x {
                    assert(list@[p as int] == x);
                }
                if list@.to_set().contains(y) {
                    let k = choose|k: int| 0 <= k < list@.len() && list@[k] == y;
                    if k < p {
                        assert(before[k] == y);
                    } else if k > p {
                        assert(before[k - 1] == y);
                    }
                }
                if before.to_set().contains(y) {
                    let k = choose|k: int| 0 <= k < before.len() && before[k] == y;
                    if k < p {
                        assert(list@[k] == y);
                    } else {
                        assert(list@[k + 1] == y);
                    }
                }
            }
        }
    }
}

/// The rank of a policy in its declared order.
pub open spec fn policy_rank(p: AnchorBandPolicy) -> int {
    match p {
        AnchorBandPolicy::InteriorOfSingleBand => 0,
        AnchorBandPolicy::OnSingleInterface => 1,
        AnchorBandPolicy::FineCapConnectedToExterior => 2,
    }
}

fn policy_rank_exec(p: AnchorBandPolicy) -> (r: u8)
    ensures
        r as int == policy_rank(p),
{
    match p {
        AnchorBandPolicy::InteriorOfSingleBand => 0,
        AnchorBandPolicy::OnSingleInterface => 1,
        AnchorBandPolicy::FineCapConnectedToExterior => 2,
    }
}

/// Strict order on anchor entries: by vertex, then policy.
pub open spec fn anchor_lt(a: (CanonicalVertexId, AnchorBandPolicy), b: (CanonicalVertexId, AnchorBandPolicy)) -> bool {
    vertex_lt(a.0, b.0) || (a.0 == b.0 && policy_rank(a.1) < policy_rank(b.1))
}

proof fn lemma_anchor_order(a: (CanonicalVertexId, AnchorBandPolicy), b: (CanonicalVertexId, AnchorBandPolicy),
    c: (CanonicalVertexId, AnchorBandPolicy))
    ensures
        !anchor_lt(a, a),
        a != b ==> anchor_lt(a, b) || anchor_lt(b, a),
        anchor_lt(a, b) ==> !anchor_lt(b, a),
        anchor_lt(a, b) && anchor_lt(b, c) ==> anchor_lt(a, c),
{
    lemma_vertex_lt_order(a.0, b.0, c.0);
    lemma_vertex_lt_order(b.0, a.0, c.0);
    lemma_vertex_lt_order(a.0, a.0, a.0);
}

fn anchor_less(a: &(CanonicalVertexId, AnchorBandPolicy), b: &(CanonicalVertexId, AnchorBandPolicy)) -> (r: bool)
    ensures
        r == anchor_lt(*a, *b),
{
    vertex_less(&a.0, &b.0) || (vertex_equal(&a.0, &b.0) && policy_rank_exec(a.1) < policy_rank_exec(b.1))
}

/// Insert into a sorted list of anchor entries, after its equals.
fn insert_anchor(list: &mut Vec<(CanonicalVertexId, AnchorBandPolicy)>, x: (CanonicalVertexId, AnchorBandPolicy))
    requires
        forall|i: int, j: int| 0 <= i < j < old(list)@.len() ==> !anchor_lt(old(list)@[j], old(list)@[i]),
    ensures
        forall|i: int, j: int| 0 <= i < j < final(list)@.len() ==> !anchor_lt(final(list)@[j], final(list)@[i]),
        final(list)@.to_multiset() == old(list)@.to_multiset().insert(x),
{
    let mut p: usize = 0;
    while p < list.len() && !anchor_less(&x, &list[p])
        invariant
            p <= list@.len(),
            list@ == old(list)@,
            forall|k: int| 0 <= k < p ==> !anchor_lt(x, #[trigger] list@[k]),
        decreases list@.len() - p,
    {
        p = p + 1;
    }
    let ghost before = list@;
    list.insert(p, x);
    proof {
        vstd::seq_lib::to_multiset_insert(before, p as int, x);
        assert forall|i: int, j: int| 0 <= i < j < list@.len() implies !anchor_lt(list@[j], list@[i]) by {
            if j < p {
                assert(list@[i] == before[i] && list@[j] == before[j]);
            } else if j == p {
                assert(list@[i] == before[i]);
            } else if i == p {
                assert(list@[j] == before[j - 1]);
                lemma_anchor_order(x, before[p as int], before[j - 1]);
                lemma_anchor_order(before[j - 1], before[p as int], x);
                lemma_anchor_order(before[p as int], before[j - 1], before[j - 1]);
            } else if i < p {
                assert(list@[i] == before[i] && list@[j] == before[j - 1]);
            } else {
                assert(list@[i] == before[i - 1] && list@[j] == before[j - 1]);
            }
        }
    }
}

/// A vertex slot that no candidate edge may touch: a boundary vertex, or an
/// anchor whose policy is not to lie on the single interface.
pub open spec fn blocked(fp: FaceBandProblem, v: usize) -> bool {
    ||| fp.coarse_boundary_vertices@.contains(v)
    ||| fp.fine_boundary_vertices@.contains(v)
    ||| fp.anchor_policies@.contains_key(v) && fp.anchor_policies@[v] != AnchorBandPolicy::OnSingleInterface
}

fn is_blocked(fp: &FaceBandProblem, v: usize) -> (r: bool)
    ensures
        r == blocked(*fp, v),
{
    if fp.coarse_boundary_vertices.contains(&v) || fp.fine_boundary_vertices.contains(&v) {
        return true;
    }
    match fp.anchor_policies.get(&v) {
        Some(p) => match p {
            AnchorBandPolicy::OnSingleInterface => false,
            _ => true,
        },
        None => false,
    }
}

/// Two faces in increasing address order.
pub open spec fn face_sorted(a: TriangleAddress, b: TriangleAddress) -> [CanonicalFaceId; 2] {
    if a <= b { [CanonicalFaceId { address: a }, CanonicalFaceId { address: b }] }
    else { [CanonicalFaceId { address: b }, CanonicalFaceId { address: a }] }
}

/// The candidate edge of a shared primal edge, with its two faces.
pub open spec fn incidence_of(n: usize, addresses: Seq<Option<VertexAddress>>, fa: Map<usize, TriangleAddress>,
    faces: (usize, usize), e: Edge) -> (CanonicalEdgeId, [CanonicalFaceId; 2]) {
    (edge_of(slot_vertex(n, addresses, e.0), slot_vertex(n, addresses, e.1)), face_sorted(fa[faces.0], fa[faces.1]))
}

/// The first face slot without an address among the shared edges that are
/// not blocked: the left face, then the right.
pub open spec fn incidence_missing(fa: Map<usize, TriangleAddress>, fp: FaceBandProblem,
    entries: Seq<(&(usize, usize), &Edge)>) -> Option<usize>
    decreases entries.len(),
{
    if entries.len() == 0 {
        None
    } else {
        let faces = *entries[0].0;
        let e = *entries[0].1;
        if blocked(fp, e.0) || blocked(fp, e.1) {
            incidence_missing(fa, fp, entries.drop_first())
        } else if !fa.contains_key(faces.0) {
            Some(faces.0)
        } else if !fa.contains_key(faces.1) {
            Some(faces.1)
        } else {
            incidence_missing(fa, fp, entries.drop_first())
        }
    }
}

/// The candidate incidences: one for each shared edge that is not blocked.
pub open spec fn incidence_set(n: usize, addresses: Seq<Option<VertexAddress>>, fp: FaceBandProblem)
    -> Set<(CanonicalEdgeId, [CanonicalFaceId; 2])> {
    Set::new(|x: (CanonicalEdgeId, [CanonicalFaceId; 2])| exists|f: (usize, usize)|
        fp.face_shared_edges@.contains_key(f) && !blocked(fp, fp.face_shared_edges@[f].0) && !blocked(fp, fp.face_shared_edges@[f].1)
        && x == #[trigger] incidence_of(n, addresses, fp.face_addresses@, f, fp.face_shared_edges@[f]))
}

/// The incidences of the first `k` entries.
pub open spec fn entry_incidences(n: usize, addresses: Seq<Option<VertexAddress>>, fp: FaceBandProblem,
    entries: Seq<(&(usize, usize), &Edge)>, k: int) -> Set<(CanonicalEdgeId, [CanonicalFaceId; 2])> {
    Set::new(|x: (CanonicalEdgeId, [CanonicalFaceId; 2])| exists|q: int| 0 <= q < k
        && !blocked(fp, (*entries[q].1).0) && !blocked(fp, (*entries[q].1).1)
        && x == #[trigger] incidence_of(n, addresses, fp.face_addresses@, *entries[q].0, *entries[q].1))
}

/// The candidate incidences in increasing order; the first face slot without
/// an address is refused.
fn candidate_incidences(n: usize, addresses: &Vec<Option<VertexAddress>>, fp: &FaceBandProblem)
    -> (r: Result<Vec<(CanonicalEdgeId, [CanonicalFaceId; 2])>, String>)
    ensures
        match incidence_missing(fp.face_addresses@, *fp, spec_btree_map_iter(&fp.face_shared_edges).remaining()) {
            Some(s) => r matches Err(m) && m@ == missing_message(s),
            None => r matches Ok(v) && v@.to_set() == incidence_set(n, addresses@, *fp)
                && forall|i: int, j: int| 0 <= i < j < v@.len() ==> incidence_lt(v@[i], v@[j]),
        },
{
    let fa = &fp.face_addresses;
    let ghost full = spec_btree_map_iter(&fp.face_shared_edges).remaining();
    let mut out: Vec<(CanonicalEdgeId, [CanonicalFaceId; 2])> = Vec::new();
    proof {
        assert(full.skip(0) =~= full);
        assert(out@.to_set() =~= entry_incidences(n, addresses@, *fp, full, 0));
    }
    for kv in it: fp.face_shared_edges.iter()
        invariant
            it.seq() == full,
            full == spec_btree_map_iter(&fp.face_shared_edges).remaining(),
            fa == &fp.face_addresses,
            incidence_missing(fa@, *fp, full) == incidence_missing(fa@, *fp, full.skip(it.index() as int)),
            out@.to_set() == entry_incidences(n, addresses@, *fp, full, it.index() as int),
            forall|i: int, j: int| 0 <= i < j < out@.len() ==> incidence_lt(out@[i], out@[j]),
    {
        let faces = *kv.0;
        let e = *kv.1;
        let ghost k = it.index();
        proof {
            assert(*full[k].0 == faces && *full[k].1 == e);
            assert(full.skip(k)[0] == full[k]);
            assert(full.skip(k).drop_first() =~= full.skip(k + 1));
        }
        if is_blocked(fp, e.0) || is_blocked(fp, e.1) {
            proof {
                assert(entry_incidences(n, addresses@, *fp, full, k + 1) =~= entry_incidences(n, addresses@, *fp, full, k)) by {
                    assert forall|x| #[trigger] entry_incidences(n, addresses@, *fp, full, k + 1).contains(x)
                        implies entry_incidences(n, addresses@, *fp, full, k).contains(x) by {
                        let q = choose|q: int| 0 <= q < k + 1
                            && !blocked(*fp, (*full[q].1).0) && !blocked(*fp, (*full[q].1).1)
                            && x == #[trigger] incidence_of(n, addresses@, fp.face_addresses@, *full[q].0, *full[q].1);
                        assert(q != k);
                    }
                }
            }
        } else {
            let a = match fa.get(&faces.0) {
                Some(a) => *a,
                None => {
                    return Err(missing_slot(faces.0));
                },
            };
            let b = match fa.get(&faces.1) {
                Some(b) => *b,
                None => {
                    return Err(missing_slot(faces.1));
                },
            };
            let edge = edge_of_exec(canonical_vertex(n, addresses, e.0), canonical_vertex(n, addresses, e.1));
            let incident = if a <= b {
                [CanonicalFaceId { address: a }, CanonicalFaceId { address: b }]
            } else {
                [CanonicalFaceId { address: b }, CanonicalFaceId { address: a }]
            };
            let ghost x = incidence_of(n, addresses@, fa@, faces, e);
            proof {
                assert(incident =~= face_sorted(a, b));
            }
            insert_incidence(&mut out, (edge, incident));
            proof {
                assert(entry_incidences(n, addresses@, *fp, full, k + 1) =~= entry_incidences(n, addresses@, *fp, full, k).insert(x)) by {
                    assert forall|y| #[trigger] entry_incidences(n, addresses@, *fp, full, k + 1).contains(y)
                        implies entry_incidences(n, addresses@, *fp, full, k).insert(x).contains(y) by {
                        let q = choose|q: int| 0 <= q < k + 1
                            && !blocked(*fp, (*full[q].1).0) && !blocked(*fp, (*full[q].1).1)
                            && y == #[trigger] incidence_of(n, addresses@, fp.face_addresses@, *full[q].0, *full[q].1);
                        if q < k {
                            assert(entry_incidences(n, addresses@, *fp, full, k).contains(y));
                        }
                    }
                    assert(entry_incidences(n, addresses@, *fp, full, k + 1).contains(x)) by {
                        assert(x == incidence_of(n, addresses@, fp.face_addresses@, *full[k].0, *full[k].1));
                    }
                    assert forall|y| #[trigger] entry_incidences(n, addresses@, *fp, full, k).contains(y)
                        implies entry_incidences(n, addresses@, *fp, full, k + 1).contains(y) by {
                        let q = choose|q: int| 0 <= q < k
                            && !blocked(*fp, (*full[q].1).0) && !blocked(*fp, (*full[q].1).1)
                            && y == #[trigger] incidence_of(n, addresses@, fp.face_addresses@, *full[q].0, *full[q].1);
                        assert(0 <= q < k + 1);
                    }
                }
            }
        }
    }
    proof {
        assert(full.skip(full.len() as int).len() == 0);
        let m = fp.face_shared_edges@;
        assert(entry_incidences(n, addresses@, *fp, full, full.len() as int) =~= incidence_set(n, addresses@, *fp)) by {
            assert forall|x| #[trigger] entry_incidences(n, addresses@, *fp, full, full.len() as int).contains(x)
                implies incidence_set(n, addresses@, *fp).contains(x) by {
                let q = choose|q: int| 0 <= q < full.len()
                    && !blocked(*fp, (*full[q].1).0) && !blocked(*fp, (*full[q].1).1)
                    && x == #[trigger] incidence_of(n, addresses@, fp.face_addresses@, *full[q].0, *full[q].1);
                assert(m.contains_key(*full[q].0) && m[*full[q].0] == *full[q].1);
            }
            assert forall|x| #[trigger] incidence_set(n, addresses@, *fp).contains(x)
                implies entry_incidences(n, addresses@, *fp, full, full.len() as int).contains(x) by {
                let f = choose|f: (usize, usize)|
                    m.contains_key(f) && !blocked(*fp, m[f].0) && !blocked(*fp, m[f].1)
                    && x == #[trigger] incidence_of(n, addresses@, fp.face_addresses@, f, m[f]);
                assert(full.contains((&f, &m[f])));
                let q = choose|q: int| 0 <= q < full.len() && full[q] == (&f, &m[f]);
                assert(x == incidence_of(n, addresses@, fp.face_addresses@, *full[q].0, *full[q].1));
            }
        }
    }
    Ok(out)
}

/// Version of the essential-cycle contract recorded in each key.
pub const ESSENTIAL_CYCLE_CONTRACT_VERSION: u32 = 1;

/// Version of the downstream full-polygon contract recorded in each key.
pub const DOWNSTREAM_FULL_POLYGON_CONTRACT_VERSION: u32 = 1;

/// The addresses of the slots of a set.
pub open spec fn set_addresses(fa: Map<usize, TriangleAddress>, set: Set<usize>) -> Set<TriangleAddress> {
    Set::new(|a: TriangleAddress| exists|s: usize| set.contains(s) && #[trigger] fa[s] == a)
}

proof fn lemma_slot_addresses_set(fa: Map<usize, TriangleAddress>, slots: Seq<usize>)
    ensures
        slot_addresses(fa, slots) == set_addresses(fa, slots.to_set()),
{
    assert forall|a: TriangleAddress| slot_addresses(fa, slots).contains(a) <==> set_addresses(fa, slots.to_set()).contains(a) by {
        if slot_addresses(fa, slots).contains(a) {
            let i = choose|i: int| 0 <= i < slots.len() && fa[slots[i]] == a;
            assert(slots.to_set().contains(slots[i]));
        }
        if set_addresses(fa, slots.to_set()).contains(a) {
            let s = choose|s: usize| slots.to_set().contains(s) && #[trigger] fa[s] == a;
            let i = choose|i: int| 0 <= i < slots.len() && slots[i] == s;
            assert(fa[slots[i]] == a);
        }
    }
    assert(slot_addresses(fa, slots) =~= set_addresses(fa, slots.to_set()));
}

/// A strictly increasing list of addresses.
pub open spec fn increasing(v: Seq<TriangleAddress>) -> bool {
    forall|i: int, j: int| 0 <= i < j < v.len() ==> v[i] < v[j]
}

/// The anchor entries of a face problem, walked as `entries`, each slot as
/// its canonical vertex.
pub open spec fn anchor_entries(n: usize, addresses: Seq<Option<VertexAddress>>, entries: Seq<(&usize, &AnchorBandPolicy)>)
    -> Seq<(CanonicalVertexId, AnchorBandPolicy)> {
    entries.map_values(|e: (&usize, &AnchorBandPolicy)| (slot_vertex(n, addresses, *e.0), *e.1))
}

/// Why a face problem has no essential-cycle key, checked in this order: a
/// transition slot without an address, two transition slots with one
/// address, then a missing address in the adjacency, in the candidate
/// incidences, among the coarse and among the fine boundary faces. The
/// adjacency, the shared edges and the two boundaries are walked as `adj`,
/// `shared`, `coarse` and `fine`.
pub open spec fn key_error(n: usize, addresses: Seq<Option<VertexAddress>>, fp: FaceBandProblem,
    adj: Seq<(&usize, &Vec<usize>)>, shared: Seq<(&(usize, usize), &Edge)>, coarse: Seq<usize>, fine: Seq<usize>)
    -> Option<Seq<char>> {
    let fa = fp.face_addresses@;
    if let Some(s) = first_missing(fa, fp.transition_faces@) {
        Some(missing_message(s))
    } else if slot_addresses(fa, fp.transition_faces@).len() != fp.transition_faces@.len() {
        Some("canonical transition face addresses are not unique"@)
    } else if let Some(s) = adjacency_missing(fa, adj) {
        Some(missing_message(s))
    } else if let Some(s) = incidence_missing(fa, fp, shared) {
        Some(missing_message(s))
    } else if let Some(s) = first_missing(fa, coarse) {
        Some(missing_message(s))
    } else if let Some(s) = first_missing(fa, fine) {
        Some(missing_message(s))
    } else {
        None
    }
}

/// The key of a face problem: its faces by address, its adjacency and
/// candidate incidences in canonical order, its anchors sorted and the
/// retained parents sorted without repeats; the anchor policies are walked
/// as `anchors`.
pub open spec fn key_matches(n: usize, addresses: Seq<Option<VertexAddress>>, fp: FaceBandProblem,
    anchors: Seq<(&usize, &AnchorBandPolicy)>, retained: Seq<TriangleAddress>, key: EssentialCycleProblemKey) -> bool {
    let fa = fp.face_addresses@;
    &&& key.contract_version == ESSENTIAL_CYCLE_CONTRACT_VERSION
    &&& key.downstream_contract_version == DOWNSTREAM_FULL_POLYGON_CONTRACT_VERSION
    &&& key.source_n == n
    &&& key.band_count == fp.band_count as u8
    &&& key.source_face_rings == fp.source_face_rings
    &&& increasing(key.transition_faces@) && key.transition_faces@.to_set() == slot_addresses(fa, fp.transition_faces@)
    &&& increasing(key.coarse_boundary_faces@) && key.coarse_boundary_faces@.to_set() == set_addresses(fa, fp.coarse_boundary_faces@)
    &&& increasing(key.fine_boundary_faces@) && key.fine_boundary_faces@.to_set() == set_addresses(fa, fp.fine_boundary_faces@)
    &&& (forall|i: int, j: int| 0 <= i < j < key.face_adjacency_edges@.len()
        ==> face_pair_lt(key.face_adjacency_edges@[i], key.face_adjacency_edges@[j]))
    &&& key.face_adjacency_edges@.to_set() == adjacency_pairs(fa, fp.face_adjacency@)
    &&& (forall|i: int, j: int| 0 <= i < j < key.candidate_edge_incident_faces@.len()
        ==> incidence_lt(key.candidate_edge_incident_faces@[i], key.candidate_edge_incident_faces@[j]))
    &&& key.candidate_edge_incident_faces@.to_set() == incidence_set(n, addresses, fp)
    &&& (forall|i: int, j: int| 0 <= i < j < key.candidate_edges@.len()
        ==> edge_id_lt(key.candidate_edges@[i], key.candidate_edges@[j]))
    &&& key.candidate_edges@.to_set() == incidence_set(n, addresses, fp).map(|x: (CanonicalEdgeId, [CanonicalFaceId; 2])| x.0)
    &&& (forall|i: int, j: int| 0 <= i < j < key.anchor_policies@.len()
        ==> !anchor_lt(key.anchor_policies@[j], key.anchor_policies@[i]))
    &&& key.anchor_policies@.to_multiset() == anchor_entries(n, addresses, anchors).to_multiset()
    &&& increasing(key.retained_parents@) && key.retained_parents@.to_set() == retained.to_set()
}

/// The distinct addresses of the slots of a set, in increasing order.
fn set_face_addresses(fa: &BTreeMap<usize, TriangleAddress>, set: &BTreeSet<usize>) -> (r: Result<Vec<TriangleAddress>, String>)
    ensures
        match first_missing(fa@, spec_btree_keys_iter(set).remaining().map_values(|r: &usize| *r)) {
            Some(s) => r matches Err(m) && m@ == missing_message(s),
            None => r matches Ok(v) && increasing(v@) && v@.to_set() == set_addresses(fa@, set@),
        },
{
    let slots = slot_list(set);
    proof {
        lemma_slot_addresses_set(fa@, slots@);
    }
    addresses_of(fa, &slots)
}

/// The distinct candidate edges of a list of incidences, in increasing order.
fn incidence_edges(incs: &Vec<(CanonicalEdgeId, [CanonicalFaceId; 2])>) -> (out: Vec<CanonicalEdgeId>)
    ensures
        forall|i: int, j: int| 0 <= i < j < out@.len() ==> edge_id_lt(out@[i], out@[j]),
        out@.to_set() == incs@.to_set().map(|x: (CanonicalEdgeId, [CanonicalFaceId; 2])| x.0),
{
    let mut out: Vec<CanonicalEdgeId> = Vec::new();
    let mut i: usize = 0;
    proof {
        assert(out@.to_set() =~= incs@.take(0).to_set().map(|x: (CanonicalEdgeId, [CanonicalFaceId; 2])| x.0));
    }
    while i < incs.len()
        invariant
            i <= incs@.len(),
            forall|a: int, b: int| 0 <= a < b < out@.len() ==> edge_id_lt(out@[a], out@[b]),
            out@.to_set() == incs@.take(i as int).to_set().map(|x: (CanonicalEdgeId, [CanonicalFaceId; 2])| x.0),
        decreases incs@.len() - i,
    {
        let e = incs[i].0;
        insert_edge_id(&mut out, e);
        proof {
            let f = |x: (CanonicalEdgeId, [CanonicalFaceId; 2])| x.0;
            assert(incs@.take(i + 1) =~= incs@.take(i as int).push(incs@[i as int]));
            incs@.take(i as int).lemma_push_to_set_commute(incs@[i as int]);
            assert(incs@.take(i + 1).to_set().map(f) =~= incs@.take(i as int).to_set().map(f).insert(e)) by {
                assert forall|y| #[trigger] incs@.take(i + 1).to_set().map(f).contains(y)
                    implies incs@.take(i as int).to_set().map(f).insert(e).contains(y) by {
                    let x = choose|x| #[trigger] incs@.take(i + 1).to_set().contains(x) && f(x) == y;
                    if x != incs@[i as int] {
                        assert(incs@.take(i as int).to_set().contains(x));
                    }
                }
                assert forall|y| #[trigger] incs@.take(i as int).to_set().map(f).insert(e).contains(y)
                    implies incs@.take(i + 1).to_set().map(f).contains(y) by {
                    if y == e {
                        assert(incs@.take(i + 1).to_set().contains(incs@[i as int]));
                    } else {
                        let x = choose|x| #[trigger] incs@.take(i as int).to_set().contains(x) && f(x) == y;
                        assert(incs@.take(i + 1).to_set().contains(x));
                    }
                }
            }
        }
        i = i + 1;
    }
    proof {
        assert(incs@.take(incs@.len() as int) =~= incs@);
    }
    out
}

/// The anchor entries sorted by vertex, then policy.
fn sorted_anchor_entries(n: usize, addresses: &Vec<Option<VertexAddress>>, fp: &FaceBandProblem)
    -> (out: Vec<(CanonicalVertexId, AnchorBandPolicy)>)
    ensures
        forall|i: int, j: int| 0 <= i < j < out@.len() ==> !anchor_lt(out@[j], out@[i]),
        out@.to_multiset() == anchor_entries(n, addresses@, spec_btree_map_iter(&fp.anchor_policies).remaining()).to_multiset(),
{
    let mut out: Vec<(CanonicalVertexId, AnchorBandPolicy)> = Vec::new();
    let ghost full = spec_btree_map_iter(&fp.anchor_policies).remaining();
    let ghost f = |e: (&usize, &AnchorBandPolicy)| (slot_vertex(n, addresses@, *e.0), *e.1);
    proof {
        assert(out@ =~= full.take(0).map_values(f));
    }
    for kv in it: fp.anchor_policies.iter()
        invariant
            it.seq() == full,
            full == spec_btree_map_iter(&fp.anchor_policies).remaining(),
            f == (|e: (&usize, &AnchorBandPolicy)| (slot_vertex(n, addresses@, *e.0), *e.1)),
            forall|i: int, j: int| 0 <= i < j < out@.len() ==> !anchor_lt(out@[j], out@[i]),
            out@.to_multiset() == full.take(it.index() as int).map_values(f).to_multiset(),
    {
        let ghost k = it.index();
        let x = (canonical_vertex(n, addresses, *kv.0), *kv.1);
        insert_anchor(&mut out, x);
        proof {
            assert(full.take(k + 1).map_values(f) =~= full.take(k as int).map_values(f).push(x));
            vstd::seq_lib::to_multiset_build(full.take(k as int).map_values(f), x);
        }
    }
    proof {
        assert(full.take(full.len() as int) =~= full);
    }
    out
}

/// The retained parents sorted without repeats.
fn sorted_parents(parents: &Vec<TriangleAddress>) -> (out: Vec<TriangleAddress>)
    ensures
        increasing(out@),
        out@.to_set() == parents@.to_set(),
{
    let mut out: Vec<TriangleAddress> = Vec::new();
    let mut i: usize = 0;
    proof {
        assert(out@.to_set() =~= parents@.take(0).to_set());
    }
    while i < parents.len()
        invariant
            i <= parents@.len(),
            increasing(out@),
            out@.to_set() == parents@.take(i as int).to_set(),
        decreases parents@.len() - i,
    {
        insert_address(&mut out, parents[i]);
        proof {
            assert(parents@.take(i + 1) =~= parents@.take(i as int).push(parents@[i as int]));
            parents@.take(i as int).lemma_push_to_set_commute(parents@[i as int]);
        }
        i = i + 1;
    }
    proof {
        assert(parents@.take(parents@.len() as int) =~= parents@);
    }
    out
}

/// The exact identity of the essential-cycle problem of a face problem on a
/// source grid of subdivision `source_n` whose vertex slots carry
/// `addresses`: faces by address, vertices by address or else by frozen
/// slot, candidate primal edges with their two faces.
pub fn essential_cycle_problem_key(source_n: usize, addresses: &Vec<Option<VertexAddress>>, problem: &FaceBandProblem,
    retained_parents: &Vec<TriangleAddress>) -> (r: Result<EssentialCycleProblemKey, String>)
    ensures
        match key_error(source_n, addresses@, *problem, spec_btree_map_iter(&problem.face_adjacency).remaining(),
            spec_btree_map_iter(&problem.face_shared_edges).remaining(),
            spec_btree_keys_iter(&problem.coarse_boundary_faces).remaining().map_values(|r: &usize| *r),
            spec_btree_keys_iter(&problem.fine_boundary_faces).remaining().map_values(|r: &usize| *r)) {
            Some(m) => r matches Err(e) && e@ == m,
            None => r matches Ok(key) && key_matches(source_n, addresses@, *problem,
                spec_btree_map_iter(&problem.anchor_policies).remaining(), retained_parents@, key),
        },
{
    let fa = &problem.face_addresses;
    let transition_faces = addresses_of(fa, &problem.transition_faces)?;
    proof {
        assert(transition_faces@.no_duplicates());
        transition_faces@.unique_seq_to_set();
    }
    if transition_faces.len() != problem.transition_faces.len() {
        proof { reveal_strlit("canonical transition face addresses are not unique"); }
        return Err("canonical transition face addresses are not unique".to_string());
    }
    let face_adjacency_edges = adjacency_edges(problem)?;
    let candidate_edge_incident_faces = candidate_incidences(source_n, addresses, problem)?;
    let candidate_edges = incidence_edges(&candidate_edge_incident_faces);
    let anchor_policies = sorted_anchor_entries(source_n, addresses, problem);
    let retained = sorted_parents(retained_parents);
    let coarse = set_face_addresses(fa, &problem.coarse_boundary_faces)?;
    let fine = set_face_addresses(fa, &problem.fine_boundary_faces)?;
    Ok(EssentialCycleProblemKey {
        contract_version: ESSENTIAL_CYCLE_CONTRACT_VERSION,
        downstream_contract_version: DOWNSTREAM_FULL_POLYGON_CONTRACT_VERSION,
        source_n,
        band_count: problem.band_count as u8,
        source_face_rings: problem.source_face_rings,
        transition_faces,
        coarse_boundary_faces: coarse,
        fine_boundary_faces: fine,
        face_adjacency_edges,
        candidate_edges,
        candidate_edge_incident_faces,
        anchor_policies,
        retained_parents: retained,
    })
}

/// The faces of the last incidence, below `upto`, whose edge is `e`.
pub open spec fn last_incidence(incs: Seq<(CanonicalEdgeId, [CanonicalFaceId; 2])>, e: CanonicalEdgeId, upto: int)
    -> Option<[CanonicalFaceId; 2]>
    decreases upto,
{
    if upto <= 0 {
        None
    } else if incs[upto - 1].0 == e {
        Some(incs[upto - 1].1)
    } else {
        last_incidence(incs, e, upto - 1)
    }
}

proof fn lemma_last_incidence_found(incs: Seq<(CanonicalEdgeId, [CanonicalFaceId; 2])>, e: CanonicalEdgeId, q: int, upto: int)
    requires
        0 <= q < upto,
        incs[q].0 == e,
    ensures
        last_incidence(incs, e, upto) is Some,
    decreases upto,
{
    if incs[upto - 1].0 != e {
        lemma_last_incidence_found(incs, e, q, upto - 1);
    }
}

/// The vertices of the edges.
pub open spec fn edge_vertices(edges: Seq<CanonicalEdgeId>) -> Set<CanonicalVertexId> {
    Set::new(|v: CanonicalVertexId| exists|i: int, k: int| 0 <= i < edges.len() && 0 <= k < 2 && #[trigger] edges[i].vertices[k] == v)
}

/// The indices below `upto` of the edges at `v`, once for each end at `v`.
pub open spec fn incident_list(edges: Seq<CanonicalEdgeId>, v: CanonicalVertexId, upto: int) -> Seq<usize>
    decreases upto,
{
    if upto <= 0 {
        Seq::empty()
    } else {
        let e = edges[upto - 1];
        incident_list(edges, v, upto - 1)
            + (if e.vertices[0] == v { seq![(upto - 1) as usize] } else { Seq::empty() })
            + (if e.vertices[1] == v { seq![(upto - 1) as usize] } else { Seq::empty() })
    }
}

/// The policy of each vertex: that of the last entry naming it.
pub open spec fn policy_map(entries: Seq<(CanonicalVertexId, AnchorBandPolicy)>) -> Map<CanonicalVertexId, AnchorBandPolicy>
    decreases entries.len(),
{
    if entries.len() == 0 {
        Map::empty()
    } else {
        policy_map(entries.drop_last()).insert(entries.last().0, entries.last().1)
    }
}

/// A list of (vertex, policy) pairs, strictly increasing by vertex, that
/// holds exactly the entries of `m`.
pub open spec fn lists_map(list: Seq<(CanonicalVertexId, AnchorBandPolicy)>, m: Map<CanonicalVertexId, AnchorBandPolicy>) -> bool {
    &&& forall|i: int, j: int| 0 <= i < j < list.len() ==> vertex_lt(list[i].0, list[j].0)
    &&& forall|i: int| 0 <= i < list.len() ==> m.contains_key(#[trigger] list[i].0) && m[list[i].0] == list[i].1
    &&& forall|v: CanonicalVertexId| #[trigger] m.contains_key(v) ==> exists|i: int| 0 <= i < list.len() && list[i].0 == v
}

/// Set the policy of a vertex in a list that holds a map.
fn upsert_policy(list: &mut Vec<(CanonicalVertexId, AnchorBandPolicy)>, x: (CanonicalVertexId, AnchorBandPolicy))
    requires
        forall|i: int, j: int| 0 <= i < j < old(list)@.len() ==> vertex_lt(old(list)@[i].0, old(list)@[j].0),
    ensures
        forall|m: Map<CanonicalVertexId, AnchorBandPolicy>| #[trigger] lists_map(old(list)@, m)
            ==> lists_map(final(list)@, m.insert(x.0, x.1)),
{
    let mut p: usize = 0;
    while p < list.len() && vertex_less(&list[p].0, &x.0)
        invariant
            p <= list@.len(),
            list@ == old(list)@,
            forall|k: int| 0 <= k < p ==> vertex_lt(#[trigger] list@[k].0, x.0),
        decreases list@.len() - p,
    {
        p = p + 1;
    }
    let ghost before = list@;
    if p < list.len() && vertex_equal(&list[p].0, &x.0) {
        list.set(p, x);
        proof {
            assert forall|i: int, j: int| 0 <= i < j < list@.len() implies vertex_lt(list@[i].0, list@[j].0) by {
                assert(list@[i].0 == before[i].0 && list@[j].0 == before[j].0);
            }
            assert forall|m: Map<CanonicalVertexId, AnchorBandPolicy>| #[trigger] lists_map(before, m)
                implies lists_map(list@, m.insert(x.0, x.1)) by {
            let m2 = m.insert(x.0, x.1);
            assert forall|i: int| 0 <= i < list@.len() implies m2.contains_key(#[trigger] list@[i].0) && m2[list@[i].0] == list@[i].1 by {
                if i != p {
                    assert(list@[i] == before[i]);
                    lemma_vertex_lt_order(before[i].0, before[p as int].0, before[i].0);
                }
            }
            assert forall|v: CanonicalVertexId| #[trigger] m2.contains_key(v) implies exists|i: int| 0 <= i < list@.len() && list@[i].0 == v by {
                if v == x.0 {
                    assert(list@[p as int].0 == v);
                } else {
                    let i = choose|i: int| 0 <= i < before.len() && before[i].0 == v;
                    assert(list@[i].0 == v);
                }
            }
            }
        }
        return;
    }
    list.insert(p, x);
    proof {
        if p < before.len() {
            lemma_vertex_lt_order(x.0, before[p as int].0, x.0);
        }
        assert forall|i: int, j: int| 0 <= i < j < list@.len() implies vertex_lt(list@[i].0, list@[j].0) by {
            if j < p {
                assert(list@[i] == before[i] && list@[j] == before[j]);
            } else if j == p {
                assert(list@[i] == before[i]);
            } else if i == p {
                assert(list@[j] == before[j - 1]);
                if j - 1 > p {
                    lemma_vertex_lt_order(x.0, before[p as int].0, before[j - 1].0);
                }
            } else if i < p {
                assert(list@[i] == before[i] && list@[j] == before[j - 1]);
            } else {
                assert(list@[i] == before[i - 1] && list@[j] == before[j - 1]);
            }
        }
        assert forall|m: Map<CanonicalVertexId, AnchorBandPolicy>| #[trigger] lists_map(before, m)
            implies lists_map(list@, m.insert(x.0, x.1)) by {
        let m2 = m.insert(x.0, x.1);
        assert forall|i: int| 0 <= i < list@.len() implies m2.contains_key(#[trigger] list@[i].0) && m2[list@[i].0] == list@[i].1 by {
            if i < p {
                assert(list@[i] == before[i]);
                lemma_vertex_lt_order(before[i].0, x.0, x.0);
            } else if i > p {
                assert(list@[i] == before[i - 1]);
                lemma_vertex_lt_order(x.0, before[p as int].0, before[i - 1].0);
                lemma_vertex_lt_order(before[i - 1].0, x.0, x.0);
            }
        }
        assert forall|v: CanonicalVertexId| #[trigger] m2.contains_key(v) implies exists|i: int| 0 <= i < list@.len() && list@[i].0 == v by {
            if v == x.0 {
                assert(list@[p as int].0 == v);
            } else {
                let i = choose|i: int| 0 <= i < before.len() && before[i].0 == v;
                if i < p {
                    assert(list@[i].0 == v);
                } else {
                    assert(list@[i + 1].0 == v);
                }
            }
        }
        }
    }
}

/// The policies of the anchors by canonical vertex, the last slot of a
/// vertex deciding.
fn anchor_policy_list(n: usize, addresses: &Vec<Option<VertexAddress>>, fp: &FaceBandProblem)
    -> (out: Vec<(CanonicalVertexId, AnchorBandPolicy)>)
    ensures
        lists_map(out@, policy_map(anchor_entries(n, addresses@, spec_btree_map_iter(&fp.anchor_policies).remaining()))),
{
    let mut out: Vec<(CanonicalVertexId, AnchorBandPolicy)> = Vec::new();
    let ghost full = spec_btree_map_iter(&fp.anchor_policies).remaining();
    let ghost f = |e: (&usize, &AnchorBandPolicy)| (slot_vertex(n, addresses@, *e.0), *e.1);
    proof {
        assert(full.take(0).map_values(f) =~= Seq::<(CanonicalVertexId, AnchorBandPolicy)>::empty());
        assert(policy_map(full.take(0).map_values(f)) =~= Map::<CanonicalVertexId, AnchorBandPolicy>::empty());
    }
    for kv in it: fp.anchor_policies.iter()
        invariant
            it.seq() == full,
            full == spec_btree_map_iter(&fp.anchor_policies).remaining(),
            f == (|e: (&usize, &AnchorBandPolicy)| (slot_vertex(n, addresses@, *e.0), *e.1)),
            lists_map(out@, policy_map(full.take(it.index() as int).map_values(f))),
    {
        let ghost k = it.index();
        let x = (canonical_vertex(n, addresses, *kv.0), *kv.1);
        upsert_policy(&mut out, x);
        proof {
            let s1 = full.take(k + 1).map_values(f);
            assert(s1.drop_last() =~= full.take(k as int).map_values(f));
            assert(s1.last() == x);
        }
    }
    proof {
        assert(full.take(full.len() as int) =~= full);
        assert(anchor_entries(n, addresses@, full) =~= full.map_values(f));
    }
    out
}

/// The canonical vertices of a set of slots, strictly increasing.
fn slot_vertices(n: usize, addresses: &Vec<Option<VertexAddress>>, set: &BTreeSet<usize>) -> (out: Vec<CanonicalVertexId>)
    ensures
        forall|i: int, j: int| 0 <= i < j < out@.len() ==> vertex_lt(out@[i], out@[j]),
        out@.to_set() == set@.map(|s: usize| slot_vertex(n, addresses@, s)),
{
    let slots = slot_list(set);
    let ghost f = |s: usize| slot_vertex(n, addresses@, s);
    let mut out: Vec<CanonicalVertexId> = Vec::new();
    let mut i: usize = 0;
    proof {
        assert(out@.to_set() =~= slots@.take(0).to_set().map(f));
    }
    while i < slots.len()
        invariant
            i <= slots@.len(),
            f == (|s: usize| slot_vertex(n, addresses@, s)),
            forall|a: int, b: int| 0 <= a < b < out@.len() ==> vertex_lt(out@[a], out@[b]),
            out@.to_set() == slots@.take(i as int).to_set().map(f),
        decreases slots@.len() - i,
    {
        let v = canonical_vertex(n, addresses, slots[i]);
        insert_vertex(&mut out, v);
        proof {
            slots@.take(i as int).lemma_push_to_set_commute(slots@[i as int]);
            assert(slots@.take(i + 1) =~= slots@.take(i as int).push(slots@[i as int]));
            assert(slots@.take(i + 1).to_set().map(f) =~= slots@.take(i as int).to_set().map(f).insert(v)) by {
                assert forall|y| #[trigger] slots@.take(i + 1).to_set().map(f).contains(y)
                    implies slots@.take(i as int).to_set().map(f).insert(v).contains(y) by {
                    let x = choose|x| #[trigger] slots@.take(i + 1).to_set().contains(x) && f(x) == y;
                    if x != slots@[i as int] {
                        assert(slots@.take(i as int).to_set().contains(x));
                    }
                }
                assert forall|y| #[trigger] slots@.take(i as int).to_set().map(f).insert(v).contains(y)
                    implies slots@.take(i + 1).to_set().map(f).contains(y) by {
                    if y == v {
                        assert(slots@.take(i + 1).to_set().contains(slots@[i as int]));
                    } else {
                        let x = choose|x| #[trigger] slots@.take(i as int).to_set().contains(x) && f(x) == y;
                        assert(slots@.take(i + 1).to_set().contains(x));
                    }
                }
            }
        }
        i = i + 1;
    }
    proof {
        assert(slots@.take(slots@.len() as int) =~= slots@);
    }
    out
}

/// Some incidence names the edge.
pub open spec fn has_incidence(incs: Seq<(CanonicalEdgeId, [CanonicalFaceId; 2])>, e: CanonicalEdgeId) -> bool {
    exists|q: int| 0 <= q < incs.len() && incs[q].0 == e
}

/// For each candidate edge, the faces of its last incidence.
fn incident_faces_by_edge(edges: &Vec<CanonicalEdgeId>, incs: &Vec<(CanonicalEdgeId, [CanonicalFaceId; 2])>)
    -> (out: Vec<[CanonicalFaceId; 2]>)
    requires
        forall|i: int| 0 <= i < edges@.len() ==> has_incidence(incs@, #[trigger] edges@[i]),
    ensures
        out@.len() == edges@.len(),
        forall|i: int| 0 <= i < edges@.len() ==> last_incidence(incs@, #[trigger] edges@[i], incs@.len() as int) == Some(out@[i]),
{
    let mut out: Vec<[CanonicalFaceId; 2]> = Vec::new();
    let mut i: usize = 0;
    while i < edges.len()
        invariant
            i <= edges@.len(),
            out@.len() == i,
            forall|k: int| 0 <= k < edges@.len() ==> has_incidence(incs@, #[trigger] edges@[k]),
            forall|k: int| 0 <= k < i ==> last_incidence(incs@, #[trigger] edges@[k], incs@.len() as int) == Some(out@[k]),
        decreases edges@.len() - i,
    {
        let e = edges[i];
        let mut found: Option<[CanonicalFaceId; 2]> = None;
        let mut j: usize = 0;
        while j < incs.len()
            invariant
                j <= incs@.len(),
                i < edges@.len(),
                e == edges@[i as int],
                found == last_incidence(incs@, e, j as int),
            decreases incs@.len() - j,
        {
            if edge_equal(&incs[j].0, &e) {
                found = Some(incs[j].1);
            }
            j = j + 1;
        }
        proof {
            assert(has_incidence(incs@, edges@[i as int]));
            let q = choose|q: int| 0 <= q < incs@.len() && incs@[q].0 == edges@[i as int];
            lemma_last_incidence_found(incs@, e, q, incs@.len() as int);
        }
        let faces = match found {
            Some(f) => f,
            None => {
                return out;
            },
        };
        out.push(faces);
        i = i + 1;
    }
    out
}

/// The distinct vertices of the edges, strictly increasing.
fn vertices_of_edges(edges: &Vec<CanonicalEdgeId>) -> (out: Vec<CanonicalVertexId>)
    ensures
        forall|i: int, j: int| 0 <= i < j < out@.len() ==> vertex_lt(out@[i], out@[j]),
        out@.to_set() == edge_vertices(edges@),
{
    let mut out: Vec<CanonicalVertexId> = Vec::new();
    let mut i: usize = 0;
    proof {
        assert(out@.to_set() =~= edge_vertices(edges@.take(0)));
    }
    while i < edges.len()
        invariant
            i <= edges@.len(),
            forall|a: int, b: int| 0 <= a < b < out@.len() ==> vertex_lt(out@[a], out@[b]),
            out@.to_set() == edge_vertices(edges@.take(i as int)),
        decreases edges@.len() - i,
    {
        let e = edges[i];
        insert_vertex(&mut out, e.vertices[0]);
        insert_vertex(&mut out, e.vertices[1]);
        proof {
            let t1 = edges@.take(i + 1);
            let t0 = edges@.take(i as int);
            assert(edge_vertices(t1) =~= edge_vertices(t0).insert(e.vertices[0]).insert(e.vertices[1])) by {
                assert forall|v| #[trigger] edge_vertices(t1).contains(v)
                    implies edge_vertices(t0).insert(e.vertices[0]).insert(e.vertices[1]).contains(v) by {
                    let (a, k) = choose|a: int, k: int| 0 <= a < t1.len() && 0 <= k < 2 && #[trigger] t1[a].vertices[k] == v;
                    if a < i {
                        assert(t0[a].vertices[k] == v);
                    } else if k == 0 {
                        assert(v == e.vertices[0]);
                    } else {
                        assert(v == e.vertices[1]);
                    }
                }
                assert forall|v| #[trigger] edge_vertices(t0).insert(e.vertices[0]).insert(e.vertices[1]).contains(v)
                    implies edge_vertices(t1).contains(v) by {
                    if v == e.vertices[0] {
                        assert(t1[i as int].vertices[0] == v);
                    } else if v == e.vertices[1] {
                        assert(t1[i as int].vertices[1] == v);
                    } else {
                        let (a, k) = choose|a: int, k: int| 0 <= a < t0.len() && 0 <= k < 2 && #[trigger] t0[a].vertices[k] == v;
                        assert(t1[a].vertices[k] == v);
                    }
                }
            }
        }
        i = i + 1;
    }
    proof {
        assert(edges@.take(edges@.len() as int) =~= edges@);
    }
    out
}

/// The indices of the edges at `v`, once for each end at `v`.
fn edges_at(edges: &Vec<CanonicalEdgeId>, v: &CanonicalVertexId) -> (out: Vec<usize>)
    ensures
        out@ == incident_list(edges@, *v, edges@.len() as int),
{
    let mut out: Vec<usize> = Vec::new();
    let mut j: usize = 0;
    while j < edges.len()
        invariant
            j <= edges@.len(),
            out@ == incident_list(edges@, *v, j as int),
        decreases edges@.len() - j,
    {
        let ghost o = out@;
        if vertex_equal(&edges[j].vertices[0], v) {
            out.push(j);
        }
        let ghost o1 = out@;
        if vertex_equal(&edges[j].vertices[1], v) {
            out.push(j);
        }
        proof {
            let e = edges@[j as int];
            let a: Seq<usize> = if e.vertices[0] == *v { seq![j] } else { Seq::empty() };
            let b: Seq<usize> = if e.vertices[1] == *v { seq![j] } else { Seq::empty() };
            assert(o1 =~= o + a);
            assert(out@ =~= o + a + b);
        }
        j = j + 1;
    }
    out
}

pub(crate) proof fn lemma_candidate_position_bound(edges: Seq<CanonicalEdgeId>, e: CanonicalEdgeId, upto: int)
    ensures
        candidate_position(edges, e, upto) matches Some(i) ==> 0 <= i < upto,
    decreases upto,
{
    if upto > 0 {
        lemma_candidate_position_bound(edges, e, upto - 1);
    }
}

proof fn lemma_candidate_position_found(edges: Seq<CanonicalEdgeId>, e: CanonicalEdgeId, q: int, upto: int)
    requires
        0 <= q < upto,
        edges[q] == e,
    ensures
        candidate_position(edges, e, upto) is Some,
    decreases upto,
{
    if !same_edge(edges[upto - 1], e) {
        lemma_candidate_position_found(edges, e, q, upto - 1);
    }
}

proof fn lemma_seam_index_bound(key: EssentialCycleProblemKey, pair: FaceEdge, upto: int)
    ensures
        seam_index(key, pair, upto) matches Some(i) ==> 0 <= i < key.candidate_edges@.len(),
    decreases upto,
{
    if upto > 0 {
        lemma_seam_index_bound(key, pair, upto - 1);
        lemma_candidate_position_bound(key.candidate_edges@, key.candidate_edge_incident_faces@[upto - 1].0,
            key.candidate_edges@.len() as int);
    }
}

proof fn lemma_crossings_bound(key: EssentialCycleProblemKey, path: Seq<TriangleAddress>)
    ensures
        forall|j: int| 0 <= j < crossings_back(key, path).len() ==> #[trigger] crossings_back(key, path)[j] < key.candidate_edges@.len(),
    decreases path.len(),
{
    if path.len() >= 2 {
        lemma_crossings_bound(key, path.drop_last());
        let pair = ordered_pair(path[path.len() - 2], path[path.len() - 1]);
        lemma_seam_index_bound(key, pair, key.candidate_edge_incident_faces@.len() as int);
        let rest = crossings_back(key, path.drop_last());
        match seam_index(key, pair, key.candidate_edge_incident_faces@.len() as int) {
            Some(i) => {
                assert(crossings_back(key, path) == seq![i as usize] + rest);
                assert forall|j: int| 0 <= j < crossings_back(key, path).len() implies #[trigger] crossings_back(key, path)[j] < key.candidate_edges@.len() by {
                    if j > 0 {
                        assert(crossings_back(key, path)[j] == rest[j - 1]);
                    }
                }
            },
            None => {},
        }
    }
}

/// The problem built on a key: the key's faces, its candidate edges with the
/// faces of each edge's last incidence, the vertices of those edges with the
/// edges at each, the boundary vertices and anchor policies of the face
/// problem by canonical vertex (anchors walked as `anchors`), and the
/// candidates that a dual seam path between the boundaries crosses.
pub open spec fn problem_built(n: usize, addresses: Seq<Option<VertexAddress>>, fp: FaceBandProblem,
    anchors: Seq<(&usize, &AnchorBandPolicy)>, p: EssentialCycleProblem) -> bool {
    let key = p.problem_key;
    let edges = key.candidate_edges@;
    &&& p.source_n == n
    &&& p.transition_faces@ == key.transition_faces@.map_values(|a: TriangleAddress| CanonicalFaceId { address: a })
    &&& p.coarse_boundary_faces@ == key.coarse_boundary_faces@.to_set()
    &&& p.fine_boundary_faces@ == key.fine_boundary_faces@.to_set()
    &&& p.candidate_edges@ == edges
    &&& p.edge_incident_faces@.len() == edges.len()
    &&& (forall|i: int| 0 <= i < edges.len() ==>
        last_incidence(key.candidate_edge_incident_faces@, #[trigger] edges[i], key.candidate_edge_incident_faces@.len() as int)
            == Some(p.edge_incident_faces@[i]))
    &&& (forall|i: int, j: int| 0 <= i < j < p.candidate_vertices@.len() ==> vertex_lt(p.candidate_vertices@[i], p.candidate_vertices@[j]))
    &&& p.candidate_vertices@.to_set() == edge_vertices(edges)
    &&& p.vertex_incident_edges@.len() == p.candidate_vertices@.len()
    &&& (forall|i: int| 0 <= i < p.candidate_vertices@.len() ==>
        (#[trigger] p.vertex_incident_edges@[i])@ == incident_list(edges, p.candidate_vertices@[i], edges.len() as int))
    &&& (forall|i: int, j: int| 0 <= i < j < p.coarse_boundary_vertices@.len()
        ==> vertex_lt(p.coarse_boundary_vertices@[i], p.coarse_boundary_vertices@[j]))
    &&& p.coarse_boundary_vertices@.to_set() == fp.coarse_boundary_vertices@.map(|s: usize| slot_vertex(n, addresses, s))
    &&& (forall|i: int, j: int| 0 <= i < j < p.fine_boundary_vertices@.len()
        ==> vertex_lt(p.fine_boundary_vertices@[i], p.fine_boundary_vertices@[j]))
    &&& p.fine_boundary_vertices@.to_set() == fp.fine_boundary_vertices@.map(|s: usize| slot_vertex(n, addresses, s))
    &&& lists_map(p.anchor_policies@, policy_map(anchor_entries(n, addresses, anchors)))
    &&& p.dual_seam_crossing_edges.wf()
    &&& exists|path: Seq<TriangleAddress>| seam_path(key, path)
        && p.dual_seam_crossing_edges@ == Seq::new(edges.len(), |i: int| crossings_back(key, path).contains(i as usize))
}

fn address_set(v: &Vec<TriangleAddress>) -> (out: BTreeSet<TriangleAddress>)
    ensures
        out@ == v@.to_set(),
{
    let mut out: BTreeSet<TriangleAddress> = BTreeSet::new();
    let mut i: usize = 0;
    proof {
        assert(out@ =~= v@.take(0).to_set());
    }
    while i < v.len()
        invariant
            i <= v@.len(),
            out@ == v@.take(i as int).to_set(),
        decreases v@.len() - i,
    {
        out.insert(v[i]);
        proof {
            v@.take(i as int).lemma_push_to_set_commute(v@[i as int]);
            assert(v@.take(i + 1) =~= v@.take(i as int).push(v@[i as int]));
        }
        i = i + 1;
    }
    proof {
        assert(v@.take(v@.len() as int) =~= v@);
    }
    out
}

fn face_ids(v: &Vec<TriangleAddress>) -> (out: Vec<CanonicalFaceId>)
    ensures
        out@ == v@.map_values(|a: TriangleAddress| CanonicalFaceId { address: a }),
{
    let mut out: Vec<CanonicalFaceId> = Vec::new();
    let mut i: usize = 0;
    while i < v.len()
        invariant
            i <= v@.len(),
            out@ == v@.take(i as int).map_values(|a: TriangleAddress| CanonicalFaceId { address: a }),
        decreases v@.len() - i,
    {
        out.push(CanonicalFaceId { address: v[i] });
        proof {
            assert(v@.take(i + 1).map_values(|a: TriangleAddress| CanonicalFaceId { address: a })
                =~= v@.take(i as int).map_values(|a: TriangleAddress| CanonicalFaceId { address: a }).push(CanonicalFaceId { address: v@[i as int] }));
        }
        i = i + 1;
    }
    proof {
        assert(v@.take(v@.len() as int) =~= v@);
    }
    out
}

/// The candidates that a seam crosses, as bits.
fn seam_bits(len: usize, seam: &Vec<usize>) -> (out: BitSet)
    requires
        forall|j: int| 0 <= j < seam@.len() ==> #[trigger] seam@[j] < len,
    ensures
        out.wf(),
        out@ == Seq::new(len as nat, |i: int| seam@.contains(i as usize)),
{
    let mut out = BitSet::empty(len);
    let mut j: usize = 0;
    while j < seam.len()
        invariant
            j <= seam@.len(),
            forall|q: int| 0 <= q < seam@.len() ==> #[trigger] seam@[q] < len,
            out.wf(),
            out@ == Seq::new(len as nat, |i: int| seam@.take(j as int).contains(i as usize)),
        decreases seam@.len() - j,
    {
        let e = seam[j];
        let r = out.set(e, true);
        proof {
            assert(r is Ok);
            assert(seam@.take(j + 1) =~= seam@.take(j as int).push(e));
            assert forall|i: int| 0 <= i < len implies
                #[trigger] seam@.take(j + 1).contains(i as usize) == (seam@.take(j as int).contains(i as usize) || i == e) by {
                if seam@.take(j + 1).contains(i as usize) {
                    let q = choose|q: int| 0 <= q < j + 1 && #[trigger] seam@.take(j + 1)[q] == i as usize;
                    if q < j {
                        assert(seam@.take(j as int)[q] == i as usize);
                    }
                }
                if seam@.take(j as int).contains(i as usize) {
                    let q = choose|q: int| 0 <= q < j && #[trigger] seam@.take(j as int)[q] == i as usize;
                    assert(seam@.take(j + 1)[q] == i as usize);
                }
                if i == e {
                    assert(seam@.take(j + 1)[j as int] == e);
                }
            }
            assert(out@ =~= Seq::new(len as nat, |i: int| seam@.take(j + 1).contains(i as usize)));
        }
        j = j + 1;
    }
    proof {
        assert(seam@.take(seam@.len() as int) =~= seam@);
    }
    out
}

/// The two-band essential-cycle problem of a face problem on a source grid
/// of subdivision `source_n` whose vertex slots carry `addresses`.
pub fn build_essential_cycle_problem(source_n: usize, addresses: &Vec<Option<VertexAddress>>, face_problem: &FaceBandProblem,
    retained_parents: &Vec<TriangleAddress>) -> (r: Result<EssentialCycleProblem, String>)
    ensures
        face_problem.band_count != 2 ==> (r matches Err(m) && m@ == "essential-cycle construction supports W2 only"@),
        face_problem.band_count == 2 ==> match key_error(source_n, addresses@, *face_problem,
            spec_btree_map_iter(&face_problem.face_adjacency).remaining(),
            spec_btree_map_iter(&face_problem.face_shared_edges).remaining(),
            spec_btree_keys_iter(&face_problem.coarse_boundary_faces).remaining().map_values(|r: &usize| *r),
            spec_btree_keys_iter(&face_problem.fine_boundary_faces).remaining().map_values(|r: &usize| *r)) {
            Some(m) => r matches Err(e) && e@ == m,
            None => match r {
                Ok(p) => key_matches(source_n, addresses@, *face_problem, spec_btree_map_iter(&face_problem.anchor_policies).remaining(),
                        retained_parents@, p.problem_key)
                    && seam_exists(p.problem_key)
                    && problem_built(source_n, addresses@, *face_problem, spec_btree_map_iter(&face_problem.anchor_policies).remaining(), p),
                Err(e) => e@ == "coarse and fine boundaries have no dual seam"@
                    && exists|key: EssentialCycleProblemKey| key_matches(source_n, addresses@, *face_problem,
                        spec_btree_map_iter(&face_problem.anchor_policies).remaining(), retained_parents@, key)
                        && !seam_exists(key),
            },
        },
{
    if face_problem.band_count != 2 {
        proof { reveal_strlit("essential-cycle construction supports W2 only"); }
        return Err("essential-cycle construction supports W2 only".to_string());
    }
    let key = essential_cycle_problem_key(source_n, addresses, face_problem, retained_parents)?;
    let ghost incs = key.candidate_edge_incident_faces@;
    let ghost edges = key.candidate_edges@;
    proof {
        let f = |x: (CanonicalEdgeId, [CanonicalFaceId; 2])| x.0;
        assert forall|i: int| 0 <= i < edges.len() implies has_incidence(incs, #[trigger] edges[i]) by {
            assert(edges.to_set().contains(edges[i]));
            assert(incidence_set(source_n, addresses@, *face_problem).map(f).contains(edges[i]));
            let x = choose|x| #[trigger] incidence_set(source_n, addresses@, *face_problem).contains(x) && f(x) == edges[i];
            assert(incs.to_set().contains(x));
            let q = choose|q: int| 0 <= q < incs.len() && incs[q] == x;
            assert(incs[q].0 == edges[i]);
        }
        assert(!incidence_unknown(key)) by {
            assert forall|k: int| 0 <= k < incs.len() implies
                #[trigger] candidate_position(edges, incs[k].0, edges.len() as int) is Some by {
                assert(incs.to_set().contains(incs[k]));
                assert(incidence_set(source_n, addresses@, *face_problem).map(f).contains(f(incs[k])));
                assert(edges.to_set().contains(incs[k].0));
                let q = choose|q: int| 0 <= q < edges.len() && edges[q] == incs[k].0;
                lemma_candidate_position_found(edges, incs[k].0, q, edges.len() as int);
            }
        }
    }
    let edge_incident_faces = incident_faces_by_edge(&key.candidate_edges, &key.candidate_edge_incident_faces);
    let candidate_vertices = vertices_of_edges(&key.candidate_edges);
    let mut vertex_incident_edges: Vec<Vec<usize>> = Vec::new();
    let mut i: usize = 0;
    while i < candidate_vertices.len()
        invariant
            i <= candidate_vertices@.len(),
            vertex_incident_edges@.len() == i,
            forall|k: int| 0 <= k < i ==> (#[trigger] vertex_incident_edges@[k])@
                == incident_list(key.candidate_edges@, candidate_vertices@[k], key.candidate_edges@.len() as int),
        decreases candidate_vertices@.len() - i,
    {
        let list = edges_at(&key.candidate_edges, &candidate_vertices[i]);
        vertex_incident_edges.push(list);
        i = i + 1;
    }
    let seam = match dual_seam(&key) {
        Ok(c) => c,
        Err(e) => {
            return Err(e);
        },
    };
    proof {
        let path = choose|path: Seq<TriangleAddress>| seam_path(key, path) && seam@ == crossings_back(key, path);
        lemma_crossings_bound(key, path);
        assert(seam_exists(key)) by {
            let s0 = path[0];
            let t0 = path.last();
            crate::essential_cycle::lemma_path_in_component(crate::essential_cycle::dual_edges(key), path);
            assert(crate::essential_cycle::face_component(crate::essential_cycle::dual_edges(key), s0).contains(t0));
        }
    }
    let dual_seam_crossing_edges = seam_bits(key.candidate_edges.len(), &seam);
    let transition_faces = face_ids(&key.transition_faces);
    let coarse_boundary_faces = address_set(&key.coarse_boundary_faces);
    let fine_boundary_faces = address_set(&key.fine_boundary_faces);
    let coarse_boundary_vertices = slot_vertices(source_n, addresses, &face_problem.coarse_boundary_vertices);
    let fine_boundary_vertices = slot_vertices(source_n, addresses, &face_problem.fine_boundary_vertices);
    let anchor_policies = anchor_policy_list(source_n, addresses, face_problem);
    let candidate_edges = key.candidate_edges.clone();
    Ok(EssentialCycleProblem {
        source_n,
        transition_faces,
        coarse_boundary_faces,
        fine_boundary_faces,
        candidate_vertices,
        candidate_edges,
        edge_incident_faces,
        vertex_incident_edges,
        coarse_boundary_vertices,
        fine_boundary_vertices,
        anchor_policies,
        dual_seam_crossing_edges,
        problem_key: key,
    })
}

} // verus!
