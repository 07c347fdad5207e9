//! Canonical interface cycles of two-band problems: a fixed-length bit set,
//! the dual seam from the coarse to the fine boundary and its parity over a
//! selection of candidate edges, the coarse side that a selection cuts off,
//! and the check that a selection is one essential cycle, with its canonical
//! vertex order.

use vstd::prelude::*;
use std::collections::{BTreeMap, BTreeSet};
use crate::records::TriangleAddress;
use crate::face_band::AnchorBandPolicy;
use crate::json::{decimal, push_usize};
use crate::graph::Edge;
use crate::cycles::{adj, verts, nbrs, connected, component};
use vstd::std_specs::btree::spec_btree_keys_iter;
use vstd::std_specs::iter::IteratorSpec;

verus! {

broadcast use vstd::std_specs::btree::group_btree_axioms, vstd::laws_cmp::group_laws_cmp;

/// A hierarchy vertex, identified by its stable address key.
pub type VertexAddress = u64;

/// A face of the problem, named by its address.
#[derive(Debug, Clone, Copy, PartialEq, Eq, PartialOrd, Ord, Hash)]
pub struct CanonicalFaceId {
    pub address: TriangleAddress,
}

/// A vertex of the problem: by address, or by slot of a frozen source grid.
#[derive(Debug, Clone, Copy, PartialEq, Eq, PartialOrd, Ord, Hash)]
pub enum CanonicalVertexId {
    Address(VertexAddress),
    FrozenSourceSlot { source_n: usize, slot: usize },
}

/// An undirected edge between two canonical vertices, smaller vertex first.
#[derive(Debug, Clone, Copy, PartialEq, Eq, PartialOrd, Ord, Hash)]
pub struct CanonicalEdgeId {
    pub vertices: [CanonicalVertexId; 2],
}

/// Bits of a fixed length, packed into 64-bit words.
#[derive(Debug, Clone, PartialEq, Eq)]
pub struct BitSet {
    words: Vec<u64>,
    len: usize,
}

/// Bit `i` of the packed words.
pub open spec fn packed_bit(words: Seq<u64>, i: int) -> bool {
    (words[i / 64] >> ((i % 64) as u64)) & 1u64 == 1u64
}

impl View for BitSet {
    type V = Seq<bool>;

    closed spec fn view(&self) -> Seq<bool> {
        Seq::new(self.len as nat, |i: int| packed_bit(self.words@, i))
    }
}

impl BitSet {
    /// Exactly enough words for the length.
    pub closed spec fn wf(&self) -> bool {
        &&& self.words@.len() * 64 >= self.len
        &&& self.words@.len() * 64 < self.len + 64
    }

    /// `len` cleared bits.
    pub fn empty(len: usize) -> (s: Self)
        ensures
            s.wf(),
            s@ == Seq::new(len as nat, |i: int| false),
    {
        let count: usize = len / 64 + if len % 64 != 0 { 1 } else { 0 };
        let mut words: Vec<u64> = Vec::new();
        let mut i: usize = 0;
        while i < count
            invariant
                i <= count,
                words@.len() == i,
                forall|k: int| 0 <= k < i ==> #[trigger] words@[k] == 0u64,
            decreases count - i,
        {
            words.push(0);
            i = i + 1;
        }
        let s = BitSet { words, len };
        proof {
            assert(count * 64 >= len && count * 64 < len + 64) by (nonlinear_arith)
                requires count == len / 64 + if len % 64 != 0 { 1int } else { 0int };
            assert forall|k: int| 0 <= k < len implies !packed_bit(s.words@, k) by {
                assert(0 <= k / 64 < count) by (nonlinear_arith)
                    requires 0 <= k < len, count * 64 >= len;
                let w = s.words@[k / 64];
                assert(w == 0u64);
                let sh = (k % 64) as u64;
                assert((0u64 >> sh) & 1u64 == 0u64) by (bit_vector);
            }
            assert(s@ =~= Seq::new(len as nat, |i: int| false));
        }
        s
    }

    /// The number of bits.
    pub fn len(&self) -> (n: usize)
        ensures
            n == self@.len(),
    {
        self.len
    }

    /// Whether the set has no bits.
    pub fn is_empty(&self) -> (r: bool)
        ensures
            r == (self@.len() == 0),
    {
        self.len == 0
    }

    /// Whether bit `index` exists and is set.
    pub fn contains(&self, index: usize) -> (r: bool)
        requires
            self.wf(),
        ensures
            r == (index < self@.len() && self@[index as int]),
    {
        if index >= self.len {
            return false;
        }
        proof {
            assert(index / 64 < self.words@.len()) by (nonlinear_arith)
                requires index < self.len, self.words@.len() * 64 >= self.len;
        }
        let word = self.words[index / 64];
        let shift = (index % 64) as u64;
        (word >> shift) & 1 == 1
    }

    /// Set or clear bit `index`; an error names an index past the end.
    pub fn set(&mut self, index: usize, value: bool) -> (r: Result<(), String>)
        requires
            old(self).wf(),
        ensures
            final(self).wf(),
            r is Err <==> index >= old(self)@.len(),
            r is Ok ==> final(self)@ == old(self)@.update(index as int, value),
            r is Err ==> final(self)@ == old(self)@,
            r is Err ==> *final(self) == *old(self),
            r matches Err(message) ==> message@ == "bit index "@ + decimal(index as nat)
                + " is outside length "@ + decimal(old(self)@.len()),
    {
        if index >= self.len {
            let mut message = String::new();
            message.append("bit index ");
            push_usize(&mut message, index);
            message.append(" is outside length ");
            push_usize(&mut message, self.len);
            return Err(message);
        }
        proof {
            assert(index / 64 < self.words@.len()) by (nonlinear_arith)
                requires index < self.len, self.words@.len() * 64 >= self.len;
        }
        let ghost before = self@;
        let ghost old_words = self.words@;
        let slot = index / 64;
        let shift = (index % 64) as u64;
        let word = self.words[slot];
        let updated: u64 = if value { word | (1u64 << shift) } else { word & !(1u64 << shift) };
        self.words.set(slot, updated);
        proof {
            assert(shift < 64);
            assert forall|k: int| 0 <= k < self.len implies packed_bit(self.words@, k)
                == (if k == index { value } else { packed_bit(old_words, k) }) by {
                assert(0 <= k / 64 < self.words@.len()) by (nonlinear_arith)
                    requires 0 <= k < self.len, self.words@.len() * 64 >= self.len;
                let ks = (k % 64) as u64;
                if k / 64 == slot as int {
                    if k == index {
                        assert(((word | (1u64 << shift)) >> shift) & 1u64 == 1u64) by (bit_vector)
                            requires shift < 64;
                        assert(((word & !(1u64 << shift)) >> shift) & 1u64 == 0u64) by (bit_vector)
                            requires shift < 64;
                    } else {
                        assert(ks != shift) by (nonlinear_arith)
                            requires k / 64 == index / 64, k != index, ks == k % 64, shift == index % 64, 0 <= k, 0 <= index;
                        assert(((word | (1u64 << shift)) >> ks) & 1u64 == (word >> ks) & 1u64) by (bit_vector)
                            requires shift < 64, ks < 64, ks != shift;
                        assert(((word & !(1u64 << shift)) >> ks) & 1u64 == (word >> ks) & 1u64) by (bit_vector)
                            requires shift < 64, ks < 64, ks != shift;
                    }
                } else {
                    assert(self.words@[k / 64] == old_words[k / 64]);
                }
            }
            assert(self@ =~= before.update(index as int, value));
        }
        Ok(())
    }
}

/// A cycle as its vertices in canonical order.
#[derive(Debug, Clone, PartialEq, Eq, PartialOrd, Ord)]
pub struct EssentialCycleKey {
    pub ordered_vertices: Vec<CanonicalVertexId>,
}

/// The exact identity of an essential-cycle problem.
#[derive(Debug, Clone, PartialEq, Eq, PartialOrd, Ord)]
pub struct EssentialCycleProblemKey {
    pub contract_version: u32,
    pub downstream_contract_version: u32,
    pub source_n: usize,
    pub band_count: u8,
    pub source_face_rings: usize,
    pub transition_faces: Vec<TriangleAddress>,
    pub coarse_boundary_faces: Vec<TriangleAddress>,
    pub fine_boundary_faces: Vec<TriangleAddress>,
    pub face_adjacency_edges: Vec<(CanonicalFaceId, CanonicalFaceId)>,
    pub candidate_edges: Vec<CanonicalEdgeId>,
    pub candidate_edge_incident_faces: Vec<(CanonicalEdgeId, [CanonicalFaceId; 2])>,
    pub anchor_policies: Vec<(CanonicalVertexId, AnchorBandPolicy)>,
    pub retained_parents: Vec<TriangleAddress>,
}

/// A two-band essential-cycle problem over canonical faces and vertices.
#[derive(Debug, Clone, PartialEq, Eq)]
pub struct EssentialCycleProblem {
    pub source_n: usize,
    pub transition_faces: Vec<CanonicalFaceId>,
    pub coarse_boundary_faces: BTreeSet<TriangleAddress>,
    pub fine_boundary_faces: BTreeSet<TriangleAddress>,
    pub candidate_vertices: Vec<CanonicalVertexId>,
    pub candidate_edges: Vec<CanonicalEdgeId>,
    pub edge_incident_faces: Vec<[CanonicalFaceId; 2]>,
    pub vertex_incident_edges: Vec<Vec<usize>>,
    pub coarse_boundary_vertices: Vec<CanonicalVertexId>,
    pub fine_boundary_vertices: Vec<CanonicalVertexId>,
    pub anchor_policies: Vec<(CanonicalVertexId, AnchorBandPolicy)>,
    pub dual_seam_crossing_edges: BitSet,
    pub problem_key: EssentialCycleProblemKey,
}

/// How many of the selected indices name a candidate edge that crosses the dual seam.
pub open spec fn seam_crossings(seam: Seq<bool>, selected: Seq<usize>) -> nat
    decreases selected.len(),
{
    if selected.len() == 0 {
        0
    } else {
        seam_crossings(seam, selected.drop_last())
            + (if selected.last() < seam.len() && seam[selected.last() as int] { 1nat } else { 0nat })
    }
}

/// The parity of the dual-seam crossings of the selected candidate edges.
pub fn essential_cycle_seam_parity(problem: &EssentialCycleProblem, selected_edge_indices: &[usize]) -> (r: u8)
    requires
        problem.dual_seam_crossing_edges.wf(),
    ensures
        r as nat == seam_crossings(problem.dual_seam_crossing_edges@, selected_edge_indices@) % 2,
{
    let mut parity: u8 = 0;
    let mut i: usize = 0;
    while i < selected_edge_indices.len()
        invariant
            problem.dual_seam_crossing_edges.wf(),
            i <= selected_edge_indices@.len(),
            parity as nat == seam_crossings(problem.dual_seam_crossing_edges@, selected_edge_indices@.take(i as int)) % 2,
            parity <= 1,
        decreases selected_edge_indices@.len() - i,
    {
        let crossing = problem.dual_seam_crossing_edges.contains(selected_edge_indices[i]);
        proof {
            assert(selected_edge_indices@.take(i + 1).drop_last() =~= selected_edge_indices@.take(i as int));
        }
        if crossing {
            parity = 1 - parity;
        }
        i = i + 1;
    }
    proof {
        assert(selected_edge_indices@.take(selected_edge_indices@.len() as int) =~= selected_edge_indices@);
    }
    parity
}


// ---------------------------------------------------------------------------
// Faces joined across dual edges

/// A dual edge between two faces, named by their addresses.
pub type FaceEdge = (TriangleAddress, TriangleAddress);

/// `a` and `b` are joined by a dual edge, in either orientation.
pub open spec fn face_adj(edges: Set<FaceEdge>, a: TriangleAddress, b: TriangleAddress) -> bool {
    edges.contains((a, b)) || edges.contains((b, a))
}

/// `s` is closed under stepping across dual edges.
pub open spec fn face_closed(edges: Set<FaceEdge>, s: Set<TriangleAddress>) -> bool {
    forall|a: TriangleAddress, b: TriangleAddress| s.contains(a) && #[trigger] face_adj(edges, a, b) ==> s.contains(b)
}

/// The faces reachable from `v`: those in every closed set that contains `v`.
pub open spec fn face_component(edges: Set<FaceEdge>, v: TriangleAddress) -> Set<TriangleAddress> {
    Set::new(|u: TriangleAddress| forall|s: Set<TriangleAddress>| face_closed(edges, s) && s.contains(v) ==> #[trigger] s.contains(u))
}

proof fn lemma_face_component_closed(edges: Set<FaceEdge>, v: u64)
    ensures
        face_closed(edges, face_component(edges, v)),
        face_component(edges, v).contains(v),
{
    assert forall|a: u64, b: u64| face_component(edges, v).contains(a) && #[trigger] face_adj(edges, a, b) implies face_component(edges, v).contains(b) by {
        assert forall|s: Set<u64>| face_closed(edges, s) && s.contains(v) implies #[trigger] s.contains(b) by {
            assert(s.contains(a));
        }
    }
}

/// Flood from `start` across the dual edges: the faces reachable from it.
fn flood_faces(edges: &Vec<FaceEdge>, start: u64) -> (out: BTreeSet<u64>)
    ensures
        out@ == face_component(edges@.to_set(), start),
{
    let ghost es = edges@.to_set();
    let ghost ends: Seq<u64> = Seq::new(2 * edges@.len() + 1, |k: int| if k == 2 * edges@.len() { start } else if k % 2 == 0 { edges@[k / 2].0 } else { edges@[k / 2].1 });
    let mut reached: BTreeSet<u64> = BTreeSet::new();
    let mut stack: Vec<u64> = Vec::new();
    reached.insert(start);
    stack.push(start);
    proof {
        assert(ends[2 * edges@.len() as int] == start);
        assert(stack@[0] == start);
    }
    while stack.len() > 0
        invariant
            es == edges@.to_set(),
            ends.len() == 2 * edges@.len() + 1,
            forall|k: int| 0 <= k < ends.len() ==> #[trigger] ends[k] == (if k == 2 * edges@.len() { start } else if k % 2 == 0 { edges@[k / 2].0 } else { edges@[k / 2].1 }),
            reached@.contains(start),
            reached@.finite(),
            reached@.subset_of(ends.to_set()),
            forall|k: int| 0 <= k < stack@.len() ==> reached@.contains(#[trigger] stack@[k]),
            stack@.no_duplicates(),
            forall|s: Set<u64>| #[trigger] face_closed(es, s) && s.contains(start) ==> reached@.subset_of(s),
            forall|a: u64, b: u64| reached@.contains(a) && !stack@.contains(a) && #[trigger] face_adj(es, a, b) ==> reached@.contains(b),
        decreases 2 * (ends.len() - reached@.len()) + stack@.len(),
    {
        proof {
            ends.lemma_cardinality_of_set();
            vstd::set_lib::lemma_len_subset(reached@, ends.to_set());
        }
        let ghost old_stack = stack@;
        let node = stack.pop().unwrap();
        let ghost popped_stack = stack@;
        let ghost before = reached@;
        proof {
            assert(old_stack =~= popped_stack.push(node));
            assert(old_stack[popped_stack.len() as int] == node);
            assert forall|a: u64, b: u64| before.contains(a) && a != node && !popped_stack.contains(a) && #[trigger] face_adj(es, a, b) implies reached@.contains(b) by {
                if old_stack.contains(a) {
                    let k = choose|k: int| 0 <= k < old_stack.len() && old_stack[k] == a;
                    if k < popped_stack.len() {
                        assert(popped_stack[k] == a);
                    }
                }
            }
        }
        let mut i: usize = 0;
        while i < edges.len()
            invariant
                es == edges@.to_set(),
                ends.len() == 2 * edges@.len() + 1,
                forall|k: int| 0 <= k < ends.len() ==> #[trigger] ends[k] == (if k == 2 * edges@.len() { start } else if k % 2 == 0 { edges@[k / 2].0 } else { edges@[k / 2].1 }),
                i <= edges@.len(),
                before.contains(node),
                before.subset_of(reached@),
                reached@.contains(start),
                reached@.finite(),
                reached@.subset_of(ends.to_set()),
                reached@.len() - before.len() == stack@.len() - popped_stack.len(),
                stack@.len() >= popped_stack.len(),
                stack@.subrange(0, popped_stack.len() as int) == popped_stack,
                forall|k: int| popped_stack.len() <= k < stack@.len() ==> !before.contains(#[trigger] stack@[k]),
                forall|x: u64| reached@.contains(x) && !before.contains(x) ==> #[trigger] stack@.subrange(popped_stack.len() as int, stack@.len() as int).contains(x),
                forall|k: int| 0 <= k < stack@.len() ==> reached@.contains(#[trigger] stack@[k]),
                stack@.no_duplicates(),
                !popped_stack.contains(node),
                forall|s: Set<u64>| #[trigger] face_closed(es, s) && s.contains(start) ==> reached@.subset_of(s),
                forall|a: u64, b: u64| before.contains(a) && a != node && !popped_stack.contains(a) && #[trigger] face_adj(es, a, b) ==> reached@.contains(b),
                forall|j: int| 0 <= j < i ==> ((#[trigger] edges@[j]).0 == node ==> reached@.contains(edges@[j].1)) && (edges@[j].1 == node ==> reached@.contains(edges@[j].0)),
            decreases edges@.len() - i,
        {
            let (a, b) = edges[i];
            let next: Option<u64> = if a == node { Some(b) } else if b == node { Some(a) } else { None };
            if let Some(n) = next {
                if !reached.contains(&n) {
                    let ghost r0 = reached@;
                    let ghost s0 = stack@;
                    proof {
                        assert(es.contains(edges@[i as int]));
                        assert(face_adj(es, node, n));
                        assert forall|s: Set<u64>| #[trigger] face_closed(es, s) && s.contains(start) implies reached@.insert(n).subset_of(s) by {
                            assert(reached@.subset_of(s));
                            assert(s.contains(node));
                        }
                        if a == node {
                            assert(ends[2 * i + 1] == n);
                        } else {
                            assert(ends[2 * i as int] == n);
                        }
                        assert(ends.to_set().contains(n));
                    }
                    reached.insert(n);
                    stack.push(n);
                    proof {
                        assert(stack@.subrange(0, popped_stack.len() as int) =~= popped_stack);
                        assert forall|x: u64| reached@.contains(x) && !before.contains(x) implies #[trigger] stack@.subrange(popped_stack.len() as int, stack@.len() as int).contains(x) by {
                            let sub = stack@.subrange(popped_stack.len() as int, stack@.len() as int);
                            if x == n {
                                assert(sub[sub.len() - 1] == n);
                            } else {
                                assert(stack@.drop_last() =~= s0);
                                assert(r0.contains(x));
                                let old_sub = s0.subrange(popped_stack.len() as int, s0.len() as int);
                                assert(old_sub.contains(x));
                                let k = choose|k: int| 0 <= k < old_sub.len() && old_sub[k] == x;
                                assert(sub[k] == x);
                            }
                        }
                    }
                }
            }
            i = i + 1;
        }
        proof {
            ends.lemma_cardinality_of_set();
            vstd::set_lib::lemma_len_subset(reached@, ends.to_set());
            assert forall|a: u64, b: u64| reached@.contains(a) && !stack@.contains(a) && #[trigger] face_adj(es, a, b) implies reached@.contains(b) by {
                if a == node {
                    if es.contains((a, b)) {
                        let j = choose|j: int| 0 <= j < edges@.len() && edges@[j] == (a, b);
                        assert(edges@[j].0 == node);
                    } else {
                        let j = choose|j: int| 0 <= j < edges@.len() && edges@[j] == (b, a);
                        assert(edges@[j].1 == node);
                    }
                } else if before.contains(a) {
                    if popped_stack.contains(a) {
                        let k = choose|k: int| 0 <= k < popped_stack.len() && popped_stack[k] == a;
                        assert(stack@[k] == a);
                    }
                } else {
                    let sub = stack@.subrange(popped_stack.len() as int, stack@.len() as int);
                    assert(sub.contains(a));
                    let k = choose|k: int| 0 <= k < sub.len() && sub[k] == a;
                    assert(stack@[popped_stack.len() + k] == a);
                }
            }
        }
    }
    proof {
        lemma_face_component_closed(es, start);
        assert forall|u: u64| reached@.contains(u) <==> face_component(es, start).contains(u) by {
            if face_component(es, start).contains(u) {
                assert(face_closed(es, reached@));
            }
            if reached@.contains(u) {
                assert(reached@.subset_of(face_component(es, start)));
            }
        }
        assert(reached@ =~= face_component(es, start));
    }
    reached
}




/// Addresses visited in increasing order by a tree walk are strictly increasing.
proof fn lemma_increasing_address_refs(keys: Seq<&TriangleAddress>)
    requires
        vstd::std_specs::btree::increasing_seq(keys),
    ensures
        forall|i: int, j: int| 0 <= i < j < keys.len() ==> *keys[i] < *keys[j],
{
    broadcast use vstd::laws_cmp::group_laws_cmp;
    vstd::std_specs::btree::axiom_increasing_seq_meaning(keys);
    assert(vstd::laws_cmp::obeys_cmp::<&TriangleAddress>());
    assert forall|i: int, j: int| 0 <= i < j < keys.len() implies *keys[i] < *keys[j] by {
        assert(vstd::std_specs::cmp::OrdSpec::cmp_spec(&keys[i], &keys[j]) is Less);
    }
}

/// The addresses of a set, in increasing order.
fn address_set_to_vec(set: &BTreeSet<TriangleAddress>) -> (out: Vec<TriangleAddress>)
    ensures
        out@.to_set() == set@,
        out@.no_duplicates(),
        forall|a: int, b: int| 0 <= a < b < out@.len() ==> out@[a] < out@[b],
{
    let mut out: Vec<TriangleAddress> = Vec::new();
    let ghost full = spec_btree_keys_iter(set).remaining();
    for e in it: set.iter()
        invariant
            it.seq() == full,
            full.no_duplicates(),
            out@.len() == it.index(),
            forall|j: int| 0 <= j < it.index() ==> out@[j] == *#[trigger] full[j],
    {
        out.push(*e);
    }
    proof {
        assert(out@ =~= full.unref());
        assert forall|a: int, b: int| 0 <= a < out@.len() && 0 <= b < out@.len() && a != b implies out@[a] != out@[b] by {
            assert(full[a] != full[b]);
        }
        lemma_increasing_address_refs(full);
    }
    out
}

/// The smallest address of a set, if any.
fn smallest_address(set: &BTreeSet<TriangleAddress>) -> (r: Option<TriangleAddress>)
    ensures
        r is None <==> set@.len() == 0,
        r matches Some(m) ==> set@.contains(m) && forall|x: TriangleAddress| set@.contains(x) ==> m <= x,
{
    let listed = address_set_to_vec(set);
    proof {
        listed@.unique_seq_to_set();
    }
    if listed.len() == 0 {
        return None;
    }
    proof {
        assert(listed@.to_set().contains(listed@[0]));
        assert forall|x: TriangleAddress| set@.contains(x) implies listed@[0] <= x by {
            assert(listed@.to_set().contains(x));
            let k = choose|k: int| 0 <= k < listed@.len() && listed@[k] == x;
            if k > 0 {
                assert(listed@[0] < listed@[k]);
            }
        }
    }
    Some(listed[0])
}

/// Whether every address of `a` lies in `b`.
fn addresses_within(a: &BTreeSet<TriangleAddress>, b: &BTreeSet<TriangleAddress>) -> (r: bool)
    ensures
        r == a@.subset_of(b@),
{
    let listed = address_set_to_vec(a);
    let mut i: usize = 0;
    while i < listed.len()
        invariant
            i <= listed@.len(),
            listed@.to_set() == a@,
            forall|k: int| 0 <= k < i ==> b@.contains(#[trigger] listed@[k]),
        decreases listed@.len() - i,
    {
        if !b.contains(&listed[i]) {
            proof {
                assert(listed@.to_set().contains(listed@[i as int]));
            }
            return false;
        }
        i = i + 1;
    }
    proof {
        assert forall|x: TriangleAddress| a@.contains(x) implies b@.contains(x) by {
            assert(listed@.to_set().contains(x));
            let k = choose|k: int| 0 <= k < listed@.len() && listed@[k] == x;
        }
    }
    true
}

/// Whether no address of `a` lies in `b`.
fn addresses_avoid(a: &BTreeSet<TriangleAddress>, b: &BTreeSet<TriangleAddress>) -> (r: bool)
    ensures
        r == a@.disjoint(b@),
{
    let listed = address_set_to_vec(a);
    let mut i: usize = 0;
    while i < listed.len()
        invariant
            i <= listed@.len(),
            listed@.to_set() == a@,
            forall|k: int| 0 <= k < i ==> !b@.contains(#[trigger] listed@[k]),
        decreases listed@.len() - i,
    {
        if b.contains(&listed[i]) {
            proof {
                assert(listed@.to_set().contains(listed@[i as int]));
            }
            return false;
        }
        i = i + 1;
    }
    proof {
        assert forall|x: TriangleAddress| a@.contains(x) implies !b@.contains(x) by {
            assert(listed@.to_set().contains(x));
            let k = choose|k: int| 0 <= k < listed@.len() && listed@[k] == x;
        }
    }
    true
}

/// The address pair of two incident faces, smaller first.
pub open spec fn dual_pair(faces: [CanonicalFaceId; 2]) -> FaceEdge {
    if faces[0].address <= faces[1].address {
        (faces[0].address, faces[1].address)
    } else {
        (faces[1].address, faces[0].address)
    }
}

/// The candidate edge recorded for a dual pair among the first `upto`
/// candidates that have incident faces: the last one whose faces are the pair.
pub open spec fn dual_lookup(problem: EssentialCycleProblem, pair: FaceEdge, upto: int) -> Option<CanonicalEdgeId>
    decreases upto,
{
    if upto <= 0 {
        None
    } else if dual_pair(problem.edge_incident_faces@[upto - 1]) == pair {
        Some(problem.candidate_edges@[upto - 1])
    } else {
        dual_lookup(problem, pair, upto - 1)
    }
}

/// How many candidates carry incident faces.
pub open spec fn paired_count(problem: EssentialCycleProblem) -> int {
    if problem.candidate_edges@.len() <= problem.edge_incident_faces@.len() {
        problem.candidate_edges@.len() as int
    } else {
        problem.edge_incident_faces@.len() as int
    }
}

/// Some selected index names a candidate edge equal to `e`.
pub open spec fn edge_selected(problem: EssentialCycleProblem, sel: Seq<usize>, e: CanonicalEdgeId) -> bool {
    exists|j: int| 0 <= j < sel.len() && #[trigger] same_edge(problem.candidate_edges@[sel[j] as int], e)
}

/// Two edges with the same endpoints in the same order.
pub open spec fn same_edge(a: CanonicalEdgeId, b: CanonicalEdgeId) -> bool {
    a.vertices[0] == b.vertices[0] && a.vertices[1] == b.vertices[1]
}

/// The face adjacency `k` crosses a selected primal edge.
pub open spec fn adjacency_cut(problem: EssentialCycleProblem, sel: Seq<usize>, k: int) -> bool {
    let (l, r) = problem.problem_key.face_adjacency_edges@[k];
    match dual_lookup(problem, (l.address, r.address), paired_count(problem)) {
        Some(e) => edge_selected(problem, sel, e),
        None => false,
    }
}

/// The face adjacencies that the selection does not cut.
pub open spec fn open_dual_edges(problem: EssentialCycleProblem, sel: Seq<usize>) -> Set<FaceEdge> {
    Set::new(|e: FaceEdge| exists|k: int| 0 <= k < problem.problem_key.face_adjacency_edges@.len()
        && e == (problem.problem_key.face_adjacency_edges@[k].0.address, problem.problem_key.face_adjacency_edges@[k].1.address)
        && !#[trigger] adjacency_cut(problem, sel, k))
}

/// The smallest address of a set of addresses.
pub open spec fn least_address(s: Set<TriangleAddress>) -> TriangleAddress {
    choose|m: TriangleAddress| s.contains(m) && forall|x: TriangleAddress| s.contains(x) ==> m <= x
}

/// The addresses of the transition faces.
pub open spec fn transition_set(problem: EssentialCycleProblem) -> Set<TriangleAddress> {
    Set::new(|a: TriangleAddress| exists|k: int| 0 <= k < problem.transition_faces@.len()
        && #[trigger] problem.transition_faces@[k].address == a)
}

/// The coarse side of the selection: the faces reached from the smallest
/// coarse boundary face without crossing a selected edge.
pub open spec fn coarse_side_faces(problem: EssentialCycleProblem, sel: Seq<usize>) -> Set<TriangleAddress> {
    face_component(open_dual_edges(problem, sel), least_address(problem.coarse_boundary_faces@))
}

/// What `coarse_side` answers: an out-of-range index, a missing coarse or
/// fine boundary, boundaries on the wrong side or a disconnected fine side
/// are errors; otherwise the coarse side.
pub open spec fn coarse_side_spec(problem: EssentialCycleProblem, sel: Seq<usize>) -> Result<Set<TriangleAddress>, Seq<char>> {
    let coarse = coarse_side_faces(problem, sel);
    let fine = transition_set(problem).difference(coarse);
    if exists|j: int| 0 <= j < sel.len() && sel[j] >= problem.candidate_edges@.len() {
        Err("selected cycle edge index is out of range"@)
    } else if problem.coarse_boundary_faces@.len() == 0 {
        Err("essential-cycle problem has no coarse boundary face"@)
    } else if !problem.coarse_boundary_faces@.subset_of(coarse) || !problem.fine_boundary_faces@.disjoint(coarse) {
        Err("selected cycle does not separate coarse and fine boundaries"@)
    } else if problem.fine_boundary_faces@.len() == 0 {
        Err("essential-cycle problem has no fine boundary face"@)
    } else if !problem.fine_boundary_faces@.subset_of(fine)
        || face_component(open_dual_edges(problem, sel), least_address(problem.fine_boundary_faces@)) != fine {
        Err("selected cycle does not leave one connected fine side"@)
    } else {
        Ok(coarse)
    }
}


/// Whether two canonical vertices are the same.
pub fn vertex_ids_equal(a: &CanonicalVertexId, b: &CanonicalVertexId) -> (r: bool)
    ensures
        r == (*a == *b),
{
    match (a, b) {
        (CanonicalVertexId::Address(x), CanonicalVertexId::Address(y)) => *x == *y,
        (CanonicalVertexId::FrozenSourceSlot { source_n: n1, slot: s1 },
            CanonicalVertexId::FrozenSourceSlot { source_n: n2, slot: s2 }) => *n1 == *n2 && *s1 == *s2,
        _ => false,
    }
}

/// Whether two canonical edges have the same endpoints.
fn edge_ids_equal(a: &CanonicalEdgeId, b: &CanonicalEdgeId) -> (r: bool)
    ensures
        r == same_edge(*a, *b),
{
    vertex_ids_equal(&a.vertices[0], &b.vertices[0]) && vertex_ids_equal(&a.vertices[1], &b.vertices[1])
}

/// The index of the candidate recorded for a dual pair.
fn dual_lookup_exec(problem: &EssentialCycleProblem, pair: FaceEdge) -> (r: Option<usize>)
    ensures
        match dual_lookup(*problem, pair, paired_count(*problem)) {
            None => r is None,
            Some(e) => r matches Some(i) && i < paired_count(*problem) && problem.candidate_edges@[i as int] == e,
        },
{
    let n = if problem.candidate_edges.len() <= problem.edge_incident_faces.len() {
        problem.candidate_edges.len()
    } else {
        problem.edge_incident_faces.len()
    };
    let mut k = n;
    while k > 0
        invariant
            n == paired_count(*problem),
            k <= n,
            dual_lookup(*problem, pair, n as int) == dual_lookup(*problem, pair, k as int),
        decreases k,
    {
        let faces = &problem.edge_incident_faces[k - 1];
        let a = faces[0].address;
        let b = faces[1].address;
        let key = if a <= b { (a, b) } else { (b, a) };
        if key.0 == pair.0 && key.1 == pair.1 {
            return Some(k - 1);
        }
        k = k - 1;
    }
    None
}

/// Whether the face adjacency `k` crosses a selected primal edge.
fn adjacency_cut_exec(problem: &EssentialCycleProblem, sel: &[usize], k: usize) -> (r: bool)
    requires
        k < problem.problem_key.face_adjacency_edges@.len(),
        forall|j: int| 0 <= j < sel@.len() ==> sel@[j] < problem.candidate_edges@.len(),
    ensures
        r == adjacency_cut(*problem, sel@, k as int),
{
    let (l, r) = problem.problem_key.face_adjacency_edges[k];
    match dual_lookup_exec(problem, (l.address, r.address)) {
        None => false,
        Some(i) => {
            let e = &problem.candidate_edges[i];
            let mut j: usize = 0;
            while j < sel.len()
                invariant
                    j <= sel@.len(),
                    k < problem.problem_key.face_adjacency_edges@.len(),
                    (l, r) == problem.problem_key.face_adjacency_edges@[k as int],
                    dual_lookup(*problem, (l.address, r.address), paired_count(*problem)) == Some(*e),
                    forall|q: int| 0 <= q < sel@.len() ==> sel@[q] < problem.candidate_edges@.len(),
                    forall|q: int| 0 <= q < j ==> !#[trigger] same_edge(problem.candidate_edges@[sel@[q] as int], *e),
                decreases sel@.len() - j,
            {
                if edge_ids_equal(&problem.candidate_edges[sel[j]], e) {
                    proof {
                        assert(same_edge(problem.candidate_edges@[sel@[j as int] as int], *e));
                        assert(edge_selected(*problem, sel@, *e));
                    }
                    return true;
                }
                j = j + 1;
            }
            false
        },
    }
}

/// Whether two address sets are equal.
fn address_sets_equal(a: &BTreeSet<TriangleAddress>, b: &BTreeSet<TriangleAddress>) -> (r: bool)
    ensures
        r == (a@ == b@),
{
    let ab = addresses_within(a, b);
    let ba = addresses_within(b, a);
    proof {
        if ab && ba {
            assert(a@ =~= b@);
        }
    }
    ab && ba
}

/// The side of the selected cycle that holds the coarse boundary: the faces
/// reached from the smallest coarse boundary face without crossing a
/// selected edge. The selection must separate the coarse boundary from the
/// fine boundary and leave a connected fine side.
pub fn coarse_side(problem: &EssentialCycleProblem, selected_edge_indices: &[usize])
    -> (r: Result<BTreeSet<TriangleAddress>, String>)
    ensures
        match coarse_side_spec(*problem, selected_edge_indices@) {
            Ok(c) => r matches Ok(out) && out@ == c,
            Err(m) => r matches Err(message) && message@ == m,
        },
{
    let sel = selected_edge_indices;
    let mut j: usize = 0;
    while j < sel.len()
        invariant
            sel@ == selected_edge_indices@,
            j <= sel@.len(),
            forall|q: int| 0 <= q < j ==> sel@[q] < problem.candidate_edges@.len(),
        decreases sel@.len() - j,
    {
        if sel[j] >= problem.candidate_edges.len() {
            proof {
                reveal_strlit("selected cycle edge index is out of range");
                assert(sel@[j as int] >= problem.candidate_edges@.len());
            }
            return Err("selected cycle edge index is out of range".to_string());
        }
        j = j + 1;
    }
    let adjacency = &problem.problem_key.face_adjacency_edges;
    let mut open: Vec<FaceEdge> = Vec::new();
    let mut k: usize = 0;
    while k < adjacency.len()
        invariant
            adjacency@ == problem.problem_key.face_adjacency_edges@,
            k <= adjacency@.len(),
            forall|q: int| 0 <= q < sel@.len() ==> sel@[q] < problem.candidate_edges@.len(),
            forall|e: FaceEdge| #[trigger] open@.contains(e) <==> exists|q: int| 0 <= q < k
                && e == (adjacency@[q].0.address, adjacency@[q].1.address) && !#[trigger] adjacency_cut(*problem, sel@, q),
        decreases adjacency@.len() - k,
    {
        let cut = adjacency_cut_exec(problem, sel, k);
        let ghost before = open@;
        if !cut {
            open.push((adjacency[k].0.address, adjacency[k].1.address));
        }
        proof {
            assert forall|e: FaceEdge| #[trigger] open@.contains(e) <==> exists|q: int| 0 <= q < k + 1
                && e == (adjacency@[q].0.address, adjacency@[q].1.address) && !#[trigger] adjacency_cut(*problem, sel@, q) by {
                if open@.contains(e) && !before.contains(e) {
                    assert(e == open@[open@.len() - 1]);
                }
                if before.contains(e) {
                    let p = choose|p: int| 0 <= p < before.len() && before[p] == e;
                    assert(open@[p] == e);
                }
                if exists|q: int| 0 <= q < k + 1 && e == (adjacency@[q].0.address, adjacency@[q].1.address)
                    && !#[trigger] adjacency_cut(*problem, sel@, q) {
                    let q = choose|q: int| 0 <= q < k + 1 && e == (adjacency@[q].0.address, adjacency@[q].1.address)
                        && !#[trigger] adjacency_cut(*problem, sel@, q);
                    if q == k {
                        assert(open@[open@.len() - 1] == e);
                    }
                }
            }
        }
        k = k + 1;
    }
    proof {
        assert(open@.to_set() =~= open_dual_edges(*problem, sel@)) by {
            assert forall|e: FaceEdge| open@.to_set().contains(e) <==> open_dual_edges(*problem, sel@).contains(e) by {
                if open@.to_set().contains(e) {
                    assert(open@.contains(e));
                }
                if open_dual_edges(*problem, sel@).contains(e) {
                    assert(open@.contains(e));
                }
            }
        }
    }
    let coarse_start = match smallest_address(&problem.coarse_boundary_faces) {
        Some(a) => a,
        None => {
            proof {
                reveal_strlit("essential-cycle problem has no coarse boundary face");
            }
            return Err("essential-cycle problem has no coarse boundary face".to_string());
        },
    };
    proof {
        let m = least_address(problem.coarse_boundary_faces@);
        assert(m == coarse_start);
    }
    let coarse = flood_faces(&open, coarse_start);
    if !addresses_within(&problem.coarse_boundary_faces, &coarse) || !addresses_avoid(&problem.fine_boundary_faces, &coarse) {
        proof { reveal_strlit("selected cycle does not separate coarse and fine boundaries"); }
        return Err("selected cycle does not separate coarse and fine boundaries".to_string());
    }
    let mut fine: BTreeSet<TriangleAddress> = BTreeSet::new();
    let mut t: usize = 0;
    while t < problem.transition_faces.len()
        invariant
            t <= problem.transition_faces@.len(),
            forall|a: TriangleAddress| #[trigger] fine@.contains(a) <==> (!coarse@.contains(a) && exists|q: int| 0 <= q < t
                && #[trigger] problem.transition_faces@[q].address == a),
        decreases problem.transition_faces@.len() - t,
    {
        let a = problem.transition_faces[t].address;
        if !coarse.contains(&a) {
            fine.insert(a);
        }
        proof {
            assert(problem.transition_faces@[t as int].address == a);
        }
        t = t + 1;
    }
    proof {
        assert(fine@ =~= transition_set(*problem).difference(coarse@));
    }
    let fine_start = match smallest_address(&problem.fine_boundary_faces) {
        Some(a) => a,
        None => {
            proof { reveal_strlit("essential-cycle problem has no fine boundary face"); }
            return Err("essential-cycle problem has no fine boundary face".to_string());
        },
    };
    proof {
        let m = least_address(problem.fine_boundary_faces@);
        assert(m == fine_start);
    }
    if !addresses_within(&problem.fine_boundary_faces, &fine) || !address_sets_equal(&flood_faces(&open, fine_start), &fine) {
        proof { reveal_strlit("selected cycle does not leave one connected fine side"); }
        return Err("selected cycle does not leave one connected fine side".to_string());
    }
    Ok(coarse)
}


// ---------------------------------------------------------------------------
// Checking a selected cycle

/// The candidate edges that the indices select.
pub open spec fn chosen_edges(problem: EssentialCycleProblem, sel: Seq<usize>) -> Seq<CanonicalEdgeId> {
    sel.map_values(|i: usize| problem.candidate_edges@[i as int])
}

/// `order` with `v` appended unless it is there already.
pub open spec fn add_new(order: Seq<CanonicalVertexId>, v: CanonicalVertexId) -> Seq<CanonicalVertexId> {
    if order.contains(v) { order } else { order.push(v) }
}

/// The endpoints of the edges, each once, in order of first appearance.
pub open spec fn endpoint_order(edges: Seq<CanonicalEdgeId>) -> Seq<CanonicalVertexId>
    decreases edges.len(),
{
    if edges.len() == 0 {
        Seq::empty()
    } else {
        add_new(add_new(endpoint_order(edges.drop_last()), edges.last().vertices[0]), edges.last().vertices[1])
    }
}

/// The edges, with each endpoint replaced by its position in `order`.
pub open spec fn numbered_edges(edges: Seq<CanonicalEdgeId>, order: Seq<CanonicalVertexId>) -> Set<Edge> {
    Set::new(|e: Edge| exists|i: int| 0 <= i < edges.len() && e.0 < order.len() && e.1 < order.len()
        && order[e.0 as int] == (#[trigger] edges[i]).vertices[0] && order[e.1 as int] == edges[i].vertices[1])
}

/// Vertex `k` is an endpoint of one of the first `q` edges.
pub open spec fn listed_endpoint(list: Seq<Edge>, q: int, k: int) -> bool {
    exists|i: int| 0 <= i < q && (list[i].0 == k || list[i].1 == k)
}

/// The position of `v` in `order`, appending it when it is new.
fn position_or_push(order: &mut Vec<CanonicalVertexId>, v: CanonicalVertexId) -> (r: usize)
    requires
        old(order)@.no_duplicates(),
    ensures
        final(order)@ == add_new(old(order)@, v),
        final(order)@.no_duplicates(),
        r < final(order)@.len(),
        final(order)@[r as int] == v,
{
    let mut i: usize = 0;
    while i < order.len()
        invariant
            i <= order@.len(),
            order@ == old(order)@,
            order@.no_duplicates(),
            forall|j: int| 0 <= j < i ==> order@[j] != v,
        decreases order@.len() - i,
    {
        if vertex_ids_equal(&order[i], &v) {
            assert(order@.contains(v));
            return i;
        }
        i = i + 1;
    }
    assert(!order@.contains(v));
    order.push(v);
    proof {
        assert forall|a: int, b: int| 0 <= a < b < order@.len() implies order@[a] != order@[b] by {
            if b == order@.len() - 1 {
                assert(order@[b] == v);
            }
        }
    }
    i
}

/// Number the endpoints of the selected edges by first appearance and
/// rewrite the edges over those numbers.
fn number_endpoints(problem: &EssentialCycleProblem, sel: &[usize]) -> (r: (Vec<CanonicalVertexId>, Vec<Edge>))
    requires
        forall|j: int| 0 <= j < sel@.len() ==> sel@[j] < problem.candidate_edges@.len(),
    ensures
        r.0@ == endpoint_order(chosen_edges(*problem, sel@)),
        r.0@.no_duplicates(),
        r.1@.to_set() == numbered_edges(chosen_edges(*problem, sel@), r.0@),
        verts(r.1@.to_set()) == Set::new(|k: usize| k < r.0@.len()),
{
    let ghost edges = chosen_edges(*problem, sel@);
    let mut order: Vec<CanonicalVertexId> = Vec::new();
    let mut list: Vec<Edge> = Vec::new();
    let mut q: usize = 0;
    while q < sel.len()
        invariant
            q <= sel@.len(),
            edges == chosen_edges(*problem, sel@),
            forall|j: int| 0 <= j < sel@.len() ==> sel@[j] < problem.candidate_edges@.len(),
            order@ == endpoint_order(edges.take(q as int)),
            order@.no_duplicates(),
            list@.len() == q,
            forall|i: int| 0 <= i < q ==> (#[trigger] list@[i]).0 < order@.len() && list@[i].1 < order@.len()
                && order@[list@[i].0 as int] == edges[i].vertices[0] && order@[list@[i].1 as int] == edges[i].vertices[1],
            forall|k: int| 0 <= k < order@.len() ==> #[trigger] listed_endpoint(list@, q as int, k),
        decreases sel@.len() - q,
    {
        let e = problem.candidate_edges[sel[q]];
        assert(e == edges[q as int]);
        let ghost before = order@;
        let ghost list0 = list@;
        let a = position_or_push(&mut order, e.vertices[0]);
        let ghost mid = order@;
        let b = position_or_push(&mut order, e.vertices[1]);
        list.push((a, b));
        proof {
            assert(edges.take(q + 1).drop_last() =~= edges.take(q as int));
            assert(edges.take(q + 1).last() == e);
            assert forall|j: int| 0 <= j < before.len() implies order@[j] == before[j] by {
                assert(mid[j] == before[j]);
            }
            assert(order@[a as int] == e.vertices[0]) by {
                assert(mid[a as int] == e.vertices[0]);
            }
            assert forall|i: int| 0 <= i < q + 1 implies (#[trigger] list@[i]).0 < order@.len() && list@[i].1 < order@.len()
                && order@[list@[i].0 as int] == edges[i].vertices[0] && order@[list@[i].1 as int] == edges[i].vertices[1] by {
                if i < q {
                    assert(list@[i] == list0[i]);
                }
            }
            assert forall|k: int| 0 <= k < order@.len() implies #[trigger] listed_endpoint(list@, q + 1, k) by {
                if k < before.len() {
                    assert(listed_endpoint(list0, q as int, k));
                    let i = choose|i: int| 0 <= i < q && (list0[i].0 == k || list0[i].1 == k);
                    assert(list@[i] == list0[i]);
                } else if k < mid.len() {
                    assert(k == a);
                    assert(list@[q as int].0 == k);
                } else {
                    assert(k == b);
                    assert(list@[q as int].1 == k);
                }
            }
        }
        q = q + 1;
    }
    proof {
        assert(edges.take(q as int) =~= edges);
        let es = list@.to_set();
        assert forall|e: Edge| es.contains(e) <==> numbered_edges(edges, order@).contains(e) by {
            if es.contains(e) {
                let i = choose|i: int| 0 <= i < list@.len() && list@[i] == e;
                assert(list@[i].0 < order@.len());
            }
            if numbered_edges(edges, order@).contains(e) {
                let i = choose|i: int| 0 <= i < edges.len() && e.0 < order@.len() && e.1 < order@.len()
                    && order@[e.0 as int] == (#[trigger] edges[i]).vertices[0] && order@[e.1 as int] == edges[i].vertices[1];
                assert(list@[i].0 < order@.len());
                assert(list@[i] == e);
                assert(es.contains(list@[i]));
            }
        }
        assert(es =~= numbered_edges(edges, order@));
        crate::cycles::lemma_verts_of_seq(list@);
        assert forall|k: usize| verts(es).contains(k) <==> k < order@.len() by {
            if k < order@.len() {
                assert(listed_endpoint(list@, q as int, k as int));
                let i = choose|i: int| 0 <= i < q && (list@[i].0 == k || list@[i].1 == k);
            }
            if verts(es).contains(k) {
                let i = choose|i: int| 0 <= i < list@.len() && (list@[i].0 == k || list@[i].1 == k);
                assert(list@[i].0 < order@.len());
            }
        }
        assert(verts(es) =~= Set::new(|k: usize| k < order@.len()));
    }
    (order, list)
}


/// The vertices below `n`.
pub open spec fn below(n: nat) -> Set<usize> {
    Set::new(|k: usize| k < n)
}

pub(crate) proof fn lemma_below_len(n: nat)
    requires
        n <= usize::MAX + 1,
    ensures
        below(n).finite(),
        below(n).len() == n,
    decreases n,
{
    if n == 0 {
        assert(below(0) =~= Set::<usize>::empty());
    } else {
        lemma_below_len((n - 1) as nat);
        assert(below(n) =~= below((n - 1) as nat).insert((n - 1) as usize));
    }
}

/// The two neighbours of every vertex below `n`, recorded as a pair of
/// different vertices other than itself.
pub open spec fn neighbour_pairs(es: Set<Edge>, pairs: Seq<(usize, usize)>) -> bool {
    forall|k: int| 0 <= k < pairs.len() ==> {
        let (p, q) = #[trigger] pairs[k];
        &&& p != q && p < pairs.len() && q < pairs.len() && p != k && q != k
        &&& nbrs(es, k as usize) == set![p, q]
    }
}

/// `w` visits distinct vertices, each joined to the next by an edge.
pub open spec fn simple_walk(es: Set<Edge>, w: Seq<usize>) -> bool {
    &&& w.no_duplicates()
    &&& forall|i: int| 0 <= i < w.len() - 1 ==> #[trigger] adj(es, w[i], w[i + 1])
}

/// In a graph where every vertex has two neighbours, the vertex after a
/// simple walk that does not step back along its last edge is new, unless
/// it closes the walk at its start.
proof fn lemma_next_is_new(es: Set<Edge>, pairs: Seq<(usize, usize)>, w: Seq<usize>, x: usize)
    requires
        neighbour_pairs(es, pairs),
        simple_walk(es, w),
        w.len() >= 1,
        forall|i: int| 0 <= i < w.len() ==> #[trigger] w[i] < pairs.len(),
        adj(es, w.last(), x),
        w.len() >= 2 ==> x != w[w.len() - 2],
        x != w[0],
    ensures
        !w.contains(x),
{
    let l = w.len() as int;
    if w.contains(x) {
        let j = choose|j: int| 0 <= j < l && w[j] == x;
        assert(j != 0);
        let last = w[l - 1];
        assert(nbrs(es, last).contains(x));
        let (lp, lq) = pairs[last as int];
        assert(nbrs(es, last as usize) == set![lp, lq]);
        if j == l - 1 {
            assert(x == last);
            assert(false);
        } else {
            let (p, q) = pairs[x as int];
            assert(nbrs(es, x) == set![p, q]);
            let jm = j - 1;
            assert(adj(es, w[jm], w[jm + 1]));
            assert(adj(es, w[j], w[j + 1]));
            assert(nbrs(es, x).contains(w[j - 1]));
            assert(nbrs(es, x).contains(w[j + 1]));
            assert(w[j - 1] != w[j + 1]);
            assert(nbrs(es, x).contains(last));
            if last == w[j - 1] {
                assert(false);
            } else {
                assert(last == w[j + 1]);
                assert(j + 1 == l - 1);
                assert(false);
            }
        }
    }
}

/// Walk once around a connected graph in which every vertex has two
/// neighbours: from `start`, first to `first`, then always onwards.
fn walk_cycle(pairs: &Vec<(usize, usize)>, start: usize, first: usize, Ghost(es): Ghost<Set<Edge>>) -> (w: Vec<usize>)
    requires
        neighbour_pairs(es, pairs@),
        start < pairs@.len(),
        first == pairs@[start as int].0 || first == pairs@[start as int].1,
        verts(es) == below(pairs@.len() as nat),
        connected(es),
    ensures
        w@.len() == pairs@.len(),
        w@[0] == start,
        w@[1] == first,
        simple_walk(es, w@),
        forall|i: int| 0 <= i < w@.len() ==> #[trigger] w@[i] < pairs@.len(),
        adj(es, w@.last(), start),
{
    let n = pairs.len();
    let mut w: Vec<usize> = Vec::new();
    w.push(start);
    let mut prev = start;
    let mut cur = first;
    proof {
        assert(nbrs(es, start) == set![pairs@[start as int].0, pairs@[start as int].1]);
        assert(nbrs(es, start).contains(first));
    }
    while cur != start
        invariant
            n == pairs@.len(),
            neighbour_pairs(es, pairs@),
            verts(es) == below(n as nat),
            start < n,
            first == pairs@[start as int].0 || first == pairs@[start as int].1,
            w@.len() >= 1,
            w@[0] == start,
            w@.len() >= 2 ==> w@[1] == first,
            w@.len() == 1 ==> cur == first,
            simple_walk(es, w@),
            forall|i: int| 0 <= i < w@.len() ==> #[trigger] w@[i] < n,
            prev == w@.last(),
            cur < n,
            adj(es, prev, cur),
            w@.len() >= 2 ==> cur != w@[w@.len() - 2],
            cur != start ==> !w@.contains(cur),
        decreases n - w@.len(),
    {
        proof {
            lemma_below_len(n as nat);
            assert forall|i: int| 0 <= i < w@.len() implies below(n as nat).contains(#[trigger] w@[i]) by {}
            w@.push(cur).unique_seq_to_set();
            assert(w@.push(cur).to_set().subset_of(below(n as nat)));
            vstd::set_lib::lemma_len_subset(w@.push(cur).to_set(), below(n as nat));
        }
        let ghost old_w = w@;
        let ghost old_prev = prev;
        w.push(cur);
        let (p, q) = pairs[cur];
        let next = if p != prev { p } else { q };
        proof {
            assert(nbrs(es, cur) == set![p, q]);
            assert(nbrs(es, cur).contains(prev));
            assert(nbrs(es, cur).contains(next));
            assert(w@ == old_w.push(cur));
            assert forall|a: int, b: int| 0 <= a < b < w@.len() implies w@[a] != w@[b] by {
                if b == w@.len() - 1 {
                    assert(old_w.contains(old_w[a]));
                }
            }
            assert forall|i: int| 0 <= i < w@.len() - 1 implies #[trigger] adj(es, w@[i], w@[i + 1]) by {
                if i < old_w.len() - 1 {
                    assert(adj(es, old_w[i], old_w[i + 1]));
                }
            }
            if next != start {
                lemma_next_is_new(es, pairs@, w@, next);
            }
        }
        prev = cur;
        cur = next;
    }
    proof {
        let l = w@.len() as int;
        let ws = w@.to_set();
        assert(l >= 3) by {
            if l == 1 {
                assert(nbrs(es, start) == set![pairs@[start as int].0, pairs@[start as int].1]);
            }
            if l == 2 {
                assert(cur == w@[0]);
            }
        }
        assert forall|i: int| 0 <= i < l implies nbrs(es, w@[i]).subset_of(ws) by {
            let (p, q) = pairs@[w@[i] as int];
            assert(nbrs(es, w@[i]) == set![p, q]);
            if i == 0 {
                assert(adj(es, w@[0], w@[1]));
                assert(nbrs(es, w@[0]).contains(w@[1]));
                assert(nbrs(es, w@[0]).contains(w@[l - 1]));
                assert(w@[1] != w@[l - 1]);
                assert(ws.contains(w@[1]) && ws.contains(w@[l - 1]));
            } else if i == l - 1 {
                let lm = l - 2;
                assert(adj(es, w@[lm], w@[lm + 1]));
                assert(nbrs(es, w@[i]).contains(w@[l - 2]));
                assert(nbrs(es, w@[i]).contains(start));
                assert(w@[l - 2] != start);
                assert(ws.contains(w@[l - 2]) && ws.contains(w@[0]));
            } else {
                let im = i - 1;
                assert(adj(es, w@[im], w@[im + 1]));
                assert(adj(es, w@[i], w@[i + 1]));
                assert(nbrs(es, w@[i]).contains(w@[i - 1]));
                assert(nbrs(es, w@[i]).contains(w@[i + 1]));
                assert(w@[i - 1] != w@[i + 1]);
                assert(ws.contains(w@[i - 1]) && ws.contains(w@[i + 1]));
            }
        }
        assert(crate::cycles::closed(es, ws)) by {
            assert forall|a: usize, b: usize| ws.contains(a) && #[trigger] adj(es, a, b) implies ws.contains(b) by {
                let i = choose|i: int| 0 <= i < l && w@[i] == a;
                assert(nbrs(es, w@[i]).subset_of(ws));
                assert(nbrs(es, a).contains(b));
            }
        }
        assert(ws.contains(start));
        assert(verts(es).contains(start));
        crate::cycles::lemma_connected_from(es, start);
        assert forall|k: usize| below(n as nat).contains(k) implies ws.contains(k) by {
            assert(verts(es).contains(k));
            assert(component(es, start).contains(k));
        }
        lemma_below_len(n as nat);
        w@.unique_seq_to_set();
        assert(ws =~= below(n as nat));
    }
    w
}


/// The derived order of canonical vertices: addresses before frozen slots,
/// each ordered by its fields.
pub open spec fn vertex_lt(a: CanonicalVertexId, b: CanonicalVertexId) -> bool {
    match (a, b) {
        (CanonicalVertexId::Address(x), CanonicalVertexId::Address(y)) => x < y,
        (CanonicalVertexId::Address(_), CanonicalVertexId::FrozenSourceSlot { .. }) => true,
        (CanonicalVertexId::FrozenSourceSlot { .. }, CanonicalVertexId::Address(_)) => false,
        (CanonicalVertexId::FrozenSourceSlot { source_n: n1, slot: s1 },
            CanonicalVertexId::FrozenSourceSlot { source_n: n2, slot: s2 }) => n1 < n2 || (n1 == n2 && s1 < s2),
    }
}

pub(crate) proof fn lemma_vertex_lt_order(a: CanonicalVertexId, b: CanonicalVertexId, c: CanonicalVertexId)
    ensures
        !vertex_lt(a, a),
        a != b ==> vertex_lt(a, b) || vertex_lt(b, a),
        vertex_lt(a, b) ==> !vertex_lt(b, a),
        vertex_lt(a, b) && vertex_lt(b, c) ==> vertex_lt(a, c),
{
}

/// Whether `a` comes before `b`.
pub(crate) fn vertex_less(a: &CanonicalVertexId, b: &CanonicalVertexId) -> (r: bool)
    ensures
        r == vertex_lt(*a, *b),
{
    match (a, b) {
        (CanonicalVertexId::Address(x), CanonicalVertexId::Address(y)) => *x < *y,
        (CanonicalVertexId::Address(_), CanonicalVertexId::FrozenSourceSlot { .. }) => true,
        (CanonicalVertexId::FrozenSourceSlot { .. }, CanonicalVertexId::Address(_)) => false,
        (CanonicalVertexId::FrozenSourceSlot { source_n: n1, slot: s1 },
            CanonicalVertexId::FrozenSourceSlot { source_n: n2, slot: s2 }) => *n1 < *n2 || (*n1 == *n2 && *s1 < *s2),
    }
}

/// Whether `v` occurs in `list`.
fn contains_vertex(list: &Vec<CanonicalVertexId>, v: &CanonicalVertexId) -> (r: bool)
    ensures
        r == list@.contains(*v),
{
    let mut i: usize = 0;
    while i < list.len()
        invariant
            i <= list@.len(),
            forall|j: int| 0 <= j < i ==> list@[j] != *v,
        decreases list@.len() - i,
    {
        if vertex_ids_equal(&list[i], v) {
            assert(list@[i as int] == *v);
            return true;
        }
        i = i + 1;
    }
    false
}

/// Position `k` holds the least vertex of `order`.
pub open spec fn least_vertex(order: Seq<CanonicalVertexId>, k: int) -> bool {
    &&& 0 <= k < order.len()
    &&& forall|j: int| 0 <= j < order.len() && j != k ==> vertex_lt(order[k], #[trigger] order[j])
}

/// The selection is empty, repeats an index, or names a missing candidate.
pub open spec fn selection_malformed(problem: EssentialCycleProblem, sel: Seq<usize>) -> bool {
    sel.len() == 0 || !sel.no_duplicates() || exists|j: int| 0 <= j < sel.len() && sel[j] >= problem.candidate_edges@.len()
}

/// The vertices of the selected edges, in order of first appearance.
pub open spec fn cycle_order(problem: EssentialCycleProblem, sel: Seq<usize>) -> Seq<CanonicalVertexId> {
    endpoint_order(chosen_edges(problem, sel))
}

/// The selected edges over the positions of their vertices in `cycle_order`.
pub open spec fn cycle_graph(problem: EssentialCycleProblem, sel: Seq<usize>) -> Set<Edge> {
    numbered_edges(chosen_edges(problem, sel), cycle_order(problem, sel))
}

/// Fewer than three vertices, or some vertex without exactly two neighbours.
pub open spec fn not_two_regular(problem: EssentialCycleProblem, sel: Seq<usize>) -> bool {
    cycle_order(problem, sel).len() < 3 || exists|k: usize| k < cycle_order(problem, sel).len()
        && #[trigger] nbrs(cycle_graph(problem, sel), k).len() != 2
}

/// Some vertex of the selection is a fixed coarse or fine boundary vertex.
pub open spec fn touches_fixed_boundary(problem: EssentialCycleProblem, order: Seq<CanonicalVertexId>) -> bool {
    exists|k: int| 0 <= k < order.len() && (problem.coarse_boundary_vertices@.contains(#[trigger] order[k])
        || problem.fine_boundary_vertices@.contains(order[k]))
}

/// What an anchor's policy says of a cycle through `order`.
pub open spec fn anchor_violation(entry: (CanonicalVertexId, AnchorBandPolicy), order: Seq<CanonicalVertexId>) -> Option<Seq<char>> {
    let on_cycle = order.contains(entry.0);
    match entry.1 {
        AnchorBandPolicy::OnSingleInterface => if on_cycle {
            None
        } else {
            Some("OnSingleInterface anchor is not on the selected cycle"@)
        },
        _ => if on_cycle {
            Some("selected cycle violates an anchor interior policy"@)
        } else {
            None
        },
    }
}

/// The first anchor policy, in list order, that the cycle violates.
pub open spec fn anchor_scan(policies: Seq<(CanonicalVertexId, AnchorBandPolicy)>, order: Seq<CanonicalVertexId>) -> Option<Seq<char>>
    decreases policies.len(),
{
    if policies.len() == 0 {
        None
    } else {
        match anchor_scan(policies.drop_last(), order) {
            Some(m) => Some(m),
            None => anchor_violation(policies.last(), order),
        }
    }
}

/// Why a selection is not an essential cycle, checked in this order:
/// malformed indices, vertices without two neighbours, more than one cycle,
/// a fixed boundary vertex, an anchor policy, even seam parity, and the
/// coarse side; none when it is one.
pub open spec fn selection_error(problem: EssentialCycleProblem, sel: Seq<usize>) -> Option<Seq<char>> {
    if selection_malformed(problem, sel) {
        Some("selected cycle edges must be non-empty, unique candidates"@)
    } else if not_two_regular(problem, sel) {
        Some("selected primal edges do not form degree-two cycle vertices"@)
    } else if !connected(cycle_graph(problem, sel)) {
        Some("selected primal edges form multiple cycles"@)
    } else if touches_fixed_boundary(problem, cycle_order(problem, sel)) {
        Some("selected cycle touches a fixed boundary vertex"@)
    } else if anchor_scan(problem.anchor_policies@, cycle_order(problem, sel)) is Some {
        anchor_scan(problem.anchor_policies@, cycle_order(problem, sel))
    } else if seam_crossings(problem.dual_seam_crossing_edges@, sel) % 2 != 1 {
        Some("selected cycle has even dual-seam parity"@)
    } else {
        match coarse_side_spec(problem, sel) {
            Err(m) => Some(m),
            Ok(_) => None,
        }
    }
}

/// `w` goes once around the selected cycle from its least vertex, stepping
/// first to the lesser of that vertex's two neighbours.
pub open spec fn canonical_walk(problem: EssentialCycleProblem, sel: Seq<usize>, w: Seq<usize>) -> bool {
    let order = cycle_order(problem, sel);
    let es = cycle_graph(problem, sel);
    &&& w.len() == order.len()
    &&& w.len() >= 3
    &&& simple_walk(es, w)
    &&& forall|i: int| 0 <= i < w.len() ==> #[trigger] w[i] < order.len()
    &&& adj(es, w.last(), w[0])
    &&& least_vertex(order, w[0] as int)
    &&& nbrs(es, w[0]).contains(w[1])
    &&& forall|x: usize| nbrs(es, w[0]).contains(x) && x != w[1] ==> vertex_lt(order[w[1] as int], order[x as int])
}


/// Some selected candidate joins a vertex to itself.
pub open spec fn has_self_loop(problem: EssentialCycleProblem, sel: Seq<usize>) -> bool {
    exists|j: int| 0 <= j < sel.len() && sel[j] < problem.candidate_edges@.len()
        && (#[trigger] problem.candidate_edges@[sel[j] as int]).vertices[0] == problem.candidate_edges@[sel[j] as int].vertices[1]
}

/// The neighbour of position `q` whose vertex comes first.
pub open spec fn first_nbr(es: Set<Edge>, order: Seq<CanonicalVertexId>, q: usize) -> usize {
    choose|x: usize| nbrs(es, q).contains(x)
        && forall|y: usize| #[trigger] nbrs(es, q).contains(y) && y != x ==> vertex_lt(order[x as int], order[y as int])
}

/// The other neighbour of position `q`.
pub open spec fn second_nbr(es: Set<Edge>, order: Seq<CanonicalVertexId>, q: usize) -> usize {
    choose|x: usize| nbrs(es, q).contains(x) && x != first_nbr(es, order, q)
}

/// The step from `cur`, having come from `prev`: the first neighbour of
/// `cur` in vertex order that is not `prev`.
pub open spec fn loop_step(es: Set<Edge>, order: Seq<CanonicalVertexId>, prev: usize, cur: usize) -> usize {
    if first_nbr(es, order, cur) != prev { first_nbr(es, order, cur) } else { second_nbr(es, order, cur) }
}

/// The positions visited from `cur` until the walk is back at `start`, at
/// most `fuel` of them.
pub open spec fn loop_walk(es: Set<Edge>, order: Seq<CanonicalVertexId>, start: usize, prev: usize, cur: usize, fuel: nat)
    -> Seq<usize>
    decreases fuel,
{
    if fuel == 0 || cur == start {
        Seq::empty()
    } else {
        seq![cur] + loop_walk(es, order, start, cur, loop_step(es, order, prev, cur), (fuel - 1) as nat)
    }
}

/// `a` comes before `b` in lexicographic vertex order.
pub open spec fn seq_before(a: Seq<CanonicalVertexId>, b: Seq<CanonicalVertexId>) -> bool
    decreases a.len(),
{
    if a.len() == 0 {
        b.len() > 0
    } else if b.len() == 0 {
        false
    } else if a[0] != b[0] {
        vertex_lt(a[0], b[0])
    } else {
        seq_before(a.drop_first(), b.drop_first())
    }
}

/// The key of a selection with a self-loop that passes every check: from the
/// least vertex, walk towards each of its two neighbours, always leaving a
/// vertex by its first neighbour other than the one just left, until back
/// at the start (at most twice the vertex count plus two steps); the key is
/// the lexicographically smaller walk, the one through the first neighbour
/// on a tie.
pub open spec fn loop_key(problem: EssentialCycleProblem, sel: Seq<usize>) -> Seq<CanonicalVertexId> {
    let es = cycle_graph(problem, sel);
    let order = cycle_order(problem, sel);
    let s = (choose|k: int| least_vertex(order, k)) as usize;
    let fuel = (2 * order.len() + 2) as nat;
    let fwd = (seq![s] + loop_walk(es, order, s, s, first_nbr(es, order, s), fuel)).map_values(|i: usize| order[i as int]);
    let rev = (seq![s] + loop_walk(es, order, s, s, second_nbr(es, order, s), fuel)).map_values(|i: usize| order[i as int]);
    if seq_before(rev, fwd) { rev } else { fwd }
}

fn self_loop_in(problem: &EssentialCycleProblem, sel: &[usize]) -> (r: bool)
    ensures
        r == has_self_loop(*problem, sel@),
{
    let mut j: usize = 0;
    while j < sel.len()
        invariant
            j <= sel@.len(),
            forall|q: int| 0 <= q < j && sel@[q] < problem.candidate_edges@.len()
                ==> (#[trigger] problem.candidate_edges@[sel@[q] as int]).vertices[0] != problem.candidate_edges@[sel@[q] as int].vertices[1],
        decreases sel@.len() - j,
    {
        if sel[j] < problem.candidate_edges.len() {
            let e = problem.candidate_edges[sel[j]];
            if vertex_ids_equal(&e.vertices[0], &e.vertices[1]) {
                proof {
                    assert(problem.candidate_edges@[sel@[j as int] as int].vertices[0] == problem.candidate_edges@[sel@[j as int] as int].vertices[1]);
                }
                return true;
            }
        }
        j = j + 1;
    }
    false
}

/// Each entry of `pairs` holds the two neighbours of its position.
pub open spec fn pairs_of(es: Set<Edge>, pairs: Seq<(usize, usize)>) -> bool {
    forall|k: int| 0 <= k < pairs.len() ==> {
        let (p, q) = #[trigger] pairs[k];
        &&& p != q && p < pairs.len() && q < pairs.len()
        &&& nbrs(es, k as usize) == set![p, q]
    }
}

pub(crate) proof fn lemma_first_nbr(es: Set<Edge>, order: Seq<CanonicalVertexId>, q: usize, a: usize, b: usize)
    requires
        nbrs(es, q) == set![a, b],
        a != b,
        a < order.len(),
        b < order.len(),
        order.no_duplicates(),
    ensures
        first_nbr(es, order, q) == (if vertex_lt(order[b as int], order[a as int]) { b } else { a }),
        second_nbr(es, order, q) == (if vertex_lt(order[b as int], order[a as int]) { a } else { b }),
{
    lemma_vertex_lt_order(order[a as int], order[b as int], order[a as int]);
    let x = if vertex_lt(order[b as int], order[a as int]) { b } else { a };
    let y = if vertex_lt(order[b as int], order[a as int]) { a } else { b };
    assert(order[a as int] != order[b as int]);
    assert(nbrs(es, q).contains(x) && forall|z: usize| #[trigger] nbrs(es, q).contains(z) && z != x ==> vertex_lt(order[x as int], order[z as int]));
    let f = first_nbr(es, order, q);
    assert(nbrs(es, q).contains(f));
    if f != x {
        assert(f == y);
        assert(vertex_lt(order[f as int], order[x as int]));
        assert(vertex_lt(order[x as int], order[f as int]));
    }
    assert(nbrs(es, q).contains(y) && y != f);
}

fn pick_step(pairs: &Vec<(usize, usize)>, order: &Vec<CanonicalVertexId>, prev: usize, cur: usize, Ghost(es): Ghost<Set<Edge>>)
    -> (r: usize)
    requires
        pairs_of(es, pairs@),
        order@.len() == pairs@.len(),
        order@.no_duplicates(),
        cur < pairs@.len(),
    ensures
        r == loop_step(es, order@, prev, cur),
        r < pairs@.len(),
{
    let (a, b) = pairs[cur];
    proof {
        lemma_first_nbr(es, order@, cur, a, b);
    }
    let (x, y) = if vertex_less(&order[b], &order[a]) { (b, a) } else { (a, b) };
    if x != prev { x } else { y }
}

fn walk_loop(pairs: &Vec<(usize, usize)>, order: &Vec<CanonicalVertexId>, start: usize, first: usize, Ghost(es): Ghost<Set<Edge>>)
    -> (out: Vec<CanonicalVertexId>)
    requires
        pairs_of(es, pairs@),
        order@.len() == pairs@.len(),
        order@.no_duplicates(),
        start < pairs@.len(),
        first < pairs@.len(),
    ensures
        out@ == (seq![start] + loop_walk(es, order@, start, start, first, (2 * order@.len() + 2) as nat))
            .map_values(|i: usize| order@[i as int]),
{
    let ghost full = seq![start] + loop_walk(es, order@, start, start, first, (2 * order@.len() + 2) as nat);
    let mut out: Vec<CanonicalVertexId> = Vec::new();
    out.push(order[start]);
    let ghost mut visited: Seq<usize> = seq![start];
    let mut prev = start;
    let mut cur = first;
    let mut fuel: u128 = 2 * (pairs.len() as u128) + 2;
    while fuel > 0 && cur != start
        invariant
            pairs_of(es, pairs@),
            order@.len() == pairs@.len(),
            order@.no_duplicates(),
            cur < pairs@.len(),
            prev < pairs@.len(),
            full == seq![start] + loop_walk(es, order@, start, start, first, (2 * order@.len() + 2) as nat),
            full == visited + loop_walk(es, order@, start, prev, cur, fuel as nat),
            out@ == visited.map_values(|i: usize| order@[i as int]),
        decreases fuel,
    {
        let next = pick_step(pairs, order, prev, cur, Ghost(es));
        proof {
            assert(loop_walk(es, order@, start, prev, cur, fuel as nat)
                == seq![cur] + loop_walk(es, order@, start, cur, next, (fuel - 1) as nat));
            assert(visited + loop_walk(es, order@, start, prev, cur, fuel as nat)
                =~= visited.push(cur) + loop_walk(es, order@, start, cur, next, (fuel - 1) as nat));
        }
        out.push(order[cur]);
        proof {
            assert(out@ =~= visited.push(cur).map_values(|i: usize| order@[i as int]));
            visited = visited.push(cur);
        }
        prev = cur;
        cur = next;
        fuel = fuel - 1;
    }
    proof {
        assert(loop_walk(es, order@, start, prev, cur, fuel as nat) =~= Seq::<usize>::empty());
        assert(full =~= visited);
    }
    out
}

fn lex_less(a: &Vec<CanonicalVertexId>, b: &Vec<CanonicalVertexId>) -> (r: bool)
    ensures
        r == seq_before(a@, b@),
{
    let mut i: usize = 0;
    proof {
        assert(a@.skip(0) =~= a@);
        assert(b@.skip(0) =~= b@);
    }
    while i < a.len() && i < b.len() && vertex_ids_equal(&a[i], &b[i])
        invariant
            i <= a@.len(),
            i <= b@.len(),
            seq_before(a@, b@) == seq_before(a@.skip(i as int), b@.skip(i as int)),
        decreases a@.len() - i,
    {
        proof {
            assert(a@.skip(i as int).drop_first() =~= a@.skip(i + 1));
            assert(b@.skip(i as int).drop_first() =~= b@.skip(i + 1));
            assert(a@.skip(i as int)[0] == a@[i as int]);
            assert(b@.skip(i as int)[0] == b@[i as int]);
        }
        i = i + 1;
    }
    proof {
        if i < a@.len() && i < b@.len() {
            assert(a@.skip(i as int)[0] == a@[i as int]);
            assert(b@.skip(i as int)[0] == b@[i as int]);
        }
    }
    if i == a.len() {
        i < b.len()
    } else if i == b.len() {
        false
    } else {
        vertex_less(&a[i], &b[i])
    }
}


/// Check that the selected candidate edges form one essential cycle: unique
/// valid indices, every vertex with two neighbours, one connected cycle, no
/// fixed boundary vertex, the anchor policies kept, odd seam parity and a
/// clean split into a coarse and a fine side. On success, the cycle's
/// vertices in canonical order.
pub fn validate_selected_essential_cycle(problem: &EssentialCycleProblem, selected_edge_indices: &[usize])
    -> (r: Result<EssentialCycleKey, String>)
    requires
        problem.dual_seam_crossing_edges.wf(),
    ensures
        match selection_error(*problem, selected_edge_indices@) {
            Some(m) => r matches Err(message) && message@ == m,
            None => if has_self_loop(*problem, selected_edge_indices@) {
                r matches Ok(key) && key.ordered_vertices@ == loop_key(*problem, selected_edge_indices@)
            } else {
                r matches Ok(key) && exists|w: Seq<usize>| canonical_walk(*problem, selected_edge_indices@, w)
                    && key.ordered_vertices@ == w.map_values(|i: usize| cycle_order(*problem, selected_edge_indices@)[i as int])
            },
        },
        r is Ok ==> forall|a: int| 0 <= a < problem.anchor_policies@.len() ==> {
            let (v, policy) = #[trigger] problem.anchor_policies@[a];
            &&& policy == AnchorBandPolicy::OnSingleInterface ==> crate::selection_order::on_selection(*problem, selected_edge_indices@, v)
            &&& policy != AnchorBandPolicy::OnSingleInterface ==> !crate::selection_order::on_selection(*problem, selected_edge_indices@, v)
        },
        r is Ok ==> forall|v: CanonicalVertexId| crate::selection_order::on_selection(*problem, selected_edge_indices@, v)
            ==> !problem.coarse_boundary_vertices@.contains(v) && !problem.fine_boundary_vertices@.contains(v),
        r is Ok ==> crate::selection_order::seam_hits(*problem, selected_edge_indices@).len() % 2 == 1,
        r is Ok ==> forall|v: CanonicalVertexId| #[trigger] crate::selection_order::on_selection(*problem, selected_edge_indices@, v)
            ==> crate::selection_order::selection_neighbours(*problem, selected_edge_indices@, v).len() == 2,
        r matches Ok(key) ==> !has_self_loop(*problem, selected_edge_indices@) ==> {
            &&& key.ordered_vertices@.len() >= 3
            &&& forall|i: int| 1 <= i < key.ordered_vertices@.len()
                ==> vertex_lt(key.ordered_vertices@[0], #[trigger] key.ordered_vertices@[i])
            &&& vertex_lt(key.ordered_vertices@[1], key.ordered_vertices@[key.ordered_vertices@.len() - 1])
        },
{
    let sel = selected_edge_indices;
    let malformed = "selected cycle edges must be non-empty, unique candidates";
    proof { reveal_strlit("selected cycle edges must be non-empty, unique candidates"); }
    if sel.len() == 0 {
        return Err(malformed.to_string());
    }
    let mut seen: BTreeSet<usize> = BTreeSet::new();
    let mut j: usize = 0;
    while j < sel.len()
        invariant
            sel@ == selected_edge_indices@,
            j <= sel@.len(),
            forall|q: int| 0 <= q < j ==> sel@[q] < problem.candidate_edges@.len(),
            sel@.take(j as int).no_duplicates(),
            forall|x: usize| #[trigger] seen@.contains(x) <==> sel@.take(j as int).contains(x),
            malformed@ == "selected cycle edges must be non-empty, unique candidates"@,
        decreases sel@.len() - j,
    {
        if sel[j] >= problem.candidate_edges.len() {
            proof {
                assert(sel@[j as int] >= problem.candidate_edges@.len());
            }
            return Err(malformed.to_string());
        }
        if seen.contains(&sel[j]) {
            proof {
                let prev = sel@.take(j as int);
                let q = choose|q: int| 0 <= q < prev.len() && prev[q] == sel@[j as int];
                assert(sel@[q] == sel@[j as int]);
                assert(!sel@.no_duplicates());
            }
            return Err(malformed.to_string());
        }
        seen.insert(sel[j]);
        proof {
            let prev = sel@.take(j as int);
            let next = sel@.take(j + 1);
            assert(next =~= prev.push(sel@[j as int]));
            assert forall|x: usize| #[trigger] seen@.contains(x) <==> next.contains(x) by {
                if x == sel@[j as int] {
                    assert(next[j as int] == x);
                }
                if next.contains(x) {
                    let q = choose|q: int| 0 <= q < next.len() && next[q] == x;
                    if q < j {
                        assert(prev[q] == x);
                    }
                }
                if prev.contains(x) {
                    let q = choose|q: int| 0 <= q < prev.len() && prev[q] == x;
                    assert(next[q] == x);
                }
            }
            assert forall|a: int, b: int| 0 <= a < b < next.len() implies next[a] != next[b] by {
                if b == j {
                    assert(prev.contains(prev[a]));
                }
            }
        }
        j = j + 1;
    }
    proof {
        assert(sel@.take(sel@.len() as int) =~= sel@);
        assert(!selection_malformed(*problem, sel@));
    }
    let ghost order_spec = cycle_order(*problem, sel@);
    let ghost es = cycle_graph(*problem, sel@);
    let (order, list) = number_endpoints(problem, sel);
    let adjacency = crate::cycles::neighbour_map(&list);
    let n = order.len();
    proof {
        assert(list@.to_set() == es);
        assert(adjacency@.dom() == below(n as nat));
        assert forall|a: usize, b: usize| #[trigger] es.contains((a, b)) && !has_self_loop(*problem, sel@) implies a != b by {
            let edges = chosen_edges(*problem, sel@);
            let i = choose|i: int| 0 <= i < edges.len() && a < order@.len() && b < order@.len()
                && order@[a as int] == (#[trigger] edges[i]).vertices[0] && order@[b as int] == edges[i].vertices[1];
            assert(edges[i] == problem.candidate_edges@[sel@[i] as int]);
            if a == b {
                assert(problem.candidate_edges@[sel@[i] as int].vertices[0] == problem.candidate_edges@[sel@[i] as int].vertices[1]);
            }
        }
    }
    let degree_two = "selected primal edges do not form degree-two cycle vertices";
    proof { reveal_strlit("selected primal edges do not form degree-two cycle vertices"); }
    if n < 3 {
        return Err(degree_two.to_string());
    }
    let mut pairs: Vec<(usize, usize)> = Vec::new();
    let mut k: usize = 0;
    while k < n
        invariant
            n == order@.len(),
            k <= n,
            order@ == order_spec,
            es == cycle_graph(*problem, sel@),
            sel@ == selected_edge_indices@,
            adjacency@.dom() == below(n as nat),
            forall|v: usize| #[trigger] adjacency@.contains_key(v) ==> adjacency@[v]@ == nbrs(es, v),
            verts(es) == below(n as nat),
            forall|a: usize, b: usize| #[trigger] es.contains((a, b)) && !has_self_loop(*problem, sel@) ==> a != b,
            pairs@.len() == k,
            forall|q: int| 0 <= q < k ==> {
                let (a, b) = #[trigger] pairs@[q];
                &&& a != b && a < n && b < n && (!has_self_loop(*problem, sel@) ==> a != q && b != q)
                &&& nbrs(es, q as usize) == set![a, b]
            },
            degree_two@ == "selected primal edges do not form degree-two cycle vertices"@,
            !selection_malformed(*problem, sel@),
        decreases n - k,
    {
        assert(adjacency@.contains_key(k));
        let neighbours = match adjacency.get(&k) {
            Some(set) => set,
            None => {
                return Err(degree_two.to_string());
            },
        };
        if neighbours.len() != 2 {
            proof {
                assert(nbrs(es, k).len() != 2);
                assert(not_two_regular(*problem, sel@));
            }
            return Err(degree_two.to_string());
        }
        let listed = crate::cycles::vertex_set_to_vec(neighbours);
        proof {
            listed@.unique_seq_to_set();
            assert(listed@.len() == 2);
            assert(listed@.to_set() == nbrs(es, k));
            assert(listed@.to_set() =~= set![listed@[0], listed@[1]]);
            assert forall|u: usize| nbrs(es, k).contains(u) implies u < n && (!has_self_loop(*problem, sel@) ==> u != k) by {
                assert(adj(es, k, u));
                if es.contains((k, u)) {
                    assert(verts(es).contains(u)) by {
                        assert(es.contains((k, u)) && ((k, u).1 == u));
                    }
                } else {
                    assert(verts(es).contains(u)) by {
                        assert(es.contains((u, k)) && ((u, k).0 == u));
                    }
                }
            }
            assert(nbrs(es, k).contains(listed@[0]) && nbrs(es, k).contains(listed@[1]));
        }
        pairs.push((listed[0], listed[1]));
        proof {
            assert forall|q: int| 0 <= q < k + 1 implies {
                let (a, b) = #[trigger] pairs@[q];
                &&& a != b && a < n && b < n && (!has_self_loop(*problem, sel@) ==> a != q && b != q)
                &&& nbrs(es, q as usize) == set![a, b]
            } by {
                if q < k {
                    assert(pairs@[q] == pairs@.take(k as int)[q]);
                }
            }
        }
        k = k + 1;
    }
    proof {
        assert(!not_two_regular(*problem, sel@)) by {
            assert forall|v: usize| v < n implies #[trigger] nbrs(es, v).len() != 2 ==> false by {
                let (a, b) = pairs@[v as int];
                assert(nbrs(es, v) == set![a, b]);
                assert(set![a, b].len() == 2);
            }
        }
    }
    let mut start: usize = 0;
    let mut i: usize = 1;
    while i < n
        invariant
            n == order@.len(),
            start < i <= n,
            forall|q: int| 0 <= q < i && q != start ==> vertex_lt(order@[start as int], #[trigger] order@[q]),
            order@.no_duplicates(),
        decreases n - i,
    {
        if vertex_less(&order[i], &order[start]) {
            proof {
                assert forall|q: int| 0 <= q < i + 1 && q != i implies vertex_lt(order@[i as int], #[trigger] order@[q]) by {
                    if q != start {
                        lemma_vertex_lt_order(order@[i as int], order@[start as int], order@[q]);
                    }
                }
            }
            start = i;
        } else {
            proof {
                lemma_vertex_lt_order(order@[i as int], order@[start as int], order@[start as int]);
                assert(order@[i as int] != order@[start as int]);
            }
        }
        i = i + 1;
    }
    assert(least_vertex(order@, start as int));
    let reached = crate::cycles::flood(&list, start);
    let mut v: usize = 0;
    while v < n
        invariant
            n == order@.len(),
            v <= n,
            start < n,
            es == list@.to_set(),
            verts(es) == below(n as nat),
            reached@ == component(es, start),
            forall|q: usize| q < v ==> reached@.contains(q),
            sel@ == selected_edge_indices@,
            es == cycle_graph(*problem, sel@),
            !selection_malformed(*problem, sel@),
            !not_two_regular(*problem, sel@),
        decreases n - v,
    {
        if !reached.contains(&v) {
            proof {
                reveal_strlit("selected primal edges form multiple cycles");
                crate::cycles::lemma_connected_from(es, start);
                assert(verts(es).contains(v));
            }
            return Err("selected primal edges form multiple cycles".to_string());
        }
        v = v + 1;
    }
    proof {
        assert(verts(es).contains(start));
        crate::cycles::lemma_connected_from(es, start);
        assert(verts(es).subset_of(component(es, start)));
        assert(connected(es));
    }
    let mut b: usize = 0;
    while b < n
        invariant
            n == order@.len(),
            b <= n,
            forall|q: int| 0 <= q < b ==> !problem.coarse_boundary_vertices@.contains(#[trigger] order@[q])
                && !problem.fine_boundary_vertices@.contains(order@[q]),
            sel@ == selected_edge_indices@,
            order@ == cycle_order(*problem, sel@),
            !selection_malformed(*problem, sel@),
            !not_two_regular(*problem, sel@),
            connected(cycle_graph(*problem, sel@)),
        decreases n - b,
    {
        if contains_vertex(&problem.coarse_boundary_vertices, &order[b])
            || contains_vertex(&problem.fine_boundary_vertices, &order[b]) {
            proof {
                reveal_strlit("selected cycle touches a fixed boundary vertex");
                assert(touches_fixed_boundary(*problem, order@));
            }
            return Err("selected cycle touches a fixed boundary vertex".to_string());
        }
        b = b + 1;
    }
    let policies = &problem.anchor_policies;
    let mut a: usize = 0;
    while a < policies.len()
        invariant
            policies@ == problem.anchor_policies@,
            a <= policies@.len(),
            anchor_scan(policies@.take(a as int), order@) is None,
            sel@ == selected_edge_indices@,
            order@ == cycle_order(*problem, sel@),
            !selection_malformed(*problem, sel@),
            !not_two_regular(*problem, sel@),
            connected(cycle_graph(*problem, sel@)),
            !touches_fixed_boundary(*problem, order@),
        decreases policies@.len() - a,
    {
        let (anchor, policy) = policies[a];
        let on_cycle = contains_vertex(&order, &anchor);
        proof {
            assert(policies@.take(a + 1).drop_last() =~= policies@.take(a as int));
            assert(policies@.take(a + 1).last() == policies@[a as int]);
        }
        match policy {
            AnchorBandPolicy::OnSingleInterface => {
                if !on_cycle {
                    proof {
                        reveal_strlit("OnSingleInterface anchor is not on the selected cycle");
                        lemma_anchor_scan_prefix(policies@, order@, a as int + 1);
                    }
                    return Err("OnSingleInterface anchor is not on the selected cycle".to_string());
                }
            },
            _ => {
                if on_cycle {
                    proof {
                        reveal_strlit("selected cycle violates an anchor interior policy");
                        lemma_anchor_scan_prefix(policies@, order@, a as int + 1);
                    }
                    return Err("selected cycle violates an anchor interior policy".to_string());
                }
            },
        }
        a = a + 1;
    }
    proof {
        assert(policies@.take(policies@.len() as int) =~= policies@);
    }
    if essential_cycle_seam_parity(problem, sel) != 1 {
        proof { reveal_strlit("selected cycle has even dual-seam parity"); }
        return Err("selected cycle has even dual-seam parity".to_string());
    }
    match coarse_side(problem, sel) {
        Err(message) => {
            return Err(message);
        },
        Ok(_) => {},
    }
    if self_loop_in(problem, sel) {
        let (p, q) = pairs[start];
        proof {
            lemma_first_nbr(es, order@, start, p, q);
            assert(pairs_of(es, pairs@));
            assert(least_vertex(order@, start as int));
            let c = choose|k: int| least_vertex(order@, k);
            if c != start {
                assert(vertex_lt(order@[c], order@[start as int]));
                assert(vertex_lt(order@[start as int], order@[c]));
                lemma_vertex_lt_order(order@[c], order@[start as int], order@[c]);
            }
        }
        let d0 = if vertex_less(&order[q], &order[p]) { q } else { p };
        let d1 = if vertex_less(&order[q], &order[p]) { p } else { q };
        let forward = walk_loop(&pairs, &order, start, d0, Ghost(es));
        let reverse = walk_loop(&pairs, &order, start, d1, Ghost(es));
        if lex_less(&reverse, &forward) {
            proof {
        crate::selection_order::accepted_selection_respects_anchors(*problem, sel@);
        crate::selection_order::accepted_selection_crosses_seam_oddly(*problem, sel@);
        crate::selection_order::accepted_selection_is_two_regular(*problem, sel@);
    }
            return Ok(EssentialCycleKey { ordered_vertices: reverse });
        }
        proof {
        crate::selection_order::accepted_selection_respects_anchors(*problem, sel@);
        crate::selection_order::accepted_selection_crosses_seam_oddly(*problem, sel@);
        crate::selection_order::accepted_selection_is_two_regular(*problem, sel@);
    }
        return Ok(EssentialCycleKey { ordered_vertices: forward });
    }
    proof {
        assert(neighbour_pairs(es, pairs@));
    }
    let (p, q) = pairs[start];
    let first = if vertex_less(&order[p], &order[q]) { p } else { q };
    proof {
        assert(nbrs(es, start) == set![p, q]);
        lemma_vertex_lt_order(order@[p as int], order@[q as int], order@[p as int]);
        assert(order@[p as int] != order@[q as int]);
    }
    let w = walk_cycle(&pairs, start, first, Ghost(es));
    let mut ordered: Vec<CanonicalVertexId> = Vec::new();
    let mut t: usize = 0;
    while t < n
        invariant
            n == order@.len(),
            w@.len() == n,
            forall|x: int| 0 <= x < w@.len() ==> #[trigger] w@[x] < n,
            t <= n,
            ordered@ == w@.take(t as int).map_values(|x: usize| order@[x as int]),
        decreases n - t,
    {
        ordered.push(order[w[t]]);
        proof {
            assert(w@.take(t + 1) =~= w@.take(t as int).push(w@[t as int]));
            assert(ordered@ =~= w@.take(t + 1).map_values(|x: usize| order@[x as int]));
        }
        t = t + 1;
    }
    proof {
        assert(w@.take(n as int) =~= w@);
        assert(canonical_walk(*problem, sel@, w@));
        crate::selection_order::canonical_key_starts_least(*problem, sel@, w@);
    }
    proof {
        crate::selection_order::accepted_selection_respects_anchors(*problem, sel@);
        crate::selection_order::accepted_selection_crosses_seam_oddly(*problem, sel@);
        crate::selection_order::accepted_selection_is_two_regular(*problem, sel@);
    }
    Ok(EssentialCycleKey { ordered_vertices: ordered })
}

/// An anchor violation at position `upto - 1` after none before it is what
/// the scan reports.
proof fn lemma_anchor_scan_prefix(policies: Seq<(CanonicalVertexId, AnchorBandPolicy)>, order: Seq<CanonicalVertexId>, upto: int)
    requires
        0 < upto <= policies.len(),
        anchor_scan(policies.take(upto - 1), order) is None,
        anchor_violation(policies[upto - 1], order) is Some,
    ensures
        anchor_scan(policies, order) == anchor_violation(policies[upto - 1], order),
    decreases policies.len() - upto,
{
    assert(policies.take(upto).drop_last() =~= policies.take(upto - 1));
    assert(anchor_scan(policies.take(upto), order) == anchor_violation(policies[upto - 1], order));
    if upto == policies.len() {
        assert(policies.take(upto) =~= policies);
    } else {
        lemma_anchor_scan_extends(policies, order, upto);
    }
}

/// Once the scan of a prefix reports a violation, every longer prefix reports it.
proof fn lemma_anchor_scan_extends(policies: Seq<(CanonicalVertexId, AnchorBandPolicy)>, order: Seq<CanonicalVertexId>, upto: int)
    requires
        0 <= upto <= policies.len(),
        anchor_scan(policies.take(upto), order) is Some,
    ensures
        anchor_scan(policies, order) == anchor_scan(policies.take(upto), order),
    decreases policies.len() - upto,
{
    if upto < policies.len() {
        assert(policies.take(upto + 1).drop_last() =~= policies.take(upto));
        lemma_anchor_scan_extends(policies, order, upto + 1);
    } else {
        assert(policies.take(upto) =~= policies);
    }
}


/// The edge between two vertices, smaller vertex first.
pub fn canonical_edge(left: CanonicalVertexId, right: CanonicalVertexId) -> (e: CanonicalEdgeId)
    ensures
        !vertex_lt(right, left) ==> e.vertices[0] == left && e.vertices[1] == right,
        vertex_lt(right, left) ==> e.vertices[0] == right && e.vertices[1] == left,
{
    if !vertex_less(&right, &left) {
        CanonicalEdgeId { vertices: [left, right] }
    } else {
        CanonicalEdgeId { vertices: [right, left] }
    }
}

/// The `i`-th edge of a cycle key: from its `i`-th vertex to the next,
/// cyclically, smaller vertex first.
pub open spec fn key_edge_matches(vs: Seq<CanonicalVertexId>, i: int, e: CanonicalEdgeId) -> bool {
    let a = vs[i];
    let b = vs[(i + 1) % (vs.len() as int)];
    if vertex_lt(b, a) {
        e.vertices[0] == b && e.vertices[1] == a
    } else {
        e.vertices[0] == a && e.vertices[1] == b
    }
}

/// The edges of a cycle key, one per vertex; refused unless the key has at
/// least three vertices, all different.
pub fn cycle_edges(cycle: &EssentialCycleKey) -> (r: Result<Vec<CanonicalEdgeId>, String>)
    ensures
        r is Err <==> (cycle.ordered_vertices@.len() < 3 || !cycle.ordered_vertices@.no_duplicates()),
        r matches Err(message) ==> message@ == "cycle key requires at least three unique vertices"@,
        r matches Ok(edges) ==> edges@.len() == cycle.ordered_vertices@.len()
            && forall|i: int| 0 <= i < edges@.len() ==> #[trigger] key_edge_matches(cycle.ordered_vertices@, i, edges@[i]),
{
    let vs = &cycle.ordered_vertices;
    let n = vs.len();
    proof { reveal_strlit("cycle key requires at least three unique vertices"); }
    if n < 3 {
        return Err("cycle key requires at least three unique vertices".to_string());
    }
    let mut i: usize = 0;
    while i < n
        invariant
            n == vs@.len(),
            vs@ == cycle.ordered_vertices@,
            i <= n,
            forall|a: int, b: int| 0 <= a < b < i ==> vs@[a] != vs@[b],
        decreases n - i,
    {
        let mut j: usize = 0;
        while j < i
            invariant
                n == vs@.len(),
                vs@ == cycle.ordered_vertices@,
                j <= i < n,
                forall|a: int| 0 <= a < j ==> vs@[a] != vs@[i as int],
            decreases i - j,
        {
            if vertex_ids_equal(&vs[j], &vs[i]) {
                proof {
                    assert(vs@[j as int] == vs@[i as int]);
                }
                return Err("cycle key requires at least three unique vertices".to_string());
            }
            j = j + 1;
        }
        i = i + 1;
    }
    let mut edges: Vec<CanonicalEdgeId> = Vec::new();
    let mut k: usize = 0;
    while k < n
        invariant
            n == vs@.len(),
            n >= 3,
            vs@ == cycle.ordered_vertices@,
            k <= n,
            edges@.len() == k,
            forall|q: int| 0 <= q < k ==> #[trigger] key_edge_matches(vs@, q, edges@[q]),
        decreases n - k,
    {
        let next = if k + 1 == n { 0 } else { k + 1 };
        assert(next as int == (k + 1) % (n as int)) by (nonlinear_arith)
            requires k < n, next as int == (if k + 1 == n { 0 } else { k + 1 });
        let e = canonical_edge(vs[k], vs[next]);
        edges.push(e);
        proof {
            assert forall|q: int| 0 <= q < k + 1 implies #[trigger] key_edge_matches(vs@, q, edges@[q]) by {
                if q < k {
                    assert(edges@[q] == edges@.take(k as int)[q]);
                }
            }
        }
        k = k + 1;
    }
    Ok(edges)
}


// ---------------------------------------------------------------------------
// The dual seam between the coarse and the fine boundary

/// The last candidate position, below `upto`, whose edge has the endpoints of `e`.
pub open spec fn candidate_position(edges: Seq<CanonicalEdgeId>, e: CanonicalEdgeId, upto: int) -> Option<int>
    decreases upto,
{
    if upto <= 0 {
        None
    } else if same_edge(edges[upto - 1], e) {
        Some(upto - 1)
    } else {
        candidate_position(edges, e, upto - 1)
    }
}

/// Some recorded dual incidence names an edge that is not a candidate.
pub open spec fn incidence_unknown(key: EssentialCycleProblemKey) -> bool {
    exists|k: int| 0 <= k < key.candidate_edge_incident_faces@.len()
        && #[trigger] candidate_position(key.candidate_edges@, key.candidate_edge_incident_faces@[k].0,
            key.candidate_edges@.len() as int) is None
}

/// The candidate recorded for an ordered pair of faces: that of the last
/// incidence, below `upto`, listing exactly those faces in that order.
pub open spec fn seam_index(key: EssentialCycleProblemKey, pair: FaceEdge, upto: int) -> Option<int>
    decreases upto,
{
    if upto <= 0 {
        None
    } else if (key.candidate_edge_incident_faces@[upto - 1].1[0].address,
        key.candidate_edge_incident_faces@[upto - 1].1[1].address) == pair {
        candidate_position(key.candidate_edges@, key.candidate_edge_incident_faces@[upto - 1].0,
            key.candidate_edges@.len() as int)
    } else {
        seam_index(key, pair, upto - 1)
    }
}

/// The dual edges between faces.
pub open spec fn dual_edges(key: EssentialCycleProblemKey) -> Set<FaceEdge> {
    Set::new(|e: FaceEdge| exists|k: int| 0 <= k < key.face_adjacency_edges@.len()
        && e == ((#[trigger] key.face_adjacency_edges@[k]).0.address, key.face_adjacency_edges@[k].1.address))
}

/// The two faces in address order.
pub open spec fn ordered_pair(a: TriangleAddress, b: TriangleAddress) -> FaceEdge {
    if a <= b { (a, b) } else { (b, a) }
}

/// The candidates crossed walking `path` backwards, from its last face to its first.
pub open spec fn crossings_back(key: EssentialCycleProblemKey, path: Seq<TriangleAddress>) -> Seq<usize>
    decreases path.len(),
{
    if path.len() < 2 {
        Seq::empty()
    } else {
        let rest = crossings_back(key, path.drop_last());
        match seam_index(key, ordered_pair(path[path.len() - 2], path[path.len() - 1]),
            key.candidate_edge_incident_faces@.len() as int) {
            Some(i) => seq![i as usize] + rest,
            None => rest,
        }
    }
}

/// A dual path from a coarse boundary face to a fine boundary face.
pub open spec fn seam_path(key: EssentialCycleProblemKey, path: Seq<TriangleAddress>) -> bool {
    &&& path.len() >= 1
    &&& key.coarse_boundary_faces@.contains(path[0])
    &&& key.fine_boundary_faces@.contains(path.last())
    &&& forall|j: int| 0 <= j < path.len() - 1 ==> #[trigger] face_adj(dual_edges(key), path[j], path[j + 1])
}

/// Some fine boundary face is reachable from some coarse boundary face.
pub open spec fn seam_exists(key: EssentialCycleProblemKey) -> bool {
    exists|s: TriangleAddress, t: TriangleAddress| key.coarse_boundary_faces@.contains(s)
        && key.fine_boundary_faces@.contains(t) && #[trigger] face_component(dual_edges(key), s).contains(t)
}

proof fn lemma_crossings_prepend(key: EssentialCycleProblemKey, p: TriangleAddress, path: Seq<TriangleAddress>)
    requires
        path.len() >= 1,
    ensures
        crossings_back(key, seq![p] + path) == crossings_back(key, path) + match seam_index(key,
            ordered_pair(p, path[0]), key.candidate_edge_incident_faces@.len() as int) {
            Some(i) => seq![i as usize],
            None => Seq::<usize>::empty(),
        },
    decreases path.len(),
{
    let full = seq![p] + path;
    if path.len() == 1 {
        assert(full.drop_last() =~= seq![p]);
        assert(crossings_back(key, seq![p]) =~= Seq::<usize>::empty());
        assert(crossings_back(key, path) =~= Seq::<usize>::empty());
        assert(full[full.len() - 2] == p && full[full.len() - 1] == path[0]);
        match seam_index(key, ordered_pair(p, path[0]), key.candidate_edge_incident_faces@.len() as int) {
            Some(i) => {
                assert(crossings_back(key, full) =~= seq![i as usize] + Seq::<usize>::empty());
                assert(crossings_back(key, full) =~= Seq::<usize>::empty() + seq![i as usize]);
            },
            None => {
                assert(crossings_back(key, full) =~= Seq::<usize>::empty());
            },
        }
    } else {
        lemma_crossings_prepend(key, p, path.drop_last());
        assert(full.drop_last() =~= seq![p] + path.drop_last());
        assert(full[full.len() - 2] == path[path.len() - 2]);
        assert(full[full.len() - 1] == path[path.len() - 1]);
        assert(path.drop_last()[0] == path[0]);
        let tail = match seam_index(key, ordered_pair(p, path[0]), key.candidate_edge_incident_faces@.len() as int) {
            Some(i) => seq![i as usize],
            None => Seq::<usize>::empty(),
        };
        match seam_index(key, ordered_pair(path[path.len() - 2], path[path.len() - 1]), key.candidate_edge_incident_faces@.len() as int) {
            Some(i) => {
                assert(crossings_back(key, full) =~= seq![i as usize] + (crossings_back(key, path.drop_last()) + tail));
                assert(crossings_back(key, path) =~= seq![i as usize] + crossings_back(key, path.drop_last()));
            },
            None => {
                assert(crossings_back(key, full) =~= crossings_back(key, path.drop_last()) + tail);
                assert(crossings_back(key, path) =~= crossings_back(key, path.drop_last()));
            },
        }
    }
}


/// The last position of a candidate with the endpoints of `e`.
pub(crate) fn last_candidate(edges: &Vec<CanonicalEdgeId>, e: &CanonicalEdgeId) -> (r: Option<usize>)
    ensures
        r matches Some(p) ==> candidate_position(edges@, *e, edges@.len() as int) == Some(p as int),
        r is None ==> candidate_position(edges@, *e, edges@.len() as int) is None,
{
    let mut j = edges.len();
    while j > 0
        invariant
            j <= edges@.len(),
            candidate_position(edges@, *e, edges@.len() as int) == candidate_position(edges@, *e, j as int),
        decreases j,
    {
        if edge_ids_equal(&edges[j - 1], e) {
            return Some(j - 1);
        }
        j = j - 1;
    }
    None
}

/// The candidate position of every recorded incidence's edge.
fn incidence_positions(key: &EssentialCycleProblemKey) -> (r: Result<Vec<usize>, String>)
    ensures
        r is Err <==> incidence_unknown(*key),
        r matches Err(message) ==> message@ == "dual incidence references a non-candidate edge"@,
        r matches Ok(v) ==> v@.len() == key.candidate_edge_incident_faces@.len() && forall|k: int| 0 <= k < v@.len()
            ==> candidate_position(key.candidate_edges@, key.candidate_edge_incident_faces@[k].0,
                key.candidate_edges@.len() as int) == Some(#[trigger] v@[k] as int),
{
    let incidences = &key.candidate_edge_incident_faces;
    let edges = &key.candidate_edges;
    let mut out: Vec<usize> = Vec::new();
    let mut k: usize = 0;
    while k < incidences.len()
        invariant
            incidences@ == key.candidate_edge_incident_faces@,
            edges@ == key.candidate_edges@,
            k <= incidences@.len(),
            out@.len() == k,
            forall|q: int| 0 <= q < k ==> candidate_position(edges@, incidences@[q].0, edges@.len() as int)
                == Some(#[trigger] out@[q] as int),
        decreases incidences@.len() - k,
    {
        let e = &incidences[k].0;
        let found = last_candidate(edges, e);
        match found {
            Some(position) => {
                out.push(position);
                proof {
                    assert forall|q: int| 0 <= q < k + 1 implies candidate_position(edges@, incidences@[q].0, edges@.len() as int)
                        == Some(#[trigger] out@[q] as int) by {
                        if q < k {
                            assert(out@[q] == out@.take(k as int)[q]);
                        }
                    }
                }
            },
            None => {
                proof {
                    reveal_strlit("dual incidence references a non-candidate edge");
                    assert(candidate_position(edges@, incidences@[k as int].0, edges@.len() as int) is None);
                }
                return Err("dual incidence references a non-candidate edge".to_string());
            },
        }
        k = k + 1;
    }
    proof {
        assert(!incidence_unknown(*key)) by {
            assert forall|q: int| 0 <= q < incidences@.len() implies !(#[trigger] candidate_position(edges@,
                incidences@[q].0, edges@.len() as int) is None) by {
                assert(candidate_position(edges@, incidences@[q].0, edges@.len() as int) == Some(out@[q] as int));
            }
        }
    }
    Ok(out)
}

/// The candidate recorded for an ordered pair of faces.
fn seam_lookup(key: &EssentialCycleProblemKey, positions: &Vec<usize>, pair: FaceEdge) -> (r: Option<usize>)
    requires
        positions@.len() == key.candidate_edge_incident_faces@.len(),
        forall|k: int| 0 <= k < positions@.len() ==> candidate_position(key.candidate_edges@,
            key.candidate_edge_incident_faces@[k].0, key.candidate_edges@.len() as int) == Some(#[trigger] positions@[k] as int),
    ensures
        match seam_index(*key, pair, key.candidate_edge_incident_faces@.len() as int) {
            Some(i) => r == Some(i as usize),
            None => r is None,
        },
{
    let incidences = &key.candidate_edge_incident_faces;
    let mut k = incidences.len();
    while k > 0
        invariant
            incidences@ == key.candidate_edge_incident_faces@,
            k <= incidences@.len(),
            positions@.len() == incidences@.len(),
            forall|q: int| 0 <= q < positions@.len() ==> candidate_position(key.candidate_edges@,
                incidences@[q].0, key.candidate_edges@.len() as int) == Some(#[trigger] positions@[q] as int),
            seam_index(*key, pair, incidences@.len() as int) == seam_index(*key, pair, k as int),
        decreases k,
    {
        let faces = &incidences[k - 1].1;
        if faces[0].address == pair.0 && faces[1].address == pair.1 {
            proof {
                assert(candidate_position(key.candidate_edges@, incidences@[k - 1].0, key.candidate_edges@.len() as int)
                    == Some(positions@[k - 1] as int));
            }
            return Some(positions[k - 1]);
        }
        k = k - 1;
    }
    None
}

/// The dual neighbours of every face that has one.
fn dual_neighbours(key: &EssentialCycleProblemKey) -> (out: BTreeMap<TriangleAddress, BTreeSet<TriangleAddress>>)
    ensures
        forall|f: TriangleAddress, g: TriangleAddress| #[trigger] face_adj(dual_edges(*key), f, g) ==> out@.contains_key(f),
        forall|f: TriangleAddress| #[trigger] out@.contains_key(f) ==> forall|g: TriangleAddress|
            out@[f]@.contains(g) <==> face_adj(dual_edges(*key), f, g),
{
    let adjacency = &key.face_adjacency_edges;
    let ghost es = dual_edges(*key);
    let mut out: BTreeMap<TriangleAddress, BTreeSet<TriangleAddress>> = BTreeMap::new();
    let mut k: usize = 0;
    while k < adjacency.len()
        invariant
            adjacency@ == key.face_adjacency_edges@,
            es == dual_edges(*key),
            k <= adjacency@.len(),
            forall|f: TriangleAddress| #[trigger] out@.contains_key(f) <==> exists|q: int| 0 <= q < k
                && (adjacency@[q].0.address == f || adjacency@[q].1.address == f),
            forall|f: TriangleAddress, g: TriangleAddress| out@.contains_key(f) ==> (#[trigger] out@[f]@.contains(g)
                <==> exists|q: int| 0 <= q < k && ((adjacency@[q].0.address == f && adjacency@[q].1.address == g)
                    || (adjacency@[q].1.address == f && adjacency@[q].0.address == g))),
        decreases adjacency@.len() - k,
    {
        let a = adjacency[k].0.address;
        let b = adjacency[k].1.address;
        let ghost before = out@;
        let mut na: BTreeSet<TriangleAddress> = match out.get(&a) { Some(set) => set.clone(), None => BTreeSet::new() };
        na.insert(b);
        out.insert(a, na);
        let mut nb: BTreeSet<TriangleAddress> = match out.get(&b) { Some(set) => set.clone(), None => BTreeSet::new() };
        nb.insert(a);
        out.insert(b, nb);
        proof {
            assert forall|f: TriangleAddress| #[trigger] out@.contains_key(f) <==> exists|q: int| 0 <= q < k + 1
                && (adjacency@[q].0.address == f || adjacency@[q].1.address == f) by {
                if exists|q: int| 0 <= q < k + 1 && (adjacency@[q].0.address == f || adjacency@[q].1.address == f) {
                    let q = choose|q: int| 0 <= q < k + 1 && (adjacency@[q].0.address == f || adjacency@[q].1.address == f);
                    if q < k {
                        assert(before.contains_key(f));
                    }
                }
            }
            assert forall|f: TriangleAddress, g: TriangleAddress| out@.contains_key(f) implies (#[trigger] out@[f]@.contains(g)
                <==> exists|q: int| 0 <= q < k + 1 && ((adjacency@[q].0.address == f && adjacency@[q].1.address == g)
                    || (adjacency@[q].1.address == f && adjacency@[q].0.address == g))) by {
                if exists|q: int| 0 <= q < k + 1 && ((adjacency@[q].0.address == f && adjacency@[q].1.address == g)
                    || (adjacency@[q].1.address == f && adjacency@[q].0.address == g)) {
                    let q = choose|q: int| 0 <= q < k + 1 && ((adjacency@[q].0.address == f && adjacency@[q].1.address == g)
                        || (adjacency@[q].1.address == f && adjacency@[q].0.address == g));
                    if q < k {
                        assert(before.contains_key(f));
                        assert(before[f]@.contains(g));
                    }
                }
                if out@[f]@.contains(g) && !(f == a && g == b) && !(f == b && g == a) {
                    assert(before.contains_key(f));
                    assert(before[f]@.contains(g));
                }
            }
        }
        k = k + 1;
    }
    proof {
        assert forall|f: TriangleAddress, g: TriangleAddress| #[trigger] face_adj(es, f, g) implies out@.contains_key(f) by {
            if es.contains((f, g)) {
                let q = choose|q: int| 0 <= q < adjacency@.len() && (f, g) == ((#[trigger] adjacency@[q]).0.address, adjacency@[q].1.address);
            } else {
                let q = choose|q: int| 0 <= q < adjacency@.len() && (g, f) == ((#[trigger] adjacency@[q]).0.address, adjacency@[q].1.address);
            }
        }
        assert forall|f: TriangleAddress| #[trigger] out@.contains_key(f) implies forall|g: TriangleAddress|
            out@[f]@.contains(g) <==> face_adj(es, f, g) by {
            assert forall|g: TriangleAddress| out@[f]@.contains(g) <==> face_adj(es, f, g) by {
                if out@[f]@.contains(g) {
                    let q = choose|q: int| 0 <= q < k && ((adjacency@[q].0.address == f && adjacency@[q].1.address == g)
                        || (adjacency@[q].1.address == f && adjacency@[q].0.address == g));
                    if adjacency@[q].0.address == f && adjacency@[q].1.address == g {
                        assert(es.contains((f, g)));
                    } else {
                        assert(es.contains((g, f)));
                    }
                }
                if face_adj(es, f, g) {
                    if es.contains((f, g)) {
                        let q = choose|q: int| 0 <= q < adjacency@.len() && (f, g) == ((#[trigger] adjacency@[q]).0.address, adjacency@[q].1.address);
                    } else {
                        let q = choose|q: int| 0 <= q < adjacency@.len() && (g, f) == ((#[trigger] adjacency@[q]).0.address, adjacency@[q].1.address);
                    }
                }
            }
        }
    }
    out
}


/// The faces named by the boundary lists and the dual edges, with repeats.
pub open spec fn named_faces(key: EssentialCycleProblemKey) -> Seq<TriangleAddress> {
    key.coarse_boundary_faces@ + Seq::new(2 * key.face_adjacency_edges@.len(), |k: int|
        if k % 2 == 0 { key.face_adjacency_edges@[k / 2].0.address } else { key.face_adjacency_edges@[k / 2].1.address })
}


/// The neighbour map lists, for every face with a dual edge, exactly its dual neighbours.
pub open spec fn neighbours_ok(neighbours: Map<TriangleAddress, BTreeSet<TriangleAddress>>, es: Set<FaceEdge>) -> bool {
    &&& forall|f: TriangleAddress, g: TriangleAddress| #[trigger] face_adj(es, f, g) ==> neighbours.contains_key(f)
    &&& forall|f: TriangleAddress| #[trigger] neighbours.contains_key(f) ==> forall|g: TriangleAddress|
        neighbours[f]@.contains(g) <==> face_adj(es, f, g)
}

/// Every visited face hangs from a start by parent links that follow dual
/// edges and lower the depth by one per step.
pub open spec fn parent_links_ok(es: Set<FaceEdge>, starts: Seq<TriangleAddress>, visited: Set<TriangleAddress>,
    parent: Map<TriangleAddress, TriangleAddress>, depth: Map<TriangleAddress, nat>) -> bool {
    &&& forall|v: TriangleAddress| #[trigger] parent.contains_key(v) ==> visited.contains(parent[v])
        && face_adj(es, parent[v], v) && depth.contains_key(v) && depth.contains_key(parent[v])
        && depth[v] == depth[parent[v]] + 1
    &&& forall|v: TriangleAddress| #[trigger] visited.contains(v) ==> depth.contains_key(v)
        && (parent.contains_key(v) || starts.contains(v))
}

/// The queue holds exactly the visited faces, all of them named by the problem.
pub open spec fn queue_ok(visited: Set<TriangleAddress>, queue: Seq<TriangleAddress>, universe: Seq<TriangleAddress>) -> bool {
    &&& forall|v: TriangleAddress| #[trigger] visited.contains(v) <==> queue.contains(v)
    &&& forall|v: TriangleAddress| #[trigger] visited.contains(v) ==> universe.contains(v)
}

/// The faces of a dual path lie in the component of its first face.
pub(crate) proof fn lemma_path_in_component(es: Set<FaceEdge>, path: Seq<TriangleAddress>)
    requires
        path.len() >= 1,
        forall|j: int| 0 <= j < path.len() - 1 ==> #[trigger] face_adj(es, path[j], path[j + 1]),
    ensures
        face_component(es, path[0]).contains(path.last()),
    decreases path.len(),
{
    lemma_face_component_closed(es, path[0]);
    if path.len() > 1 {
        let shorter = path.drop_last();
        assert forall|j: int| 0 <= j < shorter.len() - 1 implies #[trigger] face_adj(es, shorter[j], shorter[j + 1]) by {
            assert(face_adj(es, path[j], path[j + 1]));
        }
        lemma_path_in_component(es, shorter);
        let jl = path.len() - 2;
        assert(face_adj(es, path[jl], path[jl + 1]));
        assert(shorter.last() == path[jl]);
    }
}

/// The addresses of a list, as a set.
fn address_list_set(list: &Vec<TriangleAddress>) -> (out: BTreeSet<TriangleAddress>)
    ensures
        out@ == list@.to_set(),
{
    let mut out: BTreeSet<TriangleAddress> = BTreeSet::new();
    let mut t: usize = 0;
    while t < list.len()
        invariant
            t <= list@.len(),
            forall|f: TriangleAddress| #[trigger] out@.contains(f) <==> exists|q: int| 0 <= q < t && list@[q] == f,
        decreases list@.len() - t,
    {
        out.insert(list[t]);
        t = t + 1;
    }
    proof {
        assert forall|f: TriangleAddress| out@.contains(f) <==> list@.to_set().contains(f) by {
            if list@.to_set().contains(f) {
                let q = choose|q: int| 0 <= q < list@.len() && list@[q] == f;
            }
        }
        assert(out@ =~= list@.to_set());
    }
    out
}

/// Follow the parent links back from a fine boundary face to a start,
/// collecting the candidates crossed.
fn walk_back(key: &EssentialCycleProblemKey, positions: &Vec<usize>, parent: &BTreeMap<TriangleAddress, TriangleAddress>,
    face: TriangleAddress, Ghost(visited): Ghost<Set<TriangleAddress>>, Ghost(depth): Ghost<Map<TriangleAddress, nat>>)
    -> (r: Vec<usize>)
    requires
        positions@.len() == key.candidate_edge_incident_faces@.len(),
        forall|k: int| 0 <= k < positions@.len() ==> candidate_position(key.candidate_edges@,
            key.candidate_edge_incident_faces@[k].0, key.candidate_edges@.len() as int) == Some(#[trigger] positions@[k] as int),
        parent_links_ok(dual_edges(*key), key.coarse_boundary_faces@, visited, parent@, depth),
        visited.contains(face),
        key.fine_boundary_faces@.contains(face),
    ensures
        exists|path: Seq<TriangleAddress>| seam_path(*key, path) && r@ == crossings_back(*key, path),
{
    let ghost es = dual_edges(*key);
    let mut crossings: Vec<usize> = Vec::new();
    let mut cur = face;
    let ghost mut suffix: Seq<TriangleAddress> = seq![face];
    loop
        invariant
            es == dual_edges(*key),
            positions@.len() == key.candidate_edge_incident_faces@.len(),
            forall|k: int| 0 <= k < positions@.len() ==> candidate_position(key.candidate_edges@,
                key.candidate_edge_incident_faces@[k].0, key.candidate_edges@.len() as int) == Some(#[trigger] positions@[k] as int),
            parent_links_ok(es, key.coarse_boundary_faces@, visited, parent@, depth),
            visited.contains(cur),
            suffix.len() >= 1,
            suffix[0] == cur,
            key.fine_boundary_faces@.contains(suffix.last()),
            forall|j: int| 0 <= j < suffix.len() - 1 ==> #[trigger] face_adj(es, suffix[j], suffix[j + 1]),
            crossings@ == crossings_back(*key, suffix),
        ensures
            !parent@.contains_key(cur),
            visited.contains(cur),
            suffix.len() >= 1,
            suffix[0] == cur,
            key.fine_boundary_faces@.contains(suffix.last()),
            forall|j: int| 0 <= j < suffix.len() - 1 ==> #[trigger] face_adj(es, suffix[j], suffix[j + 1]),
            crossings@ == crossings_back(*key, suffix),
            parent_links_ok(es, key.coarse_boundary_faces@, visited, parent@, depth),
        decreases depth[cur],
    {
        match parent.get(&cur) {
            Some(p) => {
                let p = *p;
                let pair = if p <= cur { (p, cur) } else { (cur, p) };
                let found = seam_lookup(key, positions, pair);
                proof {
                    lemma_crossings_prepend(*key, p, suffix);
                }
                match found {
                    Some(index) => {
                        crossings.push(index);
                    },
                    None => {},
                }
                proof {
                    let old_suffix = suffix;
                    suffix = seq![p] + old_suffix;
                    assert(crossings@ =~= crossings_back(*key, suffix));
                    assert forall|j: int| 0 <= j < suffix.len() - 1 implies #[trigger] face_adj(es, suffix[j], suffix[j + 1]) by {
                        if j > 0 {
                            let jm = j - 1;
                            assert(face_adj(es, old_suffix[jm], old_suffix[jm + 1]));
                        }
                    }
                    assert(suffix.last() == old_suffix.last());
                }
                cur = p;
            },
            None => {
                break;
            },
        }
    }
    proof {
        assert(key.coarse_boundary_faces@.contains(cur));
        assert(seam_path(*key, suffix));
    }
    crossings
}

/// Visit the unvisited dual neighbours of `face`, recording `face` as their
/// parent and appending them to the queue.
fn expand_face(key: &EssentialCycleProblemKey, neighbours: &BTreeMap<TriangleAddress, BTreeSet<TriangleAddress>>,
    face: TriangleAddress, visited: &mut BTreeSet<TriangleAddress>, parent: &mut BTreeMap<TriangleAddress, TriangleAddress>,
    queue: &mut Vec<TriangleAddress>, Ghost(depth): Ghost<Map<TriangleAddress, nat>>) -> (out: Ghost<Map<TriangleAddress, nat>>)
    requires
        neighbours_ok(neighbours@, dual_edges(*key)),
        old(visited)@.contains(face),
        queue_ok(old(visited)@, old(queue)@, named_faces(*key)),
        parent_links_ok(dual_edges(*key), key.coarse_boundary_faces@, old(visited)@, old(parent)@, depth),
        old(visited)@.finite(),
    ensures
        final(visited)@.finite(),
        final(visited)@.len() == old(visited)@.len() + (final(queue)@.len() - old(queue)@.len()),
        queue_ok(final(visited)@, final(queue)@, named_faces(*key)),
        parent_links_ok(dual_edges(*key), key.coarse_boundary_faces@, final(visited)@, final(parent)@, out@),
        old(visited)@.subset_of(final(visited)@),
        final(queue)@.len() >= old(queue)@.len(),
        final(queue)@.subrange(0, old(queue)@.len() as int) == old(queue)@,
        forall|g: TriangleAddress| #[trigger] face_adj(dual_edges(*key), face, g) ==> final(visited)@.contains(g),
{
    let ghost es = dual_edges(*key);
    let ghost universe = named_faces(*key);
    let ghost start_queue = queue@;
    let ghost start_visited = visited@;
    let ghost mut d = depth;
    let listed = match neighbours.get(&face) {
        Some(set) => address_set_to_vec(set),
        None => Vec::new(),
    };
    let mut k: usize = 0;
    while k < listed.len()
        invariant
            es == dual_edges(*key),
            universe == named_faces(*key),
            neighbours_ok(neighbours@, es),
            visited@.contains(face),
            k <= listed@.len(),
            neighbours@.contains_key(face) ==> listed@.to_set() == neighbours@[face]@,
            !neighbours@.contains_key(face) ==> listed@.len() == 0,
            queue_ok(visited@, queue@, universe),
            parent_links_ok(es, key.coarse_boundary_faces@, visited@, parent@, d),
            start_visited.subset_of(visited@),
            start_visited.finite(),
            visited@.finite(),
            visited@.len() == start_visited.len() + (queue@.len() - start_queue.len()),
            queue@.len() >= start_queue.len(),
            queue@.subrange(0, start_queue.len() as int) == start_queue,
            forall|q: int| 0 <= q < k ==> visited@.contains(#[trigger] listed@[q]),
        decreases listed@.len() - k,
    {
        let next = listed[k];
        proof {
            assert(listed@.to_set().contains(next));
            assert(neighbours@[face]@.contains(next));
            assert(face_adj(es, face, next));
        }
        if !visited.contains(&next) {
            let ghost q0 = queue@;
            let ghost v0 = visited@;
            let ghost p0 = parent@;
            visited.insert(next);
            parent.insert(next, face);
            proof {
                d = d.insert(next, d[face] + 1);
                assert(universe.contains(next)) by {
                    let kk = choose|kk: int| 0 <= kk < key.face_adjacency_edges@.len() && (
                        ((face, next) == ((#[trigger] key.face_adjacency_edges@[kk]).0.address, key.face_adjacency_edges@[kk].1.address))
                        || ((next, face) == (key.face_adjacency_edges@[kk].0.address, key.face_adjacency_edges@[kk].1.address)));
                    let base = key.coarse_boundary_faces@.len() as int;
                    if (face, next) == (key.face_adjacency_edges@[kk].0.address, key.face_adjacency_edges@[kk].1.address) {
                        assert(universe[base + 2 * kk + 1] == next);
                    } else {
                        assert(universe[base + 2 * kk] == next);
                    }
                }
            }
            queue.push(next);
            proof {
                assert(queue@.subrange(0, start_queue.len() as int) =~= start_queue) by {
                    assert(q0.subrange(0, start_queue.len() as int) == start_queue);
                }
                assert forall|v: TriangleAddress| #[trigger] visited@.contains(v) <==> queue@.contains(v) by {
                    if v == next {
                        assert(queue@[queue@.len() - 1] == next);
                    }
                    if queue@.contains(v) && v != next {
                        let j = choose|j: int| 0 <= j < queue@.len() && queue@[j] == v;
                        assert(q0[j] == v);
                    }
                    if visited@.contains(v) && v != next {
                        assert(q0.contains(v));
                        let j = choose|j: int| 0 <= j < q0.len() && q0[j] == v;
                        assert(queue@[j] == v);
                    }
                }
                assert forall|v: TriangleAddress| #[trigger] parent@.contains_key(v) implies visited@.contains(parent@[v])
                    && face_adj(es, parent@[v], v) && d.contains_key(v) && d.contains_key(parent@[v])
                    && d[v] == d[parent@[v]] + 1 by {
                    if v != next {
                        assert(p0.contains_key(v));
                        assert(v0.contains(p0[v]));
                        assert(parent@[v] != next);
                    }
                }
            }
        }
        k = k + 1;
    }
    proof {
        assert forall|g: TriangleAddress| #[trigger] face_adj(es, face, g) implies visited@.contains(g) by {
            assert(neighbours@.contains_key(face));
            assert(neighbours@[face]@.contains(g));
            assert(listed@.to_set().contains(g));
            let q = choose|q: int| 0 <= q < listed@.len() && listed@[q] == g;
        }
    }
    Ghost(d)
}

/// A seam between the coarse and the fine boundary: a breadth-first walk
/// across dual edges from the coarse boundary faces to the first fine
/// boundary face reached, and the candidate edges crossed on the way back.
pub fn dual_seam(key: &EssentialCycleProblemKey) -> (r: Result<Vec<usize>, String>)
    ensures
        incidence_unknown(*key) ==> (r matches Err(m) && m@ == "dual incidence references a non-candidate edge"@),
        !incidence_unknown(*key) ==> (r is Err <==> !seam_exists(*key)),
        !incidence_unknown(*key) ==> (r matches Err(m) ==> m@ == "coarse and fine boundaries have no dual seam"@),
        r matches Ok(c) ==> exists|path: Seq<TriangleAddress>| seam_path(*key, path) && c@ == crossings_back(*key, path),
{
    let positions = incidence_positions(key)?;
    let neighbours = dual_neighbours(key);
    let ghost es = dual_edges(*key);
    let ghost universe = named_faces(*key);
    let starts = &key.coarse_boundary_faces;
    let targets = address_list_set(&key.fine_boundary_faces);
    let mut visited: BTreeSet<TriangleAddress> = BTreeSet::new();
    let mut parent: BTreeMap<TriangleAddress, TriangleAddress> = BTreeMap::new();
    let mut queue: Vec<TriangleAddress> = Vec::new();
    let ghost mut depth: Map<TriangleAddress, nat> = Map::empty();
    let mut i: usize = 0;
    while i < starts.len()
        invariant
            starts@ == key.coarse_boundary_faces@,
            universe == named_faces(*key),
            i <= starts@.len(),
            queue@ == starts@.take(i as int),
            queue_ok(visited@, queue@, universe),
            visited@.finite(),
            parent@ == Map::<TriangleAddress, TriangleAddress>::empty(),
            forall|v: TriangleAddress| #[trigger] visited@.contains(v) ==> depth.contains_key(v) && starts@.contains(v),
        decreases starts@.len() - i,
    {
        let s = starts[i];
        if !visited.contains(&s) {
            visited.insert(s);
            proof {
                depth = depth.insert(s, 0);
            }
        }
        let ghost before = queue@;
        queue.push(s);
        proof {
            assert(starts@.take(i + 1) =~= starts@.take(i as int).push(s));
            assert(universe[i as int] == s);
            assert forall|v: TriangleAddress| #[trigger] visited@.contains(v) <==> queue@.contains(v) by {
                if v == s {
                    assert(queue@[queue@.len() - 1] == s);
                }
                if queue@.contains(v) && v != s {
                    let j = choose|j: int| 0 <= j < queue@.len() && queue@[j] == v;
                    assert(before[j] == v);
                }
                if visited@.contains(v) && v != s {
                    assert(before.contains(v));
                    let j = choose|j: int| 0 <= j < before.len() && before[j] == v;
                    assert(queue@[j] == v);
                }
            }
            assert(starts@.contains(starts@[i as int]));
        }
        i = i + 1;
    }
    proof {
        assert(starts@.take(i as int) =~= starts@);
        assert forall|j: int| 0 <= j < starts@.len() implies visited@.contains(#[trigger] starts@[j]) by {
            assert(queue@[j] == starts@[j]);
        }
    }
    let mut head: usize = 0;
    while head < queue.len()
        invariant
            starts@ == key.coarse_boundary_faces@,
            es == dual_edges(*key),
            universe == named_faces(*key),
            targets@ == key.fine_boundary_faces@.to_set(),
            positions@.len() == key.candidate_edge_incident_faces@.len(),
            forall|k: int| 0 <= k < positions@.len() ==> candidate_position(key.candidate_edges@,
                key.candidate_edge_incident_faces@[k].0, key.candidate_edges@.len() as int) == Some(#[trigger] positions@[k] as int),
            neighbours_ok(neighbours@, es),
            !incidence_unknown(*key),
            head <= queue@.len(),
            queue_ok(visited@, queue@, universe),
            parent_links_ok(es, starts@, visited@, parent@, depth),
            forall|j: int| 0 <= j < head ==> !targets@.contains(#[trigger] queue@[j]),
            forall|j: int, g: TriangleAddress| 0 <= j < head && #[trigger] face_adj(es, queue@[j], g) ==> visited@.contains(g),
            forall|j: int| 0 <= j < starts@.len() ==> visited@.contains(#[trigger] starts@[j]),
            visited@.finite(),
        decreases universe.len() - visited@.len(), queue@.len() - head,
    {
        proof {
            universe.lemma_cardinality_of_set();
            vstd::set_lib::lemma_len_subset(visited@, universe.to_set());
        }
        let face = queue[head];
        head = head + 1;
        proof {
            assert(queue@.contains(face));
        }
        if targets.contains(&face) {
            proof {
                assert(key.fine_boundary_faces@.to_set().contains(face));
            }
            let crossings = walk_back(key, &positions, &parent, face, Ghost(visited@), Ghost(depth));
            proof {
                let path = choose|path: Seq<TriangleAddress>| seam_path(*key, path) && crossings@ == crossings_back(*key, path);
                lemma_path_in_component(es, path);
                assert(face_component(dual_edges(*key), path[0]).contains(path.last()));
                assert(seam_exists(*key));
            }
            return Ok(crossings);
        }
        let ghost head_queue = queue@;
        let ghost head_visited = visited@;
        let new_depth = expand_face(key, &neighbours, face, &mut visited, &mut parent, &mut queue, Ghost(depth));
        proof {
            depth = new_depth@;
            universe.lemma_cardinality_of_set();
            vstd::set_lib::lemma_len_subset(visited@, universe.to_set());
            assert forall|j: int, g: TriangleAddress| 0 <= j < head && #[trigger] face_adj(es, queue@[j], g) implies visited@.contains(g) by {
                assert(queue@[j] == head_queue[j]);
                if j < head - 1 {
                    assert(head_visited.contains(g));
                }
            }
            assert forall|j: int| 0 <= j < head implies !targets@.contains(#[trigger] queue@[j]) by {
                assert(queue@[j] == head_queue[j]);
            }
            assert forall|j: int| 0 <= j < starts@.len() implies visited@.contains(#[trigger] starts@[j]) by {
                assert(head_visited.contains(starts@[j]));
            }
        }
    }
    proof {
        reveal_strlit("coarse and fine boundaries have no dual seam");
        assert(face_closed(es, visited@)) by {
            assert forall|a: TriangleAddress, b: TriangleAddress| visited@.contains(a) && #[trigger] face_adj(es, a, b)
                implies visited@.contains(b) by {
                let j = choose|j: int| 0 <= j < queue@.len() && queue@[j] == a;
            }
        }
        if seam_exists(*key) {
            let (s, f) = choose|s: TriangleAddress, f: TriangleAddress| key.coarse_boundary_faces@.contains(s)
                && key.fine_boundary_faces@.contains(f) && #[trigger] face_component(dual_edges(*key), s).contains(f);
            let j = choose|j: int| 0 <= j < starts@.len() && starts@[j] == s;
            assert(visited@.contains(s));
            assert(visited@.contains(f));
            let q = choose|q: int| 0 <= q < queue@.len() && queue@[q] == f;
            assert(key.fine_boundary_faces@.to_set().contains(f));
            assert(!targets@.contains(queue@[q]));
            assert(false);
        }
    }
    Err("coarse and fine boundaries have no dual seam".to_string())
}


pub(crate) proof fn lemma_endpoint_order_unique(edges: Seq<CanonicalEdgeId>)
    ensures
        endpoint_order(edges).no_duplicates(),
    decreases edges.len(),
{
    if edges.len() > 0 {
        lemma_endpoint_order_unique(edges.drop_last());
        let o = endpoint_order(edges.drop_last());
        let a = add_new(o, edges.last().vertices[0]);
        assert forall|x: int, y: int| 0 <= x < y < a.len() implies a[x] != a[y] by {
            if !o.contains(edges.last().vertices[0]) && y == a.len() - 1 {
                assert(o.contains(o[x]));
            }
        }
        let b = add_new(a, edges.last().vertices[1]);
        assert forall|x: int, y: int| 0 <= x < y < b.len() implies b[x] != b[y] by {
            if !a.contains(edges.last().vertices[1]) && y == b.len() - 1 {
                assert(a.contains(a[x]));
            }
        }
    }
}

/// The vertices at positions `j` and `j + 1` of `vs` (cyclically) are the
/// endpoints, in either order, of a selected candidate edge.
pub open spec fn step_is_selected(problem: EssentialCycleProblem, sel: Seq<usize>, vs: Seq<CanonicalVertexId>, j: int) -> bool {
    exists|i: int| 0 <= i < sel.len() && {
        let e = #[trigger] chosen_edges(problem, sel)[i];
        let a = vs[j];
        let b = vs[(j + 1) % (vs.len() as int)];
        (e.vertices[0] == a && e.vertices[1] == b) || (e.vertices[0] == b && e.vertices[1] == a)
    }
}

/// The cycle key that validation returns walks along the selected edges:
/// it lists at least three vertices, all different, so `cycle_edges`
/// accepts it, and every two consecutive vertices (the last and the first
/// included) are the endpoints of a selected candidate edge.
pub proof fn validated_key_follows_selected_edges(problem: EssentialCycleProblem, sel: Seq<usize>, w: Seq<usize>)
    requires
        canonical_walk(problem, sel, w),
    ensures
        ({
            let vs = w.map_values(|i: usize| cycle_order(problem, sel)[i as int]);
            &&& vs.len() >= 3
            &&& vs.no_duplicates()
            &&& forall|j: int| 0 <= j < vs.len() ==> #[trigger] step_is_selected(problem, sel, vs, j)
        }),
{
    let order = cycle_order(problem, sel);
    let es = cycle_graph(problem, sel);
    let edges = chosen_edges(problem, sel);
    let vs = w.map_values(|i: usize| order[i as int]);
    lemma_endpoint_order_unique(edges);
    assert forall|x: int, y: int| 0 <= x < y < vs.len() implies vs[x] != vs[y] by {
        assert(w[x] != w[y]);
    }
    assert forall|j: int| 0 <= j < vs.len() implies #[trigger] step_is_selected(problem, sel, vs, j) by {
        let n = vs.len() as int;
        let next = (j + 1) % n;
        let (p, q) = if j < n - 1 {
            assert(adj(es, w[j], w[j + 1]));
            vstd::arithmetic::div_mod::lemma_small_mod((j + 1) as nat, n as nat);
            assert(next == j + 1);
            (w[j], w[j + 1])
        } else {
            assert(n % n == 0) by (nonlinear_arith)
                requires n > 0;
            assert(next == 0);
            (w[n - 1], w[0])
        };
        assert(adj(es, p, q));
        if es.contains((p, q)) {
            let i = choose|i: int| 0 <= i < edges.len() && p < order.len() && q < order.len()
                && order[p as int] == (#[trigger] edges[i]).vertices[0] && order[q as int] == edges[i].vertices[1];
            assert(vs[j] == order[p as int] && vs[next] == order[q as int]);
        } else {
            assert(es.contains((q, p)));
            let i = choose|i: int| 0 <= i < edges.len() && q < order.len() && p < order.len()
                && order[q as int] == (#[trigger] edges[i]).vertices[0] && order[p as int] == edges[i].vertices[1];
            assert(vs[j] == order[p as int] && vs[next] == order[q as int]);
        }
    }
}

} // verus!
