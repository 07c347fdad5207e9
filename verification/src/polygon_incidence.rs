//! Polygon triangulation recovery from occurrence incidence targets: a
//! seam-cut annulus polygon is reduced by removing incidence-one ears until a
//! single triangle with incidences (1, 1, 1) remains.

use vstd::prelude::*;
use std::collections::{BTreeMap, BTreeSet};
use crate::graph::Edge;
use vstd::std_specs::iter::IteratorSpec;

verus! {

broadcast use vstd::std_specs::btree::group_btree_axioms, vstd::laws_cmp::group_laws_cmp;

/// One occurrence of a source vertex on the cut polygon boundary.
#[derive(Debug, Clone, Copy, PartialEq, Eq, Structural, PartialOrd, Ord, Hash)]
pub struct VertexOccurrenceId {
    pub global_source_slot: usize,
    pub occurrence_ordinal: usize,
}

/// A boundary edge of the cut polygon between two occurrences.
#[derive(Debug, Clone, Copy, PartialEq, Eq, Structural, PartialOrd, Ord, Hash)]
pub struct OccurrenceEdge {
    pub a: VertexOccurrenceId,
    pub b: VertexOccurrenceId,
}

/// An annulus cut open along a root bridge into one polygon of occurrences.
#[derive(Debug, PartialEq, Eq)]
pub struct CutAnnulusPolygon {
    pub root_bridge: Edge,
    pub boundary_edges: Vec<OccurrenceEdge>,
    pub occurrence_to_global: Vec<usize>,
    pub occurrences: Vec<VertexOccurrenceId>,
}

/// Three occurrences of one triangle, in increasing order.
pub type OccurrenceTriangle = [VertexOccurrenceId; 3];

/// The exact identity of an incidence target.
#[derive(Debug, PartialEq, Eq, PartialOrd, Ord)]
pub struct OccurrenceIncidenceTargetKey {
    pub root_bridge: Edge,
    pub occurrences: Vec<VertexOccurrenceId>,
    pub incidences: Vec<u8>,
    pub lower: Vec<usize>,
    pub upper: Vec<usize>,
    pub forbidden_global_edges: Vec<Edge>,
}

impl Clone for CutAnnulusPolygon {
    fn clone(&self) -> (r: Self)
        ensures
            r.root_bridge == self.root_bridge,
            r.boundary_edges@ == self.boundary_edges@,
            r.occurrence_to_global@ == self.occurrence_to_global@,
            r.occurrences@ == self.occurrences@,
    {
        CutAnnulusPolygon {
            root_bridge: self.root_bridge,
            boundary_edges: crate::graph::copy_vec(&self.boundary_edges),
            occurrence_to_global: crate::graph::copy_vec(&self.occurrence_to_global),
            occurrences: crate::graph::copy_vec(&self.occurrences),
        }
    }
}

/// Two states hold the same values.
pub open spec fn state_same(a: PolygonIncidenceState, b: PolygonIncidenceState) -> bool {
    &&& a.occurrences@ == b.occurrences@
    &&& a.remaining_incidences@ == b.remaining_incidences@
    &&& a.triangles@ == b.triangles@
    &&& a.inserted_global_edges@ == b.inserted_global_edges@
    &&& a.state_key.occurrences@ == b.state_key.occurrences@
    &&& a.state_key.remaining_incidences@ == b.state_key.remaining_incidences@
    &&& a.state_key.inserted_global_edges@ == b.state_key.inserted_global_edges@
}

impl Clone for PolygonIncidenceState {
    fn clone(&self) -> (r: Self)
        ensures
            state_same(r, *self),
    {
        PolygonIncidenceState {
            occurrences: crate::graph::copy_vec(&self.occurrences),
            remaining_incidences: crate::graph::copy_vec(&self.remaining_incidences),
            triangles: crate::graph::copy_vec(&self.triangles),
            inserted_global_edges: self.inserted_global_edges.clone(),
            state_key: self.state_key.clone(),
        }
    }
}

impl Clone for PolygonIncidenceStateKey {
    fn clone(&self) -> (r: Self)
        ensures
            r.occurrences@ == self.occurrences@,
            r.remaining_incidences@ == self.remaining_incidences@,
            r.inserted_global_edges@ == self.inserted_global_edges@,
    {
        PolygonIncidenceStateKey {
            occurrences: crate::graph::copy_vec(&self.occurrences),
            remaining_incidences: crate::graph::copy_vec(&self.remaining_incidences),
            inserted_global_edges: self.inserted_global_edges.clone(),
        }
    }
}

impl Clone for OccurrenceIncidenceTargetKey {
    fn clone(&self) -> (r: Self)
        ensures
            r.root_bridge == self.root_bridge,
            r.occurrences@ == self.occurrences@,
            r.incidences@ == self.incidences@,
            r.lower@ == self.lower@,
            r.upper@ == self.upper@,
            r.forbidden_global_edges@ == self.forbidden_global_edges@,
    {
        OccurrenceIncidenceTargetKey {
            root_bridge: self.root_bridge,
            occurrences: crate::graph::copy_vec(&self.occurrences),
            incidences: crate::graph::copy_vec(&self.incidences),
            lower: crate::graph::copy_vec(&self.lower),
            upper: crate::graph::copy_vec(&self.upper),
            forbidden_global_edges: crate::graph::copy_vec(&self.forbidden_global_edges),
        }
    }
}

/// The triangle count wanted at every occurrence of a cut polygon.
#[derive(Debug, Clone, PartialEq, Eq)]
pub struct OccurrenceIncidenceTarget {
    pub lower: Vec<usize>,
    pub upper: Vec<usize>,
    pub cut: CutAnnulusPolygon,
    pub incidences: Vec<u8>,
    pub forbidden_global_edges: BTreeSet<Edge>,
    pub target_key: OccurrenceIncidenceTargetKey,
}

/// The identity of a search state: what remains of the polygon, and the
/// diagonals inserted so far.
#[derive(Debug, PartialEq, Eq, PartialOrd, Ord)]
pub struct PolygonIncidenceStateKey {
    pub occurrences: Vec<VertexOccurrenceId>,
    pub remaining_incidences: Vec<u8>,
    pub inserted_global_edges: BTreeSet<Edge>,
}

/// A partly reduced polygon with the triangles cut off so far.
#[derive(Debug, PartialEq, Eq)]
pub struct PolygonIncidenceState {
    pub occurrences: Vec<VertexOccurrenceId>,
    pub remaining_incidences: Vec<u8>,
    pub triangles: Vec<OccurrenceTriangle>,
    pub inserted_global_edges: BTreeSet<Edge>,
    pub state_key: PolygonIncidenceStateKey,
}

/// A complete triangulation of the cut polygon, triangles in increasing order.
#[derive(Debug, Clone, PartialEq, Eq, PartialOrd, Ord)]
pub struct OccurrenceTriangulation {
    pub triangles: Vec<OccurrenceTriangle>,
}

/// How a witness search ended.
#[derive(Debug, Clone, Copy, PartialEq, Eq, Structural)]
pub enum PolygonIncidenceOutcomeKind {
    Found,
    ExactNoWitness,
    SearchIncomplete,
    InvalidInput,
}

/// The stable name of a witness-search outcome.
pub open spec fn incidence_outcome_label(kind: PolygonIncidenceOutcomeKind) -> Seq<char> {
    match kind {
        PolygonIncidenceOutcomeKind::Found => "Found"@,
        PolygonIncidenceOutcomeKind::ExactNoWitness => "ExactNoWitness"@,
        PolygonIncidenceOutcomeKind::SearchIncomplete => "SearchIncomplete"@,
        PolygonIncidenceOutcomeKind::InvalidInput => "InvalidInput"@,
    }
}

impl PolygonIncidenceOutcomeKind {
    pub fn as_str(self) -> (r: &'static str)
        ensures
            r@ == incidence_outcome_label(self),
    {
        match self {
            PolygonIncidenceOutcomeKind::Found => "Found",
            PolygonIncidenceOutcomeKind::ExactNoWitness => "ExactNoWitness",
            PolygonIncidenceOutcomeKind::SearchIncomplete => "SearchIncomplete",
            PolygonIncidenceOutcomeKind::InvalidInput => "InvalidInput",
        }
    }
}

/// Counters of a witness search.
#[derive(Debug, Clone, Copy, PartialEq, Eq)]
pub struct PolygonIncidenceEvidence {
    pub states: u64,
    pub ears_considered: u64,
    pub constraint_rejects: u64,
    pub duplicate_states: u64,
    pub maximum_frontier: usize,
    pub outcome: PolygonIncidenceOutcomeKind,
}

/// A resumable point of a witness search.
#[derive(Debug, Clone, PartialEq, Eq)]
pub struct PolygonIncidenceCheckpoint {
    target_key: OccurrenceIncidenceTargetKey,
    frontier: Vec<PolygonIncidenceState>,
    seen_states: Vec<PolygonIncidenceStateKey>,
    evidence: PolygonIncidenceEvidence,
}

/// The result of a witness search.
#[derive(Debug, Clone, PartialEq, Eq)]
pub enum PolygonIncidenceWitnessOutcome {
    Found { witness: OccurrenceTriangulation, evidence: PolygonIncidenceEvidence },
    ExactNoWitness { target: OccurrenceIncidenceTargetKey, states: u64, evidence: PolygonIncidenceEvidence },
    SearchIncomplete { checkpoint: PolygonIncidenceCheckpoint, evidence: PolygonIncidenceEvidence },
    InvalidInput(String),
}

/// The undirected edge `{a, b}`, smaller slot first.
pub fn edge(a: usize, b: usize) -> (e: Edge)
    ensures
        e == crate::graph::sorted_spec(a, b),
{
    if a < b { (a, b) } else { (b, a) }
}

/// The source edge between the slots of two occurrences.
pub fn global_edge(a: VertexOccurrenceId, b: VertexOccurrenceId) -> (e: Edge)
    ensures
        e == crate::graph::sorted_spec(a.global_source_slot, b.global_source_slot),
{
    edge(a.global_source_slot, b.global_source_slot)
}

/// Order on occurrences: by slot, then by ordinal.
pub open spec fn occurrence_le(a: VertexOccurrenceId, b: VertexOccurrenceId) -> bool {
    a.global_source_slot < b.global_source_slot
        || (a.global_source_slot == b.global_source_slot && a.occurrence_ordinal <= b.occurrence_ordinal)
}

fn occurrence_le_exec(a: VertexOccurrenceId, b: VertexOccurrenceId) -> (r: bool)
    ensures
        r == occurrence_le(a, b),
{
    a.global_source_slot < b.global_source_slot
        || (a.global_source_slot == b.global_source_slot && a.occurrence_ordinal <= b.occurrence_ordinal)
}

/// `r` lists the three entries of `t` in some order.
pub open spec fn permutation3(r: OccurrenceTriangle, t: OccurrenceTriangle) -> bool {
    ||| (r[0] == t[0] && r[1] == t[1] && r[2] == t[2])
    ||| (r[0] == t[0] && r[1] == t[2] && r[2] == t[1])
    ||| (r[0] == t[1] && r[1] == t[0] && r[2] == t[2])
    ||| (r[0] == t[1] && r[1] == t[2] && r[2] == t[0])
    ||| (r[0] == t[2] && r[1] == t[0] && r[2] == t[1])
    ||| (r[0] == t[2] && r[1] == t[1] && r[2] == t[0])
}

/// The three occurrences of a triangle, in increasing order.
pub fn occurrence_triangle(triangle: OccurrenceTriangle) -> (r: OccurrenceTriangle)
    ensures
        occurrence_le(r[0], r[1]) && occurrence_le(r[1], r[2]),
        permutation3(r, triangle),
{
    let a = triangle[0];
    let b = triangle[1];
    let c = triangle[2];
    if occurrence_le_exec(a, b) {
        if occurrence_le_exec(b, c) {
            [a, b, c]
        } else if occurrence_le_exec(a, c) {
            [a, c, b]
        } else {
            [c, a, b]
        }
    } else {
        if occurrence_le_exec(a, c) {
            [b, a, c]
        } else if occurrence_le_exec(b, c) {
            [b, c, a]
        } else {
            [c, b, a]
        }
    }
}

/// Strict order on occurrences.
pub open spec fn occurrence_lt(a: VertexOccurrenceId, b: VertexOccurrenceId) -> bool {
    occurrence_le(a, b) && a != b
}

/// Strict lexicographic order on sorted triangles.
pub open spec fn triangle_lt(a: OccurrenceTriangle, b: OccurrenceTriangle) -> bool {
    occurrence_lt(a[0], b[0])
        || (a[0] == b[0] && occurrence_lt(a[1], b[1]))
        || (a[0] == b[0] && a[1] == b[1] && occurrence_lt(a[2], b[2]))
}

/// Triangles in non-decreasing order.
pub open spec fn triangles_sorted(t: Seq<OccurrenceTriangle>) -> bool {
    forall|i: int, j: int| 0 <= i < j < t.len() ==> !triangle_lt(t[j], t[i])
}

fn triangle_lt_exec(a: OccurrenceTriangle, b: OccurrenceTriangle) -> (r: bool)
    ensures
        r == triangle_lt(a, b),
{
    let lt0 = occurrence_le_exec(a[0], b[0]) && a[0] != b[0];
    let lt1 = occurrence_le_exec(a[1], b[1]) && a[1] != b[1];
    let lt2 = occurrence_le_exec(a[2], b[2]) && a[2] != b[2];
    lt0 || (a[0] == b[0] && lt1) || (a[0] == b[0] && a[1] == b[1] && lt2)
}

proof fn lemma_triangle_order(a: OccurrenceTriangle, b: OccurrenceTriangle, c: OccurrenceTriangle)
    ensures
        !triangle_lt(a, a),
        triangle_lt(a, b) ==> !triangle_lt(b, a),
        !triangle_lt(a, b) && !triangle_lt(b, a) ==> a == b,
        triangle_lt(a, b) && triangle_lt(b, c) ==> triangle_lt(a, c),
        !triangle_lt(b, a) && !triangle_lt(c, b) ==> !triangle_lt(c, a),
{
    if !triangle_lt(a, b) && !triangle_lt(b, a) {
        assert(a@ =~= b@);
    }
}

/// Insert a triangle into a sorted list, keeping it sorted.
fn insert_triangle(triangles: &mut Vec<OccurrenceTriangle>, t: OccurrenceTriangle)
    requires
        triangles_sorted(old(triangles)@),
    ensures
        triangles_sorted(final(triangles)@),
        exists|p: int| 0 <= p <= old(triangles)@.len() && final(triangles)@ == old(triangles)@.insert(p, t),
{
    let mut p: usize = 0;
    while p < triangles.len() && !triangle_lt_exec(t, triangles[p])
        invariant
            p <= triangles@.len(),
            triangles@ == old(triangles)@,
            triangles_sorted(triangles@),
            forall|k: int| 0 <= k < p ==> !triangle_lt(t, #[trigger] triangles@[k]),
        decreases triangles@.len() - p,
    {
        p = p + 1;
    }
    let ghost before = triangles@;
    triangles.insert(p, t);
    proof {
        assert forall|i: int, j: int| 0 <= i < j < triangles@.len() implies !triangle_lt(triangles@[j], triangles@[i]) by {
            if j < p {
                assert(triangles@[i] == before[i] && triangles@[j] == before[j]);
            } else if j == p {
                assert(triangles@[i] == before[i]);
                lemma_triangle_order(t, before[i], t);
            } else if i == p {
                assert(triangles@[j] == before[j - 1]);
                if j - 1 > p {
                    lemma_triangle_order(t, before[p as int], before[j - 1]);
                    lemma_triangle_order(before[j - 1], before[p as int], t);
                }
                lemma_triangle_order(before[j - 1], t, t);
            } else if i < p {
                assert(triangles@[i] == before[i] && triangles@[j] == before[j - 1]);
            } else {
                assert(triangles@[i] == before[i - 1] && triangles@[j] == before[j - 1]);
            }
        }
    }
}

/// Whether the triangles are in non-decreasing order.
fn triangles_sorted_exec(ts: &Vec<OccurrenceTriangle>) -> (r: bool)
    ensures
        r == triangles_sorted(ts@),
{
    let n = ts.len();
    let mut j: usize = 0;
    while j < n
        invariant
            j <= n,
            n == ts@.len(),
            forall|a: int, b: int| 0 <= a < b < j ==> !triangle_lt(ts@[b], ts@[a]),
        decreases n - j,
    {
        let mut i: usize = 0;
        while i < j
            invariant
                i <= j,
                j < n,
                n == ts@.len(),
                forall|a: int, b: int| 0 <= a < b < j ==> !triangle_lt(ts@[b], ts@[a]),
                forall|a: int| 0 <= a < i ==> !triangle_lt(ts@[j as int], ts@[a]),
            decreases j - i,
        {
            if triangle_lt_exec(ts[j], ts[i]) {
                return false;
            }
            i = i + 1;
        }
        j = j + 1;
    }
    true
}

/// The triangles in non-decreasing order.
fn sort_triangles(list: &Vec<OccurrenceTriangle>) -> (out: Vec<OccurrenceTriangle>)
    ensures
        triangles_sorted(out@),
        out@.to_multiset() == list@.to_multiset(),
{
    broadcast use vstd::seq_lib::group_to_multiset_ensures;
    let mut out: Vec<OccurrenceTriangle> = Vec::new();
    let mut i: usize = 0;
    while i < list.len()
        invariant
            i <= list@.len(),
            triangles_sorted(out@),
            out@.to_multiset() == list@.take(i as int).to_multiset(),
        decreases list@.len() - i,
    {
        let ghost before = out@;
        insert_triangle(&mut out, list[i]);
        proof {
            assert(list@.take(i + 1) =~= list@.take(i as int).push(list@[i as int]));
            let p = choose|p: int| 0 <= p <= before.len() && out@ == before.insert(p, list@[i as int]);
            vstd::seq_lib::to_multiset_insert(before, p, list@[i as int]);
            vstd::seq_lib::to_multiset_build(list@.take(i as int), list@[i as int]);
        }
        i = i + 1;
    }
    proof {
        assert(list@.take(list@.len() as int) =~= list@);
    }
    out
}

/// Add triangle `t` to a list of triangles and sort the result; a sorted
/// list gets `t` inserted at its place.
fn add_triangle_sorted(list: &Vec<OccurrenceTriangle>, t: OccurrenceTriangle) -> (out: Vec<OccurrenceTriangle>)
    ensures
        triangles_sorted(out@),
        out@.to_multiset() == list@.to_multiset().insert(t),
        triangles_sorted(list@) ==> exists|p: int| 0 <= p <= list@.len() && out@ == list@.insert(p, t),
{
    broadcast use vstd::seq_lib::group_to_multiset_ensures;
    let mut out = crate::graph::copy_vec(list);
    if triangles_sorted_exec(list) {
        let ghost before = out@;
        insert_triangle(&mut out, t);
        proof {
            let p = choose|p: int| 0 <= p <= before.len() && out@ == before.insert(p, t);
            vstd::seq_lib::to_multiset_insert(before, p, t);
        }
        out
    } else {
        out.push(t);
        sort_triangles(&out)
    }
}

/// Build a state and its identity key.
pub fn build_state(occurrences: Vec<VertexOccurrenceId>, remaining_incidences: Vec<u8>,
    triangles: Vec<OccurrenceTriangle>, inserted_global_edges: BTreeSet<Edge>) -> (s: PolygonIncidenceState)
    ensures
        s.occurrences@ == occurrences@,
        s.remaining_incidences@ == remaining_incidences@,
        s.triangles@ == triangles@,
        s.inserted_global_edges@ == inserted_global_edges@,
        s.state_key.occurrences@ == occurrences@,
        s.state_key.remaining_incidences@ == remaining_incidences@,
        s.state_key.inserted_global_edges@ == inserted_global_edges@,
{
    let state_key = PolygonIncidenceStateKey {
        occurrences: crate::graph::copy_vec(&occurrences),
        remaining_incidences: crate::graph::copy_vec(&remaining_incidences),
        inserted_global_edges: inserted_global_edges.clone(),
    };
    PolygonIncidenceState {
        occurrences,
        remaining_incidences,
        triangles,
        inserted_global_edges,
        state_key,
    }
}

/// The three occurrences have three different source slots.
pub open spec fn slots_distinct(a: VertexOccurrenceId, b: VertexOccurrenceId, c: VertexOccurrenceId) -> bool {
    a.global_source_slot != b.global_source_slot && a.global_source_slot != c.global_source_slot
        && b.global_source_slot != c.global_source_slot
}

/// The last triangle: three occurrences with incidences (1, 1, 1) on three slots.
pub open spec fn finishes(state: PolygonIncidenceState) -> bool {
    &&& state.occurrences@.len() == 3
    &&& state.remaining_incidences@ == seq![1u8, 1u8, 1u8]
    &&& slots_distinct(state.occurrences@[0], state.occurrences@[1], state.occurrences@[2])
}

/// Close a reduced polygon: the triangulation with its last triangle added.
pub fn finish_triangle(state: &PolygonIncidenceState) -> (r: Option<OccurrenceTriangulation>)
    ensures
        r is Some <==> finishes(*state),
        r matches Some(w) ==> triangles_sorted(w.triangles@) && exists|t: OccurrenceTriangle|
            w.triangles@.to_multiset() == state.triangles@.to_multiset().insert(t)
            && permutation3(t, [state.occurrences@[0], state.occurrences@[1], state.occurrences@[2]])
            && occurrence_le(t[0], t[1]) && occurrence_le(t[1], t[2]),
        r matches Some(w) ==> triangles_sorted(state.triangles@) ==> triangles_sorted(w.triangles@) && exists|p: int, t: OccurrenceTriangle|
            0 <= p <= state.triangles@.len() && w.triangles@ == state.triangles@.insert(p, t)
            && permutation3(t, [state.occurrences@[0], state.occurrences@[1], state.occurrences@[2]])
            && occurrence_le(t[0], t[1]) && occurrence_le(t[1], t[2]),
{
    if state.occurrences.len() != 3 || state.remaining_incidences.len() != 3 {
        return None;
    }
    if state.remaining_incidences[0] != 1 || state.remaining_incidences[1] != 1 || state.remaining_incidences[2] != 1 {
        proof {
            assert(state.remaining_incidences@ != seq![1u8, 1u8, 1u8]) by {
                if state.remaining_incidences@ == seq![1u8, 1u8, 1u8] {
                    assert(state.remaining_incidences@[0] == 1u8);
                    assert(state.remaining_incidences@[1] == 1u8);
                    assert(state.remaining_incidences@[2] == 1u8);
                }
            }
        }
        return None;
    }
    proof {
        assert(state.remaining_incidences@ =~= seq![1u8, 1u8, 1u8]);
    }
    let triangle = occurrence_triangle([state.occurrences[0], state.occurrences[1], state.occurrences[2]]);
    if triangle[0].global_source_slot == triangle[1].global_source_slot
        || triangle[0].global_source_slot == triangle[2].global_source_slot
        || triangle[1].global_source_slot == triangle[2].global_source_slot {
        return None;
    }
    let triangles = add_triangle_sorted(&state.triangles, triangle);
    Some(OccurrenceTriangulation { triangles })
}

/// What the search keeps fixed while reducing one target.
pub struct SearchContext<'a> {
    pub target: &'a OccurrenceIncidenceTarget,
    pub lower: BTreeSet<usize>,
    pub upper: BTreeSet<usize>,
    pub boundary_global_edges: BTreeSet<Edge>,
}

/// A bridge between the two boundaries that sorts before the root bridge:
/// inserting it would describe the same annulus from another cut.
pub open spec fn noncanonical_bridge(lower: Set<usize>, upper: Set<usize>, root: Edge, candidate: Edge) -> bool {
    &&& ((lower.contains(candidate.0) && upper.contains(candidate.1)) || (lower.contains(candidate.1) && upper.contains(candidate.0)))
    &&& candidate != root
    &&& crate::graph::edge_lt(candidate, root)
}

pub fn is_noncanonical_bridge(candidate: Edge, context: &SearchContext) -> (r: bool)
    ensures
        r == noncanonical_bridge(context.lower@, context.upper@, context.target.cut.root_bridge, candidate),
{
    let cross_boundary = (context.lower.contains(&candidate.0) && context.upper.contains(&candidate.1))
        || (context.lower.contains(&candidate.1) && context.upper.contains(&candidate.0));
    let root = context.target.cut.root_bridge;
    let different = candidate.0 != root.0 || candidate.1 != root.1;
    let before = candidate.0 < root.0 || (candidate.0 == root.0 && candidate.1 < root.1);
    cross_boundary && different && before
}

/// The sum of the incidences.
pub open spec fn incidence_total(s: Seq<u8>) -> nat
    decreases s.len(),
{
    if s.len() == 0 { 0 } else { incidence_total(s.drop_last()) + s.last() as nat }
}

fn total_incidence(s: &Vec<u8>) -> (t: u128)
    ensures
        t as nat == incidence_total(s@),
{
    let mut total: u128 = 0;
    let mut i: usize = 0;
    while i < s.len()
        invariant
            i <= s@.len(),
            total as nat == incidence_total(s@.take(i as int)),
            total <= 255 * i,
        decreases s@.len() - i,
    {
        proof {
            assert(s@.take(i + 1).drop_last() =~= s@.take(i as int));
        }
        total = total + s[i] as u128;
        i = i + 1;
    }
    proof {
        assert(s@.take(s@.len() as int) =~= s@);
    }
    total
}

/// The occurrence before `ear` around a polygon of `n` occurrences.
pub open spec fn ear_prev(n: int, ear: int) -> int {
    (ear + n - 1) % n
}

/// The occurrence after `ear` around a polygon of `n` occurrences.
pub open spec fn ear_next(n: int, ear: int) -> int {
    (ear + 1) % n
}

proof fn lemma_ear_neighbours(n: int, ear: int)
    requires
        3 <= n,
        0 <= ear < n,
    ensures
        ear_prev(n, ear) == (if ear == 0 { n - 1 } else { ear - 1 }),
        ear_next(n, ear) == (if ear + 1 == n { 0 } else { ear + 1 }),
{
    if ear == 0 {
        assert((n - 1) % n == n - 1) by (nonlinear_arith) requires 3 <= n;
    } else {
        assert((ear + n - 1) % n == ear - 1) by (nonlinear_arith) requires 1 <= ear < n;
    }
    if ear + 1 == n {
        assert(n % n == 0) by (nonlinear_arith) requires 3 <= n;
    } else {
        assert((ear + 1) % n == ear + 1) by (nonlinear_arith) requires 0 <= ear, ear + 1 < n;
    }
}

/// The incidences after cutting off the ear at `ear`: both neighbours lose
/// one, and the ear leaves.
pub open spec fn ear_remaining(rem: Seq<u8>, n: int, ear: int) -> Seq<u8> {
    let p = ear_prev(n, ear);
    let x = ear_next(n, ear);
    rem.update(p, (rem[p] - 1) as u8).update(x, (rem[x] - 1) as u8).remove(ear)
}

/// The diagonal that cutting off the ear at `ear` inserts.
pub open spec fn ear_diagonal(occ: Seq<VertexOccurrenceId>, ear: int) -> Edge {
    let n = occ.len() as int;
    crate::graph::sorted_spec(occ[ear_prev(n, ear)].global_source_slot, occ[ear_next(n, ear)].global_source_slot)
}

/// Cutting off the ear at `ear` is allowed: its triangle spans three slots,
/// its diagonal is new, neither forbidden nor on the boundary nor a
/// noncanonical bridge, both neighbours keep an incidence, and the remaining
/// incidences still sum to three per remaining triangle.
#[verifier::opaque]
pub open spec fn ear_accepted(context: SearchContext, state: PolygonIncidenceState, ear: int) -> bool {
    let occ = state.occurrences@;
    let rem = state.remaining_incidences@;
    let n = occ.len() as int;
    let p = ear_prev(n, ear);
    let x = ear_next(n, ear);
    let d = ear_diagonal(occ, ear);
    &&& slots_distinct(occ[p], occ[ear], occ[x])
    &&& !context.target.forbidden_global_edges@.contains(d)
    &&& !context.boundary_global_edges@.contains(d)
    &&& !state.inserted_global_edges@.contains(d)
    &&& !noncanonical_bridge(context.lower@, context.upper@, context.target.cut.root_bridge, d)
    &&& rem[p] >= 2
    &&& rem[x] >= 2
    &&& incidence_total(ear_remaining(rem, n, ear)) == 3 * (n - 3)
}

/// `k` is the key of the state that cutting off the ear at `ear` leaves.
pub open spec fn child_key_is(state: PolygonIncidenceState, ear: int, k: PolygonIncidenceStateKey) -> bool {
    &&& k.occurrences@ == state.occurrences@.remove(ear)
    &&& k.remaining_incidences@ == ear_remaining(state.remaining_incidences@, state.occurrences@.len() as int, ear)
    &&& k.inserted_global_edges@ == state.inserted_global_edges@.insert(ear_diagonal(state.occurrences@, ear))
}

/// `c` is the state left by cutting off the ear at `ear`: its triangle joins
/// the sorted triangle list.
#[verifier::opaque]
pub open spec fn ear_child_of(state: PolygonIncidenceState, ear: int, c: PolygonIncidenceState) -> bool {
    let occ = state.occurrences@;
    let n = occ.len() as int;
    &&& c.occurrences@ == occ.remove(ear)
    &&& c.remaining_incidences@ == ear_remaining(state.remaining_incidences@, state.occurrences@.len() as int, ear)
    &&& c.inserted_global_edges@ == state.inserted_global_edges@.insert(ear_diagonal(occ, ear))
    &&& triangles_sorted(c.triangles@)
    &&& exists|p: int, t: OccurrenceTriangle| 0 <= p <= state.triangles@.len() && c.triangles@ == state.triangles@.insert(p, t)
        && permutation3(t, [occ[ear_prev(n, ear)], occ[ear], occ[ear_next(n, ear)]])
        && occurrence_le(t[0], t[1]) && occurrence_le(t[1], t[2])
    &&& c.state_key.occurrences@ == c.occurrences@
    &&& c.state_key.remaining_incidences@ == c.remaining_incidences@
    &&& c.state_key.inserted_global_edges@ == c.inserted_global_edges@
}

/// Cut off the ear at `ear`, or `None` when that is not allowed.
/// `c` is the state left by cutting off the ear at `ear`, its triangle added
/// to the triangle list and the list sorted.
pub open spec fn ear_child_any(state: PolygonIncidenceState, ear: int, c: PolygonIncidenceState) -> bool {
    let occ = state.occurrences@;
    let n = occ.len() as int;
    &&& c.occurrences@ == occ.remove(ear)
    &&& c.remaining_incidences@ == ear_remaining(state.remaining_incidences@, state.occurrences@.len() as int, ear)
    &&& c.inserted_global_edges@ == state.inserted_global_edges@.insert(ear_diagonal(occ, ear))
    &&& triangles_sorted(c.triangles@)
    &&& exists|t: OccurrenceTriangle| c.triangles@.to_multiset() == state.triangles@.to_multiset().insert(t)
        && permutation3(t, [occ[ear_prev(n, ear)], occ[ear], occ[ear_next(n, ear)]])
        && occurrence_le(t[0], t[1]) && occurrence_le(t[1], t[2])
    &&& c.state_key.occurrences@ == c.occurrences@
    &&& c.state_key.remaining_incidences@ == c.remaining_incidences@
    &&& c.state_key.inserted_global_edges@ == c.inserted_global_edges@
}

pub fn remove_ear(state: &PolygonIncidenceState, ear: usize, context: &SearchContext) -> (r: Option<PolygonIncidenceState>)
    requires
        state.occurrences@.len() <= state.remaining_incidences@.len(),
        ear < state.occurrences@.len(),
    ensures
        r is Some <==> ear_accepted(*context, *state, ear as int),
        r matches Some(c) ==> ear_child_any(*state, ear as int, c),
        r matches Some(c) ==> (triangles_sorted(state.triangles@) ==> ear_child_of(*state, ear as int, c)),
{
    reveal(ear_accepted);
    reveal(ear_child_of);
    let size = state.occurrences.len();
    if size < 3 {
        proof {
            let n = size as int;
            let e = ear as int;
            assert(ear_prev(n, e) == ear_next(n, e) || (ear_prev(n, e) == e && ear_next(n, e) == e)) by (nonlinear_arith)
                requires 1 <= n < 3, 0 <= e < n;
        }
        return None;
    }
    let previous: usize = if ear == 0 { size - 1 } else { ear - 1 };
    let next: usize = if ear + 1 == size { 0 } else { ear + 1 };
    let ghost occ = state.occurrences@;
    let ghost rem = state.remaining_incidences@;
    proof {
        lemma_ear_neighbours(size as int, ear as int);
    }
    let triangle = occurrence_triangle([state.occurrences[previous], state.occurrences[ear], state.occurrences[next]]);
    let a = state.occurrences[previous].global_source_slot;
    let b = state.occurrences[ear].global_source_slot;
    let c = state.occurrences[next].global_source_slot;
    if a == b || a == c || b == c {
        return None;
    }
    let diagonal = global_edge(state.occurrences[previous], state.occurrences[next]);
    if context.target.forbidden_global_edges.contains(&diagonal)
        || context.boundary_global_edges.contains(&diagonal)
        || state.inserted_global_edges.contains(&diagonal)
        || is_noncanonical_bridge(diagonal, context) {
        return None;
    }
    let mut incidences = crate::graph::copy_vec(&state.remaining_incidences);
    if incidences[previous] < 2 || incidences[next] < 2 {
        return None;
    }
    let pv = incidences[previous] - 1;
    incidences.set(previous, pv);
    let nv = incidences[next] - 1;
    incidences.set(next, nv);
    let mut occurrences = crate::graph::copy_vec(&state.occurrences);
    occurrences.remove(ear);
    incidences.remove(ear);
    proof {
        assert(incidences@ =~= ear_remaining(rem, size as int, ear as int));
    }
    let total = total_incidence(&incidences);
    if total != 3 * ((occurrences.len() as u128) - 2) {
        return None;
    }
    let triangles = add_triangle_sorted(&state.triangles, triangle);
    let mut inserted = state.inserted_global_edges.clone();
    inserted.insert(diagonal);
    Some(build_state(occurrences, incidences, triangles, inserted))
}


// ---------------------------------------------------------------------------
// Target validation

/// Edges strictly increasing by `edge_lt`.
pub open spec fn edges_increasing(s: Seq<Edge>) -> bool {
    forall|i: int, j: int| 0 <= i < j < s.len() ==> crate::graph::edge_lt(s[i], s[j])
}

/// `s` lists the set `set` in increasing order.
pub open spec fn lists_in_order(s: Seq<Edge>, set: Set<Edge>) -> bool {
    s.to_set() == set && edges_increasing(s)
}

pub(crate) proof fn lemma_edges_sorted_unique(a: Seq<Edge>, b: Seq<Edge>)
    requires
        edges_increasing(a),
        edges_increasing(b),
        a.to_set() == b.to_set(),
    ensures
        a == b,
    decreases a.len(),
{
    if a.len() == 0 {
        if b.len() > 0 {
            assert(b.to_set().contains(b[0]));
        }
        assert(a =~= b);
    } else {
        assert(a.to_set().contains(a[0]));
        assert(b.to_set().contains(a[0]));
        assert(b.to_set().contains(b[0]));
        assert(a.to_set().contains(b[0]));
        let ka = choose|k: int| 0 <= k < b.len() && b[k] == a[0];
        let kb = choose|k: int| 0 <= k < a.len() && a[k] == b[0];
        if ka > 0 && kb > 0 {
            assert(crate::graph::edge_lt(b[0], b[ka]));
            assert(crate::graph::edge_lt(a[0], a[kb]));
        }
        assert(a[0] == b[0]);
        let a1 = a.drop_first();
        let b1 = b.drop_first();
        assert forall|x: Edge| a1.to_set().contains(x) <==> b1.to_set().contains(x) by {
            if a1.to_set().contains(x) {
                let k = choose|k: int| 0 <= k < a1.len() && a1[k] == x;
                assert(a[k + 1] == x);
                assert(crate::graph::edge_lt(a[0], a[k + 1]));
                assert(b.to_set().contains(x));
                let m = choose|m: int| 0 <= m < b.len() && b[m] == x;
                assert(m != 0);
                assert(b1[m - 1] == x);
            }
            if b1.to_set().contains(x) {
                let k = choose|k: int| 0 <= k < b1.len() && b1[k] == x;
                assert(b[k + 1] == x);
                assert(crate::graph::edge_lt(b[0], b[k + 1]));
                assert(a.to_set().contains(x));
                let m = choose|m: int| 0 <= m < a.len() && a[m] == x;
                assert(m != 0);
                assert(a1[m - 1] == x);
            }
        }
        assert(a1.to_set() =~= b1.to_set());
        lemma_edges_sorted_unique(a1, b1);
        assert(a.len() == b.len());
        assert forall|i: int| 0 <= i < a.len() implies a[i] == b[i] by {
            if i > 0 {
                assert(a[i] == a1[i - 1]);
                assert(b[i] == b1[i - 1]);
            }
        }
        assert(a =~= b);
    }
}

/// The key is the one that the target's own fields determine.
pub open spec fn key_matches(t: OccurrenceIncidenceTarget) -> bool {
    &&& t.target_key.root_bridge == t.cut.root_bridge
    &&& t.target_key.occurrences@ == t.cut.occurrences@
    &&& t.target_key.incidences@ == t.incidences@
    &&& t.target_key.lower@ == t.lower@
    &&& t.target_key.upper@ == t.upper@
    &&& lists_in_order(t.target_key.forbidden_global_edges@, t.forbidden_global_edges@)
}

/// Some slot of `slots` is an endpoint of `e`.
pub open spec fn has_endpoint_in(slots: Seq<usize>, e: Edge) -> bool {
    exists|i: int| 0 <= i < slots.len() && (slots[i] == e.0 || slots[i] == e.1)
}

/// The incidences are positive, at most `n - 2` each, and sum to `3 (n - 2)`.
pub open spec fn incidences_valid(inc: Seq<u8>, n: int) -> bool {
    &&& forall|i: int| 0 <= i < inc.len() ==> 1 <= #[trigger] inc[i] <= n - 2
    &&& incidence_total(inc) == 3 * (n - 2)
}

/// The source edge of a boundary edge of the cut.
pub open spec fn occurrence_edge_global(e: OccurrenceEdge) -> Edge {
    crate::graph::sorted_spec(e.a.global_source_slot, e.b.global_source_slot)
}

/// The source edges of the cut's boundary.
pub open spec fn boundary_global_set(cut: CutAnnulusPolygon) -> Set<Edge> {
    Set::new(|e: Edge| exists|i: int| 0 <= i < cut.boundary_edges@.len()
        && #[trigger] occurrence_edge_global(cut.boundary_edges@[i]) == e)
}

/// Slot `slots[i]` is the first endpoint of `e` in `slots`.
pub open spec fn first_endpoint_at(slots: Seq<usize>, e: Edge, i: int) -> bool {
    &&& 0 <= i < slots.len()
    &&& (slots[i] == e.0 || slots[i] == e.1)
    &&& forall|j: int| 0 <= j < i ==> !(#[trigger] slots[j] == e.0 || slots[j] == e.1)
}

/// The index of the first slot of `slots` that is an endpoint of `e`.
pub open spec fn first_endpoint(slots: Seq<usize>, e: Edge) -> int {
    choose|i: int| first_endpoint_at(slots, e, i)
}

/// Occurrence `k` of the annulus between `lower` and `upper` cut open along the
/// bridge from `lower[r]` to `upper[u]`: the lower ring from its root around
/// and back to a second copy of the root, then a second copy of the upper root
/// and the upper ring backwards to its root.
pub open spec fn canonical_occurrence(lower: Seq<usize>, upper: Seq<usize>, r: int, u: int, k: int) -> VertexOccurrenceId {
    let nl = lower.len() as int;
    let nu = upper.len() as int;
    if k < nl {
        VertexOccurrenceId { global_source_slot: lower[(r + k) % nl], occurrence_ordinal: 0 }
    } else if k == nl {
        VertexOccurrenceId { global_source_slot: lower[r], occurrence_ordinal: 1 }
    } else if k == nl + 1 {
        VertexOccurrenceId { global_source_slot: upper[u], occurrence_ordinal: 1 }
    } else {
        VertexOccurrenceId { global_source_slot: upper[(u + nu - (k - nl - 1)) % nu], occurrence_ordinal: 0 }
    }
}

/// The cut is the canonical cut of the annulus for its root bridge: rooted at
/// the first lower and the first upper endpoint of that bridge, with the
/// canonical occurrences, their source slots and the cyclic boundary edges.
pub open spec fn is_canonical_cut(cut: CutAnnulusPolygon, lower: Seq<usize>, upper: Seq<usize>) -> bool {
    let r = first_endpoint(lower, cut.root_bridge);
    let u = first_endpoint(upper, cut.root_bridge);
    let n = lower.len() + upper.len() + 2int;
    &&& cut.root_bridge == crate::graph::sorted_spec(lower[r], upper[u])
    &&& cut.occurrences@.len() == n
    &&& cut.occurrence_to_global@.len() == n
    &&& cut.boundary_edges@.len() == n
    &&& forall|k: int| 0 <= k < n ==> #[trigger] cut.occurrences@[k] == canonical_occurrence(lower, upper, r, u, k)
    &&& forall|k: int| 0 <= k < n ==> #[trigger] cut.occurrence_to_global@[k] == canonical_occurrence(lower, upper, r, u, k).global_source_slot
    &&& forall|k: int| 0 <= k < n ==> #[trigger] cut.boundary_edges@[k] == (OccurrenceEdge {
        a: canonical_occurrence(lower, upper, r, u, k),
        b: canonical_occurrence(lower, upper, r, u, (k + 1) % n),
    })
}

proof fn lemma_first_endpoint_exists(slots: Seq<usize>, e: Edge, i: int)
    requires
        0 <= i < slots.len(),
        slots[i] == e.0 || slots[i] == e.1,
    ensures
        first_endpoint_at(slots, e, first_endpoint(slots, e)),
    decreases i,
{
    if exists|j: int| 0 <= j < i && (slots[j] == e.0 || slots[j] == e.1) {
        let j = choose|j: int| 0 <= j < i && (slots[j] == e.0 || slots[j] == e.1);
        lemma_first_endpoint_exists(slots, e, j);
    } else {
        assert(first_endpoint_at(slots, e, i));
    }
}

proof fn lemma_rotation_injective(r: int, a: int, b: int, n: int)
    requires
        0 <= r < n,
        0 <= a < n,
        0 <= b < n,
        (r + a) % n == (r + b) % n,
    ensures
        a == b,
{
    assert((r + a) % n == (if r + a < n { r + a } else { r + a - n })) by (nonlinear_arith)
        requires 0 <= r < n, 0 <= a < n;
    assert((r + b) % n == (if r + b < n { r + b } else { r + b - n })) by (nonlinear_arith)
        requires 0 <= r < n, 0 <= b < n;
}

proof fn lemma_rotation_in_range(r: int, a: int, n: int)
    requires
        0 <= r < n,
        0 <= a < 2 * n,
    ensures
        0 <= (r + a) % n < n,
{
    assert(0 <= (r + a) % n < n) by (nonlinear_arith)
        requires 0 <= r < n, 0 <= a, n > 0;
}

/// A canonical cut of two disjoint rings without repeated slots lists every
/// occurrence once.
proof fn lemma_canonical_cut_distinct(t: OccurrenceIncidenceTarget)
    requires
        target_error(t) is None,
    ensures
        t.cut.occurrences@.no_duplicates(),
{
    let lower = t.lower@;
    let upper = t.upper@;
    let e = t.cut.root_bridge;
    let il = choose|i: int| 0 <= i < lower.len() && (lower[i] == e.0 || lower[i] == e.1);
    lemma_first_endpoint_exists(lower, e, il);
    let iu = choose|i: int| 0 <= i < upper.len() && (upper[i] == e.0 || upper[i] == e.1);
    lemma_first_endpoint_exists(upper, e, iu);
    let r = first_endpoint(lower, e);
    let u = first_endpoint(upper, e);
    let nl = lower.len() as int;
    let nu = upper.len() as int;
    let occ = t.cut.occurrences@;
    assert forall|k1: int, k2: int| 0 <= k1 < occ.len() && 0 <= k2 < occ.len() && k1 != k2 implies occ[k1] != occ[k2] by {
        let o1 = canonical_occurrence(lower, upper, r, u, k1);
        let o2 = canonical_occurrence(lower, upper, r, u, k2);
        assert(occ[k1] == o1);
        assert(occ[k2] == o2);
        if k1 < nl {
            lemma_rotation_in_range(r, k1, nl);
        }
        if k2 < nl {
            lemma_rotation_in_range(r, k2, nl);
        }
        if k1 > nl + 1 {
            lemma_rotation_in_range(u, nu - (k1 - nl - 1), nu);
        }
        if k2 > nl + 1 {
            lemma_rotation_in_range(u, nu - (k2 - nl - 1), nu);
        }
        if o1 == o2 {
            if k1 < nl && k2 < nl {
                assert(lower[(r + k1) % nl] == lower[(r + k2) % nl]);
                lemma_rotation_injective(r, k1, k2, nl);
            } else if k1 > nl + 1 && k2 > nl + 1 {
                assert(upper[(u + nu - (k1 - nl - 1)) % nu] == upper[(u + nu - (k2 - nl - 1)) % nu]);
                assert((u + (nu - (k1 - nl - 1))) % nu == (u + (nu - (k2 - nl - 1))) % nu);
                lemma_rotation_injective(u, nu - (k1 - nl - 1), nu - (k2 - nl - 1), nu);
            } else if (k1 < nl || k1 == nl) && (k2 > nl) {
                let x = o1.global_source_slot;
                assert(lower.contains(x));
                assert(upper.contains(x));
                assert(lower.to_set().contains(x) && upper.to_set().contains(x));
            } else if (k2 < nl || k2 == nl) && (k1 > nl) {
                let x = o1.global_source_slot;
                assert(lower.contains(x));
                assert(upper.contains(x));
                assert(lower.to_set().contains(x) && upper.to_set().contains(x));
            }
        }
    }
}

/// The first check that a target fails, or `None` when the search accepts it.
pub open spec fn target_error(t: OccurrenceIncidenceTarget) -> Option<Seq<char>> {
    let n = t.cut.occurrences@.len() as int;
    if n < 3 || t.incidences@.len() != n || t.cut.occurrence_to_global@.len() != n
        || t.cut.boundary_edges@.len() != n {
        Some("PIER target shape is invalid"@)
    } else if !key_matches(t) {
        Some("PIER target key mismatch"@)
    } else if t.lower@.len() < 3 || t.upper@.len() < 3 || !t.lower@.no_duplicates() || !t.upper@.no_duplicates()
        || !t.lower@.to_set().disjoint(t.upper@.to_set()) {
        Some("PIER boundaries are invalid"@)
    } else if !has_endpoint_in(t.lower@, t.cut.root_bridge) {
        Some("PIER root has no lower endpoint"@)
    } else if !has_endpoint_in(t.upper@, t.cut.root_bridge) {
        Some("PIER root has no upper endpoint"@)
    } else if !is_canonical_cut(t.cut, t.lower@, t.upper@) {
        Some("PIER cut is not canonical for its root bridge"@)
    } else if !incidences_valid(t.incidences@, n) {
        Some("PIER incidence sum is invalid"@)
    } else if !boundary_global_set(t.cut).disjoint(t.forbidden_global_edges@) {
        Some("PIER cut boundary contains a forbidden edge"@)
    } else {
        None
    }
}

fn slots_unique(v: &Vec<usize>) -> (r: bool)
    ensures
        r == v@.no_duplicates(),
{
    let mut seen: BTreeSet<usize> = BTreeSet::new();
    let mut unique = true;
    let mut i: usize = 0;
    while i < v.len()
        invariant
            i <= v@.len(),
            seen@ == v@.take(i as int).to_set(),
            unique == v@.take(i as int).no_duplicates(),
        decreases v@.len() - i,
    {
        let f = v[i];
        let ghost prefix = v@.take(i as int);
        proof {
            assert(v@.take(i + 1) =~= prefix.push(f));
            prefix.lemma_push_to_set_commute(f);
            if prefix.contains(f) {
                let k = choose|k: int| 0 <= k < prefix.len() && prefix[k] == f;
                assert(prefix.push(f)[k] == prefix.push(f)[prefix.len() as int]);
            }
        }
        if !seen.insert(f) {
            unique = false;
        }
        i = i + 1;
    }
    proof {
        assert(v@.take(v@.len() as int) =~= v@);
    }
    unique
}

fn slots_disjoint(a: &Vec<usize>, b: &Vec<usize>) -> (r: bool)
    ensures
        r == a@.to_set().disjoint(b@.to_set()),
{
    let mut i: usize = 0;
    while i < a.len()
        invariant
            i <= a@.len(),
            forall|k: int| 0 <= k < i ==> !b@.contains(#[trigger] a@[k]),
        decreases a@.len() - i,
    {
        if crate::graph::contains_usize(b, a[i]) {
            proof {
                assert(a@.to_set().contains(a@[i as int]));
            }
            return false;
        }
        i = i + 1;
    }
    proof {
        assert forall|x: usize| a@.to_set().contains(x) implies !b@.to_set().contains(x) by {
            let k = choose|k: int| 0 <= k < a@.len() && a@[k] == x;
            assert(!b@.contains(a@[k]));
        }
    }
    true
}

fn endpoint_in(slots: &Vec<usize>, e: Edge) -> (r: bool)
    ensures
        r == has_endpoint_in(slots@, e),
{
    let mut i: usize = 0;
    while i < slots.len()
        invariant
            i <= slots@.len(),
            forall|k: int| 0 <= k < i ==> !(slots@[k] == e.0 || slots@[k] == e.1),
        decreases slots@.len() - i,
    {
        if slots[i] == e.0 || slots[i] == e.1 {
            return true;
        }
        i = i + 1;
    }
    false
}

fn edges_equal(a: &Vec<Edge>, b: &Vec<Edge>) -> (r: bool)
    ensures
        r == (a@ == b@),
{
    if a.len() != b.len() {
        return false;
    }
    let mut i: usize = 0;
    while i < a.len()
        invariant
            i <= a@.len(),
            a@.len() == b@.len(),
            forall|k: int| 0 <= k < i ==> a@[k] == b@[k],
        decreases a@.len() - i,
    {
        if a[i].0 != b[i].0 || a[i].1 != b[i].1 {
            return false;
        }
        i = i + 1;
    }
    proof {
        assert(a@ =~= b@);
    }
    true
}

fn occurrences_equal(a: &Vec<VertexOccurrenceId>, b: &Vec<VertexOccurrenceId>) -> (r: bool)
    ensures
        r == (a@ == b@),
{
    if a.len() != b.len() {
        return false;
    }
    let mut i: usize = 0;
    while i < a.len()
        invariant
            i <= a@.len(),
            a@.len() == b@.len(),
            forall|k: int| 0 <= k < i ==> a@[k] == b@[k],
        decreases a@.len() - i,
    {
        if a[i] != b[i] {
            return false;
        }
        i = i + 1;
    }
    proof {
        assert(a@ =~= b@);
    }
    true
}

fn bytes_equal(a: &Vec<u8>, b: &Vec<u8>) -> (r: bool)
    ensures
        r == (a@ == b@),
{
    if a.len() != b.len() {
        return false;
    }
    let mut i: usize = 0;
    while i < a.len()
        invariant
            i <= a@.len(),
            a@.len() == b@.len(),
            forall|k: int| 0 <= k < i ==> a@[k] == b@[k],
        decreases a@.len() - i,
    {
        if a[i] != b[i] {
            return false;
        }
        i = i + 1;
    }
    proof {
        assert(a@ =~= b@);
    }
    true
}

fn key_matches_exec(target: &OccurrenceIncidenceTarget) -> (r: bool)
    ensures
        r == key_matches(*target),
{
    let key = &target.target_key;
    if key.root_bridge.0 != target.cut.root_bridge.0 || key.root_bridge.1 != target.cut.root_bridge.1 {
        return false;
    }
    if !occurrences_equal(&key.occurrences, &target.cut.occurrences)
        || !bytes_equal(&key.incidences, &target.incidences)
        || !crate::graph::seq_equal(&key.lower, &target.lower)
        || !crate::graph::seq_equal(&key.upper, &target.upper) {
        return false;
    }
    let listed = crate::cycles::edge_set_to_vec(&target.forbidden_global_edges);
    let same = edges_equal(&key.forbidden_global_edges, &listed);
    proof {
        if lists_in_order(key.forbidden_global_edges@, target.forbidden_global_edges@) {
            lemma_edges_sorted_unique(key.forbidden_global_edges@, listed@);
        }
    }
    same
}

fn incidences_valid_exec(inc: &Vec<u8>, n: usize) -> (r: bool)
    requires
        n >= 3,
    ensures
        r == incidences_valid(inc@, n as int),
{
    let mut i: usize = 0;
    while i < inc.len()
        invariant
            i <= inc@.len(),
            n >= 3,
            forall|k: int| 0 <= k < i ==> 1 <= #[trigger] inc@[k] <= n - 2,
        decreases inc@.len() - i,
    {
        if inc[i] == 0 || (inc[i] as usize) > n - 2 {
            return false;
        }
        i = i + 1;
    }
    let total = total_incidence(inc);
    total == 3 * ((n as u128) - 2)
}

fn boundary_avoids_forbidden(target: &OccurrenceIncidenceTarget) -> (r: bool)
    ensures
        r == boundary_global_set(target.cut).disjoint(target.forbidden_global_edges@),
{
    let edges = &target.cut.boundary_edges;
    let mut i: usize = 0;
    while i < edges.len()
        invariant
            i <= edges@.len(),
            edges == &target.cut.boundary_edges,
            forall|k: int| 0 <= k < i ==> !target.forbidden_global_edges@.contains(#[trigger] occurrence_edge_global(edges@[k])),
        decreases edges@.len() - i,
    {
        let e = global_edge(edges[i].a, edges[i].b);
        if target.forbidden_global_edges.contains(&e) {
            proof {
                assert(occurrence_edge_global(edges@[i as int]) == e);
                assert(boundary_global_set(target.cut).contains(e));
            }
            return false;
        }
        i = i + 1;
    }
    proof {
        assert forall|x: Edge| boundary_global_set(target.cut).contains(x) implies !target.forbidden_global_edges@.contains(x) by {
            let k = choose|k: int| 0 <= k < edges@.len() && #[trigger] occurrence_edge_global(edges@[k]) == x;
            assert(!target.forbidden_global_edges@.contains(occurrence_edge_global(edges@[k])));
        }
    }
    true
}

/// The index of the first slot that is an endpoint of `e`, which exists.
fn first_endpoint_exec(slots: &Vec<usize>, e: Edge) -> (i: usize)
    requires
        has_endpoint_in(slots@, e),
    ensures
        first_endpoint_at(slots@, e, i as int),
        i as int == first_endpoint(slots@, e),
{
    let mut i: usize = 0;
    while i < slots.len()
        invariant
            i <= slots@.len(),
            has_endpoint_in(slots@, e),
            forall|j: int| 0 <= j < i ==> !(#[trigger] slots@[j] == e.0 || slots@[j] == e.1),
        decreases slots@.len() - i,
    {
        if slots[i] == e.0 || slots[i] == e.1 {
            proof {
                let k = first_endpoint(slots@, e);
                assert(first_endpoint_at(slots@, e, i as int));
                assert(first_endpoint_at(slots@, e, k));
                if k < i {
                    assert(!(slots@[k] == e.0 || slots@[k] == e.1));
                }
                if i < k {
                    assert(!(slots@[i as int] == e.0 || slots@[i as int] == e.1));
                }
            }
            return i;
        }
        i = i + 1;
    }
    proof {
        let k = choose|k: int| 0 <= k < slots@.len() && (slots@[k] == e.0 || slots@[k] == e.1);
        assert(!(slots@[k] == e.0 || slots@[k] == e.1));
    }
    0
}

fn canonical_occurrence_exec(lower: &Vec<usize>, upper: &Vec<usize>, r: usize, u: usize, k: usize) -> (o: VertexOccurrenceId)
    requires
        r < lower@.len(),
        u < upper@.len(),
        k < lower@.len() + upper@.len() + 2,
        lower@.len() + upper@.len() + 2 <= usize::MAX,
    ensures
        o == canonical_occurrence(lower@, upper@, r as int, u as int, k as int),
{
    let nl = lower.len();
    let nu = upper.len();
    if k < nl {
        let idx = if k < nl - r { r + k } else { k - (nl - r) };
        proof {
            let (ri, ki, ni) = (r as int, k as int, nl as int);
            assert(idx as int == (ri + ki) % ni) by (nonlinear_arith)
                requires 0 <= ri < ni, 0 <= ki < ni, idx as int == (if ki < ni - ri { ri + ki } else { ki - (ni - ri) });
        }
        VertexOccurrenceId { global_source_slot: lower[idx], occurrence_ordinal: 0 }
    } else if k == nl {
        VertexOccurrenceId { global_source_slot: lower[r], occurrence_ordinal: 1 }
    } else if k == nl + 1 {
        VertexOccurrenceId { global_source_slot: upper[u], occurrence_ordinal: 1 }
    } else {
        let j = k - nl - 1;
        let idx = if j <= u { u - j } else { u + (nu - j) };
        proof {
            let (ui, ji, ni) = (u as int, j as int, nu as int);
            assert(idx as int == (ui + ni - ji) % ni) by (nonlinear_arith)
                requires 0 <= ui < ni, 1 <= ji <= ni, idx as int == (if ji <= ui { ui - ji } else { ui + (ni - ji) });
        }
        VertexOccurrenceId { global_source_slot: upper[idx], occurrence_ordinal: 0 }
    }
}

fn same_occurrence(a: VertexOccurrenceId, b: VertexOccurrenceId) -> (r: bool)
    ensures
        r == (a == b),
{
    a.global_source_slot == b.global_source_slot && a.occurrence_ordinal == b.occurrence_ordinal
}

/// Whether the target's cut is the canonical cut for its root bridge.
fn cut_is_canonical(target: &OccurrenceIncidenceTarget) -> (r: bool)
    requires
        has_endpoint_in(target.lower@, target.cut.root_bridge),
        has_endpoint_in(target.upper@, target.cut.root_bridge),
    ensures
        r == is_canonical_cut(target.cut, target.lower@, target.upper@),
{
    let lower = &target.lower;
    let upper = &target.upper;
    let cut = &target.cut;
    let r = first_endpoint_exec(lower, cut.root_bridge);
    let u = first_endpoint_exec(upper, cut.root_bridge);
    let root = crate::graph::sorted(lower[r], upper[u]);
    if root.0 != cut.root_bridge.0 || root.1 != cut.root_bridge.1 {
        return false;
    }
    let listed = cut.occurrences.len();
    if upper.len() > usize::MAX - 2 || lower.len() > usize::MAX - 2 - upper.len() {
        proof {
            assert(listed == cut.occurrences@.len());
        }
        return false;
    }
    let n = lower.len() + upper.len() + 2;
    if cut.occurrences.len() != n || cut.occurrence_to_global.len() != n || cut.boundary_edges.len() != n {
        return false;
    }
    let mut k: usize = 0;
    while k < n
        invariant
            lower == &target.lower,
            upper == &target.upper,
            cut == &target.cut,
            r as int == first_endpoint(lower@, cut.root_bridge),
            u as int == first_endpoint(upper@, cut.root_bridge),
            r < lower@.len(),
            u < upper@.len(),
            n == lower@.len() + upper@.len() + 2,
            cut.occurrences@.len() == n,
            cut.occurrence_to_global@.len() == n,
            cut.boundary_edges@.len() == n,
            cut.root_bridge == crate::graph::sorted_spec(lower@[r as int], upper@[u as int]),
            k <= n,
            forall|j: int| 0 <= j < k ==> #[trigger] cut.occurrences@[j] == canonical_occurrence(lower@, upper@, r as int, u as int, j),
            forall|j: int| 0 <= j < k ==> #[trigger] cut.occurrence_to_global@[j] == canonical_occurrence(lower@, upper@, r as int, u as int, j).global_source_slot,
            forall|j: int| 0 <= j < k ==> #[trigger] cut.boundary_edges@[j] == (OccurrenceEdge {
                a: canonical_occurrence(lower@, upper@, r as int, u as int, j),
                b: canonical_occurrence(lower@, upper@, r as int, u as int, (j + 1) % (n as int)),
            }),
        decreases n - k,
    {
        let o = canonical_occurrence_exec(lower, upper, r, u, k);
        let next = if k + 1 == n { 0 } else { k + 1 };
        let o2 = canonical_occurrence_exec(lower, upper, r, u, next);
        proof {
            let (ki, ni) = (k as int, n as int);
            assert(next as int == (ki + 1) % ni) by (nonlinear_arith)
                requires 0 <= ki < ni, next as int == (if ki + 1 == ni { 0 } else { ki + 1 });
        }
        if !same_occurrence(cut.occurrences[k], o) || cut.occurrence_to_global[k] != o.global_source_slot
            || !same_occurrence(cut.boundary_edges[k].a, o) || !same_occurrence(cut.boundary_edges[k].b, o2) {
            return false;
        }
        k = k + 1;
    }
    true
}

/// Check a target; the error names the first failed check.
pub fn validate_target(target: &OccurrenceIncidenceTarget) -> (r: Result<(), String>)
    ensures
        r is Ok <==> target_error(*target) is None,
        r matches Err(reason) ==> target_error(*target) == Some(reason@),
{
    let size = target.cut.occurrences.len();
    if size < 3 || target.incidences.len() != size || target.cut.occurrence_to_global.len() != size
        || target.cut.boundary_edges.len() != size {
        return Err("PIER target shape is invalid".to_string());
    }
    if !key_matches_exec(target) {
        return Err("PIER target key mismatch".to_string());
    }
    if target.lower.len() < 3 || target.upper.len() < 3 || !slots_unique(&target.lower)
        || !slots_unique(&target.upper) || !slots_disjoint(&target.lower, &target.upper) {
        return Err("PIER boundaries are invalid".to_string());
    }
    if !endpoint_in(&target.lower, target.cut.root_bridge) {
        return Err("PIER root has no lower endpoint".to_string());
    }
    if !endpoint_in(&target.upper, target.cut.root_bridge) {
        return Err("PIER root has no upper endpoint".to_string());
    }
    if !cut_is_canonical(target) {
        return Err("PIER cut is not canonical for its root bridge".to_string());
    }
    if !incidences_valid_exec(&target.incidences, size) {
        return Err("PIER incidence sum is invalid".to_string());
    }
    if !boundary_avoids_forbidden(target) {
        return Err("PIER cut boundary contains a forbidden edge".to_string());
    }
    Ok(())
}


impl OccurrenceIncidenceTarget {
    /// A target with the key that its fields determine.
    pub fn new(lower: Vec<usize>, upper: Vec<usize>, cut: CutAnnulusPolygon, incidences: Vec<u8>,
        forbidden_global_edges: BTreeSet<Edge>) -> (t: Self)
        ensures
            t.lower@ == lower@,
            t.upper@ == upper@,
            t.cut.root_bridge == cut.root_bridge,
            t.cut.boundary_edges@ == cut.boundary_edges@,
            t.cut.occurrence_to_global@ == cut.occurrence_to_global@,
            t.cut.occurrences@ == cut.occurrences@,
            t.incidences@ == incidences@,
            t.forbidden_global_edges@ == forbidden_global_edges@,
            key_matches(t),
    {
        let listed = crate::cycles::edge_set_to_vec(&forbidden_global_edges);
        let target_key = OccurrenceIncidenceTargetKey {
            root_bridge: cut.root_bridge,
            occurrences: crate::graph::copy_vec(&cut.occurrences),
            incidences: crate::graph::copy_vec(&incidences),
            lower: crate::graph::copy_vec(&lower),
            upper: crate::graph::copy_vec(&upper),
            forbidden_global_edges: listed,
        };
        OccurrenceIncidenceTarget { lower, upper, cut, incidences, forbidden_global_edges, target_key }
    }
}

fn slot_set(v: &Vec<usize>) -> (s: BTreeSet<usize>)
    ensures
        s@ == v@.to_set(),
{
    let mut s: BTreeSet<usize> = BTreeSet::new();
    let mut i: usize = 0;
    while i < v.len()
        invariant
            i <= v@.len(),
            s@ == v@.take(i as int).to_set(),
        decreases v@.len() - i,
    {
        proof {
            assert(v@.take(i + 1) =~= v@.take(i as int).push(v@[i as int]));
            v@.take(i as int).lemma_push_to_set_commute(v@[i as int]);
        }
        s.insert(v[i]);
        i = i + 1;
    }
    proof {
        assert(v@.take(v@.len() as int) =~= v@);
    }
    s
}

fn boundary_edge_set(cut: &CutAnnulusPolygon) -> (s: BTreeSet<Edge>)
    ensures
        s@ == boundary_global_set(*cut),
{
    let mut s: BTreeSet<Edge> = BTreeSet::new();
    let mut i: usize = 0;
    while i < cut.boundary_edges.len()
        invariant
            i <= cut.boundary_edges@.len(),
            s@ == Set::new(|e: Edge| exists|k: int| 0 <= k < i
                && #[trigger] occurrence_edge_global(cut.boundary_edges@[k]) == e),
        decreases cut.boundary_edges@.len() - i,
    {
        let e = global_edge(cut.boundary_edges[i].a, cut.boundary_edges[i].b);
        s.insert(e);
        proof {
            assert(occurrence_edge_global(cut.boundary_edges@[i as int]) == e);
            assert(s@ =~= Set::new(|x: Edge| exists|k: int| 0 <= k < i + 1
                && #[trigger] occurrence_edge_global(cut.boundary_edges@[k]) == x));
        }
        i = i + 1;
    }
    proof {
        assert(s@ =~= boundary_global_set(*cut));
    }
    s
}

impl<'a> SearchContext<'a> {
    /// The context of a valid target, or the first check that it fails.
    pub fn new(target: &'a OccurrenceIncidenceTarget) -> (r: Result<SearchContext<'a>, String>)
        ensures
            r is Ok <==> target_error(*target) is None,
            r matches Err(reason) ==> target_error(*target) == Some(reason@),
            r matches Ok(c) ==> context_of(c, *target),
    {
        validate_target(target)?;
        Ok(SearchContext {
            target,
            lower: slot_set(&target.lower),
            upper: slot_set(&target.upper),
            boundary_global_edges: boundary_edge_set(&target.cut),
        })
    }
}

/// `c` is the search context of `t`.
pub open spec fn context_of(c: SearchContext, t: OccurrenceIncidenceTarget) -> bool {
    &&& *c.target == t
    &&& c.lower@ == t.lower@.to_set()
    &&& c.upper@ == t.upper@.to_set()
    &&& c.boundary_global_edges@ == boundary_global_set(t.cut)
}

/// The start of a search: the whole cut polygon, nothing cut off.
fn initial_state(target: &OccurrenceIncidenceTarget) -> (s: PolygonIncidenceState)
    ensures
        s.occurrences@ == target.cut.occurrences@,
        s.remaining_incidences@ == target.incidences@,
        s.triangles@ == Seq::<OccurrenceTriangle>::empty(),
        s.inserted_global_edges@ == Set::<Edge>::empty(),
        s.state_key.occurrences@ == s.occurrences@,
        s.state_key.remaining_incidences@ == s.remaining_incidences@,
        s.state_key.inserted_global_edges@ == s.inserted_global_edges@,
{
    build_state(crate::graph::copy_vec(&target.cut.occurrences), crate::graph::copy_vec(&target.incidences),
        Vec::new(), BTreeSet::new())
}

/// Counters before any state is examined.
fn empty_evidence() -> (e: PolygonIncidenceEvidence)
    ensures
        e.states == 0 && e.ears_considered == 0 && e.constraint_rejects == 0 && e.duplicate_states == 0,
        e.maximum_frontier == 1,
        e.outcome == PolygonIncidenceOutcomeKind::SearchIncomplete,
{
    PolygonIncidenceEvidence {
        states: 0,
        ears_considered: 0,
        constraint_rejects: 0,
        duplicate_states: 0,
        maximum_frontier: 1,
        outcome: PolygonIncidenceOutcomeKind::SearchIncomplete,
    }
}


// ---------------------------------------------------------------------------
// Incidence bookkeeping

/// The triangle has `o` as a corner.
pub open spec fn tri_has(t: OccurrenceTriangle, o: VertexOccurrenceId) -> bool {
    t[0] == o || t[1] == o || t[2] == o
}

/// How many triangles of `ts` have `o` as a corner.
pub open spec fn tri_count(ts: Seq<OccurrenceTriangle>, o: VertexOccurrenceId) -> nat
    decreases ts.len(),
{
    if ts.len() == 0 {
        0
    } else {
        tri_count(ts.drop_last(), o) + if tri_has(ts.last(), o) { 1nat } else { 0nat }
    }
}

/// The incidence that `inc` gives, in total, to the positions of `occ` that hold `o`.
pub open spec fn occ_weight(occ: Seq<VertexOccurrenceId>, inc: Seq<u8>, o: VertexOccurrenceId) -> int
    decreases occ.len(),
{
    if occ.len() == 0 {
        0
    } else {
        occ_weight(occ.drop_last(), inc, o) + if occ.last() == o { inc[occ.len() - 1] as int } else { 0 }
    }
}

proof fn lemma_tri_count_insert(ts: Seq<OccurrenceTriangle>, p: int, t: OccurrenceTriangle, o: VertexOccurrenceId)
    requires
        0 <= p <= ts.len(),
    ensures
        tri_count(ts.insert(p, t), o) == tri_count(ts, o) + if tri_has(t, o) { 1nat } else { 0nat },
    decreases ts.len(),
{
    let u = ts.insert(p, t);
    if p == ts.len() {
        assert(u.drop_last() =~= ts);
        assert(u.last() == t);
    } else {
        assert(u.drop_last() =~= ts.drop_last().insert(p, t));
        assert(u.last() == ts.last());
        lemma_tri_count_insert(ts.drop_last(), p, t, o);
    }
}

proof fn lemma_weight_lookup(occ: Seq<VertexOccurrenceId>, a: Seq<u8>, b: Seq<u8>, o: VertexOccurrenceId)
    requires
        forall|k: int| 0 <= k < occ.len() ==> a[k] == b[k],
    ensures
        occ_weight(occ, a, o) == occ_weight(occ, b, o),
    decreases occ.len(),
{
    if occ.len() > 0 {
        lemma_weight_lookup(occ.drop_last(), a, b, o);
    }
}

proof fn lemma_weight_update(occ: Seq<VertexOccurrenceId>, inc: Seq<u8>, i: int, v: u8, o: VertexOccurrenceId)
    requires
        0 <= i < occ.len() <= inc.len(),
    ensures
        occ_weight(occ, inc.update(i, v), o) == occ_weight(occ, inc, o) + if occ[i] == o { v - inc[i] } else { 0 },
    decreases occ.len(),
{
    if i == occ.len() - 1 {
        lemma_weight_lookup(occ.drop_last(), inc.update(i, v), inc, o);
    } else {
        lemma_weight_update(occ.drop_last(), inc, i, v, o);
    }
}

proof fn lemma_weight_remove(occ: Seq<VertexOccurrenceId>, inc: Seq<u8>, e: int, o: VertexOccurrenceId)
    requires
        0 <= e < occ.len() <= inc.len(),
    ensures
        occ_weight(occ.remove(e), inc.remove(e), o) == occ_weight(occ, inc, o) - if occ[e] == o { inc[e] as int } else { 0 },
    decreases occ.len(),
{
    let n = occ.len();
    if e == n - 1 {
        assert(occ.remove(e) =~= occ.drop_last());
        lemma_weight_lookup(occ.drop_last(), inc.remove(e), inc, o);
    } else {
        assert(occ.remove(e).drop_last() =~= occ.drop_last().remove(e));
        assert(occ.remove(e).last() == occ.last());
        assert(inc.remove(e)[n - 2] == inc[n - 1]);
        lemma_weight_remove(occ.drop_last(), inc, e, o);
    }
}

/// Three distinct slots make three distinct occurrences.
proof fn lemma_three_weights(occ: Seq<VertexOccurrenceId>, o: VertexOccurrenceId)
    requires
        occ.len() == 3,
        slots_distinct(occ[0], occ[1], occ[2]),
    ensures
        occ_weight(occ, seq![1u8, 1u8, 1u8], o) == if tri_has([occ[0], occ[1], occ[2]], o) { 1int } else { 0int },
{
    let inc = seq![1u8, 1u8, 1u8];
    let o2 = occ.drop_last();
    let o1 = o2.drop_last();
    let o0 = o1.drop_last();
    assert(o0.len() == 0);
    assert(occ_weight(o0, inc, o) == 0);
    assert(o1.last() == occ[0]);
    assert(occ_weight(o1, inc, o) == if occ[0] == o { 1int } else { 0int });
    assert(o2.last() == occ[1]);
    assert(occ_weight(o2, inc, o) == occ_weight(o1, inc, o) + if occ[1] == o { 1int } else { 0int });
    assert(occ.last() == occ[2]);
    assert(occ_weight(occ, inc, o) == occ_weight(o2, inc, o) + if occ[2] == o { 1int } else { 0int });
    let t: OccurrenceTriangle = [occ[0], occ[1], occ[2]];
    assert(t[0] == occ[0] && t[1] == occ[1] && t[2] == occ[2]);
}

/// A well-formed search state: one incidence per occurrence, at least a
/// triangle left, sorted triangles, one triangle per removed occurrence, and
/// a key that names it.
pub open spec fn state_wf(t: OccurrenceIncidenceTarget, s: PolygonIncidenceState) -> bool {
    &&& s.occurrences@.len() == s.remaining_incidences@.len()
    &&& s.occurrences@.len() >= 3
    &&& triangles_sorted(s.triangles@)
    &&& s.triangles@.len() + s.occurrences@.len() == t.cut.occurrences@.len()
    &&& s.state_key.occurrences@ == s.occurrences@
    &&& s.state_key.remaining_incidences@ == s.remaining_incidences@
    &&& s.state_key.inserted_global_edges@ == s.inserted_global_edges@
}

/// A search state that the search can reach: its incidences and triangles
/// together still give every occurrence the incidence that the target asks.
#[verifier::opaque]
pub open spec fn state_conserves(t: OccurrenceIncidenceTarget, s: PolygonIncidenceState) -> bool {
    &&& state_wf(t, s)
    &&& forall|o: VertexOccurrenceId| #[trigger] tri_count(s.triangles@, o)
        + occ_weight(s.occurrences@, s.remaining_incidences@, o) == occ_weight(t.cut.occurrences@, t.incidences@, o)
}


proof fn lemma_ear_wf(t: OccurrenceIncidenceTarget, s: PolygonIncidenceState, c: PolygonIncidenceState, ear: int)
    requires
        state_wf(t, s),
        s.occurrences@.len() > 3,
        0 <= ear < s.occurrences@.len(),
        ear_child_of(s, ear, c),
    ensures
        state_wf(t, c),
{
    reveal(ear_child_of);
    let occ = s.occurrences@;
    let n = occ.len() as int;
    let (q, tri) = choose|q: int, tri: OccurrenceTriangle| 0 <= q <= s.triangles@.len() && c.triangles@ == s.triangles@.insert(q, tri)
        && permutation3(tri, [occ[ear_prev(n, ear)], occ[ear], occ[ear_next(n, ear)]]) && occurrence_le(tri[0], tri[1]) && occurrence_le(tri[1], tri[2]);
    lemma_ear_neighbours(n, ear);
}

/// The triangles give every occurrence exactly the incidence that the target asks.
pub open spec fn realizes(t: OccurrenceIncidenceTarget, ts: Seq<OccurrenceTriangle>) -> bool {
    forall|o: VertexOccurrenceId| #[trigger] tri_count(ts, o) == occ_weight(t.cut.occurrences@, t.incidences@, o)
}

proof fn lemma_ear_conserves(t: OccurrenceIncidenceTarget, s: PolygonIncidenceState, c: PolygonIncidenceState, ear: int)
    requires
        state_conserves(t, s),
        s.occurrences@.len() > 3,
        0 <= ear < s.occurrences@.len(),
        s.remaining_incidences@[ear] == 1,
        s.remaining_incidences@[ear_prev(s.occurrences@.len() as int, ear)] >= 2,
        s.remaining_incidences@[ear_next(s.occurrences@.len() as int, ear)] >= 2,
        slots_distinct(s.occurrences@[ear_prev(s.occurrences@.len() as int, ear)], s.occurrences@[ear],
            s.occurrences@[ear_next(s.occurrences@.len() as int, ear)]),
        ear_child_of(s, ear, c),
    ensures
        state_conserves(t, c),
{
    reveal(state_conserves);
    reveal(ear_child_of);
    let occ = s.occurrences@;
    let rem = s.remaining_incidences@;
    let n = occ.len() as int;
    let p = ear_prev(n, ear);
    let x = ear_next(n, ear);
    lemma_ear_neighbours(n, ear);
    let (q, tri) = choose|q: int, tri: OccurrenceTriangle| 0 <= q <= s.triangles@.len() && c.triangles@ == s.triangles@.insert(q, tri)
        && permutation3(tri, [occ[p], occ[ear], occ[x]]) && occurrence_le(tri[0], tri[1]) && occurrence_le(tri[1], tri[2]);
    let r1 = rem.update(p, (rem[p] - 1) as u8);
    let r2 = r1.update(x, (r1[x] - 1) as u8);
    assert(ear_remaining(rem, n, ear) == r2.remove(ear));
    assert forall|o: VertexOccurrenceId| #[trigger] tri_count(c.triangles@, o)
        + occ_weight(c.occurrences@, c.remaining_incidences@, o) == occ_weight(t.cut.occurrences@, t.incidences@, o) by {
        lemma_tri_count_insert(s.triangles@, q, tri, o);
        lemma_weight_update(occ, rem, p, (rem[p] - 1) as u8, o);
        lemma_weight_update(occ, r1, x, (r1[x] - 1) as u8, o);
        lemma_weight_remove(occ, r2, ear, o);
        assert(tri_count(s.triangles@, o) + occ_weight(occ, rem, o) == occ_weight(t.cut.occurrences@, t.incidences@, o));
        assert(r2[ear] == 1);
        assert(r1[x] == rem[x]);
        assert(tri_has(tri, o) <==> (occ[p] == o || occ[ear] == o || occ[x] == o));
        assert(occ[p] != occ[ear] && occ[p] != occ[x] && occ[ear] != occ[x]);
    }
}


// ---------------------------------------------------------------------------
// Order and identity of search states

/// Lexicographic order of two sequences under the element order `lt`; a
/// proper prefix comes first.
pub open spec fn lex_lt<T>(a: Seq<T>, b: Seq<T>, lt: spec_fn(T, T) -> bool) -> bool
    decreases a.len(),
{
    if a.len() == 0 {
        b.len() > 0
    } else if b.len() == 0 {
        false
    } else if a[0] == b[0] {
        lex_lt(a.drop_first(), b.drop_first(), lt)
    } else {
        lt(a[0], b[0])
    }
}

proof fn lemma_lex_total<T>(a: Seq<T>, b: Seq<T>, lt: spec_fn(T, T) -> bool)
    requires
        forall|x: T, y: T| x != y ==> #[trigger] lt(x, y) || lt(y, x),
        a != b,
    ensures
        lex_lt(a, b, lt) || lex_lt(b, a, lt),
    decreases a.len(),
{
    if a.len() == 0 {
        assert(b.len() > 0) by {
            if b.len() == 0 {
                assert(a =~= b);
            }
        }
    } else if b.len() == 0 {
    } else if a[0] == b[0] {
        assert(a.drop_first() != b.drop_first()) by {
            if a.drop_first() == b.drop_first() {
                assert(a.drop_first().len() == b.drop_first().len());
                assert(a.len() == b.len());
                assert(a =~= b) by {
                    assert forall|i: int| 0 <= i < a.len() implies a[i] == b[i] by {
                        if i > 0 {
                            assert(a[i] == a.drop_first()[i - 1]);
                            assert(b[i] == b.drop_first()[i - 1]);
                        }
                    }
                }
            }
        }
        lemma_lex_total(a.drop_first(), b.drop_first(), lt);
    } else {
        assert(lt(a[0], b[0]) || lt(b[0], a[0]));
    }
}

/// Occurrence sequences in lexicographic order.
pub open spec fn occ_seq_lt(a: Seq<VertexOccurrenceId>, b: Seq<VertexOccurrenceId>) -> bool {
    lex_lt(a, b, |x: VertexOccurrenceId, y: VertexOccurrenceId| occurrence_lt(x, y))
}

/// Byte sequences in lexicographic order.
pub open spec fn bytes_lt(a: Seq<u8>, b: Seq<u8>) -> bool {
    lex_lt(a, b, |x: u8, y: u8| x < y)
}

/// Edge sequences in lexicographic order.
pub open spec fn edge_seq_lt(a: Seq<Edge>, b: Seq<Edge>) -> bool {
    lex_lt(a, b, |x: Edge, y: Edge| crate::graph::edge_lt(x, y))
}

/// The edges of a finite set in increasing order.
pub open spec fn edge_listing(s: Set<Edge>) -> Seq<Edge> {
    choose|q: Seq<Edge>| lists_in_order(q, s)
}

/// The order of state keys: by occurrences, then incidences, then inserted
/// edges in increasing order.
#[verifier::opaque]
pub open spec fn key_lt(a: PolygonIncidenceStateKey, b: PolygonIncidenceStateKey) -> bool {
    ||| occ_seq_lt(a.occurrences@, b.occurrences@)
    ||| a.occurrences@ == b.occurrences@ && bytes_lt(a.remaining_incidences@, b.remaining_incidences@)
    ||| a.occurrences@ == b.occurrences@ && a.remaining_incidences@ == b.remaining_incidences@
        && edge_seq_lt(edge_listing(a.inserted_global_edges@), edge_listing(b.inserted_global_edges@))
}

/// Two keys name the same state.
pub open spec fn key_same(a: PolygonIncidenceStateKey, b: PolygonIncidenceStateKey) -> bool {
    a.occurrences@ == b.occurrences@ && a.remaining_incidences@ == b.remaining_incidences@
        && a.inserted_global_edges@ == b.inserted_global_edges@
}

proof fn lemma_listing(v: Seq<Edge>, s: Set<Edge>)
    requires
        lists_in_order(v, s),
    ensures
        edge_listing(s) == v,
{
    let q = edge_listing(s);
    assert(lists_in_order(q, s));
    lemma_edges_sorted_unique(q, v);
}

proof fn lemma_key_total(a: PolygonIncidenceStateKey, b: PolygonIncidenceStateKey)
    requires
        !key_same(a, b),
        a.inserted_global_edges@.finite(),
        b.inserted_global_edges@.finite(),
    ensures
        key_lt(a, b) || key_lt(b, a),
{
    reveal(key_lt);
    let fo = |x: VertexOccurrenceId, y: VertexOccurrenceId| occurrence_lt(x, y);
    let fb = |x: u8, y: u8| x < y;
    let fe = |x: Edge, y: Edge| crate::graph::edge_lt(x, y);
    if a.occurrences@ != b.occurrences@ {
        lemma_lex_total(a.occurrences@, b.occurrences@, fo);
    } else if a.remaining_incidences@ != b.remaining_incidences@ {
        lemma_lex_total(a.remaining_incidences@, b.remaining_incidences@, fb);
    } else {
        lemma_has_listing(a.inserted_global_edges@);
        lemma_has_listing(b.inserted_global_edges@);
        let la = edge_listing(a.inserted_global_edges@);
        let lb = edge_listing(b.inserted_global_edges@);
        assert(la != lb) by {
            if la == lb {
                assert(a.inserted_global_edges@ == b.inserted_global_edges@);
            }
        }
        lemma_lex_total(la, lb, fe);
    }
}

proof fn lemma_has_listing(s: Set<Edge>)
    requires
        s.finite(),
    ensures
        lists_in_order(edge_listing(s), s),
    decreases s.len(),
{
    let v = sorted_listing_witness(s);
    assert(lists_in_order(v, s));
}

proof fn sorted_listing_witness(s: Set<Edge>) -> (v: Seq<Edge>)
    requires
        s.finite(),
    ensures
        lists_in_order(v, s),
    decreases s.len(),
{
    if s.len() == 0 {
        assert(Seq::<Edge>::empty().to_set() =~= s);
        Seq::<Edge>::empty()
    } else {
        let m = edge_set_max(s);
        let rest = sorted_listing_witness(s.remove(m));
        let v = rest.push(m);
        assert forall|i: int, j: int| 0 <= i < j < v.len() implies crate::graph::edge_lt(v[i], v[j]) by {
            if j == v.len() - 1 {
                assert(rest.to_set().contains(rest[i]));
            }
        }
        rest.lemma_push_to_set_commute(m);
        assert(v.to_set() =~= s);
        v
    }
}

proof fn edge_set_max(s: Set<Edge>) -> (m: Edge)
    requires
        s.finite(),
        s.len() > 0,
    ensures
        s.contains(m),
        forall|x: Edge| s.contains(x) && x != m ==> crate::graph::edge_lt(x, m),
    decreases s.len(),
{
    let a = s.choose();
    if s.len() == 1 {
        assert(s.remove(a).len() == 0);
        assert forall|x: Edge| s.contains(x) implies x == a by {
            if x != a {
                assert(s.remove(a).contains(x));
            }
        }
        a
    } else {
        let m = edge_set_max(s.remove(a));
        if crate::graph::edge_lt(a, m) { m } else { a }
    }
}

fn occurrences_lt(a: &Vec<VertexOccurrenceId>, b: &Vec<VertexOccurrenceId>) -> (r: bool)
    ensures
        r == occ_seq_lt(a@, b@),
{
    let mut i: usize = 0;
    proof {
        assert(a@.skip(0) =~= a@);
        assert(b@.skip(0) =~= b@);
    }
    while i < a.len() && i < b.len()
        invariant
            i <= a@.len() && i <= b@.len(),
            occ_seq_lt(a@, b@) == occ_seq_lt(a@.skip(i as int), b@.skip(i as int)),
        decreases a@.len() - i,
    {
        if a[i] != b[i] {
            proof {
                assert(a@.skip(i as int)[0] == a@[i as int] && b@.skip(i as int)[0] == b@[i as int]);
            }
            return occurrence_le_exec(a[i], b[i]);
        }
        proof {
            assert(a@.skip(i as int).drop_first() =~= a@.skip(i + 1));
            assert(b@.skip(i as int).drop_first() =~= b@.skip(i + 1));
        }
        i = i + 1;
    }
    a.len() < b.len()
}

fn bytes_seq_lt(a: &Vec<u8>, b: &Vec<u8>) -> (r: bool)
    ensures
        r == bytes_lt(a@, b@),
{
    let mut i: usize = 0;
    proof {
        assert(a@.skip(0) =~= a@);
        assert(b@.skip(0) =~= b@);
    }
    while i < a.len() && i < b.len()
        invariant
            i <= a@.len() && i <= b@.len(),
            bytes_lt(a@, b@) == bytes_lt(a@.skip(i as int), b@.skip(i as int)),
        decreases a@.len() - i,
    {
        if a[i] != b[i] {
            proof {
                assert(a@.skip(i as int)[0] == a@[i as int] && b@.skip(i as int)[0] == b@[i as int]);
            }
            return a[i] < b[i];
        }
        proof {
            assert(a@.skip(i as int).drop_first() =~= a@.skip(i + 1));
            assert(b@.skip(i as int).drop_first() =~= b@.skip(i + 1));
        }
        i = i + 1;
    }
    a.len() < b.len()
}

fn edges_seq_lt(a: &Vec<Edge>, b: &Vec<Edge>) -> (r: bool)
    ensures
        r == edge_seq_lt(a@, b@),
{
    let mut i: usize = 0;
    proof {
        assert(a@.skip(0) =~= a@);
        assert(b@.skip(0) =~= b@);
    }
    while i < a.len() && i < b.len()
        invariant
            i <= a@.len() && i <= b@.len(),
            edge_seq_lt(a@, b@) == edge_seq_lt(a@.skip(i as int), b@.skip(i as int)),
        decreases a@.len() - i,
    {
        if a[i].0 != b[i].0 || a[i].1 != b[i].1 {
            proof {
                assert(a@.skip(i as int)[0] == a@[i as int] && b@.skip(i as int)[0] == b@[i as int]);
            }
            return a[i].0 < b[i].0 || (a[i].0 == b[i].0 && a[i].1 < b[i].1);
        }
        proof {
            assert(a@.skip(i as int).drop_first() =~= a@.skip(i + 1));
            assert(b@.skip(i as int).drop_first() =~= b@.skip(i + 1));
        }
        i = i + 1;
    }
    a.len() < b.len()
}

/// Whether two keys name the same state.
fn keys_same(a: &PolygonIncidenceStateKey, b: &PolygonIncidenceStateKey) -> (r: bool)
    ensures
        r == key_same(*a, *b),
{
    if !occurrences_equal(&a.occurrences, &b.occurrences) || !bytes_equal(&a.remaining_incidences, &b.remaining_incidences) {
        return false;
    }
    let la = crate::cycles::edge_set_to_vec(&a.inserted_global_edges);
    let lb = crate::cycles::edge_set_to_vec(&b.inserted_global_edges);
    let same = edges_equal(&la, &lb);
    proof {
        if a.inserted_global_edges@ == b.inserted_global_edges@ {
            lemma_edges_sorted_unique(la@, lb@);
        }
    }
    same
}

/// Whether key `a` comes before key `b`.
fn keys_lt(a: &PolygonIncidenceStateKey, b: &PolygonIncidenceStateKey) -> (r: bool)
    ensures
        r == key_lt(*a, *b),
{
    reveal(key_lt);
    if occurrences_lt(&a.occurrences, &b.occurrences) {
        return true;
    }
    if !occurrences_equal(&a.occurrences, &b.occurrences) {
        return false;
    }
    if bytes_seq_lt(&a.remaining_incidences, &b.remaining_incidences) {
        return true;
    }
    if !bytes_equal(&a.remaining_incidences, &b.remaining_incidences) {
        return false;
    }
    let la = crate::cycles::edge_set_to_vec(&a.inserted_global_edges);
    let lb = crate::cycles::edge_set_to_vec(&b.inserted_global_edges);
    proof {
        lemma_listing(la@, a.inserted_global_edges@);
        lemma_listing(lb@, b.inserted_global_edges@);
    }
    edges_seq_lt(&la, &lb)
}


/// A tree set of edges holds finitely many elements.
proof fn lemma_edge_set_finite(s: &BTreeSet<Edge>)
    ensures
        s@.finite(),
{
    let r = vstd::std_specs::btree::spec_btree_keys_iter(s).remaining();
    assert(r.unref().to_set() == s@);
    vstd::seq_lib::seq_to_set_is_finite(r.unref());
}

/// `a + k`, held at the largest `u64`.
pub open spec fn sat_add(a: u64, k: int) -> u64 {
    if a + k > u64::MAX { u64::MAX } else { (a + k) as u64 }
}

/// How many of the first `k` positions hold incidence one.
pub open spec fn ones_before(rem: Seq<u8>, k: int) -> nat
    decreases k,
{
    if k <= 0 { 0 } else { ones_before(rem, k - 1) + if rem[k - 1] == 1 { 1nat } else { 0nat } }
}

/// How many of the first `k` positions hold incidence one and cannot be cut off.
pub open spec fn rejects_before(context: SearchContext, state: PolygonIncidenceState, k: int) -> nat
    decreases k,
{
    if k <= 0 {
        0
    } else {
        rejects_before(context, state, k - 1)
            + if state.remaining_incidences@[k - 1] == 1 && !ear_accepted(context, state, k - 1) { 1nat } else { 0nat }
    }
}

proof fn lemma_counts_bounded(context: SearchContext, state: PolygonIncidenceState, k: int)
    requires
        k >= 0,
    ensures
        rejects_before(context, state, k) <= ones_before(state.remaining_incidences@, k) <= k,
    decreases k,
{
    if k > 0 {
        lemma_counts_bounded(context, state, k - 1);
    }
}

/// `k` names a state already among `seen`.
pub open spec fn key_among(seen: Seq<PolygonIncidenceStateKey>, k: PolygonIncidenceStateKey) -> bool {
    exists|j: int| 0 <= j < seen.len() && key_same(#[trigger] seen[j], k)
}

fn seen_contains(seen: &Vec<PolygonIncidenceStateKey>, k: &PolygonIncidenceStateKey) -> (r: bool)
    ensures
        r == key_among(seen@, *k),
{
    let mut j: usize = 0;
    while j < seen.len()
        invariant
            j <= seen@.len(),
            forall|i: int| 0 <= i < j ==> !key_same(#[trigger] seen@[i], *k),
        decreases seen@.len() - j,
    {
        if keys_same(&seen[j], k) {
            return true;
        }
        j = j + 1;
    }
    false
}

/// The states that `push_children` adds: the children of ears with
/// incidence one that are allowed and not seen before, largest key first.
pub open spec fn pushed_children(context: SearchContext, state: PolygonIncidenceState,
    old_seen: Seq<PolygonIncidenceStateKey>, added: Seq<PolygonIncidenceState>) -> bool {
    let n = state.occurrences@.len() as int;
    &&& forall|i: int| 0 <= i < added.len() ==> child_of_some_ear(context, state, #[trigger] added[i], n)
    &&& forall|i: int| 0 <= i < added.len() ==> !key_among(old_seen, #[trigger] added[i].state_key)
    &&& forall|i: int, j: int| 0 <= i < j < added.len() ==> !key_same(#[trigger] added[i].state_key, #[trigger] added[j].state_key)
    &&& forall|i: int| 0 <= i < added.len() - 1 ==> key_lt(#[trigger] added[i + 1].state_key, added[i].state_key)
    &&& forall|ear: int| 0 <= ear < n && state.remaining_incidences@[ear] == 1 && #[trigger] ear_accepted(context, state, ear)
        ==> key_recorded(state, ear, old_seen) || child_pushed(state, ear, added)
}

/// The child of the ear at `e` is among `added`.
pub open spec fn child_pushed(state: PolygonIncidenceState, e: int, added: Seq<PolygonIncidenceState>) -> bool {
    exists|j: int| 0 <= j < added.len() && #[trigger] child_key_is(state, e, added[j].state_key)
}

/// `c` is the child of some ear before `bound` with incidence one that may be cut off.
pub open spec fn child_of_some_ear(context: SearchContext, state: PolygonIncidenceState, c: PolygonIncidenceState, bound: int) -> bool {
    exists|e: int| 0 <= e < bound && state.remaining_incidences@[e] == 1 && ear_accepted(context, state, e)
        && #[trigger] ear_child_of(state, e, c)
}

/// The key of the child of the ear at `e` is among `seen`.
pub open spec fn key_recorded(state: PolygonIncidenceState, e: int, seen: Seq<PolygonIncidenceStateKey>) -> bool {
    exists|j: int| 0 <= j < seen.len() && #[trigger] child_key_is(state, e, seen[j])
}

/// What collecting the children of `state` has found after the ears before `ear`.
pub open spec fn collect_ok(context: SearchContext, state: PolygonIncidenceState, old_seen: Seq<PolygonIncidenceStateKey>,
    seen: Seq<PolygonIncidenceStateKey>, children: Seq<PolygonIncidenceState>, ear: int) -> bool {
    &&& seen.len() == old_seen.len() + children.len()
    &&& seen.subrange(0, old_seen.len() as int) == old_seen
    &&& forall|i: int| 0 <= i < children.len() ==> key_same(#[trigger] seen[old_seen.len() + i], children[i].state_key)
    &&& forall|i: int| 0 <= i < children.len() ==> child_of_some_ear(context, state, #[trigger] children[i], ear)
    &&& forall|i: int| 0 <= i < children.len() ==> state_wf(*context.target, #[trigger] children[i])
        && children[i].occurrences@.len() + 1 == state.occurrences@.len()
    &&& state_conserves(*context.target, state) ==> forall|i: int| 0 <= i < children.len() ==> state_conserves(*context.target, #[trigger] children[i])
    &&& forall|i: int| 0 <= i < children.len() ==> !key_among(old_seen, #[trigger] children[i].state_key)
    &&& forall|i: int, j: int| 0 <= i < j < children.len() ==> !key_same(#[trigger] children[i].state_key, #[trigger] children[j].state_key)
    &&& forall|e: int| 0 <= e < ear && state.remaining_incidences@[e] == 1 && #[trigger] ear_accepted(context, state, e)
        ==> key_recorded(state, e, seen)
}

proof fn lemma_some_ear_grows(context: SearchContext, state: PolygonIncidenceState, c: PolygonIncidenceState, bound: int)
    requires
        child_of_some_ear(context, state, c, bound),
    ensures
        child_of_some_ear(context, state, c, bound + 1),
{
    let e = choose|e: int| 0 <= e < bound && state.remaining_incidences@[e] == 1 && ear_accepted(context, state, e)
        && #[trigger] ear_child_of(state, e, c);
    assert(ear_child_of(state, e, c));
}

proof fn lemma_collect_skip(context: SearchContext, state: PolygonIncidenceState, old_seen: Seq<PolygonIncidenceStateKey>,
    seen: Seq<PolygonIncidenceStateKey>, children: Seq<PolygonIncidenceState>, ear: int)
    requires
        collect_ok(context, state, old_seen, seen, children, ear),
        !(state.remaining_incidences@[ear] == 1 && ear_accepted(context, state, ear)),
    ensures
        collect_ok(context, state, old_seen, seen, children, ear + 1),
{
    assert forall|i: int| 0 <= i < children.len() implies child_of_some_ear(context, state, #[trigger] children[i], ear + 1) by {
        lemma_some_ear_grows(context, state, children[i], ear);
    }
}

proof fn lemma_collect_dup(context: SearchContext, state: PolygonIncidenceState, old_seen: Seq<PolygonIncidenceStateKey>,
    seen: Seq<PolygonIncidenceStateKey>, children: Seq<PolygonIncidenceState>, ear: int, j: int)
    requires
        collect_ok(context, state, old_seen, seen, children, ear),
        0 <= j < seen.len(),
        child_key_is(state, ear, seen[j]),
    ensures
        collect_ok(context, state, old_seen, seen, children, ear + 1),
{
    assert(key_recorded(state, ear, seen));
    assert forall|i: int| 0 <= i < children.len() implies child_of_some_ear(context, state, #[trigger] children[i], ear + 1) by {
        lemma_some_ear_grows(context, state, children[i], ear);
    }
}

proof fn lemma_collect_push(context: SearchContext, state: PolygonIncidenceState, old_seen: Seq<PolygonIncidenceStateKey>,
    seen: Seq<PolygonIncidenceStateKey>, children: Seq<PolygonIncidenceState>, ear: int,
    k: PolygonIncidenceStateKey, child: PolygonIncidenceState)
    requires
        collect_ok(context, state, old_seen, seen, children, ear),
        0 <= ear,
        state.remaining_incidences@[ear] == 1,
        ear_accepted(context, state, ear),
        ear_child_of(state, ear, child),
        0 <= ear < state.occurrences@.len(),
        state_wf(*context.target, child),
        state_conserves(*context.target, state) ==> state_conserves(*context.target, child),
        !key_among(seen, child.state_key),
        key_same(k, child.state_key),
        child_key_is(state, ear, k),
    ensures
        collect_ok(context, state, old_seen, seen.push(k), children.push(child), ear + 1),
{
    let seen2 = seen.push(k);
    let children2 = children.push(child);
    assert(seen2.subrange(0, old_seen.len() as int) =~= seen.subrange(0, old_seen.len() as int));
    assert forall|i: int| 0 <= i < children2.len() implies key_same(#[trigger] seen2[old_seen.len() + i], children2[i].state_key) by {
        if i < children.len() {
            assert(seen2[old_seen.len() + i] == seen[old_seen.len() + i]);
        }
    }
    assert forall|i: int| 0 <= i < children2.len() implies child_of_some_ear(context, state, #[trigger] children2[i], ear + 1) by {
        if i < children.len() {
            assert(children2[i] == children[i]);
            lemma_some_ear_grows(context, state, children[i], ear);
        } else {
            assert(children2[i] == child);
            assert(ear_child_of(state, ear, children2[i]));
        }
    }
    assert(child.occurrences@.len() + 1 == state.occurrences@.len()) by {
        reveal(ear_child_of);
    }
    assert forall|i: int| 0 <= i < children2.len() implies state_wf(*context.target, #[trigger] children2[i])
        && children2[i].occurrences@.len() + 1 == state.occurrences@.len()
        && (state_conserves(*context.target, state) ==> state_conserves(*context.target, children2[i]))
        && !key_among(old_seen, children2[i].state_key) by {
        if i < children.len() {
            assert(children2[i] == children[i]);
        } else {
            assert(children2[i] == child);
            if key_among(old_seen, child.state_key) {
                let j = choose|j: int| 0 <= j < old_seen.len() && key_same(#[trigger] old_seen[j], child.state_key);
                assert(seen[j] == seen.subrange(0, old_seen.len() as int)[j]);
                assert(key_same(seen[j], child.state_key));
            }
        }
    }
    assert forall|i: int, j: int| 0 <= i < j < children2.len() implies !key_same(#[trigger] children2[i].state_key, #[trigger] children2[j].state_key) by {
        if j == children.len() {
            assert(children2[j] == child);
            assert(children2[i] == children[i]);
            assert(key_same(seen[old_seen.len() + i], children[i].state_key));
        } else {
            assert(children2[i] == children[i] && children2[j] == children[j]);
        }
    }
    assert forall|e: int| 0 <= e < ear + 1 && state.remaining_incidences@[e] == 1 && #[trigger] ear_accepted(context, state, e)
        implies key_recorded(state, e, seen2) by {
        if e < ear {
            let j = choose|j: int| 0 <= j < seen.len() && #[trigger] child_key_is(state, e, seen[j]);
            assert(seen2[j] == seen[j]);
        } else {
            assert(seen2[seen.len() as int] == k);
        }
    }
}

/// The children of `state` collected ear by ear, in ear order.
fn collect_children(state: &PolygonIncidenceState, context: &SearchContext, seen: &mut Vec<PolygonIncidenceStateKey>,
    evidence: &mut PolygonIncidenceEvidence) -> (children: Vec<PolygonIncidenceState>)
    requires
        state_wf(*context.target, *state),
        state.occurrences@.len() > 3,
    ensures
        collect_ok(*context, *state, old(seen)@, final(seen)@, children@, state.occurrences@.len() as int),
        ({
            let n = state.occurrences@.len() as int;
            let ones = ones_before(state.remaining_incidences@, n);
            let rejects = rejects_before(*context, *state, n);
            &&& final(evidence).ears_considered == sat_add(old(evidence).ears_considered, ones as int)
            &&& final(evidence).constraint_rejects == sat_add(old(evidence).constraint_rejects, rejects as int)
            &&& ones - rejects - children@.len() >= 0
            &&& final(evidence).duplicate_states == sat_add(old(evidence).duplicate_states, ones - rejects - children@.len())
            &&& final(evidence).states == old(evidence).states
            &&& final(evidence).maximum_frontier == old(evidence).maximum_frontier
            &&& final(evidence).outcome == old(evidence).outcome
        }),
{
    let n = state.occurrences.len();
    let ghost old_seen = seen@;
    let ghost ev0 = *evidence;
    let mut children: Vec<PolygonIncidenceState> = Vec::new();
    let mut ear: usize = 0;
    proof {
        assert(seen@.subrange(0, old_seen.len() as int) =~= old_seen);
    }
    while ear < n
        invariant
            n == state.occurrences@.len(),
            n == state.remaining_incidences@.len(),
            n > 3,
            state_wf(*context.target, *state),
            ear <= n,
            collect_ok(*context, *state, old_seen, seen@, children@, ear as int),
            evidence.ears_considered == sat_add(ev0.ears_considered, ones_before(state.remaining_incidences@, ear as int) as int),
            evidence.constraint_rejects == sat_add(ev0.constraint_rejects, rejects_before(*context, *state, ear as int) as int),
            ones_before(state.remaining_incidences@, ear as int) - rejects_before(*context, *state, ear as int) - children@.len() >= 0,
            evidence.duplicate_states == sat_add(ev0.duplicate_states,
                ones_before(state.remaining_incidences@, ear as int) - rejects_before(*context, *state, ear as int) - children@.len()),
            evidence.states == ev0.states,
            evidence.maximum_frontier == ev0.maximum_frontier,
            evidence.outcome == ev0.outcome,
        decreases n - ear,
    {
        let ghost seen_before = seen@;
        let ghost children_before = children@;
        if state.remaining_incidences[ear] == 1 {
            evidence.ears_considered = evidence.ears_considered.saturating_add(1);
            match remove_ear(state, ear, context) {
                Some(child) => {
                    proof {
                        lemma_ear_neighbours(n as int, ear as int);
                        reveal(ear_accepted);
                        lemma_ear_wf(*context.target, *state, child, ear as int);
                        if state_conserves(*context.target, *state) {
                            lemma_ear_conserves(*context.target, *state, child, ear as int);
                        }
                    }
                    if seen_contains(seen, &child.state_key) {
                        evidence.duplicate_states = evidence.duplicate_states.saturating_add(1);
                        proof {
                            reveal(ear_child_of);
                            let j = choose|j: int| 0 <= j < seen@.len() && key_same(#[trigger] seen@[j], child.state_key);
                            assert(child_key_is(*state, ear as int, seen@[j]));
                            lemma_collect_dup(*context, *state, old_seen, seen@, children@, ear as int, j);
                        }
                    } else {
                        let k = child.state_key.clone();
                        proof {
                            reveal(ear_child_of);
                            lemma_collect_push(*context, *state, old_seen, seen@, children@, ear as int, k, child);
                        }
                        seen.push(k);
                        children.push(child);
                    }
                }
                None => {
                    evidence.constraint_rejects = evidence.constraint_rejects.saturating_add(1);
                    proof {
                        lemma_collect_skip(*context, *state, old_seen, seen@, children@, ear as int);
                    }
                }
            }
        } else {
            proof {
                lemma_collect_skip(*context, *state, old_seen, seen@, children@, ear as int);
            }
        }
        proof {
            lemma_counts_bounded(*context, *state, ear as int);
        }
        ear = ear + 1;
    }
    children
}

/// The states ordered by key, smallest first.
fn sort_by_key(found: Vec<PolygonIncidenceState>) -> (ordered: Vec<PolygonIncidenceState>)
    requires
        forall|i: int, j: int| 0 <= i < j < found@.len() ==> !key_same(#[trigger] found@[i].state_key, #[trigger] found@[j].state_key),
    ensures
        ordered@.to_multiset() == found@.to_multiset(),
        forall|i: int| 0 <= i < ordered@.len() - 1 ==> key_lt(#[trigger] ordered@[i].state_key, ordered@[i + 1].state_key),
        forall|i: int, j: int| 0 <= i < j < ordered@.len() ==> !key_same(#[trigger] ordered@[i].state_key, #[trigger] ordered@[j].state_key),
{
    let ghost all = found@;
    let mut ordered: Vec<PolygonIncidenceState> = Vec::new();
    let mut rest = found;
    proof {
        assert(all.take(0) =~= Seq::<PolygonIncidenceState>::empty());
        assert(ordered@ =~= all.take(0));
        assert(rest@ =~= all.skip(0));
    }
    while rest.len() > 0
        invariant
            ordered@.len() + rest@.len() == all.len(),
            rest@ == all.skip(ordered@.len() as int),
            ordered@.to_multiset() == all.take(ordered@.len() as int).to_multiset(),
            forall|i: int| 0 <= i < ordered@.len() - 1 ==> key_lt(#[trigger] ordered@[i].state_key, ordered@[i + 1].state_key),
            forall|i: int, j: int| 0 <= i < j < all.len() ==> !key_same(#[trigger] all[i].state_key, #[trigger] all[j].state_key),
            forall|i: int, j: int| 0 <= i < j < ordered@.len() ==> !key_same(#[trigger] ordered@[i].state_key, #[trigger] ordered@[j].state_key),
        decreases rest@.len(),
    {
        let ghost k = ordered@.len() as int;
        let child = rest.remove(0);
        assert(child == all[k]);
        let mut p: usize = 0;
        while p < ordered.len() && keys_lt(&ordered[p].state_key, &child.state_key)
            invariant
                p <= ordered@.len(),
                p > 0 ==> key_lt(ordered@[p - 1].state_key, child.state_key),
            decreases ordered@.len() - p,
        {
            p = p + 1;
        }
        let ghost before = ordered@;
        proof {
            if p < before.len() {
                let j = lemma_member_of_prefix(before, all, k, p as int);
                assert(!key_same(all[j].state_key, all[k].state_key));
                lemma_edge_set_finite(&child.state_key.inserted_global_edges);
                lemma_edge_set_finite(&before[p as int].state_key.inserted_global_edges);
                lemma_key_total(child.state_key, before[p as int].state_key);
            }
        }
        ordered.insert(p, child);
        proof {
            lemma_sorted_insert_step(before, all, k, p as int, ordered@);
            assert(rest@ =~= all.skip(ordered@.len() as int));
        }
    }
    proof {
        assert(all.take(all.len() as int) =~= all);
    }
    ordered
}

/// An element of a sequence that holds what a prefix of `all` holds is in that prefix.
proof fn lemma_member_of_prefix(before: Seq<PolygonIncidenceState>, all: Seq<PolygonIncidenceState>, k: int, p: int) -> (j: int)
    requires
        0 <= k <= all.len(),
        0 <= p < before.len(),
        before.to_multiset() == all.take(k).to_multiset(),
    ensures
        0 <= j < k,
        before[p] == all[j],
{
    broadcast use vstd::seq_lib::group_to_multiset_ensures;
    assert(before.contains(before[p]));
    assert(before.to_multiset().count(before[p]) > 0);
    assert(all.take(k).contains(before[p]));
    let j = choose|j: int| 0 <= j < all.take(k).len() && all.take(k)[j] == before[p];
    j
}

proof fn lemma_sorted_insert_step(before: Seq<PolygonIncidenceState>, all: Seq<PolygonIncidenceState>, k: int, p: int,
    after: Seq<PolygonIncidenceState>)
    requires
        0 <= k < all.len(),
        before.len() == k,
        0 <= p <= k,
        after == before.insert(p, all[k]),
        before.to_multiset() == all.take(k).to_multiset(),
        forall|i: int| 0 <= i < before.len() - 1 ==> key_lt(#[trigger] before[i].state_key, before[i + 1].state_key),
        forall|i: int, j: int| 0 <= i < j < all.len() ==> !key_same(#[trigger] all[i].state_key, #[trigger] all[j].state_key),
        forall|i: int, j: int| 0 <= i < j < before.len() ==> !key_same(#[trigger] before[i].state_key, #[trigger] before[j].state_key),
        p > 0 ==> key_lt(before[p - 1].state_key, all[k].state_key),
        p < k ==> key_lt(all[k].state_key, before[p].state_key),
    ensures
        after.to_multiset() == all.take(k + 1).to_multiset(),
        forall|i: int| 0 <= i < after.len() - 1 ==> key_lt(#[trigger] after[i].state_key, after[i + 1].state_key),
        forall|i: int, j: int| 0 <= i < j < after.len() ==> !key_same(#[trigger] after[i].state_key, #[trigger] after[j].state_key),
{
    broadcast use vstd::seq_lib::group_to_multiset_ensures;
    let x = all[k];
    assert(after.remove(p) =~= before);
    assert(all.take(k + 1) =~= all.take(k).push(x));
    assert(after[p] == x);
    assert(after.contains(x));
    assert(after.to_multiset() =~= before.to_multiset().insert(x)) by {
        assert(after.remove(p).to_multiset() =~= after.to_multiset().remove(x));
        assert(after.to_multiset().count(x) > 0);
    }
    assert forall|i: int| 0 <= i < after.len() - 1 implies key_lt(#[trigger] after[i].state_key, after[i + 1].state_key) by {
        if i < p - 1 {
            assert(after[i] == before[i] && after[i + 1] == before[i + 1]);
        } else if i == p - 1 {
        } else if i == p {
            assert(after[i + 1] == before[p]);
        } else {
            assert(after[i] == before[i - 1] && after[i + 1] == before[i]);
        }
    }
    assert forall|i: int, j: int| 0 <= i < j < after.len() implies !key_same(#[trigger] after[i].state_key, #[trigger] after[j].state_key) by {
        if i != p && j != p {
            let bi = if i < p { i } else { i - 1 };
            let bj = if j < p { j } else { j - 1 };
            assert(after[i] == before[bi] && after[j] == before[bj]);
        } else {
            let other = if i == p { j } else { i };
            let bo = if other < p { other } else { other - 1 };
            assert(after[other] == before[bo]);
            let jo = lemma_member_of_prefix(before, all, k, bo);
            assert(!key_same(all[jo].state_key, all[k].state_key));
        }
    }
}

/// Push the children of `state` onto the frontier, smallest key on top.
fn push_children(state: &PolygonIncidenceState, context: &SearchContext, frontier: &mut Vec<PolygonIncidenceState>,
    seen: &mut Vec<PolygonIncidenceStateKey>, evidence: &mut PolygonIncidenceEvidence)
    requires
        state_wf(*context.target, *state),
    ensures
        state.occurrences@.len() <= 3 ==> *final(frontier) == *old(frontier) && *final(seen) == *old(seen)
            && *final(evidence) == *old(evidence),
        state.occurrences@.len() > 3 ==> {
            let added = final(frontier)@.subrange(old(frontier)@.len() as int, final(frontier)@.len() as int);
            let n = state.occurrences@.len() as int;
            let ones = ones_before(state.remaining_incidences@, n);
            let rejects = rejects_before(*context, *state, n);
            &&& final(frontier)@.len() >= old(frontier)@.len()
            &&& final(frontier)@.subrange(0, old(frontier)@.len() as int) == old(frontier)@
            &&& pushed_children(*context, *state, old(seen)@, added)
            &&& forall|i: int| 0 <= i < added.len() ==> state_wf(*context.target, #[trigger] added[i])
                && added[i].occurrences@.len() + 1 == n
            &&& added.len() <= n
            &&& state_conserves(*context.target, *state) ==> forall|i: int| 0 <= i < added.len() ==> state_conserves(*context.target, #[trigger] added[i])
            &&& final(seen)@.len() == old(seen)@.len() + added.len()
            &&& final(seen)@.subrange(0, old(seen)@.len() as int) == old(seen)@
            &&& forall|i: int| 0 <= i < added.len() ==> key_among(final(seen)@, #[trigger] added[i].state_key)
            &&& forall|i: int| old(seen)@.len() <= i < final(seen)@.len() ==> node_waiting(added, node_of_key(#[trigger] final(seen)@[i]))
            &&& forall|i: int, j: int| 0 <= i < j < final(seen)@.len() && old(seen)@.len() <= j
                ==> node_of_key(#[trigger] final(seen)@[i]) != node_of_key(#[trigger] final(seen)@[j])
            &&& final(evidence).ears_considered == sat_add(old(evidence).ears_considered, ones as int)
            &&& final(evidence).constraint_rejects == sat_add(old(evidence).constraint_rejects, rejects as int)
            &&& final(evidence).duplicate_states == sat_add(old(evidence).duplicate_states, ones - rejects - added.len())
            &&& final(evidence).states == old(evidence).states
            &&& final(evidence).maximum_frontier == old(evidence).maximum_frontier
            &&& final(evidence).outcome == old(evidence).outcome
        },
{
    let n = state.occurrences.len();
    if n <= 3 {
        return;
    }
    let ghost old_seen = seen@;
    let ghost old_frontier = frontier@;
    let children = collect_children(state, context, seen, evidence);
    proof {
        assert(collect_ok(*context, *state, old_seen, seen@, children@, n as int));
        lemma_counts_bounded(*context, *state, n as int);
    }
    let ghost found = children@;
    let mut ordered = sort_by_key(children);
    let ghost sorted_all = ordered@;
    proof {
        sorted_all.to_multiset_ensures();
        found.to_multiset_ensures();
        assert(sorted_all.len() == found.len());
    }
    while ordered.len() > 0
        invariant
            ordered@ == sorted_all.subrange(0, ordered@.len() as int),
            ordered@.len() <= sorted_all.len(),
            frontier@ == old_frontier + sorted_all.subrange(ordered@.len() as int, sorted_all.len() as int).reverse(),
        decreases ordered@.len(),
    {
        let c = ordered.pop().unwrap();
        frontier.push(c);
        proof {
            let m = ordered@.len() as int;
            assert(sorted_all.subrange(m, sorted_all.len() as int).reverse() =~= sorted_all.subrange(m + 1, sorted_all.len() as int).reverse().push(c));
            assert(ordered@ =~= sorted_all.subrange(0, m));
        }
    }
    proof {
        assert(sorted_all.subrange(0, sorted_all.len() as int) =~= sorted_all);
        assert(frontier@.subrange(old_frontier.len() as int, frontier@.len() as int) =~= sorted_all.reverse());
        lemma_push_reversed(*context, *state, old_seen, seen@, found, sorted_all, frontier@.subrange(old_frontier.len() as int, frontier@.len() as int));
        assert(frontier@.subrange(0, old_frontier.len() as int) =~= old_frontier);
        lemma_new_seen_waiting(*context.target, old_seen, seen@, found, sorted_all,
            frontier@.subrange(old_frontier.len() as int, frontier@.len() as int));
    }
}

/// The keys that collecting children adds to `seen` are the keys of the
/// children that go onto the frontier.
proof fn lemma_new_seen_waiting(t: OccurrenceIncidenceTarget, old_seen: Seq<PolygonIncidenceStateKey>,
    seen: Seq<PolygonIncidenceStateKey>, found: Seq<PolygonIncidenceState>, sorted_all: Seq<PolygonIncidenceState>,
    added: Seq<PolygonIncidenceState>)
    requires
        seen.len() == old_seen.len() + found.len(),
        forall|i: int| 0 <= i < found.len() ==> key_same(#[trigger] seen[old_seen.len() + i], found[i].state_key),
        forall|i: int| 0 <= i < found.len() ==> state_wf(t, #[trigger] found[i]),
        sorted_all.to_multiset() == found.to_multiset(),
        added == sorted_all.reverse(),
        seen.subrange(0, old_seen.len() as int) == old_seen,
        forall|i: int| 0 <= i < found.len() ==> !key_among(old_seen, #[trigger] found[i].state_key),
        forall|i: int, j: int| 0 <= i < j < found.len() ==> !key_same(#[trigger] found[i].state_key, #[trigger] found[j].state_key),
    ensures
        forall|i: int| old_seen.len() <= i < seen.len() ==> node_waiting(added, node_of_key(#[trigger] seen[i])),
        forall|i: int, j: int| 0 <= i < j < seen.len() && old_seen.len() <= j
            ==> node_of_key(#[trigger] seen[i]) != node_of_key(#[trigger] seen[j]),
{
    assert forall|i: int, j: int| 0 <= i < j < seen.len() && old_seen.len() <= j
        implies node_of_key(#[trigger] seen[i]) != node_of_key(#[trigger] seen[j]) by {
        let qj = j - old_seen.len();
        assert(key_same(seen[old_seen.len() + qj], found[qj].state_key));
        if i < old_seen.len() {
            assert(seen.subrange(0, old_seen.len() as int)[i] == seen[i]);
            if node_of_key(seen[i]) == node_of_key(seen[j]) {
                assert(key_same(old_seen[i], found[qj].state_key));
            }
        } else {
            let qi = i - old_seen.len();
            assert(key_same(seen[old_seen.len() + qi], found[qi].state_key));
        }
    }
    assert forall|i: int| old_seen.len() <= i < seen.len() implies node_waiting(added, node_of_key(#[trigger] seen[i])) by {
        let q = i - old_seen.len();
        assert(key_same(seen[old_seen.len() + q], found[q].state_key));
        assert(state_wf(t, found[q]));
        assert(found.contains(found[q]));
        found.to_multiset_ensures();
        sorted_all.to_multiset_ensures();
        assert(found.to_multiset().count(found[q]) > 0);
        assert(sorted_all.contains(found[q]));
        let m = choose|m: int| 0 <= m < sorted_all.len() && sorted_all[m] == found[q];
        assert(added[sorted_all.len() - 1 - m] == sorted_all[m]);
        assert(node_of_state(added[sorted_all.len() - 1 - m]) == node_of_key(seen[i]));
    }
}

proof fn lemma_member(a: Seq<PolygonIncidenceState>, b: Seq<PolygonIncidenceState>, i: int) -> (j: int)
    requires
        a.to_multiset() == b.to_multiset(),
        0 <= i < a.len(),
    ensures
        0 <= j < b.len(),
        b[j] == a[i],
{
    broadcast use vstd::seq_lib::group_to_multiset_ensures;
    assert(a.contains(a[i]));
    assert(a.to_multiset().count(a[i]) > 0);
    assert(b.contains(a[i]));
    choose|j: int| 0 <= j < b.len() && b[j] == a[i]
}

proof fn lemma_push_reversed(context: SearchContext, state: PolygonIncidenceState, old_seen: Seq<PolygonIncidenceStateKey>,
    seen: Seq<PolygonIncidenceStateKey>, found: Seq<PolygonIncidenceState>, sorted_all: Seq<PolygonIncidenceState>,
    added: Seq<PolygonIncidenceState>)
    requires
        added == sorted_all.reverse(),
        sorted_all.to_multiset() == found.to_multiset(),
        seen.len() == old_seen.len() + found.len(),
        seen.subrange(0, old_seen.len() as int) == old_seen,
        forall|i: int| 0 <= i < found.len() ==> key_same(#[trigger] seen[old_seen.len() + i], found[i].state_key),
        forall|i: int| 0 <= i < found.len() ==> child_of_some_ear(context, state, #[trigger] found[i], state.occurrences@.len() as int),
        forall|i: int| 0 <= i < found.len() ==> state_wf(*context.target, #[trigger] found[i])
            && found[i].occurrences@.len() + 1 == state.occurrences@.len(),
        state_conserves(*context.target, state) ==> forall|i: int| 0 <= i < found.len() ==> state_conserves(*context.target, #[trigger] found[i]),
        forall|i: int| 0 <= i < found.len() ==> !key_among(old_seen, #[trigger] found[i].state_key),
        forall|e: int| 0 <= e < state.occurrences@.len() && state.remaining_incidences@[e] == 1 && #[trigger] ear_accepted(context, state, e)
            ==> key_recorded(state, e, seen),
        forall|i: int| 0 <= i < sorted_all.len() - 1 ==> key_lt(#[trigger] sorted_all[i].state_key, sorted_all[i + 1].state_key),
        forall|i: int, j: int| 0 <= i < j < sorted_all.len() ==> !key_same(#[trigger] sorted_all[i].state_key, #[trigger] sorted_all[j].state_key),
    ensures
        pushed_children(context, state, old_seen, added),
        forall|i: int| 0 <= i < added.len() ==> state_wf(*context.target, #[trigger] added[i])
            && added[i].occurrences@.len() + 1 == state.occurrences@.len(),
        state_conserves(*context.target, state) ==> forall|i: int| 0 <= i < added.len() ==> state_conserves(*context.target, #[trigger] added[i]),
        forall|i: int| 0 <= i < added.len() ==> key_among(seen, #[trigger] added[i].state_key),
{
    broadcast use vstd::seq_lib::group_to_multiset_ensures;
    let n = state.occurrences@.len() as int;
    let l = sorted_all.len() as int;
    sorted_all.to_multiset_ensures();
    found.to_multiset_ensures();
    assert(sorted_all.len() == found.len());
    assert forall|i: int| 0 <= i < added.len() implies child_of_some_ear(context, state, #[trigger] added[i], n) by {
        assert(added[i] == sorted_all[l - 1 - i]);
        let j = lemma_member(sorted_all, found, l - 1 - i);
        assert(found[j] == added[i]);
        assert(child_of_some_ear(context, state, found[j], n));
    }
    assert forall|i: int| 0 <= i < added.len() implies state_wf(*context.target, #[trigger] added[i])
        && added[i].occurrences@.len() + 1 == state.occurrences@.len()
        && (state_conserves(*context.target, state) ==> state_conserves(*context.target, added[i]))
        && !key_among(old_seen, added[i].state_key) && key_among(seen, added[i].state_key) by {
        assert(added[i] == sorted_all[l - 1 - i]);
        let j = lemma_member(sorted_all, found, l - 1 - i);
        assert(state_wf(*context.target, found[j]));
        assert(key_same(seen[old_seen.len() + j], found[j].state_key));
    }
    assert forall|i: int, j: int| 0 <= i < j < added.len() implies !key_same(#[trigger] added[i].state_key, #[trigger] added[j].state_key) by {
        assert(added[i] == sorted_all[l - 1 - i] && added[j] == sorted_all[l - 1 - j]);
        assert(!key_same(sorted_all[l - 1 - j].state_key, sorted_all[l - 1 - i].state_key));
    }
    assert forall|i: int| 0 <= i < added.len() - 1 implies key_lt(#[trigger] added[i + 1].state_key, added[i].state_key) by {
        assert(added[i] == sorted_all[l - 1 - i]);
        assert(added[i + 1] == sorted_all[l - 2 - i]);
    }
    assert forall|ear: int| 0 <= ear < n && state.remaining_incidences@[ear] == 1 && #[trigger] ear_accepted(context, state, ear)
        implies key_recorded(state, ear, old_seen) || child_pushed(state, ear, added) by {
        let j = choose|j: int| 0 <= j < seen.len() && #[trigger] child_key_is(state, ear, seen[j]);
        if j < old_seen.len() {
            assert(seen[j] == seen.subrange(0, old_seen.len() as int)[j]);
            assert(child_key_is(state, ear, old_seen[j]));
        } else {
            let fj = j - old_seen.len();
            assert(key_same(seen[old_seen.len() + fj], found[fj].state_key));
            let i = lemma_member(found, sorted_all, fj);
            let ai = l - 1 - i;
            assert(added[ai] == sorted_all[i]);
            assert(child_key_is(state, ear, added[ai].state_key));
        }
    }
}


// ---------------------------------------------------------------------------
// Checkpoint validation

/// `i` is the first position of `x` in `s`.
pub open spec fn first_at(s: Seq<VertexOccurrenceId>, x: VertexOccurrenceId, i: int) -> bool {
    0 <= i < s.len() && s[i] == x && forall|j: int| 0 <= j < i ==> s[j] != x
}

/// The first position of `x` in `s` (meaningful when `s` contains `x`).
pub open spec fn first_pos(s: Seq<VertexOccurrenceId>, x: VertexOccurrenceId) -> int {
    choose|i: int| first_at(s, x, i)
}

proof fn lemma_first_pos(s: Seq<VertexOccurrenceId>, x: VertexOccurrenceId, i: int)
    requires
        first_at(s, x, i),
    ensures
        first_pos(s, x) == i,
{
    let k = first_pos(s, x);
    assert(first_at(s, x, k));
    if k < i {
        assert(s[k] != x);
    } else if k > i {
        assert(s[i] != x);
    }
}

/// How far after `start` the first position of `x` lies, going round `orig`.
pub open spec fn cyclic_offset(orig: Seq<VertexOccurrenceId>, start: int, x: VertexOccurrenceId) -> int {
    let p = first_pos(orig, x);
    if p >= start { p - start } else { p + orig.len() - start }
}

/// `cand` is a nonempty sequence of occurrences of `orig` met in order when
/// going once round `orig` from the first position of `cand[0]`.
pub open spec fn cyclic_subsequence(orig: Seq<VertexOccurrenceId>, cand: Seq<VertexOccurrenceId>) -> bool {
    &&& cand.len() >= 1
    &&& forall|k: int| 0 <= k < cand.len() ==> orig.contains(#[trigger] cand[k])
    &&& forall|k: int| 0 <= k < cand.len() - 1 ==> cyclic_offset(orig, first_pos(orig, cand[0]), #[trigger] cand[k])
        < cyclic_offset(orig, first_pos(orig, cand[0]), cand[k + 1])
}

fn position_of(s: &Vec<VertexOccurrenceId>, x: VertexOccurrenceId) -> (r: Option<usize>)
    ensures
        r is None <==> !s@.contains(x),
        r matches Some(i) ==> first_at(s@, x, i as int) && first_pos(s@, x) == i,
{
    let mut i: usize = 0;
    while i < s.len()
        invariant
            i <= s@.len(),
            forall|j: int| 0 <= j < i ==> s@[j] != x,
        decreases s@.len() - i,
    {
        if s[i] == x {
            proof {
                lemma_first_pos(s@, x, i as int);
            }
            return Some(i);
        }
        i = i + 1;
    }
    proof {
        if s@.contains(x) {
            let j = choose|j: int| 0 <= j < s@.len() && s@[j] == x;
            assert(s@[j] != x);
        }
    }
    None
}

/// Whether `candidate` is met in order going once round `original`.
pub fn is_cyclic_subsequence(original: &Vec<VertexOccurrenceId>, candidate: &Vec<VertexOccurrenceId>) -> (r: bool)
    ensures
        r == cyclic_subsequence(original@, candidate@),
{
    if candidate.len() == 0 {
        return false;
    }
    let start = match position_of(original, candidate[0]) {
        Some(p) => p,
        None => {
            return false;
        }
    };
    let size = original.len();
    let ghost s0 = first_pos(original@, candidate@[0]);
    let mut previous: usize = 0;
    let mut k: usize = 1;
    while k < candidate.len()
        invariant
            1 <= k <= candidate@.len(),
            start == s0,
            s0 == first_pos(original@, candidate@[0]),
            size == original@.len(),
            0 <= start < size,
            forall|j: int| 0 <= j < k ==> original@.contains(#[trigger] candidate@[j]),
            previous as int == cyclic_offset(original@, s0, candidate@[k - 1]),
            forall|j: int| 0 <= j < k - 1 ==> cyclic_offset(original@, s0, #[trigger] candidate@[j])
                < cyclic_offset(original@, s0, candidate@[j + 1]),
        decreases candidate@.len() - k,
    {
        let position = match position_of(original, candidate[k]) {
            Some(p) => p,
            None => {
                return false;
            }
        };
        let offset: usize = if position >= start { position - start } else { position + (size - start) };
        proof {
            assert(offset as int == cyclic_offset(original@, s0, candidate@[k as int]));
        }
        if offset <= previous {
            proof {
                let km = (k - 1) as int;
                assert(candidate@[km + 1] == candidate@[k as int]);
                assert(!(cyclic_offset(original@, first_pos(original@, candidate@[0]), candidate@[km])
                    < cyclic_offset(original@, first_pos(original@, candidate@[0]), candidate@[km + 1])));
            }
            return false;
        }
        previous = offset;
        k = k + 1;
    }
    true
}


/// The checks on a checkpoint state that need no history.
pub open spec fn checkpoint_shape_ok(t: OccurrenceIncidenceTarget, s: PolygonIncidenceState) -> bool {
    let occ = s.occurrences@;
    let rem = s.remaining_incidences@;
    &&& occ.len() == rem.len()
    &&& occ.len() >= 3
    &&& occ.no_duplicates()
    &&& occ.to_set().subset_of(t.cut.occurrences@.to_set())
    &&& cyclic_subsequence(t.cut.occurrences@, occ)
    &&& forall|i: int| 0 <= i < rem.len() ==> #[trigger] rem[i] != 0
    &&& incidence_total(rem) == 3 * (occ.len() - 2)
    &&& s.triangles@.len() + occ.len() == t.cut.occurrences@.len()
    &&& s.inserted_global_edges@.len() == s.triangles@.len()
    &&& s.state_key.occurrences@ == occ
    &&& s.state_key.remaining_incidences@ == rem
    &&& s.state_key.inserted_global_edges@ == s.inserted_global_edges@
    &&& s.inserted_global_edges@.disjoint(boundary_global_set(t.cut))
    &&& s.inserted_global_edges@.disjoint(t.forbidden_global_edges@)
}

/// Triangle `i` of the history is sorted, after its predecessor, spans three
/// occurrences on three slots of the target.
pub open spec fn history_triangle_ok(t: OccurrenceIncidenceTarget, tris: Seq<OccurrenceTriangle>, i: int) -> bool {
    let tr = tris[i];
    &&& occurrence_le(tr[0], tr[1]) && occurrence_le(tr[1], tr[2])
    &&& i > 0 ==> triangle_lt(tris[i - 1], tr)
    &&& tr[0] != tr[1] && tr[1] != tr[2] && tr[0] != tr[2]
    &&& slots_distinct(tr[0], tr[1], tr[2])
    &&& t.cut.occurrences@.contains(tr[0]) && t.cut.occurrences@.contains(tr[1]) && t.cut.occurrences@.contains(tr[2])
}

/// Occurrence `i` of the target has spent, in the triangles, what it no longer has left.
pub open spec fn history_incidence_ok(t: OccurrenceIncidenceTarget, s: PolygonIncidenceState, i: int) -> bool {
    let o = t.cut.occurrences@[i];
    tri_count(s.triangles@, o) + occ_weight(s.occurrences@, s.remaining_incidences@, o) == t.incidences@[i]
}

/// The triangle has `e` as the source edge of one of its sides.
pub open spec fn triangle_has_edge(tr: OccurrenceTriangle, e: Edge) -> bool {
    crate::graph::sorted_spec(tr[0].global_source_slot, tr[1].global_source_slot) == e
        || crate::graph::sorted_spec(tr[1].global_source_slot, tr[2].global_source_slot) == e
        || crate::graph::sorted_spec(tr[2].global_source_slot, tr[0].global_source_slot) == e
}

/// An inserted diagonal is canonical and is a side of some triangle of the history.
pub open spec fn history_diagonal_ok(t: OccurrenceIncidenceTarget, s: PolygonIncidenceState, e: Edge) -> bool {
    &&& !noncanonical_bridge(t.lower@.to_set(), t.upper@.to_set(), t.cut.root_bridge, e)
    &&& exists|k: int| 0 <= k < s.triangles@.len() && #[trigger] triangle_has_edge(s.triangles@[k], e)
}

/// The first check that a checkpoint state fails, or `None`.
pub open spec fn checkpoint_state_error(t: OccurrenceIncidenceTarget, s: PolygonIncidenceState) -> Option<Seq<char>> {
    if !checkpoint_shape_ok(t, s) {
        Some("PIER checkpoint state is invalid"@)
    } else if !(forall|i: int| 0 <= i < s.triangles@.len() ==> #[trigger] history_triangle_ok(t, s.triangles@, i)) {
        Some("PIER checkpoint triangle history is invalid"@)
    } else if !(forall|i: int| 0 <= i < t.cut.occurrences@.len() ==> #[trigger] history_incidence_ok(t, s, i)) {
        Some("PIER checkpoint incidence history is invalid"@)
    } else if !(forall|e: Edge| s.inserted_global_edges@.contains(e) ==> #[trigger] history_diagonal_ok(t, s, e)) {
        Some("PIER checkpoint diagonal history is invalid"@)
    } else {
        None
    }
}

fn occurrences_unique(v: &Vec<VertexOccurrenceId>) -> (r: bool)
    ensures
        r == v@.no_duplicates(),
{
    let mut i: usize = 0;
    while i < v.len()
        invariant
            i <= v@.len(),
            forall|a: int, b: int| 0 <= a < b < v@.len() && a < i ==> v@[a] != v@[b],
        decreases v@.len() - i,
    {
        let mut j: usize = i + 1;
        while j < v.len()
            invariant
                i < v@.len(),
                i + 1 <= j <= v@.len(),
                forall|a: int, b: int| 0 <= a < b < v@.len() && a < i ==> v@[a] != v@[b],
                forall|b: int| i < b < j ==> v@[i as int] != v@[b],
            decreases v@.len() - j,
        {
            if v[i] == v[j] {
                return false;
            }
            j = j + 1;
        }
        i = i + 1;
    }
    true
}

fn occurrence_in(v: &Vec<VertexOccurrenceId>, x: VertexOccurrenceId) -> (r: bool)
    ensures
        r == v@.contains(x),
{
    match position_of(v, x) {
        Some(_) => true,
        None => false,
    }
}

fn occurrences_within(a: &Vec<VertexOccurrenceId>, b: &Vec<VertexOccurrenceId>) -> (r: bool)
    ensures
        r == a@.to_set().subset_of(b@.to_set()),
{
    let mut i: usize = 0;
    while i < a.len()
        invariant
            i <= a@.len(),
            forall|k: int| 0 <= k < i ==> b@.contains(#[trigger] a@[k]),
        decreases a@.len() - i,
    {
        if !occurrence_in(b, a[i]) {
            proof {
                assert(a@.to_set().contains(a@[i as int]));
                assert(!b@.to_set().contains(a@[i as int]));
            }
            return false;
        }
        i = i + 1;
    }
    proof {
        assert forall|x: VertexOccurrenceId| a@.to_set().contains(x) implies b@.to_set().contains(x) by {
            let k = choose|k: int| 0 <= k < a@.len() && a@[k] == x;
            assert(b@.contains(a@[k]));
        }
    }
    true
}

pub(crate) fn edge_sets_equal(a: &BTreeSet<Edge>, b: &BTreeSet<Edge>) -> (r: bool)
    ensures
        r == (a@ == b@),
{
    let la = crate::cycles::edge_set_to_vec(a);
    let lb = crate::cycles::edge_set_to_vec(b);
    let same = edges_equal(&la, &lb);
    proof {
        if a@ == b@ {
            lemma_edges_sorted_unique(la@, lb@);
        }
    }
    same
}

pub(crate) fn edges_avoid(edges: &BTreeSet<Edge>, other: &BTreeSet<Edge>) -> (r: bool)
    ensures
        r == edges@.disjoint(other@),
{
    let listed = crate::cycles::edge_set_to_vec(edges);
    let mut i: usize = 0;
    while i < listed.len()
        invariant
            i <= listed@.len(),
            listed@.to_set() == edges@,
            forall|k: int| 0 <= k < i ==> !other@.contains(#[trigger] listed@[k]),
        decreases listed@.len() - i,
    {
        if other.contains(&listed[i]) {
            proof {
                assert(listed@.to_set().contains(listed@[i as int]));
            }
            return false;
        }
        i = i + 1;
    }
    proof {
        assert forall|x: Edge| edges@.contains(x) implies !other@.contains(x) by {
            assert(listed@.to_set().contains(x));
            let k = choose|k: int| 0 <= k < listed@.len() && listed@[k] == x;
            assert(!other@.contains(listed@[k]));
        }
    }
    true
}

fn no_zero(v: &Vec<u8>) -> (r: bool)
    ensures
        r == forall|i: int| 0 <= i < v@.len() ==> #[trigger] v@[i] != 0,
{
    let mut i: usize = 0;
    while i < v.len()
        invariant
            i <= v@.len(),
            forall|k: int| 0 <= k < i ==> #[trigger] v@[k] != 0,
        decreases v@.len() - i,
    {
        if v[i] == 0 {
            return false;
        }
        i = i + 1;
    }
    true
}

fn checkpoint_shape_exec(state: &PolygonIncidenceState, context: &SearchContext) -> (r: bool)
    requires
        context_of(*context, *context.target),
    ensures
        r == checkpoint_shape_ok(*context.target, *state),
{
    let target = context.target;
    let size = state.occurrences.len();
    if size != state.remaining_incidences.len() || size < 3 {
        return false;
    }
    if !occurrences_unique(&state.occurrences) || !occurrences_within(&state.occurrences, &target.cut.occurrences)
        || !is_cyclic_subsequence(&target.cut.occurrences, &state.occurrences) || !no_zero(&state.remaining_incidences) {
        return false;
    }
    let total = total_incidence(&state.remaining_incidences);
    if total != 3 * ((size as u128) - 2) {
        return false;
    }
    if size > target.cut.occurrences.len() || state.triangles.len() != target.cut.occurrences.len() - size {
        return false;
    }
    proof {
        lemma_edge_set_finite(&state.inserted_global_edges);
    }
    if state.inserted_global_edges.len() != state.triangles.len() {
        return false;
    }
    if !occurrences_equal(&state.state_key.occurrences, &state.occurrences)
        || !bytes_equal(&state.state_key.remaining_incidences, &state.remaining_incidences)
        || !edge_sets_equal(&state.state_key.inserted_global_edges, &state.inserted_global_edges) {
        return false;
    }
    edges_avoid(&state.inserted_global_edges, &context.boundary_global_edges)
        && edges_avoid(&state.inserted_global_edges, &target.forbidden_global_edges)
}


fn history_triangle_exec(target: &OccurrenceIncidenceTarget, tris: &Vec<OccurrenceTriangle>, i: usize) -> (r: bool)
    requires
        i < tris@.len(),
    ensures
        r == history_triangle_ok(*target, tris@, i as int),
{
    let tr = tris[i];
    if !occurrence_le_exec(tr[0], tr[1]) || !occurrence_le_exec(tr[1], tr[2]) {
        return false;
    }
    if i > 0 && !triangle_lt_exec(tris[i - 1], tr) {
        return false;
    }
    if tr[0] == tr[1] || tr[1] == tr[2] || tr[0] == tr[2] {
        return false;
    }
    if tr[0].global_source_slot == tr[1].global_source_slot || tr[0].global_source_slot == tr[2].global_source_slot
        || tr[1].global_source_slot == tr[2].global_source_slot {
        return false;
    }
    occurrence_in(&target.cut.occurrences, tr[0]) && occurrence_in(&target.cut.occurrences, tr[1])
        && occurrence_in(&target.cut.occurrences, tr[2])
}

fn triangles_with(tris: &Vec<OccurrenceTriangle>, o: VertexOccurrenceId) -> (c: usize)
    ensures
        c as nat == tri_count(tris@, o),
{
    let mut c: usize = 0;
    let mut k: usize = 0;
    while k < tris.len()
        invariant
            k <= tris@.len(),
            c as nat == tri_count(tris@.take(k as int), o),
            c <= k,
        decreases tris@.len() - k,
    {
        proof {
            assert(tris@.take(k + 1).drop_last() =~= tris@.take(k as int));
        }
        let tr = tris[k];
        if tr[0] == o || tr[1] == o || tr[2] == o {
            c = c + 1;
        }
        k = k + 1;
    }
    proof {
        assert(tris@.take(tris@.len() as int) =~= tris@);
    }
    c
}

proof fn lemma_weight_at(occ: Seq<VertexOccurrenceId>, inc: Seq<u8>, o: VertexOccurrenceId, i: int)
    requires
        occ.no_duplicates(),
        0 <= i < occ.len(),
        occ[i] == o,
    ensures
        occ_weight(occ, inc, o) == inc[i] as int,
    decreases occ.len(),
{
    let n = occ.len() as int;
    if i == n - 1 {
        lemma_weight_absent(occ.drop_last(), inc, o);
    } else {
        assert(occ.last() != o);
        lemma_weight_at(occ.drop_last(), inc, o, i);
    }
}

proof fn lemma_weight_absent(occ: Seq<VertexOccurrenceId>, inc: Seq<u8>, o: VertexOccurrenceId)
    requires
        !occ.contains(o),
    ensures
        occ_weight(occ, inc, o) == 0,
    decreases occ.len(),
{
    if occ.len() > 0 {
        assert(occ.last() != o);
        assert(!occ.drop_last().contains(o)) by {
            if occ.drop_last().contains(o) {
                let k = choose|k: int| 0 <= k < occ.drop_last().len() && occ.drop_last()[k] == o;
                assert(occ[k] == o);
            }
        }
        lemma_weight_absent(occ.drop_last(), inc, o);
    }
}

proof fn lemma_tri_count_absent(tris: Seq<OccurrenceTriangle>, o: VertexOccurrenceId)
    requires
        forall|k: int| 0 <= k < tris.len() ==> !tri_has(#[trigger] tris[k], o),
    ensures
        tri_count(tris, o) == 0,
    decreases tris.len(),
{
    if tris.len() > 0 {
        assert(!tri_has(tris[tris.len() - 1], o));
        lemma_tri_count_absent(tris.drop_last(), o);
    }
}

fn history_incidence_exec(state: &PolygonIncidenceState, target: &OccurrenceIncidenceTarget, i: usize) -> (r: bool)
    requires
        i < target.cut.occurrences@.len(),
        i < target.incidences@.len(),
        state.occurrences@.no_duplicates(),
        state.occurrences@.len() == state.remaining_incidences@.len(),
    ensures
        r == history_incidence_ok(*target, *state, i as int),
{
    let o = target.cut.occurrences[i];
    let used = triangles_with(&state.triangles, o);
    let initial = target.incidences[i] as usize;
    match position_of(&state.occurrences, o) {
        Some(pos) => {
            proof {
                lemma_weight_at(state.occurrences@, state.remaining_incidences@, o, pos as int);
            }
            used <= initial && initial - used == state.remaining_incidences[pos] as usize
        }
        None => {
            proof {
                lemma_weight_absent(state.occurrences@, state.remaining_incidences@, o);
            }
            used == initial
        }
    }
}

fn triangle_has_edge_exec(tr: OccurrenceTriangle, e: Edge) -> (r: bool)
    ensures
        r == triangle_has_edge(tr, e),
{
    let a = global_edge(tr[0], tr[1]);
    let b = global_edge(tr[1], tr[2]);
    let c = global_edge(tr[2], tr[0]);
    (a.0 == e.0 && a.1 == e.1) || (b.0 == e.0 && b.1 == e.1) || (c.0 == e.0 && c.1 == e.1)
}

fn history_diagonal_exec(state: &PolygonIncidenceState, context: &SearchContext, e: Edge) -> (r: bool)
    requires
        context_of(*context, *context.target),
    ensures
        r == history_diagonal_ok(*context.target, *state, e),
{
    if is_noncanonical_bridge(e, context) {
        return false;
    }
    let mut k: usize = 0;
    while k < state.triangles.len()
        invariant
            k <= state.triangles@.len(),
            !noncanonical_bridge(context.target.lower@.to_set(), context.target.upper@.to_set(), context.target.cut.root_bridge, e),
            forall|j: int| 0 <= j < k ==> !triangle_has_edge(#[trigger] state.triangles@[j], e),
        decreases state.triangles@.len() - k,
    {
        if triangle_has_edge_exec(state.triangles[k], e) {
            proof {
                assert(triangle_has_edge(state.triangles@[k as int], e));
            }
            return true;
        }
        k = k + 1;
    }
    false
}

/// Check a state taken from a checkpoint; the error names the first failed check.
fn validate_checkpoint_state(state: &PolygonIncidenceState, context: &SearchContext) -> (r: Result<(), String>)
    requires
        context.target.incidences@.len() == context.target.cut.occurrences@.len(),
        context_of(*context, *context.target),
    ensures
        r is Ok <==> checkpoint_state_error(*context.target, *state) is None,
        r matches Err(reason) ==> checkpoint_state_error(*context.target, *state) == Some(reason@),
{
    let target = context.target;
    if !checkpoint_shape_exec(state, context) {
        return Err("PIER checkpoint state is invalid".to_string());
    }
    let mut i: usize = 0;
    while i < state.triangles.len()
        invariant
            i <= state.triangles@.len(),
            checkpoint_shape_ok(*context.target, *state),
            target == context.target,
            context_of(*context, *context.target),
            forall|j: int| 0 <= j < i ==> #[trigger] history_triangle_ok(*target, state.triangles@, j),
        decreases state.triangles@.len() - i,
    {
        if !history_triangle_exec(target, &state.triangles, i) {
            return Err("PIER checkpoint triangle history is invalid".to_string());
        }
        i = i + 1;
    }
    let mut i: usize = 0;
    while i < target.cut.occurrences.len()
        invariant
            i <= target.cut.occurrences@.len(),
            target.incidences@.len() == target.cut.occurrences@.len(),
            checkpoint_shape_ok(*context.target, *state),
            target == context.target,
            forall|j: int| 0 <= j < state.triangles@.len() ==> #[trigger] history_triangle_ok(*target, state.triangles@, j),
            forall|j: int| 0 <= j < i ==> #[trigger] history_incidence_ok(*target, *state, j),
        decreases target.cut.occurrences@.len() - i,
    {
        if !history_incidence_exec(state, target, i) {
            return Err("PIER checkpoint incidence history is invalid".to_string());
        }
        i = i + 1;
    }
    let listed = crate::cycles::edge_set_to_vec(&state.inserted_global_edges);
    let mut k: usize = 0;
    while k < listed.len()
        invariant
            k <= listed@.len(),
            listed@.to_set() == state.inserted_global_edges@,
            checkpoint_shape_ok(*context.target, *state),
            target == context.target,
            context_of(*context, *context.target),
            forall|j: int| 0 <= j < state.triangles@.len() ==> #[trigger] history_triangle_ok(*target, state.triangles@, j),
            forall|j: int| 0 <= j < target.cut.occurrences@.len() ==> #[trigger] history_incidence_ok(*target, *state, j),
            forall|j: int| 0 <= j < k ==> #[trigger] history_diagonal_ok(*context.target, *state, listed@[j]),
        decreases listed@.len() - k,
    {
        if !history_diagonal_exec(state, context, listed[k]) {
            proof {
                assert(state.inserted_global_edges@.contains(listed@[k as int]));
            }
            return Err("PIER checkpoint diagonal history is invalid".to_string());
        }
        k = k + 1;
    }
    proof {
        assert forall|e: Edge| state.inserted_global_edges@.contains(e) implies #[trigger] history_diagonal_ok(*context.target, *state, e) by {
            assert(listed@.to_set().contains(e));
            let j = choose|j: int| 0 <= j < listed@.len() && listed@[j] == e;
            assert(history_diagonal_ok(*context.target, *state, listed@[j]));
        }
    }
    Ok(())
}


proof fn lemma_chain_lt(tris: Seq<OccurrenceTriangle>, i: int, j: int)
    requires
        forall|k: int| 0 < k < tris.len() ==> triangle_lt(tris[k - 1], #[trigger] tris[k]),
        0 <= i < j < tris.len(),
    ensures
        triangle_lt(tris[i], tris[j]),
    decreases j - i,
{
    if j > i + 1 {
        lemma_chain_lt(tris, i, j - 1);
        lemma_triangle_order(tris[i], tris[j - 1], tris[j]);
    }
}

/// A state that passes the checkpoint checks of a target whose occurrences are
/// distinct keeps every occurrence's incidence.
proof fn lemma_checkpoint_conserves(t: OccurrenceIncidenceTarget, s: PolygonIncidenceState)
    requires
        checkpoint_state_error(t, s) is None,
        t.cut.occurrences@.no_duplicates(),
        t.incidences@.len() == t.cut.occurrences@.len(),
    ensures
        state_conserves(t, s),
{
    reveal(state_conserves);
    let tris = s.triangles@;
    assert forall|i: int, j: int| 0 <= i < j < tris.len() implies !triangle_lt(tris[j], tris[i]) by {
        assert forall|k: int| 0 < k < tris.len() implies triangle_lt(tris[k - 1], #[trigger] tris[k]) by {
            assert(history_triangle_ok(t, tris, k));
        }
        lemma_chain_lt(tris, i, j);
        lemma_triangle_order(tris[i], tris[j], tris[i]);
    }
    assert forall|o: VertexOccurrenceId| #[trigger] tri_count(s.triangles@, o)
        + occ_weight(s.occurrences@, s.remaining_incidences@, o) == occ_weight(t.cut.occurrences@, t.incidences@, o) by {
        if t.cut.occurrences@.contains(o) {
            let i = choose|i: int| 0 <= i < t.cut.occurrences@.len() && t.cut.occurrences@[i] == o;
            assert(history_incidence_ok(t, s, i));
            lemma_weight_at(t.cut.occurrences@, t.incidences@, o, i);
        } else {
            lemma_weight_absent(t.cut.occurrences@, t.incidences@, o);
            assert(!s.occurrences@.contains(o)) by {
                if s.occurrences@.contains(o) {
                    assert(s.occurrences@.to_set().contains(o));
                }
            }
            lemma_weight_absent(s.occurrences@, s.remaining_incidences@, o);
            assert forall|k: int| 0 <= k < tris.len() implies !tri_has(#[trigger] tris[k], o) by {
                assert(history_triangle_ok(t, tris, k));
            }
            lemma_tri_count_absent(tris, o);
        }
    }
}


/// Two target keys hold the same values.
pub open spec fn target_key_same(a: OccurrenceIncidenceTargetKey, b: OccurrenceIncidenceTargetKey) -> bool {
    &&& a.root_bridge == b.root_bridge
    &&& a.occurrences@ == b.occurrences@
    &&& a.incidences@ == b.incidences@
    &&& a.lower@ == b.lower@
    &&& a.upper@ == b.upper@
    &&& a.forbidden_global_edges@ == b.forbidden_global_edges@
}

fn target_keys_same(a: &OccurrenceIncidenceTargetKey, b: &OccurrenceIncidenceTargetKey) -> (r: bool)
    ensures
        r == target_key_same(*a, *b),
{
    a.root_bridge.0 == b.root_bridge.0 && a.root_bridge.1 == b.root_bridge.1
        && occurrences_equal(&a.occurrences, &b.occurrences) && bytes_equal(&a.incidences, &b.incidences)
        && crate::graph::seq_equal(&a.lower, &b.lower) && crate::graph::seq_equal(&a.upper, &b.upper)
        && edges_equal(&a.forbidden_global_edges, &b.forbidden_global_edges)
}

impl PolygonIncidenceCheckpoint {
    /// The states waiting to be examined.
    pub closed spec fn frontier_states(self) -> Seq<PolygonIncidenceState> {
        self.frontier@
    }

    /// The keys of every state pushed so far.
    pub closed spec fn seen_keys(self) -> Seq<PolygonIncidenceStateKey> {
        self.seen_states@
    }

    /// The key of the target that the search was run on.
    pub closed spec fn checkpoint_key(self) -> OccurrenceIncidenceTargetKey {
        self.target_key
    }

    /// The counters when the search stopped.
    pub closed spec fn checkpoint_evidence(self) -> PolygonIncidenceEvidence {
        self.evidence
    }
}

/// The first frontier state from position `i` on that a resumed search refuses.
pub open spec fn frontier_error(t: OccurrenceIncidenceTarget, f: Seq<PolygonIncidenceState>,
    seen: Seq<PolygonIncidenceStateKey>, i: int) -> Option<Seq<char>>
    decreases f.len() - i,
{
    if i < 0 || i >= f.len() {
        None
    } else if checkpoint_state_error(t, f[i]) is Some {
        checkpoint_state_error(t, f[i])
    } else if !key_among(seen, f[i].state_key) {
        Some("PIER checkpoint frontier is absent from seen states"@)
    } else {
        frontier_error(t, f, seen, i + 1)
    }
}

/// Why a checkpoint cannot resume a search on `t`, or `None`.
pub open spec fn checkpoint_error(t: OccurrenceIncidenceTarget, c: PolygonIncidenceCheckpoint) -> Option<Seq<char>> {
    if !target_key_same(c.checkpoint_key(), t.target_key)
        || c.checkpoint_evidence().outcome != PolygonIncidenceOutcomeKind::SearchIncomplete {
        Some("PIER checkpoint identity mismatch"@)
    } else {
        frontier_error(t, c.frontier_states(), c.seen_keys(), 0)
    }
}

proof fn lemma_frontier_error_none(t: OccurrenceIncidenceTarget, f: Seq<PolygonIncidenceState>,
    seen: Seq<PolygonIncidenceStateKey>, i: int, k: int)
    requires
        0 <= i <= k < f.len(),
        frontier_error(t, f, seen, i) is None,
    ensures
        checkpoint_state_error(t, f[k]) is None,
        key_among(seen, f[k].state_key),
    decreases k - i,
{
    if i < k {
        lemma_frontier_error_none(t, f, seen, i + 1, k);
    }
}

/// The search state stored in a checkpoint, checked against the target.
fn resume(target: &OccurrenceIncidenceTarget, checkpoint: &PolygonIncidenceCheckpoint, context: &SearchContext)
    -> (r: Result<(Vec<PolygonIncidenceState>, Vec<PolygonIncidenceStateKey>, PolygonIncidenceEvidence), String>)
    requires
        context_of(*context, *target),
        target.incidences@.len() == target.cut.occurrences@.len(),
    ensures
        r is Ok <==> checkpoint_error(*target, *checkpoint) is None,
        r matches Err(reason) ==> checkpoint_error(*target, *checkpoint) == Some(reason@),
        r matches Ok((f, seen, ev)) ==> {
            &&& f@.len() == checkpoint.frontier_states().len()
            &&& forall|i: int| 0 <= i < f@.len() ==> state_same(#[trigger] f@[i], checkpoint.frontier_states()[i])
            &&& seen@.len() == checkpoint.seen_keys().len()
            &&& forall|i: int| 0 <= i < seen@.len() ==> key_same(#[trigger] seen@[i], checkpoint.seen_keys()[i])
            &&& ev == checkpoint.checkpoint_evidence()
            &&& forall|i: int| 0 <= i < f@.len() ==> checkpoint_state_error(*target, #[trigger] f@[i]) is None
                && key_among(seen@, f@[i].state_key)
        },
{
    if !target_keys_same(&checkpoint.target_key, &target.target_key)
        || checkpoint.evidence.outcome != PolygonIncidenceOutcomeKind::SearchIncomplete {
        return Err("PIER checkpoint identity mismatch".to_string());
    }
    let ghost t = *target;
    let ghost f = checkpoint.frontier@;
    let ghost sn = checkpoint.seen_states@;
    let mut i: usize = 0;
    while i < checkpoint.frontier.len()
        invariant
            i <= f.len(),
            f == checkpoint.frontier@,
            sn == checkpoint.seen_states@,
            t == *target,
            context_of(*context, *target),
            target.incidences@.len() == target.cut.occurrences@.len(),
            checkpoint_error(*target, *checkpoint) == frontier_error(t, f, sn, i as int),
            forall|k: int| 0 <= k < i ==> checkpoint_state_error(t, #[trigger] f[k]) is None && key_among(sn, f[k].state_key),
        decreases f.len() - i,
    {
        let state = &checkpoint.frontier[i];
        validate_checkpoint_state(state, context)?;
        if !seen_contains(&checkpoint.seen_states, &state.state_key) {
            return Err("PIER checkpoint frontier is absent from seen states".to_string());
        }
        i = i + 1;
    }
    let mut frontier: Vec<PolygonIncidenceState> = Vec::new();
    let mut k: usize = 0;
    while k < checkpoint.frontier.len()
        invariant
            k <= f.len(),
            f == checkpoint.frontier@,
            frontier@.len() == k,
            forall|j: int| 0 <= j < k ==> state_same(#[trigger] frontier@[j], f[j]),
        decreases f.len() - k,
    {
        frontier.push(checkpoint.frontier[k].clone());
        k = k + 1;
    }
    let mut seen: Vec<PolygonIncidenceStateKey> = Vec::new();
    let mut k: usize = 0;
    while k < checkpoint.seen_states.len()
        invariant
            k <= sn.len(),
            sn == checkpoint.seen_states@,
            seen@.len() == k,
            forall|j: int| 0 <= j < k ==> key_same(#[trigger] seen@[j], sn[j]),
        decreases sn.len() - k,
    {
        seen.push(checkpoint.seen_states[k].clone());
        k = k + 1;
    }
    proof {
        assert forall|j: int| 0 <= j < frontier@.len() implies checkpoint_state_error(t, #[trigger] frontier@[j]) is None
            && key_among(seen@, frontier@[j].state_key) by {
            assert(checkpoint_state_error(t, f[j]) is None && key_among(sn, f[j].state_key));
            assert(state_same(frontier@[j], f[j]));
            lemma_state_error_same(t, f[j], frontier@[j]);
            let m = choose|m: int| 0 <= m < sn.len() && key_same(#[trigger] sn[m], f[j].state_key);
            assert(key_same(seen@[m], sn[m]));
        }
    }
    Ok((frontier, seen, checkpoint.evidence))
}

proof fn lemma_state_error_same(t: OccurrenceIncidenceTarget, a: PolygonIncidenceState, b: PolygonIncidenceState)
    requires
        state_same(a, b),
    ensures
        checkpoint_state_error(t, a) == checkpoint_state_error(t, b),
{
    assert(checkpoint_shape_ok(t, a) == checkpoint_shape_ok(t, b));
    let ta = forall|i: int| 0 <= i < a.triangles@.len() ==> #[trigger] history_triangle_ok(t, a.triangles@, i);
    let tb = forall|i: int| 0 <= i < b.triangles@.len() ==> #[trigger] history_triangle_ok(t, b.triangles@, i);
    assert(ta == tb);
    let ia = forall|i: int| 0 <= i < t.cut.occurrences@.len() ==> #[trigger] history_incidence_ok(t, a, i);
    let ib = forall|i: int| 0 <= i < t.cut.occurrences@.len() ==> #[trigger] history_incidence_ok(t, b, i);
    assert(ia == ib) by {
        if ia {
            assert forall|i: int| 0 <= i < t.cut.occurrences@.len() implies #[trigger] history_incidence_ok(t, b, i) by {
                assert(history_incidence_ok(t, a, i));
            }
        }
        if ib {
            assert forall|i: int| 0 <= i < t.cut.occurrences@.len() implies #[trigger] history_incidence_ok(t, a, i) by {
                assert(history_incidence_ok(t, b, i));
            }
        }
    }
    let da = forall|e: Edge| a.inserted_global_edges@.contains(e) ==> #[trigger] history_diagonal_ok(t, a, e);
    let db = forall|e: Edge| b.inserted_global_edges@.contains(e) ==> #[trigger] history_diagonal_ok(t, b, e);
    assert(da == db) by {
        if da {
            assert forall|e: Edge| b.inserted_global_edges@.contains(e) implies #[trigger] history_diagonal_ok(t, b, e) by {
                assert(history_diagonal_ok(t, a, e));
                let k = choose|k: int| 0 <= k < a.triangles@.len() && #[trigger] triangle_has_edge(a.triangles@[k], e);
                assert(triangle_has_edge(b.triangles@[k], e));
            }
        }
        if db {
            assert forall|e: Edge| a.inserted_global_edges@.contains(e) implies #[trigger] history_diagonal_ok(t, a, e) by {
                assert(history_diagonal_ok(t, b, e));
                let k = choose|k: int| 0 <= k < b.triangles@.len() && #[trigger] triangle_has_edge(b.triangles@[k], e);
                assert(triangle_has_edge(a.triangles@[k], e));
            }
        }
    }
}


proof fn lemma_checkpoint_wf(t: OccurrenceIncidenceTarget, s: PolygonIncidenceState)
    requires
        checkpoint_state_error(t, s) is None,
    ensures
        state_wf(t, s),
{
    let tris = s.triangles@;
    assert forall|i: int, j: int| 0 <= i < j < tris.len() implies !triangle_lt(tris[j], tris[i]) by {
        assert forall|k: int| 0 < k < tris.len() implies triangle_lt(tris[k - 1], #[trigger] tris[k]) by {
            assert(history_triangle_ok(t, tris, k));
        }
        lemma_chain_lt(tris, i, j);
        lemma_triangle_order(tris[i], tris[j], tris[i]);
    }
}

/// Closing the last triangle of a conserving state gives every occurrence its
/// target incidence.
proof fn lemma_finish_realizes(t: OccurrenceIncidenceTarget, s: PolygonIncidenceState, w: Seq<OccurrenceTriangle>)
    requires
        state_conserves(t, s),
        finishes(s),
        exists|p: int, tri: OccurrenceTriangle| 0 <= p <= s.triangles@.len() && w == s.triangles@.insert(p, tri)
            && permutation3(tri, [s.occurrences@[0], s.occurrences@[1], s.occurrences@[2]]),
    ensures
        realizes(t, w),
{
    reveal(state_conserves);
    let occ = s.occurrences@;
    let (p, tri) = choose|p: int, tri: OccurrenceTriangle| 0 <= p <= s.triangles@.len() && w == s.triangles@.insert(p, tri)
        && permutation3(tri, [occ[0], occ[1], occ[2]]);
    assert forall|o: VertexOccurrenceId| #[trigger] tri_count(w, o) == occ_weight(t.cut.occurrences@, t.incidences@, o) by {
        lemma_tri_count_insert(s.triangles@, p, tri, o);
        lemma_three_weights(occ, o);
        let base: OccurrenceTriangle = [occ[0], occ[1], occ[2]];
        assert(tri_has(tri, o) == tri_has(base, o));
        assert(tri_count(s.triangles@, o) + occ_weight(occ, s.remaining_incidences@, o) == occ_weight(t.cut.occurrences@, t.incidences@, o));
    }
}

proof fn lemma_key_among_grows(old_seen: Seq<PolygonIncidenceStateKey>, seen: Seq<PolygonIncidenceStateKey>, k: PolygonIncidenceStateKey)
    requires
        key_among(old_seen, k),
        old_seen.len() <= seen.len(),
        seen.subrange(0, old_seen.len() as int) == old_seen,
    ensures
        key_among(seen, k),
{
    let j = choose|j: int| 0 <= j < old_seen.len() && key_same(#[trigger] old_seen[j], k);
    assert(seen[j] == seen.subrange(0, old_seen.len() as int)[j]);
}

/// What every state on the frontier of a search satisfies.
pub open spec fn frontier_ok(t: OccurrenceIncidenceTarget, conserving: bool, frontier: Seq<PolygonIncidenceState>,
    seen: Seq<PolygonIncidenceStateKey>) -> bool {
    &&& forall|i: int| 0 <= i < frontier.len() ==> state_wf(t, #[trigger] frontier[i])
    &&& conserving ==> forall|i: int| 0 <= i < frontier.len() ==> state_conserves(t, #[trigger] frontier[i])
    &&& forall|i: int| 0 <= i < frontier.len() ==> key_among(seen, #[trigger] frontier[i].state_key)
}

/// A search node: the occurrences left, their remaining incidences and the
/// diagonals inserted so far.
pub open spec fn node_of_key(k: PolygonIncidenceStateKey) -> (Seq<VertexOccurrenceId>, Seq<u8>, Set<Edge>) {
    (k.occurrences@, k.remaining_incidences@, k.inserted_global_edges@)
}

/// The node of a search state.
pub open spec fn node_of_state(s: PolygonIncidenceState) -> (Seq<VertexOccurrenceId>, Seq<u8>, Set<Edge>) {
    (s.occurrences@, s.remaining_incidences@, s.inserted_global_edges@)
}

/// The node that a search of target `t` starts from.
pub open spec fn root_node(t: OccurrenceIncidenceTarget) -> (Seq<VertexOccurrenceId>, Seq<u8>, Set<Edge>) {
    (t.cut.occurrences@, t.incidences@, Set::empty())
}

/// Node `a` is a last triangle with incidences one and three slots.
pub open spec fn node_finishes(a: (Seq<VertexOccurrenceId>, Seq<u8>, Set<Edge>)) -> bool {
    &&& a.0.len() == 3
    &&& a.1 == seq![1u8, 1u8, 1u8]
    &&& slots_distinct(a.0[0], a.0[1], a.0[2])
}

/// Cutting off the ear at `ear` of node `a` is allowed for target `t`.
pub open spec fn node_ear_ok(t: OccurrenceIncidenceTarget, a: (Seq<VertexOccurrenceId>, Seq<u8>, Set<Edge>), ear: int) -> bool {
    let occ = a.0;
    let rem = a.1;
    let n = occ.len() as int;
    let p = ear_prev(n, ear);
    let x = ear_next(n, ear);
    let d = ear_diagonal(occ, ear);
    &&& slots_distinct(occ[p], occ[ear], occ[x])
    &&& !t.forbidden_global_edges@.contains(d)
    &&& !boundary_global_set(t.cut).contains(d)
    &&& !a.2.contains(d)
    &&& !noncanonical_bridge(t.lower@.to_set(), t.upper@.to_set(), t.cut.root_bridge, d)
    &&& rem[p] >= 2
    &&& rem[x] >= 2
    &&& incidence_total(ear_remaining(rem, n, ear)) == 3 * (n - 3)
}

/// The node left by cutting off the ear at `ear` of node `a`.
pub open spec fn node_child(a: (Seq<VertexOccurrenceId>, Seq<u8>, Set<Edge>), ear: int) -> (Seq<VertexOccurrenceId>, Seq<u8>, Set<Edge>) {
    (a.0.remove(ear), ear_remaining(a.1, a.0.len() as int, ear), a.2.insert(ear_diagonal(a.0, ear)))
}

/// Node `b` follows node `a` by cutting off an allowed ear of incidence one.
pub open spec fn node_step(t: OccurrenceIncidenceTarget, a: (Seq<VertexOccurrenceId>, Seq<u8>, Set<Edge>),
    b: (Seq<VertexOccurrenceId>, Seq<u8>, Set<Edge>)) -> bool {
    &&& a.0.len() > 3
    &&& exists|e: int| 0 <= e < a.0.len() && a.1[e] == 1 && node_ear_ok(t, a, e) && #[trigger] node_child(a, e) == b
}

/// Every step from a node of `nodes` leads to a node of `nodes`.
pub open spec fn nodes_step_closed(t: OccurrenceIncidenceTarget, nodes: Set<(Seq<VertexOccurrenceId>, Seq<u8>, Set<Edge>)>) -> bool {
    forall|a: (Seq<VertexOccurrenceId>, Seq<u8>, Set<Edge>), b: (Seq<VertexOccurrenceId>, Seq<u8>, Set<Edge>)|
        nodes.contains(a) && #[trigger] node_step(t, a, b) ==> nodes.contains(b)
}

/// Node `x` can be reached from node `root` by cutting off allowed ears of
/// incidence one: it lies in every step-closed set of nodes that holds `root`.
pub open spec fn node_reachable(t: OccurrenceIncidenceTarget, root: (Seq<VertexOccurrenceId>, Seq<u8>, Set<Edge>),
    x: (Seq<VertexOccurrenceId>, Seq<u8>, Set<Edge>)) -> bool {
    forall|nodes: Set<(Seq<VertexOccurrenceId>, Seq<u8>, Set<Edge>)>| #[trigger] nodes_step_closed(t, nodes) && nodes.contains(root)
        ==> nodes.contains(x)
}

/// Some key of `seen` has node `a`.
pub open spec fn node_seen(seen: Seq<PolygonIncidenceStateKey>, a: (Seq<VertexOccurrenceId>, Seq<u8>, Set<Edge>)) -> bool {
    exists|j: int| 0 <= j < seen.len() && #[trigger] node_of_key(seen[j]) == a
}

/// Some state of `frontier` has node `a`.
pub open spec fn node_waiting(frontier: Seq<PolygonIncidenceState>, a: (Seq<VertexOccurrenceId>, Seq<u8>, Set<Edge>)) -> bool {
    exists|j: int| 0 <= j < frontier.len() && #[trigger] node_of_state(frontier[j]) == a
}

/// The search so far has seen the root, and every node it has seen either
/// waits on the frontier or was expanded: it does not finish unless `found`,
/// and every step from it leads to a seen node.
pub open spec fn search_closed(t: OccurrenceIncidenceTarget, seen: Seq<PolygonIncidenceStateKey>, frontier: Seq<PolygonIncidenceState>,
    found: bool) -> bool {
    &&& node_seen(seen, root_node(t))
    &&& forall|a: (Seq<VertexOccurrenceId>, Seq<u8>, Set<Edge>)| #[trigger] node_seen(seen, a) ==> node_waiting(frontier, a)
        || ((found || !node_finishes(a)) && forall|b: (Seq<VertexOccurrenceId>, Seq<u8>, Set<Edge>)| #[trigger] node_step(t, a, b) ==> node_seen(seen, b))
}

/// A closed search stays closed once something was found.
proof fn lemma_closed_found(t: OccurrenceIncidenceTarget, seen: Seq<PolygonIncidenceStateKey>, frontier: Seq<PolygonIncidenceState>, found: bool)
    requires
        search_closed(t, seen, frontier, found),
    ensures
        search_closed(t, seen, frontier, true),
{
}

/// Popping a state that finishes keeps a search that has found something closed.
proof fn lemma_finish_pop(t: OccurrenceIncidenceTarget, seen: Seq<PolygonIncidenceStateKey>, pre: Seq<PolygonIncidenceState>,
    st: PolygonIncidenceState)
    requires
        search_closed(t, seen, pre, true),
        pre.len() > 0,
        st == pre[pre.len() - 1],
        finishes(st),
    ensures
        search_closed(t, seen, pre.drop_last(), true),
{
    let a0 = node_of_state(st);
    assert forall|b: (Seq<VertexOccurrenceId>, Seq<u8>, Set<Edge>)| #[trigger] node_step(t, a0, b) implies node_seen(seen, b) by {}
    assert forall|a: (Seq<VertexOccurrenceId>, Seq<u8>, Set<Edge>)| #[trigger] node_seen(seen, a) implies node_waiting(pre.drop_last(), a)
        || (forall|b: (Seq<VertexOccurrenceId>, Seq<u8>, Set<Edge>)| #[trigger] node_step(t, a, b) ==> node_seen(seen, b)) by {
        if node_waiting(pre, a) {
            let i = choose|i: int| 0 <= i < pre.len() && #[trigger] node_of_state(pre[i]) == a;
            if i < pre.len() - 1 {
                assert(pre.drop_last()[i] == pre[i]);
                assert(node_of_state(pre.drop_last()[i]) == a);
            }
        }
    }
}

/// With nothing left on the frontier, no node reachable from the root finishes.
proof fn lemma_closed_search_complete(t: OccurrenceIncidenceTarget, seen: Seq<PolygonIncidenceStateKey>, frontier: Seq<PolygonIncidenceState>)
    requires
        search_closed(t, seen, frontier, false),
        frontier.len() == 0,
    ensures
        forall|x: (Seq<VertexOccurrenceId>, Seq<u8>, Set<Edge>)| #[trigger] node_reachable(t, root_node(t), x) ==> !node_finishes(x),
{
    let nodes = Set::new(|a: (Seq<VertexOccurrenceId>, Seq<u8>, Set<Edge>)| node_seen(seen, a));
    assert forall|a: (Seq<VertexOccurrenceId>, Seq<u8>, Set<Edge>), b: (Seq<VertexOccurrenceId>, Seq<u8>, Set<Edge>)|
        nodes.contains(a) && #[trigger] node_step(t, a, b) implies nodes.contains(b) by {
        assert(node_seen(seen, a));
        assert(!node_waiting(frontier, a));
    }
    assert(nodes_step_closed(t, nodes));
    assert forall|x: (Seq<VertexOccurrenceId>, Seq<u8>, Set<Edge>)| #[trigger] node_reachable(t, root_node(t), x) implies !node_finishes(x) by {
        assert(nodes.contains(root_node(t)));
        assert(nodes.contains(x));
        assert(!node_waiting(frontier, x));
    }
}

/// Expanding the last state of the frontier keeps the search closed.
proof fn lemma_search_step(t: OccurrenceIncidenceTarget, context: SearchContext, seen: Seq<PolygonIncidenceStateKey>,
    pre: Seq<PolygonIncidenceState>, st: PolygonIncidenceState, seen2: Seq<PolygonIncidenceStateKey>,
    frontier2: Seq<PolygonIncidenceState>, found: bool)
    requires
        context_of(context, t),
        search_closed(t, seen, pre, found),
        pre.len() > 0,
        st == pre[pre.len() - 1],
        state_wf(t, st),
        !finishes(st),
        st.occurrences@.len() <= 3 ==> seen2 == seen && frontier2 == pre.drop_last(),
        st.occurrences@.len() > 3 ==> {
            let added = frontier2.subrange(pre.len() - 1, frontier2.len() as int);
            &&& frontier2.len() >= pre.len() - 1
            &&& frontier2.subrange(0, pre.len() - 1) == pre.drop_last()
            &&& pushed_children(context, st, seen, added)
            &&& seen2.len() >= seen.len()
            &&& seen2.subrange(0, seen.len() as int) == seen
            &&& forall|i: int| 0 <= i < added.len() ==> key_among(seen2, #[trigger] added[i].state_key)
            &&& forall|i: int| 0 <= i < added.len() ==> state_wf(t, #[trigger] added[i])
            &&& forall|i: int| seen.len() <= i < seen2.len() ==> node_waiting(added, node_of_key(#[trigger] seen2[i]))
        },
    ensures
        search_closed(t, seen2, frontier2, found),
{
    let a0 = node_of_state(st);
    let last = pre.len() - 1;
    assert forall|x: (Seq<VertexOccurrenceId>, Seq<u8>, Set<Edge>)| node_seen(seen, x) implies #[trigger] node_seen(seen2, x) by {
        let j = choose|j: int| 0 <= j < seen.len() && #[trigger] node_of_key(seen[j]) == x;
        if st.occurrences@.len() > 3 {
            assert(seen2.subrange(0, seen.len() as int)[j] == seen2[j]);
        }
        assert(node_of_key(seen2[j]) == x);
    }
    assert forall|b: (Seq<VertexOccurrenceId>, Seq<u8>, Set<Edge>)| #[trigger] node_step(t, a0, b) implies node_seen(seen2, b) by {
        let e = choose|e: int| 0 <= e < a0.0.len() && a0.1[e] == 1 && node_ear_ok(t, a0, e) && #[trigger] node_child(a0, e) == b;
        reveal(ear_accepted);
        assert(ear_accepted(context, st, e));
        let added = frontier2.subrange(pre.len() - 1, frontier2.len() as int);
        assert(key_recorded(st, e, seen) || child_pushed(st, e, added));
        if key_recorded(st, e, seen) {
            let j = choose|j: int| 0 <= j < seen.len() && #[trigger] child_key_is(st, e, seen[j]);
            assert(node_of_key(seen[j]) == b);
            assert(node_seen(seen, b));
        } else {
            let j = choose|j: int| 0 <= j < added.len() && #[trigger] child_key_is(st, e, added[j].state_key);
            assert(key_among(seen2, added[j].state_key));
            let m = choose|m: int| 0 <= m < seen2.len() && key_same(#[trigger] seen2[m], added[j].state_key);
            assert(node_of_key(seen2[m]) == b);
        }
    }
    assert forall|a: (Seq<VertexOccurrenceId>, Seq<u8>, Set<Edge>)| #[trigger] node_seen(seen2, a) implies node_waiting(frontier2, a)
        || ((found || !node_finishes(a)) && forall|b: (Seq<VertexOccurrenceId>, Seq<u8>, Set<Edge>)| #[trigger] node_step(t, a, b) ==> node_seen(seen2, b)) by {
        let j = choose|j: int| 0 <= j < seen2.len() && #[trigger] node_of_key(seen2[j]) == a;
        if j < seen.len() {
            if st.occurrences@.len() > 3 {
                assert(seen2.subrange(0, seen.len() as int)[j] == seen2[j]);
            }
            assert(node_of_key(seen[j]) == a);
            assert(node_seen(seen, a));
            if node_waiting(pre, a) {
                let i = choose|i: int| 0 <= i < pre.len() && #[trigger] node_of_state(pre[i]) == a;
                if i < last {
                    if st.occurrences@.len() > 3 {
                        assert(frontier2.subrange(0, pre.len() - 1)[i] == frontier2[i]);
                    }
                    assert(frontier2[i] == pre[i]);
                    assert(node_of_state(frontier2[i]) == a);
                } else {
                    assert(a == a0);
                }
            }
        } else {
            let added = frontier2.subrange(pre.len() - 1, frontier2.len() as int);
            assert(node_waiting(added, node_of_key(seen2[j])));
            let k = choose|k: int| 0 <= k < added.len() && #[trigger] node_of_state(added[k]) == a;
            assert(added[k] == frontier2[pre.len() - 1 + k]);
            assert(node_of_state(frontier2[pre.len() - 1 + k]) == a);
        }
    }
}

/// Triangle `t` joins three occurrences of three different slots, in
/// increasing order.
pub open spec fn proper_triangle(t: OccurrenceTriangle) -> bool {
    &&& slots_distinct(t[0], t[1], t[2])
    &&& occurrence_le(t[0], t[1])
    &&& occurrence_le(t[1], t[2])
}

/// Proper triangles in strictly increasing order.
pub open spec fn proper_triangulation(ts: Seq<OccurrenceTriangle>) -> bool {
    &&& forall|i: int, j: int| 0 <= i < j < ts.len() ==> triangle_lt(#[trigger] ts[i], #[trigger] ts[j])
    &&& forall|i: int| 0 <= i < ts.len() ==> proper_triangle(#[trigger] ts[i])
}

/// Some corner of `t` is not among `occ`.
pub open spec fn has_cut_corner(occ: Seq<VertexOccurrenceId>, t: OccurrenceTriangle) -> bool {
    !occ.contains(t[0]) || !occ.contains(t[1]) || !occ.contains(t[2])
}

/// The state repeats no occurrence, and its triangles are proper, pairwise
/// different, and each has a corner that the state no longer holds.
pub open spec fn cut_separated(s: PolygonIncidenceState) -> bool {
    &&& s.occurrences@.no_duplicates()
    &&& forall|i: int| 0 <= i < s.triangles@.len() ==> proper_triangle(#[trigger] s.triangles@[i])
    &&& forall|i: int| 0 <= i < s.triangles@.len() ==> has_cut_corner(s.occurrences@, #[trigger] s.triangles@[i])
    &&& forall|i: int, j: int| 0 <= i < j < s.triangles@.len() ==> #[trigger] s.triangles@[i] != #[trigger] s.triangles@[j]
}

proof fn lemma_child_separated(context: SearchContext, st: PolygonIncidenceState, e: int, c: PolygonIncidenceState)
    requires
        cut_separated(st),
        st.occurrences@.len() > 3,
        0 <= e < st.occurrences@.len(),
        ear_accepted(context, st, e),
        ear_child_of(st, e, c),
    ensures
        cut_separated(c),
{
    reveal(ear_accepted);
    reveal(ear_child_of);
    let occ = st.occurrences@;
    let n = occ.len() as int;
    let (p, t) = choose|p: int, t: OccurrenceTriangle| 0 <= p <= st.triangles@.len() && c.triangles@ == st.triangles@.insert(p, t)
        && permutation3(t, [occ[ear_prev(n, e)], occ[e], occ[ear_next(n, e)]])
        && occurrence_le(t[0], t[1]) && occurrence_le(t[1], t[2]);
    let co = c.occurrences@;
    assert(co == occ.remove(e));
    assert forall|x: VertexOccurrenceId| co.contains(x) implies occ.contains(x) && x != occ[e] by {
        let k = choose|k: int| 0 <= k < co.len() && co[k] == x;
        if k < e {
            assert(co[k] == occ[k]);
        } else {
            assert(co[k] == occ[k + 1]);
        }
    }
    assert(co.no_duplicates()) by {
        assert forall|a: int, b: int| 0 <= a < b < co.len() implies co[a] != co[b] by {
            let a2 = if a < e { a } else { a + 1 };
            let b2 = if b < e { b } else { b + 1 };
            assert(co[a] == occ[a2]);
            assert(co[b] == occ[b2]);
        }
    }
    assert(occ.contains(occ[ear_prev(n, e)]));
    assert(occ.contains(occ[e]));
    assert(occ.contains(occ[ear_next(n, e)]));
    assert(proper_triangle(t));
    assert(has_cut_corner(co, t));
    let old = st.triangles@;
    let ts = c.triangles@;
    assert forall|i: int| 0 <= i < old.len() implies #[trigger] old[i] != t && has_cut_corner(co, old[i]) by {
        assert(has_cut_corner(occ, old[i]));
    }
    assert forall|i: int| 0 <= i < ts.len() implies proper_triangle(#[trigger] ts[i]) && has_cut_corner(co, ts[i]) by {
        if i < p {
            assert(ts[i] == old[i]);
        } else if i > p {
            assert(ts[i] == old[i - 1]);
        }
    }
    assert forall|i: int, j: int| 0 <= i < j < ts.len() implies #[trigger] ts[i] != #[trigger] ts[j] by {
        if i < p && j < p {
            assert(ts[i] == old[i] && ts[j] == old[j]);
        } else if i < p && j == p {
            assert(ts[i] == old[i]);
        } else if i < p {
            assert(ts[i] == old[i] && ts[j] == old[j - 1]);
        } else if i == p {
            assert(ts[j] == old[j - 1]);
        } else {
            assert(ts[i] == old[i - 1] && ts[j] == old[j - 1]);
        }
    }
}

proof fn lemma_finish_separated(st: PolygonIncidenceState, ts: Seq<OccurrenceTriangle>)
    requires
        cut_separated(st),
        finishes(st),
        triangles_sorted(ts),
        exists|p: int, t: OccurrenceTriangle| 0 <= p <= st.triangles@.len() && ts == st.triangles@.insert(p, t)
            && permutation3(t, [st.occurrences@[0], st.occurrences@[1], st.occurrences@[2]])
            && occurrence_le(t[0], t[1]) && occurrence_le(t[1], t[2]),
    ensures
        proper_triangulation(ts),
{
    let occ = st.occurrences@;
    let (p, t) = choose|p: int, t: OccurrenceTriangle| 0 <= p <= st.triangles@.len() && ts == st.triangles@.insert(p, t)
        && permutation3(t, [occ[0], occ[1], occ[2]])
        && occurrence_le(t[0], t[1]) && occurrence_le(t[1], t[2]);
    assert(occ.contains(occ[0]) && occ.contains(occ[1]) && occ.contains(occ[2]));
    let old = st.triangles@;
    assert forall|i: int| 0 <= i < old.len() implies #[trigger] old[i] != t by {
        assert(has_cut_corner(occ, old[i]));
    }
    assert forall|i: int| 0 <= i < ts.len() implies proper_triangle(#[trigger] ts[i]) by {
        if i < p {
            assert(ts[i] == old[i]);
        } else if i > p {
            assert(ts[i] == old[i - 1]);
        }
    }
    assert forall|i: int, j: int| 0 <= i < j < ts.len() implies triangle_lt(#[trigger] ts[i], #[trigger] ts[j]) by {
        if i < p && j < p {
            assert(ts[i] == old[i] && ts[j] == old[j]);
        } else if i < p && j == p {
            assert(ts[i] == old[i]);
        } else if i < p {
            assert(ts[i] == old[i] && ts[j] == old[j - 1]);
        } else if i == p {
            assert(ts[j] == old[j - 1]);
        } else {
            assert(ts[i] == old[i - 1] && ts[j] == old[j - 1]);
        }
        assert(ts[i] != ts[j]);
        assert(!triangle_lt(ts[j], ts[i]));
        lemma_triangle_order(ts[i], ts[j], ts[j]);
    }
}

proof fn lemma_children_separated(context: SearchContext, st: PolygonIncidenceState, seen: Seq<PolygonIncidenceStateKey>,
    added: Seq<PolygonIncidenceState>)
    requires
        cut_separated(st),
        st.occurrences@.len() > 3,
        pushed_children(context, st, seen, added),
    ensures
        forall|i: int| 0 <= i < added.len() ==> cut_separated(#[trigger] added[i]),
{
    let n = st.occurrences@.len() as int;
    assert forall|i: int| 0 <= i < added.len() implies cut_separated(#[trigger] added[i]) by {
        assert(child_of_some_ear(context, st, added[i], n));
        let e = choose|e: int| 0 <= e < n && st.remaining_incidences@[e] == 1 && ear_accepted(context, st, e)
            && #[trigger] ear_child_of(st, e, added[i]);
        lemma_child_separated(context, st, e, added[i]);
    }
}

proof fn lemma_reachable_step(t: OccurrenceIncidenceTarget, root: (Seq<VertexOccurrenceId>, Seq<u8>, Set<Edge>),
    a: (Seq<VertexOccurrenceId>, Seq<u8>, Set<Edge>), b: (Seq<VertexOccurrenceId>, Seq<u8>, Set<Edge>))
    requires
        node_reachable(t, root, a),
        node_step(t, a, b),
    ensures
        node_reachable(t, root, b),
{
    assert forall|nodes: Set<(Seq<VertexOccurrenceId>, Seq<u8>, Set<Edge>)>| #[trigger] nodes_step_closed(t, nodes) && nodes.contains(root)
        implies nodes.contains(b) by {
        assert(nodes.contains(a));
    }
}

/// Expanding a seen state adds only nodes reachable from the root.
proof fn lemma_seen_reachable_step(t: OccurrenceIncidenceTarget, context: SearchContext, seen: Seq<PolygonIncidenceStateKey>,
    st: PolygonIncidenceState, seen2: Seq<PolygonIncidenceStateKey>, added: Seq<PolygonIncidenceState>)
    requires
        context_of(context, t),
        forall|j: int| 0 <= j < seen.len() ==> node_reachable(t, root_node(t), node_of_key(#[trigger] seen[j])),
        node_seen(seen, node_of_state(st)),
        st.occurrences@.len() > 3,
        pushed_children(context, st, seen, added),
        seen2.len() >= seen.len(),
        seen2.subrange(0, seen.len() as int) == seen,
        forall|i: int| seen.len() <= i < seen2.len() ==> node_waiting(added, node_of_key(#[trigger] seen2[i])),
    ensures
        forall|j: int| 0 <= j < seen2.len() ==> node_reachable(t, root_node(t), node_of_key(#[trigger] seen2[j])),
{
    let a0 = node_of_state(st);
    let n = st.occurrences@.len() as int;
    let j0 = choose|j: int| 0 <= j < seen.len() && #[trigger] node_of_key(seen[j]) == a0;
    assert(node_reachable(t, root_node(t), node_of_key(seen[j0])));
    assert forall|j: int| 0 <= j < seen2.len() implies node_reachable(t, root_node(t), node_of_key(#[trigger] seen2[j])) by {
        if j < seen.len() {
            assert(seen2.subrange(0, seen.len() as int)[j] == seen2[j]);
            assert(node_reachable(t, root_node(t), node_of_key(seen[j])));
        } else {
            assert(node_waiting(added, node_of_key(seen2[j])));
            let k = choose|k: int| 0 <= k < added.len() && #[trigger] node_of_state(added[k]) == node_of_key(seen2[j]);
            assert(child_of_some_ear(context, st, added[k], n));
            let e = choose|e: int| 0 <= e < n && st.remaining_incidences@[e] == 1 && ear_accepted(context, st, e)
                && #[trigger] ear_child_of(st, e, added[k]);
            reveal(ear_accepted);
            reveal(ear_child_of);
            assert(node_ear_ok(t, a0, e));
            assert(node_child(a0, e) == node_of_state(added[k]));
            assert(node_step(t, a0, node_of_state(added[k])));
            lemma_reachable_step(t, root_node(t), a0, node_of_state(added[k]));
        }
    }
}

/// A search whose seen nodes are distinct members of `nodes` has seen at most
/// as many keys as `nodes` has members.
proof fn lemma_seen_bound(seen: Seq<PolygonIncidenceStateKey>, nodes: Set<(Seq<VertexOccurrenceId>, Seq<u8>, Set<Edge>)>)
    requires
        nodes.finite(),
        forall|j: int| 0 <= j < seen.len() ==> nodes.contains(node_of_key(#[trigger] seen[j])),
        forall|i: int, j: int| 0 <= i < j < seen.len() ==> node_of_key(#[trigger] seen[i]) != node_of_key(#[trigger] seen[j]),
    ensures
        seen.len() <= nodes.len(),
{
    let m = seen.map_values(|k: PolygonIncidenceStateKey| node_of_key(k));
    assert(m.no_duplicates()) by {
        assert forall|i: int, j: int| 0 <= i < m.len() && 0 <= j < m.len() && i != j implies m[i] != m[j] by {
            if i < j {
                assert(node_of_key(seen[i]) != node_of_key(seen[j]));
            } else {
                assert(node_of_key(seen[j]) != node_of_key(seen[i]));
            }
        }
    }
    assert(m.to_set().subset_of(nodes)) by {
        assert forall|x: (Seq<VertexOccurrenceId>, Seq<u8>, Set<Edge>)| m.to_set().contains(x) implies nodes.contains(x) by {
            let j = choose|j: int| 0 <= j < m.len() && m[j] == x;
            assert(nodes.contains(node_of_key(seen[j])));
        }
    }
    m.unique_seq_to_set();
    vstd::set_lib::lemma_len_subset(m.to_set(), nodes);
}

/// `nodes` holds every node reachable from the root of target `t`.
pub open spec fn covers_reachable(t: OccurrenceIncidenceTarget, nodes: Set<(Seq<VertexOccurrenceId>, Seq<u8>, Set<Edge>)>) -> bool {
    forall|x: (Seq<VertexOccurrenceId>, Seq<u8>, Set<Edge>)| #[trigger] node_reachable(t, root_node(t), x) ==> nodes.contains(x)
}

/// A checkpoint of a closed search that has seen only nodes reachable from the root.
pub open spec fn checkpoint_sound(t: OccurrenceIncidenceTarget, c: PolygonIncidenceCheckpoint) -> bool {
    &&& search_closed(t, c.seen_keys(), c.frontier_states(), false)
    &&& forall|j: int| 0 <= j < c.seen_keys().len() ==> node_reachable(t, root_node(t), node_of_key(#[trigger] c.seen_keys()[j]))
    &&& forall|i: int| 0 <= i < c.frontier_states().len() ==> cut_separated(#[trigger] c.frontier_states()[i])
}

/// The search starts afresh, or from a sound checkpoint.
pub open spec fn start_sound(t: OccurrenceIncidenceTarget, checkpoint: Option<&PolygonIncidenceCheckpoint>) -> bool {
    match checkpoint {
        None => true,
        Some(c) => checkpoint_sound(t, *c),
    }
}

/// Closedness and reachability depend on the nodes of the seen keys and of
/// the frontier states alone.
proof fn lemma_closed_transfer(t: OccurrenceIncidenceTarget, s1: Seq<PolygonIncidenceStateKey>, f1: Seq<PolygonIncidenceState>,
    s2: Seq<PolygonIncidenceStateKey>, f2: Seq<PolygonIncidenceState>)
    requires
        search_closed(t, s1, f1, false),
        forall|j: int| 0 <= j < s1.len() ==> node_reachable(t, root_node(t), node_of_key(#[trigger] s1[j])),
        s1.len() == s2.len(),
        f1.len() == f2.len(),
        forall|j: int| 0 <= j < s1.len() ==> node_of_key(#[trigger] s2[j]) == node_of_key(s1[j]),
        forall|j: int| 0 <= j < f1.len() ==> node_of_state(#[trigger] f2[j]) == node_of_state(f1[j]),
    ensures
        search_closed(t, s2, f2, false),
        forall|j: int| 0 <= j < s2.len() ==> node_reachable(t, root_node(t), node_of_key(#[trigger] s2[j])),
{
    assert forall|a: (Seq<VertexOccurrenceId>, Seq<u8>, Set<Edge>)| node_seen(s1, a) <==> #[trigger] node_seen(s2, a) by {
        if node_seen(s1, a) {
            let j = choose|j: int| 0 <= j < s1.len() && #[trigger] node_of_key(s1[j]) == a;
            assert(node_of_key(s2[j]) == a);
        }
        if node_seen(s2, a) {
            let j = choose|j: int| 0 <= j < s2.len() && #[trigger] node_of_key(s2[j]) == a;
            assert(node_of_key(s1[j]) == a);
        }
    }
    assert forall|a: (Seq<VertexOccurrenceId>, Seq<u8>, Set<Edge>)| node_waiting(f1, a) implies #[trigger] node_waiting(f2, a) by {
        let j = choose|j: int| 0 <= j < f1.len() && #[trigger] node_of_state(f1[j]) == a;
        assert(node_of_state(f2[j]) == a);
    }
    assert(node_seen(s1, root_node(t)));
    assert forall|j: int| 0 <= j < s2.len() implies node_reachable(t, root_node(t), node_of_key(#[trigger] s2[j])) by {
        assert(node_of_key(s2[j]) == node_of_key(s1[j]));
    }
}

/// A finished search answers by reachability: it found a witness exactly when
/// some node reachable from the root finishes.
pub open spec fn settled_by_reachability(t: OccurrenceIncidenceTarget, r: PolygonIncidenceWitnessOutcome) -> bool {
    &&& r is ExactNoWitness ==> forall|x: (Seq<VertexOccurrenceId>, Seq<u8>, Set<Edge>)|
        #[trigger] node_reachable(t, root_node(t), x) ==> !node_finishes(x)
    &&& r is Found ==> exists|x: (Seq<VertexOccurrenceId>, Seq<u8>, Set<Edge>)|
        #[trigger] node_reachable(t, root_node(t), x) && node_finishes(x)
}

/// Two searches of one target that both finished, say one run in one go and
/// one resumed from a sound checkpoint, agree on whether a witness exists.
pub proof fn finished_searches_agree(t: OccurrenceIncidenceTarget, a: PolygonIncidenceWitnessOutcome, b: PolygonIncidenceWitnessOutcome)
    requires
        a is Found || a is ExactNoWitness,
        b is Found || b is ExactNoWitness,
        settled_by_reachability(t, a),
        settled_by_reachability(t, b),
    ensures
        (a is Found) == (b is Found),
{
    if a is Found && b is ExactNoWitness {
        let x = choose|x: (Seq<VertexOccurrenceId>, Seq<u8>, Set<Edge>)| #[trigger] node_reachable(t, root_node(t), x) && node_finishes(x);
    }
    if b is Found && a is ExactNoWitness {
        let x = choose|x: (Seq<VertexOccurrenceId>, Seq<u8>, Set<Edge>)| #[trigger] node_reachable(t, root_node(t), x) && node_finishes(x);
    }
}

/// The number of states that a checkpoint had already examined.
pub open spec fn states_before(checkpoint: Option<&PolygonIncidenceCheckpoint>) -> u64 {
    match checkpoint {
        Some(c) => c.checkpoint_evidence().states,
        None => 0,
    }
}

/// Search for a triangulation of the cut polygon that realizes the target
/// incidences by cutting off ears of incidence one, examining at most
/// `maximum_states` states, from the start or from a checkpoint.
pub fn solve_polygon_incidence_witness(target: &OccurrenceIncidenceTarget, maximum_states: u64,
    checkpoint: Option<&PolygonIncidenceCheckpoint>) -> (r: PolygonIncidenceWitnessOutcome)
    ensures
        target_error(*target) matches Some(m) ==> (r matches PolygonIncidenceWitnessOutcome::InvalidInput(reason) && reason@ == m),
        target_error(*target) is None ==> match checkpoint {
            None => !(r is InvalidInput),
            Some(c) => match checkpoint_error(*target, *c) {
                Some(m) => (r matches PolygonIncidenceWitnessOutcome::InvalidInput(reason) && reason@ == m),
                None => !(r is InvalidInput),
            },
        },
        r matches PolygonIncidenceWitnessOutcome::Found { witness, evidence } ==> {
            &&& evidence.outcome == PolygonIncidenceOutcomeKind::Found
            &&& triangles_sorted(witness.triangles@)
            &&& witness.triangles@.len() + 2 == target.cut.occurrences@.len()
            &&& realizes(*target, witness.triangles@)
            &&& start_sound(*target, checkpoint) ==> proper_triangulation(witness.triangles@)
            &&& evidence.states <= sat_add(states_before(checkpoint), maximum_states as int)
        },
        r matches PolygonIncidenceWitnessOutcome::ExactNoWitness { target: k, states, evidence } ==> {
            &&& evidence.outcome == PolygonIncidenceOutcomeKind::ExactNoWitness
            &&& states == evidence.states
            &&& target_key_same(k, target.target_key)
            &&& evidence.states <= sat_add(states_before(checkpoint), maximum_states as int)
        },
        r matches PolygonIncidenceWitnessOutcome::SearchIncomplete { checkpoint: c, evidence } ==> {
            &&& evidence.outcome == PolygonIncidenceOutcomeKind::SearchIncomplete
            &&& c.checkpoint_evidence() == evidence
            &&& target_key_same(c.checkpoint_key(), target.target_key)
            &&& c.frontier_states().len() > 0
            &&& evidence.states == sat_add(states_before(checkpoint), maximum_states as int)
            &&& frontier_ok(*target, true, c.frontier_states(), c.seen_keys())
        },
        start_sound(*target, checkpoint) ==> settled_by_reachability(*target, r),
        start_sound(*target, checkpoint) ==> (r matches PolygonIncidenceWitnessOutcome::SearchIncomplete { checkpoint: c, .. }
            ==> checkpoint_sound(*target, c)),
        checkpoint is None && (exists|nodes: Set<(Seq<VertexOccurrenceId>, Seq<u8>, Set<Edge>)>| nodes.finite()
            && nodes.len() <= maximum_states && #[trigger] covers_reachable(*target, nodes)) ==> !(r is SearchIncomplete),
        target_error(*target) is None && checkpoint is None && maximum_states == 1
            && (exists|b: (Seq<VertexOccurrenceId>, Seq<u8>, Set<Edge>)| #[trigger] node_step(*target, root_node(*target), b))
            ==> (r matches PolygonIncidenceWitnessOutcome::SearchIncomplete { evidence, .. } && evidence.states == 1),
        target_error(*target) is None && checkpoint is None && maximum_states == 0
            ==> (r matches PolygonIncidenceWitnessOutcome::SearchIncomplete { evidence, .. } && evidence.states == 0),
{
    let context = match SearchContext::new(target) {
        Ok(context) => context,
        Err(reason) => {
            return PolygonIncidenceWitnessOutcome::InvalidInput(reason);
        }
    };
    let ghost conserving = checkpoint is None || target.cut.occurrences@.no_duplicates();
    proof {
        lemma_canonical_cut_distinct(*target);
    }
    let (mut frontier, mut seen, mut evidence) = match checkpoint {
        Some(c) => match resume(target, c, &context) {
            Ok(state) => state,
            Err(reason) => {
                return PolygonIncidenceWitnessOutcome::InvalidInput(reason);
            }
        },
        None => {
            let state = initial_state(target);
            let key = state.state_key.clone();
            let mut frontier: Vec<PolygonIncidenceState> = Vec::new();
            frontier.push(state);
            let mut seen: Vec<PolygonIncidenceStateKey> = Vec::new();
            seen.push(key);
            (frontier, seen, empty_evidence())
        }
    };
    proof {
        if checkpoint is None {
            reveal(state_conserves);
            assert(frontier@.len() == 1);
            assert forall|o: VertexOccurrenceId| #[trigger] tri_count(frontier@[0].triangles@, o)
                + occ_weight(frontier@[0].occurrences@, frontier@[0].remaining_incidences@, o)
                == occ_weight(target.cut.occurrences@, target.incidences@, o) by {
                assert(frontier@[0].triangles@.len() == 0);
            }
            assert(state_conserves(*target, frontier@[0]));
            assert(key_same(seen@[0], frontier@[0].state_key));
            assert(node_of_key(seen@[0]) == root_node(*target));
            assert forall|a: (Seq<VertexOccurrenceId>, Seq<u8>, Set<Edge>)| #[trigger] node_seen(seen@, a) implies node_waiting(frontier@, a) by {
                assert(node_of_state(frontier@[0]) == a);
            }
            assert(search_closed(*target, seen@, frontier@, false));
            assert(cut_separated(frontier@[0]));
            assert(node_of_state(frontier@[0]) == root_node(*target));
            assert(node_reachable(*target, root_node(*target), node_of_key(seen@[0])));
        } else {
            assert forall|i: int| 0 <= i < frontier@.len() implies state_wf(*target, #[trigger] frontier@[i])
                && (conserving ==> state_conserves(*target, frontier@[i])) by {
                lemma_checkpoint_wf(*target, frontier@[i]);
                if conserving {
                    lemma_checkpoint_conserves(*target, frontier@[i]);
                }
            }
            match checkpoint {
                Some(c) => {
                    if checkpoint_sound(*target, *c) {
                        assert forall|j: int| 0 <= j < c.seen_keys().len() implies node_of_key(#[trigger] seen@[j]) == node_of_key(c.seen_keys()[j]) by {
                            assert(key_same(seen@[j], c.seen_keys()[j]));
                        }
                        assert forall|j: int| 0 <= j < c.frontier_states().len() implies node_of_state(#[trigger] frontier@[j]) == node_of_state(c.frontier_states()[j]) by {
                            assert(state_same(frontier@[j], c.frontier_states()[j]));
                        }
                        lemma_closed_transfer(*target, c.seen_keys(), c.frontier_states(), seen@, frontier@);
                        assert forall|i: int| 0 <= i < frontier@.len() implies cut_separated(#[trigger] frontier@[i]) by {
                            assert(state_same(frontier@[i], c.frontier_states()[i]));
                            assert(cut_separated(c.frontier_states()[i]));
                        }
                    }
                },
                None => {},
            }
        }
        assert(frontier_ok(*target, conserving, frontier@, seen@));
    }
    let starting_states = evidence.states;
    let mut taken: u64 = 0;
    while taken < maximum_states
        invariant
            context_of(context, *target),
            target_error(*target) is None,
            checkpoint matches Some(c) ==> checkpoint_error(*target, *c) is None,
            conserving == (checkpoint is None || target.cut.occurrences@.no_duplicates()),
            frontier_ok(*target, conserving, frontier@, seen@),
            taken <= maximum_states,
            starting_states == states_before(checkpoint),
            evidence.states == sat_add(starting_states, taken as int),
            checkpoint is None && taken == 0 ==> frontier@.len() == 1 && seen@.len() == 1
                && node_of_state(frontier@[0]) == root_node(*target) && node_of_key(seen@[0]) == root_node(*target),
            checkpoint is None && taken == 1 && (exists|b: (Seq<VertexOccurrenceId>, Seq<u8>, Set<Edge>)| #[trigger] node_step(*target, root_node(*target), b))
                ==> frontier@.len() > 0,
            target.cut.occurrences@.no_duplicates(),
            start_sound(*target, checkpoint) ==> search_closed(*target, seen@, frontier@, false),
            start_sound(*target, checkpoint) ==> forall|j: int| 0 <= j < seen@.len() ==> node_reachable(*target, root_node(*target), node_of_key(#[trigger] seen@[j])),
            checkpoint is None ==> forall|i: int, j: int| 0 <= i < j < seen@.len() ==> node_of_key(#[trigger] seen@[i]) != node_of_key(#[trigger] seen@[j]),
            checkpoint is None ==> frontier@.len() + taken == seen@.len(),
            start_sound(*target, checkpoint) ==> forall|i: int| 0 <= i < frontier@.len() ==> cut_separated(#[trigger] frontier@[i]),
        decreases maximum_states - taken,
    {
        let ghost pre = frontier@;
        let state = match frontier.pop() {
            Some(state) => state,
            None => {
                proof {
                    if start_sound(*target, checkpoint) {
                        lemma_closed_search_complete(*target, seen@, frontier@);
                    }
                }
                evidence.outcome = PolygonIncidenceOutcomeKind::ExactNoWitness;
                return PolygonIncidenceWitnessOutcome::ExactNoWitness {
                    target: target.target_key.clone(),
                    states: evidence.states,
                    evidence,
                };
            }
        };
        evidence.states = evidence.states.saturating_add(1);
        taken = taken + 1;
        proof {
            let last = pre.len() - 1;
            assert(state == pre[last]);
            assert(state_wf(*target, pre[last]));
            assert(conserving ==> state_conserves(*target, pre[last]));
            assert forall|i: int| 0 <= i < frontier@.len() implies state_wf(*target, #[trigger] frontier@[i])
                && (conserving ==> state_conserves(*target, frontier@[i]))
                && key_among(seen@, frontier@[i].state_key) by {
                assert(frontier@[i] == pre[i]);
            }
        }
        match finish_triangle(&state) {
            Some(witness) => {
                proof {
                    if conserving {
                        lemma_finish_realizes(*target, state, witness.triangles@);
                    }
                    if start_sound(*target, checkpoint) {
                        assert(cut_separated(pre[pre.len() - 1]));
                        lemma_finish_separated(state, witness.triangles@);
                    }
                    if start_sound(*target, checkpoint) {
                        assert(key_among(seen@, state.state_key));
                        let jj = choose|j: int| 0 <= j < seen@.len() && key_same(#[trigger] seen@[j], state.state_key);
                        assert(node_of_key(seen@[jj]) == node_of_state(state));
                        assert(node_reachable(*target, root_node(*target), node_of_state(state)));
                        assert(node_finishes(node_of_state(state)));
                    }
                }
                evidence.outcome = PolygonIncidenceOutcomeKind::Found;
                return PolygonIncidenceWitnessOutcome::Found { witness, evidence };
            }
            None => {}
        }
        let ghost before_seen = seen@;
        let ghost before_frontier = frontier@;
        push_children(&state, &context, &mut frontier, &mut seen, &mut evidence);
        proof {
            if start_sound(*target, checkpoint) {
                assert(cut_separated(pre[pre.len() - 1]));
                let added = frontier@.subrange(before_frontier.len() as int, frontier@.len() as int);
                if state.occurrences@.len() > 3 {
                    lemma_children_separated(context, state, before_seen, added);
                }
                assert forall|i: int| 0 <= i < frontier@.len() implies cut_separated(#[trigger] frontier@[i]) by {
                    if state.occurrences@.len() > 3 {
                        if i < before_frontier.len() {
                            assert(frontier@[i] == frontier@.subrange(0, before_frontier.len() as int)[i]);
                            assert(frontier@[i] == pre[i]);
                        } else {
                            assert(frontier@[i] == added[i - before_frontier.len()]);
                        }
                    } else {
                        assert(frontier@[i] == pre[i]);
                    }
                }
            }
            if start_sound(*target, checkpoint) {
                assert(before_frontier == pre.drop_last());
                lemma_search_step(*target, context, before_seen, pre, state, seen@, frontier@, false);
                assert(key_among(before_seen, state.state_key));
                let jj = choose|j: int| 0 <= j < before_seen.len() && key_same(#[trigger] before_seen[j], state.state_key);
                assert(node_of_key(before_seen[jj]) == node_of_state(state));
                if state.occurrences@.len() > 3 {
                    lemma_seen_reachable_step(*target, context, before_seen, state, seen@,
                        frontier@.subrange(before_frontier.len() as int, frontier@.len() as int));
                }
            }
            if checkpoint is None {
                if state.occurrences@.len() > 3 {
                    assert forall|i: int, j: int| 0 <= i < j < seen@.len() implies node_of_key(#[trigger] seen@[i]) != node_of_key(#[trigger] seen@[j]) by {
                        if j < before_seen.len() {
                            assert(seen@.subrange(0, before_seen.len() as int)[i] == seen@[i]);
                            assert(seen@.subrange(0, before_seen.len() as int)[j] == seen@[j]);
                            assert(node_of_key(before_seen[i]) != node_of_key(before_seen[j]));
                        }
                    }
                }
                if taken == 1 && (exists|b: (Seq<VertexOccurrenceId>, Seq<u8>, Set<Edge>)| #[trigger] node_step(*target, root_node(*target), b)) {
                    let bb = choose|b: (Seq<VertexOccurrenceId>, Seq<u8>, Set<Edge>)| #[trigger] node_step(*target, root_node(*target), b);
                    let a0 = root_node(*target);
                    assert(node_of_state(state) == a0);
                    let e = choose|e: int| 0 <= e < a0.0.len() && a0.1[e] == 1 && node_ear_ok(*target, a0, e) && #[trigger] node_child(a0, e) == bb;
                    reveal(ear_accepted);
                    assert(ear_accepted(context, state, e));
                    let added = frontier@.subrange(before_frontier.len() as int, frontier@.len() as int);
                    if key_recorded(state, e, before_seen) {
                        let j = choose|j: int| 0 <= j < before_seen.len() && #[trigger] child_key_is(state, e, before_seen[j]);
                        assert(j == 0);
                        assert(before_seen[0].occurrences@.len() == state.occurrences@.len());
                    }
                    assert(child_pushed(state, e, added));
                    assert(added.len() > 0);
                }

            }
            let added = frontier@.subrange(before_frontier.len() as int, frontier@.len() as int);
            assert forall|i: int| 0 <= i < frontier@.len() implies state_wf(*target, #[trigger] frontier@[i])
                && (conserving ==> state_conserves(*target, frontier@[i]))
                && key_among(seen@, frontier@[i].state_key) by {
                if state.occurrences@.len() > 3 {
                    if i < before_frontier.len() {
                        assert(frontier@[i] == frontier@.subrange(0, before_frontier.len() as int)[i]);
                        assert(frontier@[i] == before_frontier[i]);
                        lemma_key_among_grows(before_seen, seen@, frontier@[i].state_key);
                    } else {
                        assert(frontier@[i] == added[i - before_frontier.len()]);
                    }
                }
            }
        }
        if frontier.len() > evidence.maximum_frontier {
            evidence.maximum_frontier = frontier.len();
        }
    }
    if frontier.len() == 0 {
        proof {
            if start_sound(*target, checkpoint) {
                lemma_closed_search_complete(*target, seen@, frontier@);
            }
        }
        evidence.outcome = PolygonIncidenceOutcomeKind::ExactNoWitness;
        return PolygonIncidenceWitnessOutcome::ExactNoWitness {
            target: target.target_key.clone(),
            states: evidence.states,
            evidence,
        };
    }
    proof {
        if checkpoint is None && (exists|nodes: Set<(Seq<VertexOccurrenceId>, Seq<u8>, Set<Edge>)>| nodes.finite()
            && nodes.len() <= maximum_states && #[trigger] covers_reachable(*target, nodes)) {
            let nodes = choose|nodes: Set<(Seq<VertexOccurrenceId>, Seq<u8>, Set<Edge>)>| nodes.finite()
                && nodes.len() <= maximum_states && #[trigger] covers_reachable(*target, nodes);
            assert forall|j: int| 0 <= j < seen@.len() implies nodes.contains(node_of_key(#[trigger] seen@[j])) by {
                assert(node_reachable(*target, root_node(*target), node_of_key(seen@[j])));
            }
            lemma_seen_bound(seen@, nodes);
        }
    }
    evidence.outcome = PolygonIncidenceOutcomeKind::SearchIncomplete;
    let ghost final_seen = seen@;
    let ghost final_frontier = frontier@;
    let checkpoint = PolygonIncidenceCheckpoint {
        target_key: target.target_key.clone(),
        frontier,
        seen_states: seen,
        evidence,
    };
    proof {
        assert(checkpoint.seen_keys() == final_seen);
        assert(checkpoint.frontier_states() == final_frontier);
    }
    PolygonIncidenceWitnessOutcome::SearchIncomplete { checkpoint, evidence }
}


/// `b` to the power `e`.
pub open spec fn power(b: nat, e: nat) -> nat
    decreases e,
{
    if e == 0 { 1 } else { b * power(b, (e - 1) as nat) }
}

proof fn lemma_power_positive(b: nat, e: nat)
    requires
        b > 0,
    ensures
        power(b, e) > 0,
    decreases e,
{
    if e > 0 {
        lemma_power_positive(b, (e - 1) as nat);
        assert(b * power(b, (e - 1) as nat) > 0) by (nonlinear_arith)
            requires b > 0, power(b, (e - 1) as nat) > 0;
    }
}

/// A measure of the work left on a frontier: a state with `k` occurrences
/// weighs `base` to the power `k`.
pub open spec fn frontier_weight(f: Seq<PolygonIncidenceState>, base: nat) -> nat
    decreases f.len(),
{
    if f.len() == 0 { 0 } else { frontier_weight(f.drop_last(), base) + power(base, f.last().occurrences@.len()) }
}

proof fn lemma_weight_append(f: Seq<PolygonIncidenceState>, g: Seq<PolygonIncidenceState>, base: nat, l: nat)
    requires
        forall|i: int| 0 <= i < g.len() ==> (#[trigger] g[i]).occurrences@.len() == l,
    ensures
        frontier_weight(f + g, base) == frontier_weight(f, base) + g.len() * power(base, l),
    decreases g.len(),
{
    if g.len() == 0 {
        assert(f + g =~= f);
    } else {
        let g1 = g.drop_last();
        assert((f + g).drop_last() =~= f + g1);
        assert((f + g).last() == g.last());
        assert(g.last() == g[g.len() - 1]);
        lemma_weight_append(f, g1, base, l);
        assert(g1.len() * power(base, l) + power(base, l) == g.len() * power(base, l)) by (nonlinear_arith)
            requires g1.len() + 1 == g.len();
    }
}

proof fn lemma_push_decreases(pre: Seq<PolygonIncidenceState>, before: Seq<PolygonIncidenceState>,
    added: Seq<PolygonIncidenceState>, base: nat)
    requires
        pre.len() > 0,
        pre.drop_last() == before,
        pre.last().occurrences@.len() >= 1,
        pre.last().occurrences@.len() < base,
        added.len() <= pre.last().occurrences@.len(),
        forall|i: int| 0 <= i < added.len() ==> (#[trigger] added[i]).occurrences@.len() + 1 == pre.last().occurrences@.len(),
    ensures
        frontier_weight(before + added, base) < frontier_weight(pre, base),
{
    let l = pre.last().occurrences@.len();
    let l1 = (l - 1) as nat;
    assert forall|i: int| 0 <= i < added.len() implies (#[trigger] added[i]).occurrences@.len() == l1 by {}
    lemma_weight_append(before, added, base, l1);
    lemma_power_positive(base, l1);
    assert(power(base, l) == base * power(base, l1));
    assert(added.len() * power(base, l1) < base * power(base, l1)) by (nonlinear_arith)
        requires added.len() < base, power(base, l1) > 0;
}

fn triangles_equal(a: &Vec<OccurrenceTriangle>, b: &Vec<OccurrenceTriangle>) -> (r: bool)
    ensures
        r == (a@ == b@),
{
    if a.len() != b.len() {
        return false;
    }
    let mut i: usize = 0;
    while i < a.len()
        invariant
            i <= a@.len(),
            a@.len() == b@.len(),
            forall|k: int| 0 <= k < i ==> a@[k] == b@[k],
        decreases a@.len() - i,
    {
        let x = a[i];
        let y = b[i];
        if x[0] != y[0] || x[1] != y[1] || x[2] != y[2] {
            return false;
        }
        proof {
            assert(x@ =~= y@);
        }
        i = i + 1;
    }
    proof {
        assert(a@ =~= b@);
    }
    true
}

/// Every triangulation that the search can reach, with its counters.
pub fn enumerate_all(target: &OccurrenceIncidenceTarget) -> (r: Result<(Vec<OccurrenceTriangulation>, PolygonIncidenceEvidence), String>)
    ensures
        r is Err <==> target_error(*target) is Some,
        r matches Err(reason) ==> target_error(*target) == Some(reason@),
        r matches Ok((witnesses, evidence)) ==> {
            &&& evidence.outcome == (if witnesses@.len() == 0 { PolygonIncidenceOutcomeKind::ExactNoWitness } else { PolygonIncidenceOutcomeKind::Found })
            &&& forall|i: int| 0 <= i < witnesses@.len() ==> triangles_sorted(#[trigger] witnesses@[i].triangles@)
                && witnesses@[i].triangles@.len() + 2 == target.cut.occurrences@.len()
                && realizes(*target, witnesses@[i].triangles@)
                && proper_triangulation(witnesses@[i].triangles@)
            &&& forall|i: int, j: int| 0 <= i < j < witnesses@.len() ==> #[trigger] witnesses@[i].triangles@ != #[trigger] witnesses@[j].triangles@
            &&& witnesses@.len() == 0 ==> forall|x: (Seq<VertexOccurrenceId>, Seq<u8>, Set<Edge>)|
                #[trigger] node_reachable(*target, root_node(*target), x) ==> !node_finishes(x)
            &&& witnesses@.len() > 0 ==> exists|x: (Seq<VertexOccurrenceId>, Seq<u8>, Set<Edge>)|
                #[trigger] node_reachable(*target, root_node(*target), x) && node_finishes(x)
        },
{
    let context = SearchContext::new(target)?;
    proof {
        lemma_canonical_cut_distinct(*target);
    }
    let ghost conserving = target.cut.occurrences@.no_duplicates();
    let state = initial_state(target);
    let key = state.state_key.clone();
    let mut frontier: Vec<PolygonIncidenceState> = Vec::new();
    frontier.push(state);
    let mut seen: Vec<PolygonIncidenceStateKey> = Vec::new();
    seen.push(key);
    let mut evidence = empty_evidence();
    let mut witnesses: Vec<OccurrenceTriangulation> = Vec::new();
    let ghost base: nat = (target.cut.occurrences@.len() + 1) as nat;
    proof {
        reveal(state_conserves);
        assert forall|o: VertexOccurrenceId| #[trigger] tri_count(frontier@[0].triangles@, o)
            + occ_weight(frontier@[0].occurrences@, frontier@[0].remaining_incidences@, o)
            == occ_weight(target.cut.occurrences@, target.incidences@, o) by {
            assert(frontier@[0].triangles@.len() == 0);
        }
        assert(key_same(seen@[0], frontier@[0].state_key));
        assert(node_of_key(seen@[0]) == root_node(*target));
        assert forall|a: (Seq<VertexOccurrenceId>, Seq<u8>, Set<Edge>)| #[trigger] node_seen(seen@, a) implies node_waiting(frontier@, a) by {
            assert(node_of_state(frontier@[0]) == a);
        }
        assert(search_closed(*target, seen@, frontier@, false));
        assert(cut_separated(frontier@[0]));
        assert(node_reachable(*target, root_node(*target), node_of_key(seen@[0])));
    }
    loop
        invariant
            context_of(context, *target),
            target_error(*target) is None,
            conserving == target.cut.occurrences@.no_duplicates(),
            base == target.cut.occurrences@.len() + 1,
            frontier_ok(*target, true, frontier@, seen@) || (!conserving && frontier_ok(*target, false, frontier@, seen@)),
            evidence.outcome == PolygonIncidenceOutcomeKind::SearchIncomplete,
            forall|i: int| 0 <= i < witnesses@.len() ==> triangles_sorted(#[trigger] witnesses@[i].triangles@)
                && witnesses@[i].triangles@.len() + 2 == target.cut.occurrences@.len()
                && (conserving ==> realizes(*target, witnesses@[i].triangles@))
                && proper_triangulation(witnesses@[i].triangles@),
            forall|i: int, j: int| 0 <= i < j < witnesses@.len() ==> #[trigger] witnesses@[i].triangles@ != #[trigger] witnesses@[j].triangles@,
            search_closed(*target, seen@, frontier@, witnesses@.len() > 0),
            forall|i: int| 0 <= i < frontier@.len() ==> cut_separated(#[trigger] frontier@[i]),
            forall|j: int| 0 <= j < seen@.len() ==> node_reachable(*target, root_node(*target), node_of_key(#[trigger] seen@[j])),
            witnesses@.len() > 0 ==> exists|x: (Seq<VertexOccurrenceId>, Seq<u8>, Set<Edge>)|
                #[trigger] node_reachable(*target, root_node(*target), x) && node_finishes(x),
        ensures
            witnesses@.len() > 0 ==> exists|x: (Seq<VertexOccurrenceId>, Seq<u8>, Set<Edge>)|
                #[trigger] node_reachable(*target, root_node(*target), x) && node_finishes(x),
            frontier@.len() == 0,
            search_closed(*target, seen@, frontier@, witnesses@.len() > 0),
            context_of(context, *target),
            target_error(*target) is None,
            conserving == target.cut.occurrences@.no_duplicates(),
            evidence.outcome == PolygonIncidenceOutcomeKind::SearchIncomplete,
            forall|i: int| 0 <= i < witnesses@.len() ==> triangles_sorted(#[trigger] witnesses@[i].triangles@)
                && witnesses@[i].triangles@.len() + 2 == target.cut.occurrences@.len()
                && (conserving ==> realizes(*target, witnesses@[i].triangles@))
                && proper_triangulation(witnesses@[i].triangles@),
            forall|i: int, j: int| 0 <= i < j < witnesses@.len() ==> #[trigger] witnesses@[i].triangles@ != #[trigger] witnesses@[j].triangles@,
        decreases frontier_weight(frontier@, base),
    {
        let ghost pre = frontier@;
        let state = match frontier.pop() {
            Some(state) => state,
            None => {
                break;
            }
        };
        evidence.states = evidence.states.saturating_add(1);
        let ghost ok_conserving = frontier_ok(*target, true, pre, seen@);
        proof {
            let last = pre.len() - 1;
            assert(pre.drop_last() =~= frontier@);
            assert(state == pre[last]);
            assert(state_wf(*target, pre[last]));
            assert forall|i: int| 0 <= i < frontier@.len() implies state_wf(*target, #[trigger] frontier@[i])
                && (ok_conserving ==> state_conserves(*target, frontier@[i]))
                && key_among(seen@, frontier@[i].state_key) by {
                assert(frontier@[i] == pre[i]);
            }
        }
        match finish_triangle(&state) {
            Some(witness) => {
                proof {
                    if ok_conserving {
                        lemma_finish_realizes(*target, state, witness.triangles@);
                    }
                    assert(cut_separated(pre[pre.len() - 1]));
                    lemma_finish_separated(state, witness.triangles@);
                    assert(key_among(seen@, state.state_key));
                    let jj = choose|j: int| 0 <= j < seen@.len() && key_same(#[trigger] seen@[j], state.state_key);
                    assert(node_of_key(seen@[jj]) == node_of_state(state));
                    assert(node_reachable(*target, root_node(*target), node_of_state(state)));
                    assert(node_finishes(node_of_state(state)));
                }
                let mut present = false;
                let mut k: usize = 0;
                while k < witnesses.len()
                    invariant
                        k <= witnesses@.len(),
                        present == exists|j: int| 0 <= j < k && #[trigger] witnesses@[j].triangles@ == witness.triangles@,
                    decreases witnesses@.len() - k,
                {
                    if triangles_equal(&witnesses[k].triangles, &witness.triangles) {
                        present = true;
                    }
                    k = k + 1;
                }
                let ghost w0 = witnesses@;
                if !present {
                    witnesses.push(witness);
                }
                proof {
                    lemma_closed_found(*target, seen@, pre, w0.len() > 0);
                    lemma_finish_pop(*target, seen@, pre, state);
                    assert(witnesses@.len() > 0);
                    assert(pre.drop_last() == frontier@);
                    if !present {
                        assert(k == w0.len());
                        assert forall|i: int| 0 <= i < witnesses@.len() implies triangles_sorted(#[trigger] witnesses@[i].triangles@)
                            && witnesses@[i].triangles@.len() + 2 == target.cut.occurrences@.len()
                            && (conserving ==> realizes(*target, witnesses@[i].triangles@))
                            && proper_triangulation(witnesses@[i].triangles@) by {
                            if i < w0.len() {
                                assert(witnesses@[i] == w0[i]);
                            } else {
                                assert(witnesses@[i] == witness);
                            }
                        }
                        assert forall|i: int, j: int| 0 <= i < j < witnesses@.len() implies #[trigger] witnesses@[i].triangles@ != #[trigger] witnesses@[j].triangles@ by {
                            if j == witnesses@.len() - 1 {
                                assert(witnesses@[i] == w0[i]);
                                assert(witnesses@[j] == witness);
                                assert(w0[i].triangles@ != witness.triangles@);
                            } else {
                                assert(witnesses@[i] == w0[i] && witnesses@[j] == w0[j]);
                                assert(w0[i].triangles@ != w0[j].triangles@);
                            }
                        }
                    }
                }
                proof {
                    assert(frontier_weight(pre, base) == frontier_weight(frontier@, base) + power(base, state.occurrences@.len()));
                    lemma_power_positive(base, state.occurrences@.len());
                }
            }
            None => {
                let ghost before_seen = seen@;
                let ghost before_frontier = frontier@;
                push_children(&state, &context, &mut frontier, &mut seen, &mut evidence);
                proof {
                    assert(before_frontier == pre.drop_last());
                    lemma_search_step(*target, context, before_seen, pre, state, seen@, frontier@, witnesses@.len() > 0);
                    assert(key_among(before_seen, state.state_key));
                    let jj = choose|j: int| 0 <= j < before_seen.len() && key_same(#[trigger] before_seen[j], state.state_key);
                    assert(node_of_key(before_seen[jj]) == node_of_state(state));
                    if state.occurrences@.len() > 3 {
                        lemma_seen_reachable_step(*target, context, before_seen, state, seen@,
                            frontier@.subrange(before_frontier.len() as int, frontier@.len() as int));
                    }
                    assert(cut_separated(pre[pre.len() - 1]));
                    let added2 = frontier@.subrange(before_frontier.len() as int, frontier@.len() as int);
                    if state.occurrences@.len() > 3 {
                        lemma_children_separated(context, state, before_seen, added2);
                    }
                    assert forall|i: int| 0 <= i < frontier@.len() implies cut_separated(#[trigger] frontier@[i]) by {
                        if state.occurrences@.len() > 3 {
                            if i < before_frontier.len() {
                                assert(frontier@[i] == frontier@.subrange(0, before_frontier.len() as int)[i]);
                                assert(frontier@[i] == pre[i]);
                            } else {
                                assert(frontier@[i] == added2[i - before_frontier.len()]);
                            }
                        } else {
                            assert(frontier@[i] == pre[i]);
                        }
                    }
                    let added = frontier@.subrange(before_frontier.len() as int, frontier@.len() as int);
                    assert forall|i: int| 0 <= i < frontier@.len() implies state_wf(*target, #[trigger] frontier@[i])
                        && (ok_conserving ==> state_conserves(*target, frontier@[i]))
                        && key_among(seen@, frontier@[i].state_key) by {
                        if state.occurrences@.len() > 3 {
                            if i < before_frontier.len() {
                                assert(frontier@[i] == frontier@.subrange(0, before_frontier.len() as int)[i]);
                                assert(frontier@[i] == before_frontier[i]);
                                lemma_key_among_grows(before_seen, seen@, frontier@[i].state_key);
                            } else {
                                assert(frontier@[i] == added[i - before_frontier.len()]);
                            }
                        }
                    }
                    if state.occurrences@.len() > 3 {
                        assert(frontier@ =~= before_frontier + added);
                        lemma_push_decreases(pre, before_frontier, added, base);
                    } else {
                        lemma_power_positive(base, state.occurrences@.len());
                    }
                }
                if frontier.len() > evidence.maximum_frontier {
                    evidence.maximum_frontier = frontier.len();
                }
            }
        }
    }
    proof {
        if witnesses@.len() == 0 {
            lemma_closed_search_complete(*target, seen@, frontier@);
        }
    }
    evidence.outcome = if witnesses.len() == 0 {
        PolygonIncidenceOutcomeKind::ExactNoWitness
    } else {
        PolygonIncidenceOutcomeKind::Found
    };
    Ok((witnesses, evidence))
}


/// The search starts from a state that keeps every occurrence's incidence.
pub proof fn start_conserves(t: OccurrenceIncidenceTarget, s: PolygonIncidenceState)
    requires
        t.cut.occurrences@.len() >= 3,
        t.incidences@.len() == t.cut.occurrences@.len(),
        s.occurrences@ == t.cut.occurrences@,
        s.remaining_incidences@ == t.incidences@,
        s.triangles@.len() == 0,
        s.state_key.occurrences@ == s.occurrences@,
        s.state_key.remaining_incidences@ == s.remaining_incidences@,
        s.state_key.inserted_global_edges@ == s.inserted_global_edges@,
    ensures
        state_conserves(t, s),
{
    reveal(state_conserves);
    assert forall|o: VertexOccurrenceId| #[trigger] tri_count(s.triangles@, o)
        + occ_weight(s.occurrences@, s.remaining_incidences@, o) == occ_weight(t.cut.occurrences@, t.incidences@, o) by {}
}

/// Cutting off an ear of incidence one that the search accepts keeps every
/// occurrence's target incidence: the ear and its two neighbours each give
/// one incidence to the new triangle.
pub proof fn ear_cut_conserves(context: SearchContext, t: OccurrenceIncidenceTarget, s: PolygonIncidenceState,
    c: PolygonIncidenceState, ear: int)
    requires
        state_conserves(t, s),
        s.occurrences@.len() > 3,
        0 <= ear < s.occurrences@.len(),
        s.remaining_incidences@[ear] == 1,
        ear_accepted(context, s, ear),
        ear_child_of(s, ear, c),
    ensures
        state_conserves(t, c),
{
    reveal(ear_accepted);
    lemma_ear_neighbours(s.occurrences@.len() as int, ear);
    lemma_ear_conserves(t, s, c, ear);
}

/// Closing the last triangle of a state that keeps every incidence gives a
/// triangulation that realizes the target.
pub proof fn closing_realizes(t: OccurrenceIncidenceTarget, s: PolygonIncidenceState, w: Seq<OccurrenceTriangle>)
    requires
        state_conserves(t, s),
        finishes(s),
        exists|p: int, tri: OccurrenceTriangle| 0 <= p <= s.triangles@.len() && w == s.triangles@.insert(p, tri)
            && permutation3(tri, [s.occurrences@[0], s.occurrences@[1], s.occurrences@[2]]),
    ensures
        realizes(t, w),
{
    lemma_finish_realizes(t, s, w);
}


// ---------------------------------------------------------------------------
// Slot incidences and occurrence indices of a witness

proof fn lemma_incidence_take_mono(tris: Seq<crate::graph::Triangle>, i: int, j: int, v: usize)
    requires
        0 <= i <= j <= tris.len(),
    ensures
        crate::graph::incidence_spec(tris.take(i), v) <= crate::graph::incidence_spec(tris.take(j), v),
    decreases j - i,
{
    if i < j {
        assert(tris.take(j).drop_last() =~= tris.take(j - 1));
        lemma_incidence_take_mono(tris, i, j - 1, v);
    }
}

/// How many triangle corners each source slot has.
pub fn global_incidences(triangles: &[[usize; 3]]) -> (out: BTreeMap<usize, u8>)
    requires
        forall|v: usize| crate::graph::incidence_spec(triangles@, v) <= 255,
    ensures
        forall|v: usize| #[trigger] out@.contains_key(v) <==> crate::graph::incidence_spec(triangles@, v) > 0,
        forall|v: usize| #[trigger] out@.contains_key(v) ==> out@[v] == crate::graph::incidence_spec(triangles@, v),
{
    let mut out: BTreeMap<usize, u8> = BTreeMap::new();
    let mut i: usize = 0;
    while i < triangles.len()
        invariant
            i <= triangles@.len(),
            forall|v: usize| crate::graph::incidence_spec(triangles@, v) <= 255,
            forall|v: usize| #[trigger] out@.contains_key(v) <==> crate::graph::incidence_spec(triangles@.take(i as int), v) > 0,
            forall|v: usize| #[trigger] out@.contains_key(v) ==> out@[v] == crate::graph::incidence_spec(triangles@.take(i as int), v),
        decreases triangles@.len() - i,
    {
        let t = triangles[i];
        let ghost prev = triangles@.take(i as int);
        let ghost next = triangles@.take(i + 1);
        assert(next.drop_last() =~= prev);
        let mut k: usize = 0;
        while k < 3
            invariant
                0 <= k <= 3,
                i < triangles@.len(),
                t == triangles@[i as int],
                next == triangles@.take(i + 1),
                next.drop_last() == prev,
                forall|v: usize| crate::graph::incidence_spec(triangles@, v) <= 255,
                forall|v: usize| #[trigger] out@.contains_key(v) <==>
                    crate::graph::incidence_spec(prev, v) + crate::graph::corners_in_prefix(t, k as int, v) > 0,
                forall|v: usize| #[trigger] out@.contains_key(v) ==>
                    out@[v] == crate::graph::incidence_spec(prev, v) + crate::graph::corners_in_prefix(t, k as int, v),
            decreases 3 - k,
        {
            let v = t[k];
            let c: u8 = match out.get(&v) {
                Some(c) => *c,
                None => 0,
            };
            proof {
                lemma_incidence_take_mono(triangles@, i + 1, triangles@.len() as int, v);
                assert(triangles@.take(triangles@.len() as int) =~= triangles@);
                assert(next.last() == t);
                assert(crate::graph::incidence_spec(next, v) == crate::graph::incidence_spec(prev, v) + crate::graph::corners_equal(t, v));
                assert(crate::graph::corners_in_prefix(t, k as int, v) + 1 <= crate::graph::corners_equal(t, v));
            }
            out.insert(v, c + 1);
            k = k + 1;
        }
        proof {
            assert forall|v: usize| crate::graph::incidence_spec(next, v) == crate::graph::incidence_spec(prev, v)
                + crate::graph::corners_equal(t, v) by {
                assert(next.last() == t);
            }
        }
        i = i + 1;
    }
    proof {
        assert(triangles@.take(triangles@.len() as int) =~= triangles@);
    }
    out
}

/// The last position of `x` in `s`.
pub open spec fn last_at(s: Seq<VertexOccurrenceId>, x: VertexOccurrenceId, i: int) -> bool {
    0 <= i < s.len() && s[i] == x && forall|j: int| i < j < s.len() ==> s[j] != x
}

/// The last position of `x` in `s` (meaningful when `s` contains `x`).
pub open spec fn last_pos(s: Seq<VertexOccurrenceId>, x: VertexOccurrenceId) -> int {
    choose|i: int| last_at(s, x, i)
}

proof fn lemma_last_pos(s: Seq<VertexOccurrenceId>, x: VertexOccurrenceId, i: int)
    requires
        last_at(s, x, i),
    ensures
        last_pos(s, x) == i,
{
    let k = last_pos(s, x);
    assert(last_at(s, x, k));
    if k < i {
        assert(s[i] != x);
    } else if k > i {
        assert(s[k] != x);
    }
}

fn last_position(s: &Vec<VertexOccurrenceId>, x: VertexOccurrenceId) -> (r: Option<usize>)
    ensures
        r is None <==> !s@.contains(x),
        r matches Some(i) ==> last_at(s@, x, i as int) && last_pos(s@, x) == i,
{
    let mut found: Option<usize> = None;
    let mut i: usize = 0;
    while i < s.len()
        invariant
            i <= s@.len(),
            found is None ==> forall|j: int| 0 <= j < i ==> s@[j] != x,
            found matches Some(p) ==> p < i && s@[p as int] == x && forall|j: int| p < j < i ==> s@[j] != x,
        decreases s@.len() - i,
    {
        if s[i] == x {
            found = Some(i);
        }
        i = i + 1;
    }
    proof {
        if found is None && s@.contains(x) {
            let j = choose|j: int| 0 <= j < s@.len() && s@[j] == x;
            assert(s@[j] != x);
        }
        if let Some(p) = found {
            lemma_last_pos(s@, x, p as int);
        }
    }
    found
}

/// Three indices in increasing order.
pub open spec fn sorted_indices(r: [usize; 3], a: usize, b: usize, c: usize) -> bool {
    &&& r[0] <= r[1] <= r[2]
    &&& ((r[0] == a && r[1] == b && r[2] == c) || (r[0] == a && r[1] == c && r[2] == b)
        || (r[0] == b && r[1] == a && r[2] == c) || (r[0] == b && r[1] == c && r[2] == a)
        || (r[0] == c && r[1] == a && r[2] == b) || (r[0] == c && r[1] == b && r[2] == a))
}

fn sort_indices(a: usize, b: usize, c: usize) -> (r: [usize; 3])
    ensures
        sorted_indices(r, a, b, c),
{
    if a <= b {
        if b <= c { [a, b, c] } else if a <= c { [a, c, b] } else { [c, a, b] }
    } else {
        if a <= c { [b, a, c] } else if b <= c { [b, c, a] } else { [c, b, a] }
    }
}

/// Every corner of every witness triangle is an occurrence of the cut.
pub open spec fn witness_known(cut: CutAnnulusPolygon, w: OccurrenceTriangulation) -> bool {
    forall|i: int, k: int| 0 <= i < w.triangles@.len() && 0 <= k < 3 ==> cut.occurrences@.contains(#[trigger] w.triangles@[i][k])
}

/// The witness triangles as sorted cut positions, each occurrence at its last position.
pub fn occurrence_triangle_indices(cut: &CutAnnulusPolygon, witness: &OccurrenceTriangulation) -> (r: Result<Vec<[usize; 3]>, String>)
    ensures
        r is Ok <==> witness_known(*cut, *witness),
        r matches Err(m) ==> m@ == "PIER witness contains an unknown occurrence"@,
        r matches Ok(v) ==> v@.len() == witness.triangles@.len() && forall|i: int| 0 <= i < v@.len() ==>
            sorted_indices(#[trigger] v@[i], last_pos(cut.occurrences@, witness.triangles@[i][0]) as usize,
                last_pos(cut.occurrences@, witness.triangles@[i][1]) as usize, last_pos(cut.occurrences@, witness.triangles@[i][2]) as usize),
{
    let mut out: Vec<[usize; 3]> = Vec::new();
    let mut i: usize = 0;
    while i < witness.triangles.len()
        invariant
            i <= witness.triangles@.len(),
            out@.len() == i,
            forall|j: int, k: int| 0 <= j < i && 0 <= k < 3 ==> cut.occurrences@.contains(#[trigger] witness.triangles@[j][k]),
            forall|j: int| 0 <= j < i ==>
                sorted_indices(#[trigger] out@[j], last_pos(cut.occurrences@, witness.triangles@[j][0]) as usize,
                    last_pos(cut.occurrences@, witness.triangles@[j][1]) as usize, last_pos(cut.occurrences@, witness.triangles@[j][2]) as usize),
        decreases witness.triangles@.len() - i,
    {
        let triangle = witness.triangles[i];
        let a = match last_position(&cut.occurrences, triangle[0]) {
            Some(p) => p,
            None => {
                return Err("PIER witness contains an unknown occurrence".to_string());
            }
        };
        let b = match last_position(&cut.occurrences, triangle[1]) {
            Some(p) => p,
            None => {
                return Err("PIER witness contains an unknown occurrence".to_string());
            }
        };
        let c = match last_position(&cut.occurrences, triangle[2]) {
            Some(p) => p,
            None => {
                return Err("PIER witness contains an unknown occurrence".to_string());
            }
        };
        let sorted = sort_indices(a, b, c);
        let ghost before = out@;
        out.push(sorted);
        proof {
            assert forall|j: int| 0 <= j < i + 1 implies
                sorted_indices(#[trigger] out@[j], last_pos(cut.occurrences@, witness.triangles@[j][0]) as usize,
                    last_pos(cut.occurrences@, witness.triangles@[j][1]) as usize, last_pos(cut.occurrences@, witness.triangles@[j][2]) as usize) by {
                if j < i {
                    assert(out@[j] == before[j]);
                }
            }
            assert forall|j: int, k: int| 0 <= j < i + 1 && 0 <= k < 3 implies cut.occurrences@.contains(#[trigger] witness.triangles@[j][k]) by {
                if j == i {
                    assert(k == 0 || k == 1 || k == 2);
                }
            }
        }
        i = i + 1;
    }
    Ok(out)
}

} // verus!
