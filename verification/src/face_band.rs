//! Exact source-face label search for small transition complexes: every
//! transition face gets a band label so that bands are connected annular
//! strips separated by single interface cycles.

use vstd::prelude::*;
use std::collections::{BTreeMap, BTreeSet};
use crate::graph::Edge;
use crate::records::TriangleAddress;
use crate::cycles::cycle_component_count_spec;
use vstd::std_specs::btree::{spec_btree_keys_iter, spec_btree_map_iter};
use vstd::std_specs::iter::IteratorSpec;
use crate::json::{comma_join, decimal, count_list_text, lemma_comma_join_push, push_count_list, push_separator, push_u64, push_usize};

verus! {

broadcast use vstd::std_specs::btree::group_btree_axioms, vstd::laws_cmp::group_laws_cmp;

/// Where a pentagon anchor must end up relative to the bands.
#[derive(Debug, Clone, Copy, PartialEq, Eq, PartialOrd, Ord)]
pub enum AnchorBandPolicy {
    InteriorOfSingleBand,
    OnSingleInterface,
    FineCapConnectedToExterior,
}

/// The stable name of an anchor policy.
pub open spec fn anchor_policy_label(policy: AnchorBandPolicy) -> Seq<char> {
    match policy {
        AnchorBandPolicy::InteriorOfSingleBand => "InteriorOfSingleBand"@,
        AnchorBandPolicy::OnSingleInterface => "OnSingleInterface"@,
        AnchorBandPolicy::FineCapConnectedToExterior => "FineCapConnectedToExterior"@,
    }
}

impl AnchorBandPolicy {
    pub fn as_str(self) -> (r: &'static str)
        ensures
            r@ == anchor_policy_label(self),
    {
        match self {
            AnchorBandPolicy::InteriorOfSingleBand => "InteriorOfSingleBand",
            AnchorBandPolicy::OnSingleInterface => "OnSingleInterface",
            AnchorBandPolicy::FineCapConnectedToExterior => "FineCapConnectedToExterior",
        }
    }
}

/// A transition complex to be cut into bands.
#[derive(Debug, Clone, PartialEq, Eq)]
pub struct FaceBandProblem {
    pub transition_faces: Vec<usize>,
    pub coarse_boundary_faces: BTreeSet<usize>,
    pub fine_boundary_faces: BTreeSet<usize>,
    pub face_adjacency: BTreeMap<usize, Vec<usize>>,
    pub vertex_incident_faces: BTreeMap<usize, Vec<usize>>,
    pub face_vertex_neighbours: BTreeMap<usize, Vec<usize>>,
    pub band_count: usize,
    pub anchor_policies: BTreeMap<usize, AnchorBandPolicy>,
    pub face_shared_edges: BTreeMap<(usize, usize), Edge>,
    pub coarse_boundary_vertices: BTreeSet<usize>,
    pub fine_boundary_vertices: BTreeSet<usize>,
    pub face_addresses: BTreeMap<usize, TriangleAddress>,
    pub core_nonempty: bool,
    pub source_face_rings: usize,
}

/// The labels still open for one face.
#[derive(Debug, Clone, PartialEq, Eq)]
pub struct FaceBandDomain {
    pub face: usize,
    pub labels: BTreeSet<u8>,
}

/// State budget of the exact face-band search.
#[derive(Debug, Clone, Copy, PartialEq, Eq)]
pub struct FaceBandLimits {
    pub maximum_states: u64,
}

/// A complete band labelling with its interface cycles.
#[derive(Debug, Clone, PartialEq, Eq)]
pub struct FaceBandPlan {
    pub band_count: usize,
    pub labels: BTreeMap<usize, u8>,
    pub interface_edges: Vec<Vec<Edge>>,
    pub band_face_counts: Vec<usize>,
    pub face_complex_fingerprint: u64,
}

/// How an exact face-band search ended.
#[derive(Debug, Clone, Copy, PartialEq, Eq)]
pub enum FaceBandOutcomeKind {
    Closed,
    FamilyExhaustedNoSolution,
    SearchBudgetExhausted,
    InvalidInput,
}

/// The stable name of a face-band outcome.
pub open spec fn outcome_kind_label(kind: FaceBandOutcomeKind) -> Seq<char> {
    match kind {
        FaceBandOutcomeKind::Closed => "Closed"@,
        FaceBandOutcomeKind::FamilyExhaustedNoSolution => "FamilyExhaustedNoSolution"@,
        FaceBandOutcomeKind::SearchBudgetExhausted => "SearchBudgetExhausted"@,
        FaceBandOutcomeKind::InvalidInput => "InvalidInput"@,
    }
}

impl FaceBandOutcomeKind {
    pub fn as_str(self) -> (r: &'static str)
        ensures
            r@ == outcome_kind_label(self),
    {
        match self {
            FaceBandOutcomeKind::Closed => "Closed",
            FaceBandOutcomeKind::FamilyExhaustedNoSolution => "FamilyExhaustedNoSolution",
            FaceBandOutcomeKind::SearchBudgetExhausted => "SearchBudgetExhausted",
            FaceBandOutcomeKind::InvalidInput => "InvalidInput",
        }
    }
}

/// Counters and shape measurements of one face-band search.
#[derive(Debug, Clone, PartialEq, Eq)]
pub struct FaceBandEvidence {
    pub band_count: usize,
    pub face_complex_fingerprint: u64,
    pub transition_faces: usize,
    pub coarse_boundary_faces: usize,
    pub fine_boundary_faces: usize,
    pub states_examined: u64,
    pub propagation_rounds: usize,
    pub pruned_domains: usize,
    pub band_face_counts: Vec<usize>,
    pub interface_edge_counts: Vec<usize>,
    pub interface_vertex_counts: Vec<usize>,
    pub true_pinch_count: usize,
    pub one_face_wedge_count: usize,
    pub multi_face_wedge_count: usize,
    pub anchor_policies: BTreeMap<usize, AnchorBandPolicy>,
    pub cap_faces: usize,
    pub corridor_faces: usize,
    pub core_faces_sacrificed: usize,
    pub source_face_rings: usize,
    pub outcome: FaceBandOutcomeKind,
}

/// The result of an exact face-band search.
#[derive(Debug, Clone, PartialEq, Eq)]
pub enum FaceBandSolveOutcome {
    Closed(Box<FaceBandPlan>, FaceBandEvidence),
    FamilyExhaustedNoSolution { band_count: usize, states_examined: u64, evidence: FaceBandEvidence },
    SearchBudgetExhausted { band_count: usize, states_examined: u64, evidence: FaceBandEvidence },
    InvalidInput { reason: String },
}

// ---------------------------------------------------------------------------
// Problem shape

/// The transition faces as a set.
pub open spec fn face_set(p: FaceBandProblem) -> Set<usize> {
    p.transition_faces@.to_set()
}

/// The label of the fine side.
pub open spec fn last_label(p: FaceBandProblem) -> int {
    p.band_count - 1
}

/// The first check that a problem fails, or `None` when the solver accepts it.
pub open spec fn problem_error(p: FaceBandProblem) -> Option<Seq<char>> {
    if !(p.band_count == 2 || p.band_count == 3) {
        Some("exact face-band solver supports band_count=2 or 3"@)
    } else if p.source_face_rings > 2 {
        Some("registered face-band expansion supports at most two source-face rings"@)
    } else if !p.transition_faces@.no_duplicates() || p.transition_faces@.len() == 0 {
        Some("transition faces must be non-empty and unique"@)
    } else if !p.coarse_boundary_faces@.subset_of(face_set(p)) || !p.fine_boundary_faces@.subset_of(face_set(p))
        || p.coarse_boundary_faces@.is_empty() || p.fine_boundary_faces@.is_empty() {
        Some("coarse/fine boundary faces must be non-empty transition subsets"@)
    } else if !p.coarse_boundary_faces@.disjoint(p.fine_boundary_faces@) {
        Some("a transition face cannot belong to both fixed boundaries"@)
    } else if !p.core_nonempty {
        Some("face-band problem requires a non-empty coarse core"@)
    } else {
        None
    }
}

/// Every face that the problem's maps mention is a transition face, every
/// anchor has an incident-face list, and every face that the search may branch
/// on has an address. A completed labelling is checked by looking up the label
/// of every face these maps name and the incident list of every anchor, and a
/// branch looks up its face's address: each clause keeps one of those lookups
/// from failing.
pub open spec fn problem_wf(p: FaceBandProblem) -> bool {
    &&& forall|f: usize| #[trigger] p.face_adjacency@.contains_key(f) ==> face_set(p).contains(f)
        && forall|i: int| 0 <= i < p.face_adjacency@[f]@.len() ==> face_set(p).contains(#[trigger] p.face_adjacency@[f]@[i])
    &&& forall|v: usize| #[trigger] p.vertex_incident_faces@.contains_key(v) ==>
        forall|i: int| 0 <= i < p.vertex_incident_faces@[v]@.len() ==> face_set(p).contains(#[trigger] p.vertex_incident_faces@[v]@[i])
    &&& forall|f: usize| #[trigger] p.face_vertex_neighbours@.contains_key(f) ==>
        forall|i: int| 0 <= i < p.face_vertex_neighbours@[f]@.len() ==> face_set(p).contains(#[trigger] p.face_vertex_neighbours@[f]@[i])
    &&& forall|k: (usize, usize)| #[trigger] p.face_shared_edges@.contains_key(k) ==> face_set(p).contains(k.0) && face_set(p).contains(k.1)
    &&& forall|a: usize| #[trigger] p.anchor_policies@.contains_key(a) ==> p.vertex_incident_faces@.contains_key(a)
    &&& forall|f: usize| #[trigger] face_set(p).contains(f) && !p.coarse_boundary_faces@.contains(f)
        && !p.fine_boundary_faces@.contains(f) ==> p.face_addresses@.contains_key(f)
}

/// Check the problem's shape; the error names the first failed check.
fn validate_problem(problem: &FaceBandProblem) -> (r: Result<(), String>)
    ensures
        r is Ok <==> problem_error(*problem) is None,
        r matches Err(reason) ==> problem_error(*problem) == Some(reason@),
{
    if !(problem.band_count == 2 || problem.band_count == 3) {
        return Err("exact face-band solver supports band_count=2 or 3".to_string());
    }
    if problem.source_face_rings > 2 {
        return Err("registered face-band expansion supports at most two source-face rings".to_string());
    }
    let mut faces: BTreeSet<usize> = BTreeSet::new();
    let mut unique = true;
    let mut i: usize = 0;
    while i < problem.transition_faces.len()
        invariant
            i <= problem.transition_faces@.len(),
            faces@ == problem.transition_faces@.take(i as int).to_set(),
            unique == problem.transition_faces@.take(i as int).no_duplicates(),
        decreases problem.transition_faces@.len() - i,
    {
        let f = problem.transition_faces[i];
        let ghost prefix = problem.transition_faces@.take(i as int);
        proof {
            assert(problem.transition_faces@.take(i + 1) =~= prefix.push(f));
            prefix.lemma_push_to_set_commute(f);
            if prefix.contains(f) {
                let k = choose|k: int| 0 <= k < prefix.len() && prefix[k] == f;
                assert(prefix.push(f)[k] == prefix.push(f)[prefix.len() as int]);
            }
        }
        if !faces.insert(f) {
            unique = false;
        }
        i = i + 1;
    }
    proof {
        assert(problem.transition_faces@.take(problem.transition_faces@.len() as int) =~= problem.transition_faces@);
    }
    if !unique || problem.transition_faces.len() == 0 {
        return Err("transition faces must be non-empty and unique".to_string());
    }
    let coarse_in = subset_of(&problem.coarse_boundary_faces, &faces);
    let fine_in = subset_of(&problem.fine_boundary_faces, &faces);
    if !coarse_in || !fine_in || problem.coarse_boundary_faces.is_empty() || problem.fine_boundary_faces.is_empty() {
        return Err("coarse/fine boundary faces must be non-empty transition subsets".to_string());
    }
    if !disjoint(&problem.coarse_boundary_faces, &problem.fine_boundary_faces) {
        return Err("a transition face cannot belong to both fixed boundaries".to_string());
    }
    if !problem.core_nonempty {
        return Err("face-band problem requires a non-empty coarse core".to_string());
    }
    Ok(())
}

/// Whether every element of `a` is in `b`.
pub fn subset_of(a: &BTreeSet<usize>, b: &BTreeSet<usize>) -> (r: bool)
    ensures
        r == a@.subset_of(b@),
{
    let ghost full = spec_btree_keys_iter(a).remaining();
    for x in it: a.iter()
        invariant
            it.seq() == full,
            full.unref().to_set() == a@,
            forall|k: int| 0 <= k < it.index() ==> b@.contains(*(#[trigger] full[k])),
    {
        if !b.contains(x) {
            proof {
                assert(full.unref()[it.index() as int] == *x);
            }
            return false;
        }
    }
    proof {
        assert forall|y: usize| a@.contains(y) implies b@.contains(y) by {
            assert(full.unref().to_set().contains(y));
            let k = choose|k: int| 0 <= k < full.unref().len() && full.unref()[k] == y;
            assert(*full[k] == y);
        }
    }
    true
}

/// Whether `a` and `b` share no element.
pub fn disjoint(a: &BTreeSet<usize>, b: &BTreeSet<usize>) -> (r: bool)
    ensures
        r == a@.disjoint(b@),
{
    let ghost full = spec_btree_keys_iter(a).remaining();
    for x in it: a.iter()
        invariant
            it.seq() == full,
            full.unref().to_set() == a@,
            forall|k: int| 0 <= k < it.index() ==> !b@.contains(*(#[trigger] full[k])),
    {
        if b.contains(x) {
            proof {
                assert(full.unref()[it.index() as int] == *x);
                assert(full.unref().to_set().contains(*x));
            }
            return false;
        }
    }
    proof {
        assert forall|y: usize| a@.contains(y) implies !b@.contains(y) by {
            assert(full.unref().to_set().contains(y));
            let k = choose|k: int| 0 <= k < full.unref().len() && full.unref()[k] == y;
            assert(*full[k] == y);
        }
    }
    true
}

// ---------------------------------------------------------------------------
// Reachability through face adjacency

/// A tree set holds finitely many elements.
pub proof fn lemma_set_finite(s: &BTreeSet<usize>)
    ensures
        s@.finite(),
{
    let r = spec_btree_keys_iter(s).remaining();
    assert(r.unref().to_set() == s@);
    vstd::seq_lib::seq_to_set_is_finite(r.unref());
}

/// `b` is listed as a neighbour of `a`.
pub open spec fn face_step(p: FaceBandProblem, a: usize, b: usize) -> bool {
    p.face_adjacency@.contains_key(a) && p.face_adjacency@[a]@.contains(b)
}

/// `s` is closed under stepping from its faces to allowed neighbours.
pub open spec fn step_closed(p: FaceBandProblem, allowed: Set<usize>, s: Set<usize>) -> bool {
    forall|a: usize, b: usize| s.contains(a) && #[trigger] face_step(p, a, b) && allowed.contains(b) ==> s.contains(b)
}

/// The faces reached from `start` by steps that land on allowed faces.
pub open spec fn reach(p: FaceBandProblem, allowed: Set<usize>, start: usize) -> Set<usize> {
    Set::new(|u: usize| forall|s: Set<usize>| step_closed(p, allowed, s) && s.contains(start) ==> #[trigger] s.contains(u))
}

pub proof fn lemma_reach_closed(p: FaceBandProblem, allowed: Set<usize>, start: usize)
    ensures
        step_closed(p, allowed, reach(p, allowed, start)),
        reach(p, allowed, start).contains(start),
{
    let r = reach(p, allowed, start);
    assert forall|a: usize, b: usize| r.contains(a) && #[trigger] face_step(p, a, b) && allowed.contains(b) implies r.contains(b) by {
        assert forall|s: Set<usize>| step_closed(p, allowed, s) && s.contains(start) implies #[trigger] s.contains(b) by {
            assert(s.contains(a));
        }
    }
}

/// Flood from `start` through the allowed faces.
fn flood_faces(problem: &FaceBandProblem, start: usize, allowed: &BTreeSet<usize>) -> (out: BTreeSet<usize>)
    ensures
        out@ == reach(*problem, allowed@, start),
{
    let ghost p = *problem;
    let ghost universe = allowed@.insert(start);
    let mut reached: BTreeSet<usize> = BTreeSet::new();
    let mut stack: Vec<usize> = Vec::new();
    reached.insert(start);
    stack.push(start);
    proof {
        lemma_set_finite(allowed);
        assert(stack@[0] == start);
    }
    while stack.len() > 0
        invariant
            p == *problem,
            universe == allowed@.insert(start),
            universe.finite(),
            reached@.contains(start),
            reached@.subset_of(universe),
            forall|k: int| 0 <= k < stack@.len() ==> reached@.contains(#[trigger] stack@[k]),
            stack@.no_duplicates(),
            forall|s: Set<usize>| #[trigger] step_closed(p, allowed@, s) && s.contains(start) ==> reached@.subset_of(s),
            forall|a: usize, b: usize| reached@.contains(a) && !stack@.contains(a) && #[trigger] face_step(p, a, b) && allowed@.contains(b) ==> reached@.contains(b),
        decreases 2 * (universe.len() - reached@.len()) + stack@.len(),
    {
        proof {
            vstd::set_lib::lemma_len_subset(reached@, universe);
        }
        let ghost old_stack = stack@;
        let node = stack.pop().unwrap();
        let ghost popped_stack = stack@;
        let ghost before = reached@;
        proof {
            assert(old_stack =~= popped_stack.push(node));
            assert(old_stack[popped_stack.len() as int] == node);
            assert forall|a: usize, b: usize| before.contains(a) && a != node && !popped_stack.contains(a) && #[trigger] face_step(p, a, b) && allowed@.contains(b) implies reached@.contains(b) by {
                if old_stack.contains(a) {
                    let k = choose|k: int| 0 <= k < old_stack.len() && old_stack[k] == a;
                    if k < popped_stack.len() {
                        assert(popped_stack[k] == a);
                    }
                }
            }
        }
        match problem.face_adjacency.get(&node) {
            None => {
                proof {
                    assert forall|a: usize, b: usize| reached@.contains(a) && !stack@.contains(a) && #[trigger] face_step(p, a, b) && allowed@.contains(b) implies reached@.contains(b) by {
                        if a != node && popped_stack.contains(a) {
                            let k = choose|k: int| 0 <= k < popped_stack.len() && popped_stack[k] == a;
                            assert(stack@[k] == a);
                        }
                    }
                }
            },
            Some(list) => {
                let mut i: usize = 0;
                while i < list.len()
                    invariant
                        p == *problem,
                        universe == allowed@.insert(start),
                        universe.finite(),
                        p.face_adjacency@.contains_key(node),
                        p.face_adjacency@[node] == *list,
                        i <= list@.len(),
                        before.contains(node),
                        before.subset_of(reached@),
                        reached@.contains(start),
                        reached@.subset_of(universe),
                        reached@.len() - before.len() == stack@.len() - popped_stack.len(),
                        stack@.len() >= popped_stack.len(),
                        stack@.subrange(0, popped_stack.len() as int) == popped_stack,
                        forall|k: int| popped_stack.len() <= k < stack@.len() ==> !before.contains(#[trigger] stack@[k]),
                        forall|x: usize| reached@.contains(x) && !before.contains(x) ==> #[trigger] stack@.subrange(popped_stack.len() as int, stack@.len() as int).contains(x),
                        forall|k: int| 0 <= k < stack@.len() ==> reached@.contains(#[trigger] stack@[k]),
                        stack@.no_duplicates(),
                        !popped_stack.contains(node),
                        forall|s: Set<usize>| #[trigger] step_closed(p, allowed@, s) && s.contains(start) ==> reached@.subset_of(s),
                        forall|a: usize, b: usize| before.contains(a) && a != node && !popped_stack.contains(a) && #[trigger] face_step(p, a, b) && allowed@.contains(b) ==> reached@.contains(b),
                        forall|j: int| 0 <= j < i && allowed@.contains(#[trigger] list@[j]) ==> reached@.contains(list@[j]),
                    decreases list@.len() - i,
                {
                    let next = list[i];
                    if allowed.contains(&next) && !reached.contains(&next) {
                        let ghost r0 = reached@;
                        let ghost s0 = stack@;
                        proof {
                            assert(face_step(p, node, next));
                            assert forall|s: Set<usize>| #[trigger] step_closed(p, allowed@, s) && s.contains(start) implies reached@.insert(next).subset_of(s) by {
                                assert(reached@.subset_of(s));
                                assert(s.contains(node));
                            }
                        }
                        reached.insert(next);
                        stack.push(next);
                        proof {
                            assert(stack@.subrange(0, popped_stack.len() as int) =~= popped_stack);
                            assert forall|x: usize| reached@.contains(x) && !before.contains(x) implies #[trigger] stack@.subrange(popped_stack.len() as int, stack@.len() as int).contains(x) by {
                                let sub = stack@.subrange(popped_stack.len() as int, stack@.len() as int);
                                if x == next {
                                    assert(sub[sub.len() - 1] == next);
                                } else {
                                    assert(stack@.drop_last() =~= s0);
                                    assert(r0.contains(x));
                                    let old_sub = s0.subrange(popped_stack.len() as int, s0.len() as int);
                                    assert(old_sub.contains(x));
                                    let k = choose|k: int| 0 <= k < old_sub.len() && old_sub[k] == x;
                                    assert(sub[k] == x);
                                }
                            }
                        }
                    }
                    i = i + 1;
                }
                proof {
                    assert forall|a: usize, b: usize| reached@.contains(a) && !stack@.contains(a) && #[trigger] face_step(p, a, b) && allowed@.contains(b) implies reached@.contains(b) by {
                        if a == node {
                            let j = choose|j: int| 0 <= j < list@.len() && list@[j] == b;
                        } else if before.contains(a) {
                            if popped_stack.contains(a) {
                                let k = choose|k: int| 0 <= k < popped_stack.len() && popped_stack[k] == a;
                                assert(stack@[k] == a);
                            }
                        } else {
                            let sub = stack@.subrange(popped_stack.len() as int, stack@.len() as int);
                            assert(sub.contains(a));
                            let k = choose|k: int| 0 <= k < sub.len() && sub[k] == a;
                            assert(stack@[popped_stack.len() + k] == a);
                        }
                    }
                }
            },
        }
        proof {
            vstd::set_lib::lemma_len_subset(reached@, universe);
        }
    }
    proof {
        lemma_reach_closed(p, allowed@, start);
        assert forall|u: usize| reached@.contains(u) <==> reach(p, allowed@, start).contains(u) by {
            if reach(p, allowed@, start).contains(u) {
                assert(step_closed(p, allowed@, reached@));
            }
            if reached@.contains(u) {
                assert(reached@.subset_of(reach(p, allowed@, start)));
            }
        }
        assert(reached@ =~= reach(p, allowed@, start));
    }
    reached
}

/// Every face listed in an adjacency list is a transition face.
pub open spec fn adjacency_in_faces(p: FaceBandProblem) -> bool {
    forall|f: usize| #[trigger] p.face_adjacency@.contains_key(f) ==>
        forall|i: int| 0 <= i < p.face_adjacency@[f]@.len() ==> face_set(p).contains(#[trigger] p.face_adjacency@[f]@[i])
}

/// Breadth-first step distances from the seed faces; seeds are at distance 0.
fn face_distances(problem: &FaceBandProblem, seeds: &BTreeSet<usize>) -> (out: BTreeMap<usize, usize>)
    requires
        adjacency_in_faces(*problem),
    ensures
        forall|f: usize| #[trigger] seeds@.contains(f) ==> out@.contains_key(f) && out@[f] == 0,
{
    let ghost p = *problem;
    let ghost universe = face_set(p) + seeds@;
    let mut distances: BTreeMap<usize, usize> = BTreeMap::new();
    let mut queue: Vec<usize> = Vec::new();
    let ghost full = spec_btree_keys_iter(seeds).remaining();
    for seed in it: seeds.iter()
        invariant
            it.seq() == full,
            full.unref().to_set() == seeds@,
            full.no_duplicates(),
            queue@ == full.unref().take(it.index() as int),
            distances@.dom() == queue@.to_set(),
            forall|k: usize| #[trigger] distances@.contains_key(k) ==> distances@[k] == 0,
    {
        proof {
            let q = full.unref();
            assert(q.take(it.index() + 1) =~= q.take(it.index() as int).push(*seed));
            q.take(it.index() as int).lemma_push_to_set_commute(*seed);
        }
        distances.insert(*seed, 0);
        queue.push(*seed);
    }
    proof {
        let q = full.unref();
        assert(q.take(q.len() as int) =~= q);
        assert(queue@.no_duplicates()) by {
            assert forall|i: int, j: int| 0 <= i < j < queue@.len() implies queue@[i] != queue@[j] by {
                assert(queue@[i] == *full[i] && queue@[j] == *full[j]);
            }
        }
        assert forall|j: int| 0 <= j < queue@.len() implies distances@[#[trigger] queue@[j]] <= j by {
            assert(distances@.contains_key(queue@[j]));
        }
        lemma_set_finite(seeds);
        vstd::seq_lib::seq_to_set_is_finite(p.transition_faces@);
        assert(queue@.to_set().subset_of(universe));
    }
    let mut head: usize = 0;
    while head < queue.len()
        invariant
            p == *problem,
            adjacency_in_faces(p),
            universe == face_set(p) + seeds@,
            universe.finite(),
            head <= queue@.len(),
            queue@.no_duplicates(),
            distances@.dom() == queue@.to_set(),
            queue@.to_set().subset_of(universe),
            forall|j: int| 0 <= j < queue@.len() ==> distances@[#[trigger] queue@[j]] <= j,
            forall|f: usize| #[trigger] seeds@.contains(f) ==> distances@.contains_key(f) && distances@[f] == 0,
        decreases 2 * (universe.len() - queue@.len()) + (queue@.len() - head),
    {
        proof {
            queue@.unique_seq_to_set();
            vstd::set_lib::lemma_len_subset(queue@.to_set(), universe);
        }
        let ghost q_start = queue@.len();
        let face = queue[head];
        let distance = match distances.get(&face) {
            Some(d) => *d,
            None => {
                proof {
                    assert(queue@.to_set().contains(face));
                }
                0
            },
        };
        proof {
            assert(queue@.to_set().contains(face));
            assert(distance <= head);
        }
        head = head + 1;
        if let Some(list) = problem.face_adjacency.get(&face) {
            let mut i: usize = 0;
            while i < list.len()
                invariant
                    p == *problem,
                    adjacency_in_faces(p),
                    p.face_adjacency@.contains_key(face),
                    p.face_adjacency@[face] == *list,
                    universe == face_set(p) + seeds@,
                    universe.finite(),
                    i <= list@.len(),
                    distance < head <= queue@.len(),
                    queue@.len() >= q_start,
                    queue@.no_duplicates(),
                    distances@.dom() == queue@.to_set(),
                    queue@.to_set().subset_of(universe),
                    forall|j: int| 0 <= j < queue@.len() ==> distances@[#[trigger] queue@[j]] <= j,
                    forall|f: usize| #[trigger] seeds@.contains(f) ==> distances@.contains_key(f) && distances@[f] == 0,
                decreases list@.len() - i,
            {
                let next = list[i];
                if !distances.contains_key(&next) {
                    let ghost q0 = queue@;
                    proof {
                        assert(face_set(p).contains(list@[i as int]));
                        assert(!q0.to_set().contains(next));
                        q0.lemma_push_to_set_commute(next);
                    }
                    distances.insert(next, distance + 1);
                    queue.push(next);
                    proof {
                        assert forall|a: int, b: int| 0 <= a < b < queue@.len() implies queue@[a] != queue@[b] by {
                            if b == q0.len() {
                                assert(q0.to_set().contains(q0[a]));
                            } else {
                                assert(q0[a] != q0[b]);
                            }
                        }
                        assert forall|j: int| 0 <= j < queue@.len() implies distances@[#[trigger] queue@[j]] <= j by {
                            if j < q0.len() {
                                assert(queue@[j] == q0[j]);
                                assert(queue@[j] != next) by {
                                    assert(q0.to_set().contains(q0[j]));
                                }
                            }
                        }
                        assert forall|f: usize| #[trigger] seeds@.contains(f) implies distances@.contains_key(f) && distances@[f] == 0 by {
                            assert(f != next) by {
                                assert(q0.to_set().contains(f));
                            }
                        }
                    }
                }
                i = i + 1;
            }
        }
        proof {
            queue@.unique_seq_to_set();
            vstd::set_lib::lemma_len_subset(queue@.to_set(), universe);
        }
    }
    distances
}

// ---------------------------------------------------------------------------
// What a valid band labelling is

/// Two labels differ by at most one.
pub open spec fn near(a: u8, b: u8) -> bool {
    a <= b + 1 && b <= a + 1
}

/// Two labels differ by exactly one.
pub open spec fn adjacent_labels(a: u8, b: u8) -> bool {
    a == b + 1 || b == a + 1
}

/// Faces listed as neighbours carry labels that differ by at most one.
pub open spec fn adjacency_ok(p: FaceBandProblem, l: Map<usize, u8>) -> bool {
    forall|f: usize, i: int| #![trigger p.face_adjacency@[f]@[i]]
        p.face_adjacency@.contains_key(f) && 0 <= i < p.face_adjacency@[f]@.len()
            ==> near(l[f], l[p.face_adjacency@[f]@[i]])
}

/// Every listed vertex has an incident face, and the faces around a vertex
/// carry labels within one of each other.
pub open spec fn vertex_spread_ok(p: FaceBandProblem, l: Map<usize, u8>) -> bool {
    forall|v: usize| #[trigger] p.vertex_incident_faces@.contains_key(v) ==> {
        &&& p.vertex_incident_faces@[v]@.len() > 0
        &&& forall|i: int, j: int| #![trigger p.vertex_incident_faces@[v]@[i], p.vertex_incident_faces@[v]@[j]]
            0 <= i < p.vertex_incident_faces@[v]@.len() && 0 <= j < p.vertex_incident_faces@[v]@.len()
                ==> near(l[p.vertex_incident_faces@[v]@[i]], l[p.vertex_incident_faces@[v]@[j]])
    }
}

/// The faces labelled `k`.
pub open spec fn band(p: FaceBandProblem, l: Map<usize, u8>, k: int) -> Set<usize> {
    face_set(p).filter(|f: usize| l[f] == k)
}

/// The least element of a non-empty set of faces.
pub open spec fn set_min(s: Set<usize>) -> usize {
    choose|m: usize| s.contains(m) && forall|x: usize| s.contains(x) ==> m <= x
}

/// Vertex `v` lists face `f` as incident.
pub open spec fn incident_vertex(p: FaceBandProblem, f: usize, v: usize) -> bool {
    p.vertex_incident_faces@.contains_key(v) && p.vertex_incident_faces@[v]@.contains(f)
}

/// The edges of face `f`: the shared edges recorded for its face pairs, and
/// every pair of distinct vertices that list `f` as incident.
pub open spec fn face_edges(p: FaceBandProblem, f: usize) -> Set<Edge> {
    Set::new(|e: Edge|
        (exists|k: (usize, usize)| #[trigger] p.face_shared_edges@.contains_key(k) && (k.0 == f || k.1 == f)
            && p.face_shared_edges@[k] == e)
        || (e.0 < e.1 && incident_vertex(p, f, e.0) && incident_vertex(p, f, e.1)))
}

/// The edges of the faces of `b`.
pub open spec fn band_edges(p: FaceBandProblem, b: Set<usize>) -> Set<Edge> {
    Set::new(|e: Edge| exists|f: usize| b.contains(f) && #[trigger] face_edges(p, f).contains(e))
}

/// The faces of `b` that have edge `e`.
pub open spec fn faces_with_edge(p: FaceBandProblem, b: Set<usize>, e: Edge) -> Set<usize> {
    b.filter(|f: usize| face_edges(p, f).contains(e))
}

/// How many faces of `b` have edge `e`.
pub open spec fn edge_multiplicity(p: FaceBandProblem, b: Set<usize>, e: Edge) -> nat {
    faces_with_edge(p, b, e).len()
}

/// The edges of `b` that only one of its faces has.
pub open spec fn band_boundary(p: FaceBandProblem, b: Set<usize>) -> Set<Edge> {
    band_edges(p, b).filter(|e: Edge| edge_multiplicity(p, b, e) == 1)
}

/// `b` is an annulus: Euler characteristic zero and two boundary cycles.
pub open spec fn annular(p: FaceBandProblem, b: Set<usize>) -> bool {
    &&& crate::cycles::verts(band_edges(p, b)).len() + b.len() == band_edges(p, b).len()
    &&& cycle_component_count_spec(band_boundary(p, b)) == Some(2nat)
}

/// Band `k` is non-empty, connected from its least face, and an annulus.
pub open spec fn band_ok(p: FaceBandProblem, l: Map<usize, u8>, k: int) -> bool {
    let b = band(p, l, k);
    &&& b.len() > 0
    &&& reach(p, b, set_min(b)) == b
    &&& annular(p, b)
}

/// The shared edges between a face labelled `k` and one labelled `k + 1`.
pub open spec fn interface(p: FaceBandProblem, l: Map<usize, u8>, k: int) -> Set<Edge> {
    Set::new(|e: Edge| exists|key: (usize, usize)| #[trigger] p.face_shared_edges@.contains_key(key)
        && p.face_shared_edges@[key] == e && adjacent_labels(l[key.0], l[key.1])
        && (if l[key.0] < l[key.1] { l[key.0] } else { l[key.1] }) == k)
}

/// Each interface is one cycle that avoids the fixed boundary vertices, and
/// different interfaces share no vertex.
pub open spec fn interfaces_ok(p: FaceBandProblem, l: Map<usize, u8>) -> bool {
    &&& forall|k: int| 0 <= k < p.band_count - 1 ==> {
        &&& cycle_component_count_spec(#[trigger] interface(p, l, k)) == Some(1nat)
        &&& crate::cycles::verts(interface(p, l, k)).disjoint(p.coarse_boundary_vertices@)
        &&& crate::cycles::verts(interface(p, l, k)).disjoint(p.fine_boundary_vertices@)
    }
    &&& forall|j: int, k: int| 0 <= j < k < p.band_count - 1 ==>
        crate::cycles::verts(#[trigger] interface(p, l, j)).disjoint(crate::cycles::verts(#[trigger] interface(p, l, k)))
}

/// The labels of the faces around vertex `a`.
pub open spec fn incident_labels(p: FaceBandProblem, l: Map<usize, u8>, a: usize) -> Set<u8> {
    Set::new(|x: u8| exists|i: int| 0 <= i < p.vertex_incident_faces@[a]@.len()
        && l[#[trigger] p.vertex_incident_faces@[a]@[i]] == x)
}

pub proof fn lemma_incident_labels_finite(p: FaceBandProblem, l: Map<usize, u8>, a: usize)
    ensures
        incident_labels(p, l, a).finite(),
{
    let list = p.vertex_incident_faces@[a]@;
    let q = Seq::new(list.len(), |i: int| l[list[i]]);
    assert forall|x: u8| incident_labels(p, l, a).contains(x) <==> q.to_set().contains(x) by {
        if incident_labels(p, l, a).contains(x) {
            let i = choose|i: int| 0 <= i < list.len() && l[#[trigger] list[i]] == x;
            assert(q[i] == x);
        }
        if q.to_set().contains(x) {
            let i = choose|i: int| 0 <= i < q.len() && q[i] == x;
            assert(l[list[i]] == x);
        }
    }
    assert(incident_labels(p, l, a) =~= q.to_set());
    vstd::seq_lib::seq_to_set_is_finite(q);
}

/// Interface edges at `a`, summed over the interfaces below `n`.
pub open spec fn anchor_degree(p: FaceBandProblem, l: Map<usize, u8>, a: usize, n: nat) -> nat
    decreases n,
{
    if n == 0 {
        0
    } else {
        anchor_degree(p, l, a, (n - 1) as nat)
            + interface(p, l, n - 1).filter(|e: Edge| e.0 == a || e.1 == a).len()
    }
}

/// Every anchor satisfies its policy.
pub open spec fn anchors_ok(p: FaceBandProblem, l: Map<usize, u8>) -> bool {
    forall|a: usize| #[trigger] p.anchor_policies@.contains_key(a) ==> match p.anchor_policies@[a] {
        AnchorBandPolicy::InteriorOfSingleBand => incident_labels(p, l, a).len() == 1,
        AnchorBandPolicy::OnSingleInterface => incident_labels(p, l, a).len() <= 2
            && anchor_degree(p, l, a, (p.band_count - 1) as nat) == 2,
        AnchorBandPolicy::FineCapConnectedToExterior => incident_labels(p, l, a) == set![last_label(p) as u8],
    }
}

/// A complete labelling that satisfies the whole band contract: coarse faces
/// in band 0, fine faces in the last band, neighbours and vertex stars within
/// one label, every band a connected annulus, every interface one cycle, and
/// every anchor policy met.
pub open spec fn valid_labelling(p: FaceBandProblem, l: Map<usize, u8>) -> bool {
    &&& l.dom() == face_set(p)
    &&& forall|f: usize| #[trigger] l.contains_key(f) ==> l[f] < p.band_count
    &&& forall|f: usize| #[trigger] p.coarse_boundary_faces@.contains(f) ==> l[f] == 0
    &&& forall|f: usize| #[trigger] p.fine_boundary_faces@.contains(f) ==> l[f] == last_label(p)
    &&& adjacency_ok(p, l)
    &&& vertex_spread_ok(p, l)
    &&& forall|k: int| 0 <= k < p.band_count ==> #[trigger] band_ok(p, l, k)
    &&& interfaces_ok(p, l)
    &&& anchors_ok(p, l)
}

// ---------------------------------------------------------------------------
// Checking a complete labelling

/// The edges of one face, as `face_edges` describes them.
fn problem_edges(problem: &FaceBandProblem, face: usize) -> (out: BTreeSet<Edge>)
    ensures
        out@ == face_edges(*problem, face),
{
    let ghost p = *problem;
    let mut edges: BTreeSet<Edge> = BTreeSet::new();
    let ghost full = spec_btree_map_iter(&problem.face_shared_edges).remaining();
    for kv in it: problem.face_shared_edges.iter()
        invariant
            p == *problem,
            it.seq() == full,
            full == spec_btree_map_iter(&p.face_shared_edges).remaining(),
            forall|e: Edge| #[trigger] edges@.contains(e) <==> exists|j: int| 0 <= j < it.index()
                && ((*full[j].0).0 == face || (*full[j].0).1 == face) && *full[j].1 == e,
    {
        let key = *kv.0;
        let e = *kv.1;
        let ghost j0 = it.index();
        proof {
            assert(*full[j0].0 == key && *full[j0].1 == e);
        }
        if key.0 == face || key.1 == face {
            edges.insert(e);
        }
        proof {
            assert forall|x: Edge| #[trigger] edges@.contains(x) <==> exists|j: int| 0 <= j < j0 + 1
                && ((*full[j].0).0 == face || (*full[j].0).1 == face) && *full[j].1 == x by {
                if edges@.contains(x) && x != e {
                    let j = choose|j: int| 0 <= j < j0 && ((*full[j].0).0 == face || (*full[j].0).1 == face) && *full[j].1 == x;
                }
                if exists|j: int| 0 <= j < j0 + 1 && ((*full[j].0).0 == face || (*full[j].0).1 == face) && *full[j].1 == x {
                    let j = choose|j: int| 0 <= j < j0 + 1 && ((*full[j].0).0 == face || (*full[j].0).1 == face) && *full[j].1 == x;
                    if j < j0 {
                    }
                }
            }
        }
    }
    let mut known: Vec<usize> = Vec::new();
    let ghost vfull = spec_btree_map_iter(&problem.vertex_incident_faces).remaining();
    for kv in it: problem.vertex_incident_faces.iter()
        invariant
            p == *problem,
            it.seq() == vfull,
            vfull == spec_btree_map_iter(&p.vertex_incident_faces).remaining(),
            vstd::std_specs::btree::increasing_seq(vfull.map_values(|kv: (&usize, &Vec<usize>)| *kv.0)),
            forall|v: usize| #[trigger] known@.contains(v) <==> exists|j: int| 0 <= j < it.index()
                && *vfull[j].0 == v && vfull[j].1@.contains(face),
            forall|a: int, b: int| 0 <= a < b < known@.len() ==> known@[a] < known@[b],
            forall|a: int, j: int| #![trigger known@[a], vfull[j]] 0 <= a < known@.len() && it.index() <= j < vfull.len() ==> known@[a] < *vfull[j].0,
    {
        let v = *kv.0;
        let ghost j0 = it.index();
        let ghost keys = vfull.map_values(|kv: (&usize, &Vec<usize>)| *kv.0);
        proof {
            crate::reachability::lemma_increasing_keys(keys);
            assert(keys[j0] == v);
            assert forall|a: int| 0 <= a < known@.len() implies known@[a] < v by {
                assert(known@[a] < *vfull[j0].0);
            }
        }
        let ghost k0 = known@;
        let ghost has = vfull[j0].1@.contains(face);
        proof {
            assert(*vfull[j0].1 == *kv.1);
        }
        if crate::graph::contains_usize(kv.1, face) {
            known.push(v);
        }
        proof {
            if has {
                assert(known@ == k0.push(v));
            } else {
                assert(known@ == k0);
            }
            assert forall|x: usize| #[trigger] known@.contains(x) <==> exists|j: int| 0 <= j < j0 + 1
                && *vfull[j].0 == x && vfull[j].1@.contains(face) by {
                if known@.contains(x) {
                    let a = choose|a: int| 0 <= a < known@.len() && known@[a] == x;
                    if a < k0.len() {
                        assert(known@[a] == k0[a]);
                        assert(k0.contains(x));
                        let j = choose|j: int| 0 <= j < j0 && *vfull[j].0 == x && vfull[j].1@.contains(face);
                        assert(0 <= j < j0 + 1);
                    } else {
                        assert(has && x == v);
                    }
                }
                if exists|j: int| 0 <= j < j0 + 1 && *vfull[j].0 == x && vfull[j].1@.contains(face) {
                    let j = choose|j: int| 0 <= j < j0 + 1 && *vfull[j].0 == x && vfull[j].1@.contains(face);
                    if j == j0 {
                        assert(known@[known@.len() - 1] == v);
                    } else {
                        assert(k0.contains(x));
                        let a = choose|a: int| 0 <= a < k0.len() && k0[a] == x;
                        assert(known@[a] == x);
                    }
                }
            }
            assert forall|a: int, j: int| #![trigger known@[a], vfull[j]] 0 <= a < known@.len() && j0 + 1 <= j < vfull.len() implies known@[a] < *vfull[j].0 by {
                assert(keys[j0] < keys[j]);
                assert(keys[j] == *vfull[j].0);
                if a < k0.len() {
                    assert(known@[a] == k0[a]);
                    assert(k0[a] < *vfull[j].0);
                }
            }
            assert forall|x: int, y: int| 0 <= x < y < known@.len() implies known@[x] < known@[y] by {
                if y < k0.len() {
                    assert(known@[x] == k0[x] && known@[y] == k0[y]);
                } else {
                    assert(known@[x] == k0[x]);
                }
            }
        }
    }
    proof {
        assert forall|v: usize| #[trigger] known@.contains(v) <==> incident_vertex(p, face, v) by {
            if known@.contains(v) {
                let j = choose|j: int| 0 <= j < vfull.len() && *vfull[j].0 == v && vfull[j].1@.contains(face);
                assert(p.vertex_incident_faces@.contains_key(*vfull[j].0));
            }
            if incident_vertex(p, face, v) {
                assert(vfull.contains((&v, &p.vertex_incident_faces@[v])));
                let j = choose|j: int| 0 <= j < vfull.len() && vfull[j] == (&v, &p.vertex_incident_faces@[v]);
            }
        }
    }
    let ghost shared_part = edges@;
    let mut a: usize = 0;
    while a < known.len()
        invariant
            p == *problem,
            a <= known@.len(),
            forall|v: usize| #[trigger] known@.contains(v) <==> incident_vertex(p, face, v),
            forall|x: int, y: int| 0 <= x < y < known@.len() ==> known@[x] < known@[y],
            forall|e: Edge| #[trigger] edges@.contains(e) <==> shared_part.contains(e)
                || (exists|x: int, y: int| 0 <= x < a && x < y < known@.len() && e == (known@[x], known@[y])),
        decreases known@.len() - a,
    {
        let mut b: usize = a + 1;
        while b < known.len()
            invariant
                p == *problem,
                a < known@.len(),
                a + 1 <= b <= known@.len(),
                forall|x: int, y: int| 0 <= x < y < known@.len() ==> known@[x] < known@[y],
                forall|e: Edge| #[trigger] edges@.contains(e) <==> shared_part.contains(e)
                    || (exists|x: int, y: int| 0 <= x < a && x < y < known@.len() && e == (known@[x], known@[y]))
                    || (exists|y: int| a < y < b && e == (known@[a as int], known@[y])),
            decreases known@.len() - b,
        {
            edges.insert((known[a], known[b]));
            b = b + 1;
        }
        proof {
            assert forall|e: Edge| #[trigger] edges@.contains(e) <==> shared_part.contains(e)
                || (exists|x: int, y: int| 0 <= x < a + 1 && x < y < known@.len() && e == (known@[x], known@[y])) by {
                if exists|x: int, y: int| 0 <= x < a + 1 && x < y < known@.len() && e == (known@[x], known@[y]) {
                    let (x, y) = choose|x: int, y: int| 0 <= x < a + 1 && x < y < known@.len() && e == (known@[x], known@[y]);
                    if x == a {
                        assert(exists|y2: int| a < y2 < known@.len() && e == (known@[a as int], known@[y2]));
                    }
                }
            }
        }
        a = a + 1;
    }
    proof {
        assert forall|e: Edge| #[trigger] edges@.contains(e) <==> face_edges(p, face).contains(e) by {
            let in_shared = exists|k: (usize, usize)| #[trigger] p.face_shared_edges@.contains_key(k) && (k.0 == face || k.1 == face)
                && p.face_shared_edges@[k] == e;
            let in_pairs = e.0 < e.1 && incident_vertex(p, face, e.0) && incident_vertex(p, face, e.1);
            if shared_part.contains(e) {
                let j = choose|j: int| 0 <= j < full.len() && ((*full[j].0).0 == face || (*full[j].0).1 == face) && *full[j].1 == e;
                assert(p.face_shared_edges@.contains_key(*full[j].0));
            }
            if in_shared {
                let k = choose|k: (usize, usize)| #[trigger] p.face_shared_edges@.contains_key(k) && (k.0 == face || k.1 == face)
                    && p.face_shared_edges@[k] == e;
                assert(full.contains((&k, &p.face_shared_edges@[k])));
                let j = choose|j: int| 0 <= j < full.len() && full[j] == (&k, &p.face_shared_edges@[k]);
                assert(shared_part.contains(e));
            }
            if exists|x: int, y: int| 0 <= x < known@.len() && x < y < known@.len() && e == (known@[x], known@[y]) {
                let (x, y) = choose|x: int, y: int| 0 <= x < known@.len() && x < y < known@.len() && e == (known@[x], known@[y]);
                assert(known@.contains(known@[x]) && known@.contains(known@[y]));
            }
            if in_pairs {
                assert(known@.contains(e.0) && known@.contains(e.1));
                let x = choose|x: int| 0 <= x < known@.len() && known@[x] == e.0;
                let y = choose|y: int| 0 <= y < known@.len() && known@[y] == e.1;
                if y < x {
                    assert(known@[y] < known@[x]);
                }
                assert(x < y);
            }
        }
        assert(edges@ =~= face_edges(p, face));
    }
    edges
}

proof fn lemma_multiplicity_insert(p: FaceBandProblem, b: Set<usize>, f: usize, e: Edge)
    requires
        b.finite(),
        !b.contains(f),
    ensures
        edge_multiplicity(p, b.insert(f), e) == edge_multiplicity(p, b, e)
            + (if face_edges(p, f).contains(e) { 1nat } else { 0nat }),
{
    let before = faces_with_edge(p, b, e);
    let after = faces_with_edge(p, b.insert(f), e);
    if face_edges(p, f).contains(e) {
        assert(after =~= before.insert(f));
        assert(!before.contains(f));
    } else {
        assert(after =~= before);
    }
}

proof fn lemma_band_edges_insert(p: FaceBandProblem, b: Set<usize>, f: usize)
    ensures
        band_edges(p, b.insert(f)) == band_edges(p, b) + face_edges(p, f),
{
    assert forall|e: Edge| band_edges(p, b.insert(f)).contains(e) <==> (band_edges(p, b) + face_edges(p, f)).contains(e) by {
        if band_edges(p, b.insert(f)).contains(e) {
            let g = choose|g: usize| b.insert(f).contains(g) && #[trigger] face_edges(p, g).contains(e);
            if g != f {
                assert(band_edges(p, b).contains(e));
            }
        }
        if band_edges(p, b).contains(e) {
            let g = choose|g: usize| b.contains(g) && #[trigger] face_edges(p, g).contains(e);
            assert(b.insert(f).contains(g));
        }
    }
    assert(band_edges(p, b.insert(f)) =~= band_edges(p, b) + face_edges(p, f));
}

/// Whether the faces form an annular strip: as many edges as vertices plus
/// faces, and a boundary of exactly two cycles.
fn is_annular_strip(problem: &FaceBandProblem, faces: &BTreeSet<usize>) -> (r: bool)
    ensures
        r == annular(*problem, faces@),
{
    let ghost p = *problem;
    let mut counts: BTreeMap<Edge, usize> = BTreeMap::new();
    let mut vertices: BTreeSet<usize> = BTreeSet::new();
    let ghost ff = spec_btree_keys_iter(faces).remaining();
    let face_count = faces.len();
    for face in it: faces.iter()
        invariant
            p == *problem,
            it.seq() == ff,
            ff.unref().to_set() == faces@,
            ff.no_duplicates(),
            ff.len() == faces@.len(),
            ff.len() <= usize::MAX,
            counts@.dom() == band_edges(p, ff.unref().take(it.index() as int).to_set()),
            forall|e: Edge| #[trigger] counts@.contains_key(e) ==> counts@[e] == edge_multiplicity(p, ff.unref().take(it.index() as int).to_set(), e)
                && counts@[e] <= it.index(),
            vertices@ == crate::cycles::verts(counts@.dom()),
    {
        let ghost i0 = it.index();
        let ghost done = ff.unref().take(i0 as int).to_set();
        let ghost done_next = ff.unref().take(i0 + 1).to_set();
        proof {
            assert(ff.unref().take(i0 + 1) =~= ff.unref().take(i0 as int).push(*face));
            ff.unref().take(i0 as int).lemma_push_to_set_commute(*face);
            assert(done_next == done.insert(*face));
            vstd::seq_lib::seq_to_set_is_finite(ff.unref().take(i0 as int));
            assert(!done.contains(*face)) by {
                if done.contains(*face) {
                    let k = choose|k: int| 0 <= k < i0 && ff.unref().take(i0 as int)[k] == *face;
                    assert(ff.unref()[k] == ff.unref()[i0 as int]);
                }
            }
            lemma_band_edges_insert(p, done, *face);
        }
        let pe = problem_edges(problem, *face);
        let ghost before_counts = counts@;
        let ghost pfull = spec_btree_keys_iter(&pe).remaining();
        for e in it2: pe.iter()
            invariant
                p == *problem,
                it2.seq() == pfull,
                pfull.unref().to_set() == pe@,
                pfull.no_duplicates(),
                pe@ == face_edges(p, *face),
                0 <= i0 < ff.len(),
                ff.len() <= usize::MAX,
                counts@.dom() == before_counts.dom() + pfull.unref().take(it2.index() as int).to_set(),
                forall|x: Edge| #[trigger] counts@.contains_key(x) ==> {
                    &&& pfull.unref().take(it2.index() as int).contains(x) ==> counts@[x] == (if before_counts.contains_key(x) { before_counts[x] } else { 0 }) + 1
                    &&& !pfull.unref().take(it2.index() as int).contains(x) ==> counts@[x] == before_counts[x]
                },
                forall|x: Edge| #[trigger] before_counts.contains_key(x) ==> before_counts[x] <= i0,
                vertices@ == crate::cycles::verts(counts@.dom()),
        {
            let ghost j0 = it2.index();
            let ghost q = pfull.unref();
            proof {
                assert(0 <= j0 < q.len());
                assert(q.take(j0 + 1) =~= q.take(j0 as int).push(*e));
                q.take(j0 as int).lemma_push_to_set_commute(*e);
                assert(!q.take(j0 as int).contains(*e)) by {
                    if q.take(j0 as int).contains(*e) {
                        let k = choose|k: int| 0 <= k < j0 && q.take(j0 as int)[k] == *e;
                        assert(q[k] == q[j0 as int]);
                    }
                }
            }
            proof {
                assert(!q.take(j0 as int).to_set().contains(*e));
            }
            let current: usize = match counts.get(e) {
                Some(c) => {
                    proof {
                        assert(counts@.contains_key(*e) && counts@[*e] == *c);
                        assert(before_counts.contains_key(*e));
                        assert(*c == before_counts[*e]);
                        assert(before_counts[*e] <= i0);
                    }
                    *c
                },
                None => {
                    proof {
                        assert(!counts@.contains_key(*e));
                        assert(!before_counts.contains_key(*e));
                    }
                    0
                },
            };
            proof {
                assert(current <= i0);
            }
            let ghost old_counts = counts@;
            let ghost old_dom = counts@.dom();
            let ghost old_vertices = vertices@;
            counts.insert(*e, current + 1);
            vertices.insert(e.0);
            vertices.insert(e.1);
            proof {
                assert(counts@.dom() == old_dom.insert(*e));
                assert forall|v: usize| vertices@.contains(v) <==> crate::cycles::verts(counts@.dom()).contains(v) by {
                    if vertices@.contains(v) {
                        if v == e.0 || v == e.1 {
                            assert(counts@.dom().contains(*e));
                        } else {
                            assert(old_vertices.contains(v));
                            let x = choose|x: Edge| #[trigger] old_dom.contains(x) && (x.0 == v || x.1 == v);
                            assert(counts@.dom().contains(x));
                        }
                    }
                    if crate::cycles::verts(counts@.dom()).contains(v) {
                        let x = choose|x: Edge| #[trigger] counts@.dom().contains(x) && (x.0 == v || x.1 == v);
                        if x != *e {
                            assert(old_dom.contains(x));
                            assert(old_vertices.contains(v));
                        }
                    }
                }
                assert(vertices@ =~= crate::cycles::verts(counts@.dom()));
                assert forall|x: Edge| #[trigger] counts@.contains_key(x) implies {
                    &&& q.take(j0 + 1).contains(x) ==> counts@[x] == (if before_counts.contains_key(x) { before_counts[x] } else { 0 }) + 1
                    &&& !q.take(j0 + 1).contains(x) ==> counts@[x] == before_counts[x]
                } by {
                    if x != *e {
                        assert(q.take(j0 + 1).contains(x) <==> q.take(j0 as int).contains(x));
                        assert(counts@[x] == old_counts[x]);
                        assert(old_counts.contains_key(x));
                        if !q.take(j0 as int).contains(x) {
                            assert(before_counts.contains_key(x)) by {
                                assert(!q.take(j0 as int).to_set().contains(x));
                            }
                            assert(old_counts[x] == before_counts[x]);
                        }
                    } else {
                        assert(q.take(j0 + 1)[j0 as int] == *e);
                        if !before_counts.contains_key(x) {
                            assert(!old_dom.contains(x)) by {
                                if old_dom.contains(x) {
                                    assert(q.take(j0 as int).to_set().contains(x));
                                }
                            }
                        }
                    }
                }
                assert(counts@.dom() =~= before_counts.dom() + q.take(j0 + 1).to_set());
            }
        }
        proof {
            let q = pfull.unref();
            assert(q.take(q.len() as int) =~= q);
            let next = ff.unref().take(i0 + 1).to_set();
            assert(counts@.dom() =~= band_edges(p, next));
            assert forall|x: Edge| #[trigger] counts@.contains_key(x) implies counts@[x] == edge_multiplicity(p, next, x)
                && counts@[x] <= i0 + 1 by {
                lemma_multiplicity_insert(p, done, *face, x);
                if q.contains(x) {
                    assert(q.to_set().contains(x));
                    if !before_counts.contains_key(x) {
                        assert(!band_edges(p, done).contains(x));
                        assert(edge_multiplicity(p, done, x) == 0) by {
                            assert forall|g: usize| #[trigger] faces_with_edge(p, done, x).contains(g) implies false by {
                                assert(band_edges(p, done).contains(x));
                            }
                            assert(faces_with_edge(p, done, x) =~= Set::empty());
                        }
                    }
                } else {
                    assert(!pe@.contains(x)) by {
                        if pe@.contains(x) {
                            assert(q.to_set().contains(x));
                        }
                    }
                }
            }
        }
    }
    proof {
        let q = ff.unref();
        assert(q.take(q.len() as int) =~= q);
    }
    let ghost b = faces@;
    let mut boundary: Vec<Edge> = Vec::new();
    let ghost cfull = spec_btree_map_iter(&counts).remaining();
    for kv in it: counts.iter()
        invariant
            it.seq() == cfull,
            cfull == spec_btree_map_iter(&counts).remaining(),
            forall|e: Edge| #[trigger] boundary@.contains(e) <==> exists|j: int| 0 <= j < it.index() && *cfull[j].0 == e && *cfull[j].1 == 1,
    {
        let ghost j0 = it.index();
        let ghost b0 = boundary@;
        proof {
            assert(*cfull[j0].0 == *kv.0 && *cfull[j0].1 == *kv.1);
        }
        if *kv.1 == 1 {
            boundary.push(*kv.0);
        }
        proof {
            assert forall|e: Edge| #[trigger] boundary@.contains(e) <==> exists|j: int| 0 <= j < j0 + 1 && *cfull[j].0 == e && *cfull[j].1 == 1 by {
                if boundary@.contains(e) {
                    let a = choose|a: int| 0 <= a < boundary@.len() && boundary@[a] == e;
                    if a < b0.len() {
                        assert(b0.contains(e));
                        let j = choose|j: int| 0 <= j < j0 && *cfull[j].0 == e && *cfull[j].1 == 1;
                        assert(0 <= j < j0 + 1);
                    }
                }
                if exists|j: int| 0 <= j < j0 + 1 && *cfull[j].0 == e && *cfull[j].1 == 1 {
                    let j = choose|j: int| 0 <= j < j0 + 1 && *cfull[j].0 == e && *cfull[j].1 == 1;
                    if j == j0 {
                        assert(boundary@[boundary@.len() - 1] == e);
                    } else {
                        assert(b0.contains(e));
                        let a = choose|a: int| 0 <= a < b0.len() && b0[a] == e;
                        assert(boundary@[a] == e);
                    }
                }
            }
        }
    }
    proof {
        assert forall|e: Edge| boundary@.to_set().contains(e) <==> band_boundary(p, b).contains(e) by {
            if boundary@.to_set().contains(e) {
                assert(boundary@.contains(e));
                let j = choose|j: int| 0 <= j < cfull.len() && *cfull[j].0 == e && *cfull[j].1 == 1;
                assert(counts@.contains_key(*cfull[j].0));
            }
            if band_boundary(p, b).contains(e) {
                assert(counts@.contains_key(e));
                assert(cfull.contains((&e, &counts@[e])));
                let j = choose|j: int| 0 <= j < cfull.len() && cfull[j] == (&e, &counts@[e]);
                assert(boundary@.contains(e));
            }
        }
        assert(boundary@.to_set() =~= band_boundary(p, b));
    }
    let euler_ok = (vertices.len() as u128) + (faces.len() as u128) == counts.len() as u128;
    let cycles = crate::cycles::cycle_component_count(&boundary);
    let two = match cycles {
        Some(n) => n == 2,
        None => false,
    };
    euler_ok && two
}

/// The least open label of a domain.
pub open spec fn domain_min(d: [bool; 3]) -> Option<u8> {
    if d[0] { Some(0u8) } else if d[1] { Some(1u8) } else if d[2] { Some(2u8) } else { None }
}

/// The labelling that picks the least open label of every domain, when no
/// domain is empty.
pub open spec fn least_labels(domains: Map<usize, [bool; 3]>) -> Option<Map<usize, u8>> {
    if forall|f: usize| #[trigger] domains.contains_key(f) ==> domain_min(domains[f]) is Some {
        Some(Map::new(|f: usize| domains.contains_key(f), |f: usize| domain_min(domains[f])->0))
    } else {
        None
    }
}

/// Pick the least open label of every face; `None` when a domain is empty.
fn labels_from_domains(domains: &BTreeMap<usize, [bool; 3]>) -> (r: Option<BTreeMap<usize, u8>>)
    ensures
        r matches Some(l) ==> least_labels(domains@) == Some(l@),
        r is None ==> least_labels(domains@) is None,
{
    let mut labels: BTreeMap<usize, u8> = BTreeMap::new();
    let ghost full = spec_btree_map_iter(domains).remaining();
    for kv in it: domains.iter()
        invariant
            it.seq() == full,
            full == spec_btree_map_iter(domains).remaining(),
            forall|j: int| 0 <= j < it.index() ==> domain_min(*(#[trigger] full[j]).1) is Some,
            forall|f: usize| #[trigger] labels@.contains_key(f) <==> exists|j: int| 0 <= j < it.index() && *full[j].0 == f,
            forall|f: usize| #[trigger] labels@.contains_key(f) ==> domains@.contains_key(f) && domain_min(domains@[f]) == Some(labels@[f]),
    {
        let face = *kv.0;
        let d = *kv.1;
        let ghost j0 = it.index();
        proof {
            assert(*full[j0].0 == face && *full[j0].1 == d);
            assert(domains@.contains_key(face) && domains@[face] == d);
        }
        let label: u8 = if d[0] {
            0
        } else if d[1] {
            1
        } else if d[2] {
            2
        } else {
            proof {
                assert(!(domain_min(domains@[face]) is Some));
            }
            return None;
        };
        labels.insert(face, label);
        proof {
            assert forall|f: usize| #[trigger] labels@.contains_key(f) <==> exists|j: int| 0 <= j < j0 + 1 && *full[j].0 == f by {
                if labels@.contains_key(f) && f != face {
                    let j = choose|j: int| 0 <= j < j0 && *full[j].0 == f;
                    assert(0 <= j < j0 + 1);
                }
                if exists|j: int| 0 <= j < j0 + 1 && *full[j].0 == f {
                    let j = choose|j: int| 0 <= j < j0 + 1 && *full[j].0 == f;
                    if j < j0 {
                        assert(labels@.contains_key(f) || f == face);
                    }
                }
            }
        }
    }
    proof {
        assert forall|f: usize| #[trigger] domains@.contains_key(f) implies domain_min(domains@[f]) is Some && labels@.contains_key(f) by {
            assert(full.contains((&f, &domains@[f])));
            let j = choose|j: int| 0 <= j < full.len() && full[j] == (&f, &domains@[f]);
            assert(domain_min(*full[j].1) is Some);
        }
        assert(labels@ =~= Map::new(|f: usize| domains@.contains_key(f), |f: usize| domain_min(domains@[f])->0));
    }
    Some(labels)
}

/// Whether two labels differ by at most one.
fn near_exec(a: u8, b: u8) -> (r: bool)
    ensures
        r == near(a, b),
{
    (a as u16) <= (b as u16) + 1 && (b as u16) <= (a as u16) + 1
}

/// Whether neighbouring faces carry labels within one of each other.
fn check_adjacency(problem: &FaceBandProblem, labels: &BTreeMap<usize, u8>) -> (r: bool)
    requires
        problem_wf(*problem),
        labels@.dom() == face_set(*problem),
    ensures
        r == adjacency_ok(*problem, labels@),
{
    let ghost p = *problem;
    let ghost full = spec_btree_map_iter(&problem.face_adjacency).remaining();
    for kv in it: problem.face_adjacency.iter()
        invariant
            p == *problem,
            problem_wf(p),
            labels@.dom() == face_set(p),
            it.seq() == full,
            full == spec_btree_map_iter(&p.face_adjacency).remaining(),
            forall|j: int, i: int| #![trigger full[j], p.face_adjacency@[*full[j].0]@[i]]
                0 <= j < it.index() && 0 <= i < p.face_adjacency@[*full[j].0]@.len()
                    ==> near(labels@[*full[j].0], labels@[p.face_adjacency@[*full[j].0]@[i]]),
    {
        let face = *kv.0;
        let list = kv.1;
        let ghost j0 = it.index();
        proof {
            assert(*full[j0].0 == face && *full[j0].1 == *list);
            assert(p.face_adjacency@.contains_key(face) && p.face_adjacency@[face] == *list);
            assert(face_set(p).contains(face));
        }
        let a = match labels.get(&face) {
            Some(x) => *x,
            None => return false,
        };
        let mut i: usize = 0;
        while i < list.len()
            invariant
                p == *problem,
                problem_wf(p),
                labels@.dom() == face_set(p),
                p.face_adjacency@.contains_key(face),
                p.face_adjacency@[face] == *list,
                labels@.contains_key(face) && labels@[face] == a,
                i <= list@.len(),
                forall|k: int| 0 <= k < i ==> near(a, labels@[#[trigger] list@[k]]),
            decreases list@.len() - i,
        {
            let n = list[i];
            proof {
                assert(face_set(p).contains(p.face_adjacency@[face]@[i as int]));
            }
            let b = match labels.get(&n) {
                Some(x) => *x,
                None => return false,
            };
            if !near_exec(a, b) {
                proof {
                    assert(!near(labels@[face], labels@[p.face_adjacency@[face]@[i as int]]));
                }
                return false;
            }
            i = i + 1;
        }
        proof {
            assert forall|j: int, k: int| #![trigger full[j], p.face_adjacency@[*full[j].0]@[k]]
                0 <= j < j0 + 1 && 0 <= k < p.face_adjacency@[*full[j].0]@.len()
                    implies near(labels@[*full[j].0], labels@[p.face_adjacency@[*full[j].0]@[k]]) by {
                if j == j0 {
                    assert(list@[k] == p.face_adjacency@[*full[j].0]@[k]);
                }
            }
        }
    }
    proof {
        assert forall|f: usize, i: int| #![trigger p.face_adjacency@[f]@[i]]
            p.face_adjacency@.contains_key(f) && 0 <= i < p.face_adjacency@[f]@.len()
                implies near(labels@[f], labels@[p.face_adjacency@[f]@[i]]) by {
            assert(full.contains((&f, &p.face_adjacency@[f])));
            let j = choose|j: int| 0 <= j < full.len() && full[j] == (&f, &p.face_adjacency@[f]);
            assert(*full[j].0 == f);
        }
    }
    true
}

/// Whether every listed vertex has an incident face and its faces carry
/// labels within one of each other.
fn check_vertex_spread(problem: &FaceBandProblem, labels: &BTreeMap<usize, u8>) -> (r: bool)
    requires
        problem_wf(*problem),
        labels@.dom() == face_set(*problem),
    ensures
        r == vertex_spread_ok(*problem, labels@),
{
    let ghost p = *problem;
    let ghost full = spec_btree_map_iter(&problem.vertex_incident_faces).remaining();
    for kv in it: problem.vertex_incident_faces.iter()
        invariant
            p == *problem,
            problem_wf(p),
            labels@.dom() == face_set(p),
            it.seq() == full,
            full == spec_btree_map_iter(&p.vertex_incident_faces).remaining(),
            forall|j: int| #![trigger full[j]] 0 <= j < it.index() ==> {
                let list = p.vertex_incident_faces@[*full[j].0]@;
                &&& list.len() > 0
                &&& forall|a: int, b: int| #![trigger list[a], list[b]] 0 <= a < list.len() && 0 <= b < list.len()
                    ==> near(labels@[list[a]], labels@[list[b]])
            },
    {
        let v = *kv.0;
        let list = kv.1;
        let ghost j0 = it.index();
        proof {
            assert(*full[j0].0 == v && *full[j0].1 == *list);
            assert(p.vertex_incident_faces@.contains_key(v) && p.vertex_incident_faces@[v] == *list);
        }
        if list.len() == 0 {
            return false;
        }
        proof {
            assert(face_set(p).contains(list@[0]));
        }
        let first = match labels.get(&list[0]) {
            Some(x) => *x,
            None => return false,
        };
        let mut lo: u8 = first;
        let mut hi: u8 = first;
        let mut i: usize = 1;
        while i < list.len()
            invariant
                p == *problem,
                problem_wf(p),
                labels@.dom() == face_set(p),
                p.vertex_incident_faces@.contains_key(v),
                p.vertex_incident_faces@[v] == *list,
                1 <= i <= list@.len(),
                forall|k: int| 0 <= k < i ==> lo <= #[trigger] labels@[list@[k]] <= hi,
                exists|k: int| 0 <= k < i && labels@[list@[k]] == lo,
                exists|k: int| 0 <= k < i && labels@[list@[k]] == hi,
            decreases list@.len() - i,
        {
            proof {
                assert(face_set(p).contains(list@[i as int]));
            }
            let x = match labels.get(&list[i]) {
                Some(x) => *x,
                None => return false,
            };
            let ghost lo0 = lo;
            let ghost hi0 = hi;
            if x < lo {
                lo = x;
            }
            if x > hi {
                hi = x;
            }
            proof {
                assert(labels@[list@[i as int]] == x);
                if lo != lo0 {
                    assert(labels@[list@[i as int]] == lo);
                } else {
                    let k = choose|k: int| 0 <= k < i && labels@[list@[k]] == lo0;
                    assert(0 <= k < i + 1 && labels@[list@[k]] == lo);
                }
                if hi != hi0 {
                    assert(labels@[list@[i as int]] == hi);
                } else {
                    let k = choose|k: int| 0 <= k < i && labels@[list@[k]] == hi0;
                    assert(0 <= k < i + 1 && labels@[list@[k]] == hi);
                }
            }
            i = i + 1;
        }
        if !near_exec(lo, hi) {
            proof {
                let a = choose|k: int| 0 <= k < list@.len() && labels@[list@[k]] == lo;
                let b = choose|k: int| 0 <= k < list@.len() && labels@[list@[k]] == hi;
                assert(!near(labels@[list@[a]], labels@[list@[b]]));
                assert(!vertex_spread_ok(p, labels@)) by {
                    assert(p.vertex_incident_faces@.contains_key(v));
                }
            }
            return false;
        }
        proof {
            assert forall|j: int| #![trigger full[j]] 0 <= j < j0 + 1 implies {
                let l2 = p.vertex_incident_faces@[*full[j].0]@;
                &&& l2.len() > 0
                &&& forall|a: int, b: int| #![trigger l2[a], l2[b]] 0 <= a < l2.len() && 0 <= b < l2.len()
                    ==> near(labels@[l2[a]], labels@[l2[b]])
            } by {
                if j == j0 {
                    let l2 = p.vertex_incident_faces@[*full[j].0]@;
                    assert(l2 == list@);
                    assert forall|a: int, b: int| #![trigger l2[a], l2[b]] 0 <= a < l2.len() && 0 <= b < l2.len()
                        implies near(labels@[l2[a]], labels@[l2[b]]) by {
                        assert(lo <= labels@[list@[a]] <= hi);
                        assert(lo <= labels@[list@[b]] <= hi);
                    }
                }
            }
        }
    }
    proof {
        assert forall|v: usize| #[trigger] p.vertex_incident_faces@.contains_key(v) implies {
            &&& p.vertex_incident_faces@[v]@.len() > 0
            &&& forall|i: int, j: int| #![trigger p.vertex_incident_faces@[v]@[i], p.vertex_incident_faces@[v]@[j]]
                0 <= i < p.vertex_incident_faces@[v]@.len() && 0 <= j < p.vertex_incident_faces@[v]@.len()
                    ==> near(labels@[p.vertex_incident_faces@[v]@[i]], labels@[p.vertex_incident_faces@[v]@[j]])
        } by {
            assert(full.contains((&v, &p.vertex_incident_faces@[v])));
            let j = choose|j: int| 0 <= j < full.len() && full[j] == (&v, &p.vertex_incident_faces@[v]);
            assert(*full[j].0 == v);
        }
    }
    true
}

pub proof fn lemma_reach_within(p: FaceBandProblem, allowed: Set<usize>, start: usize)
    ensures
        reach(p, allowed, start).subset_of(allowed.insert(start)),
{
    let t = allowed.insert(start);
    assert(step_closed(p, allowed, t));
    assert forall|u: usize| reach(p, allowed, start).contains(u) implies t.contains(u) by {
        assert(step_closed(p, allowed, t) && t.contains(start));
    }
}

/// The faces labelled `k`, in increasing order of face, with the count of band
/// `k` when it is a non-empty connected annulus.
fn check_band(problem: &FaceBandProblem, labels: &BTreeMap<usize, u8>, k: u8) -> (r: Option<usize>)
    requires
        labels@.dom() == face_set(*problem),
    ensures
        r is Some <==> band_ok(*problem, labels@, k as int),
        r matches Some(n) ==> n == band(*problem, labels@, k as int).len(),
{
    let ghost p = *problem;
    let ghost b = band(p, labels@, k as int);
    let mut faces: BTreeSet<usize> = BTreeSet::new();
    let mut first: Option<usize> = None;
    let ghost full = spec_btree_map_iter(labels).remaining();
    for kv in it: labels.iter()
        invariant
            it.seq() == full,
            full == spec_btree_map_iter(labels).remaining(),
            vstd::std_specs::btree::increasing_seq(full.map_values(|kv: (&usize, &u8)| *kv.0)),
            forall|f: usize| #[trigger] faces@.contains(f) <==> exists|j: int| 0 <= j < it.index() && *full[j].0 == f && *full[j].1 == k,
            first is None <==> faces@.is_empty(),
            first matches Some(m) ==> faces@.contains(m) && forall|f: usize| #[trigger] faces@.contains(f) ==> m <= f,
            forall|f: usize, j: int| #![trigger faces@.contains(f), full[j]] faces@.contains(f) && it.index() <= j < full.len() ==> f < *full[j].0,
    {
        let face = *kv.0;
        let ghost j0 = it.index();
        let ghost f0 = faces@;
        let ghost keys = full.map_values(|kv: (&usize, &u8)| *kv.0);
        proof {
            assert(*full[j0].0 == face && *full[j0].1 == *kv.1);
            crate::reachability::lemma_increasing_keys(keys);
            assert(keys[j0] == face);
        }
        if *kv.1 == k {
            if first.is_none() {
                first = Some(face);
            }
            faces.insert(face);
        }
        proof {
            assert forall|f: usize| #[trigger] faces@.contains(f) <==> exists|j: int| 0 <= j < j0 + 1 && *full[j].0 == f && *full[j].1 == k by {
                if faces@.contains(f) && f != face {
                    assert(f0.contains(f));
                    let j = choose|j: int| 0 <= j < j0 && *full[j].0 == f && *full[j].1 == k;
                    assert(0 <= j < j0 + 1);
                }
                if exists|j: int| 0 <= j < j0 + 1 && *full[j].0 == f && *full[j].1 == k {
                    let j = choose|j: int| 0 <= j < j0 + 1 && *full[j].0 == f && *full[j].1 == k;
                    if j < j0 {
                        assert(f0.contains(f));
                    }
                }
            }
            if f0.contains(face) {
                assert(face < *full[j0].0);
            }
            assert forall|f: usize, j: int| #![trigger faces@.contains(f), full[j]] faces@.contains(f) && j0 + 1 <= j < full.len() implies f < *full[j].0 by {
                assert(keys[j0] < keys[j]);
                assert(keys[j] == *full[j].0);
                if f != face {
                    assert(f0.contains(f));
                }
            }
            if let Some(m) = first {
                assert forall|f: usize| #[trigger] faces@.contains(f) implies m <= f by {
                    if f == face && !f0.contains(face) && m != face {
                        assert(f0.contains(m));
                        assert(m < *full[j0].0);
                    }
                }
            }
        }
    }
    proof {
        assert forall|f: usize| faces@.contains(f) <==> b.contains(f) by {
            if faces@.contains(f) {
                let j = choose|j: int| 0 <= j < full.len() && *full[j].0 == f && *full[j].1 == k;
                assert(labels@.contains_key(*full[j].0));
            }
            if b.contains(f) {
                assert(labels@.contains_key(f));
                assert(full.contains((&f, &labels@[f])));
                let j = choose|j: int| 0 <= j < full.len() && full[j] == (&f, &labels@[f]);
                assert(*full[j].0 == f);
            }
        }
        assert(faces@ =~= b);
        lemma_set_finite(&faces);
    }
    let start = match first {
        None => {
            return None;
        },
        Some(m) => m,
    };
    proof {
        assert(set_min(b) == start) by {
            let m = set_min(b);
            assert(b.contains(start) && forall|x: usize| b.contains(x) ==> start <= x);
            assert(b.contains(m) && forall|x: usize| b.contains(x) ==> m <= x);
        }
    }
    let reached = flood_faces(problem, start, &faces);
    proof {
        lemma_reach_within(p, b, start);
        assert(b.insert(start) =~= b);
        lemma_set_finite(&reached);
    }
    if reached.len() != faces.len() {
        return None;
    }
    proof {
        vstd::set_lib::lemma_subset_equality(reached@, b);
    }
    if !is_annular_strip(problem, &faces) {
        return None;
    }
    Some(faces.len())
}

/// Labels of the problem stay below the band count.
pub open spec fn labels_in_range(p: FaceBandProblem, l: Map<usize, u8>) -> bool {
    forall|f: usize| #[trigger] l.contains_key(f) ==> l[f] < p.band_count
}

/// The shared edges between consecutive bands: the first interface and, for
/// three bands, the second.
fn compute_interfaces(problem: &FaceBandProblem, labels: &BTreeMap<usize, u8>) -> (r: (BTreeSet<Edge>, BTreeSet<Edge>))
    requires
        problem_wf(*problem),
        labels@.dom() == face_set(*problem),
        problem.band_count == 2 || problem.band_count == 3,
        labels_in_range(*problem, labels@),
    ensures
        r.0@ == interface(*problem, labels@, 0),
        problem.band_count == 3 ==> r.1@ == interface(*problem, labels@, 1),
{
    let ghost p = *problem;
    let mut first: BTreeSet<Edge> = BTreeSet::new();
    let mut second: BTreeSet<Edge> = BTreeSet::new();
    let ghost full = spec_btree_map_iter(&problem.face_shared_edges).remaining();
    for kv in it: problem.face_shared_edges.iter()
        invariant
            p == *problem,
            problem_wf(p),
            labels@.dom() == face_set(p),
            p.band_count == 2 || p.band_count == 3,
            labels_in_range(p, labels@),
            it.seq() == full,
            full == spec_btree_map_iter(&p.face_shared_edges).remaining(),
            forall|e: Edge| #[trigger] first@.contains(e) <==> exists|j: int| 0 <= j < it.index() && *full[j].1 == e
                && adjacent_labels(labels@[(*full[j].0).0], labels@[(*full[j].0).1])
                && (if labels@[(*full[j].0).0] < labels@[(*full[j].0).1] { labels@[(*full[j].0).0] } else { labels@[(*full[j].0).1] }) == 0,
            forall|e: Edge| #[trigger] second@.contains(e) <==> exists|j: int| 0 <= j < it.index() && *full[j].1 == e
                && adjacent_labels(labels@[(*full[j].0).0], labels@[(*full[j].0).1])
                && (if labels@[(*full[j].0).0] < labels@[(*full[j].0).1] { labels@[(*full[j].0).0] } else { labels@[(*full[j].0).1] }) == 1,
    {
        let key = *kv.0;
        let e = *kv.1;
        let ghost j0 = it.index();
        let ghost g0 = first@;
        let ghost g1 = second@;
        proof {
            assert(*full[j0].0 == key && *full[j0].1 == e);
            assert(p.face_shared_edges@.contains_key(key));
            assert(face_set(p).contains(key.0) && face_set(p).contains(key.1));
        }
        let a = match labels.get(&key.0) {
            Some(x) => *x,
            None => 0,
        };
        let b = match labels.get(&key.1) {
            Some(x) => *x,
            None => 0,
        };
        let ghost la = labels@[key.0];
        let ghost lb = labels@[key.1];
        proof {
            assert(a == la && b == lb);
        }
        let low = if a < b { a } else { b };
        if (a as u16) + 1 == (b as u16) || (b as u16) + 1 == (a as u16) {
            if low == 0 {
                first.insert(e);
            } else {
                second.insert(e);
            }
        }
        proof {
            assert forall|x: Edge| #[trigger] first@.contains(x) <==> exists|j: int| 0 <= j < j0 + 1 && *full[j].1 == x
                && adjacent_labels(labels@[(*full[j].0).0], labels@[(*full[j].0).1])
                && (if labels@[(*full[j].0).0] < labels@[(*full[j].0).1] { labels@[(*full[j].0).0] } else { labels@[(*full[j].0).1] }) == 0 by {
                if first@.contains(x) && !g0.contains(x) {
                    assert(x == e);
                }
                if g0.contains(x) {
                    let j = choose|j: int| 0 <= j < j0 && *full[j].1 == x
                        && adjacent_labels(labels@[(*full[j].0).0], labels@[(*full[j].0).1])
                        && (if labels@[(*full[j].0).0] < labels@[(*full[j].0).1] { labels@[(*full[j].0).0] } else { labels@[(*full[j].0).1] }) == 0;
                    assert(0 <= j < j0 + 1);
                }
                if exists|j: int| 0 <= j < j0 + 1 && *full[j].1 == x
                    && adjacent_labels(labels@[(*full[j].0).0], labels@[(*full[j].0).1])
                    && (if labels@[(*full[j].0).0] < labels@[(*full[j].0).1] { labels@[(*full[j].0).0] } else { labels@[(*full[j].0).1] }) == 0 {
                    let j = choose|j: int| 0 <= j < j0 + 1 && *full[j].1 == x
                        && adjacent_labels(labels@[(*full[j].0).0], labels@[(*full[j].0).1])
                        && (if labels@[(*full[j].0).0] < labels@[(*full[j].0).1] { labels@[(*full[j].0).0] } else { labels@[(*full[j].0).1] }) == 0;
                    if j < j0 {
                        assert(g0.contains(x));
                    }
                }
            }
            assert forall|x: Edge| #[trigger] second@.contains(x) <==> exists|j: int| 0 <= j < j0 + 1 && *full[j].1 == x
                && adjacent_labels(labels@[(*full[j].0).0], labels@[(*full[j].0).1])
                && (if labels@[(*full[j].0).0] < labels@[(*full[j].0).1] { labels@[(*full[j].0).0] } else { labels@[(*full[j].0).1] }) == 1 by {
                if second@.contains(x) && !g1.contains(x) {
                    assert(x == e);
                    assert(la < p.band_count && lb < p.band_count);
                }
                if g1.contains(x) {
                    let j = choose|j: int| 0 <= j < j0 && *full[j].1 == x
                        && adjacent_labels(labels@[(*full[j].0).0], labels@[(*full[j].0).1])
                        && (if labels@[(*full[j].0).0] < labels@[(*full[j].0).1] { labels@[(*full[j].0).0] } else { labels@[(*full[j].0).1] }) == 1;
                    assert(0 <= j < j0 + 1);
                }
                if exists|j: int| 0 <= j < j0 + 1 && *full[j].1 == x
                    && adjacent_labels(labels@[(*full[j].0).0], labels@[(*full[j].0).1])
                    && (if labels@[(*full[j].0).0] < labels@[(*full[j].0).1] { labels@[(*full[j].0).0] } else { labels@[(*full[j].0).1] }) == 1 {
                    let j = choose|j: int| 0 <= j < j0 + 1 && *full[j].1 == x
                        && adjacent_labels(labels@[(*full[j].0).0], labels@[(*full[j].0).1])
                        && (if labels@[(*full[j].0).0] < labels@[(*full[j].0).1] { labels@[(*full[j].0).0] } else { labels@[(*full[j].0).1] }) == 1;
                    if j < j0 {
                        assert(g1.contains(x));
                    }
                }
            }
        }
    }
    proof {
        assert forall|x: Edge| first@.contains(x) <==> interface(p, labels@, 0).contains(x) by {
            if first@.contains(x) {
                let j = choose|j: int| 0 <= j < full.len() && *full[j].1 == x
                    && adjacent_labels(labels@[(*full[j].0).0], labels@[(*full[j].0).1])
                    && (if labels@[(*full[j].0).0] < labels@[(*full[j].0).1] { labels@[(*full[j].0).0] } else { labels@[(*full[j].0).1] }) == 0;
                assert(p.face_shared_edges@.contains_key(*full[j].0));
            }
            if interface(p, labels@, 0).contains(x) {
                let key = choose|key: (usize, usize)| #[trigger] p.face_shared_edges@.contains_key(key)
                    && p.face_shared_edges@[key] == x && adjacent_labels(labels@[key.0], labels@[key.1])
                    && (if labels@[key.0] < labels@[key.1] { labels@[key.0] } else { labels@[key.1] }) == 0;
                assert(full.contains((&key, &p.face_shared_edges@[key])));
                let j = choose|j: int| 0 <= j < full.len() && full[j] == (&key, &p.face_shared_edges@[key]);
                assert(*full[j].0 == key);
            }
        }
        assert(first@ =~= interface(p, labels@, 0));
        if p.band_count == 3 {
            assert forall|x: Edge| second@.contains(x) <==> interface(p, labels@, 1).contains(x) by {
                if second@.contains(x) {
                    let j = choose|j: int| 0 <= j < full.len() && *full[j].1 == x
                        && adjacent_labels(labels@[(*full[j].0).0], labels@[(*full[j].0).1])
                        && (if labels@[(*full[j].0).0] < labels@[(*full[j].0).1] { labels@[(*full[j].0).0] } else { labels@[(*full[j].0).1] }) == 1;
                    assert(p.face_shared_edges@.contains_key(*full[j].0));
                }
                if interface(p, labels@, 1).contains(x) {
                    let key = choose|key: (usize, usize)| #[trigger] p.face_shared_edges@.contains_key(key)
                        && p.face_shared_edges@[key] == x && adjacent_labels(labels@[key.0], labels@[key.1])
                        && (if labels@[key.0] < labels@[key.1] { labels@[key.0] } else { labels@[key.1] }) == 1;
                    assert(full.contains((&key, &p.face_shared_edges@[key])));
                    let j = choose|j: int| 0 <= j < full.len() && full[j] == (&key, &p.face_shared_edges@[key]);
                    assert(*full[j].0 == key);
                }
            }
            assert(second@ =~= interface(p, labels@, 1));
        }
    }
    (first, second)
}

/// The endpoints of a list of edges.
fn edge_endpoints(edges: &Vec<Edge>) -> (out: BTreeSet<usize>)
    ensures
        out@ == crate::cycles::verts(edges@.to_set()),
{
    let mut out: BTreeSet<usize> = BTreeSet::new();
    let mut i: usize = 0;
    while i < edges.len()
        invariant
            i <= edges@.len(),
            out@ == crate::cycles::verts(edges@.take(i as int).to_set()),
        decreases edges@.len() - i,
    {
        let e = edges[i];
        let ghost before = edges@.take(i as int);
        let ghost o0 = out@;
        out.insert(e.0);
        out.insert(e.1);
        proof {
            assert(edges@.take(i + 1) =~= before.push(e));
            before.lemma_push_to_set_commute(e);
            assert forall|v: usize| out@.contains(v) <==> crate::cycles::verts(before.to_set().insert(e)).contains(v) by {
                if out@.contains(v) {
                    if v == e.0 || v == e.1 {
                        assert(before.to_set().insert(e).contains(e));
                    } else {
                        assert(o0.contains(v));
                        let x = choose|x: Edge| #[trigger] before.to_set().contains(x) && (x.0 == v || x.1 == v);
                        assert(before.to_set().insert(e).contains(x));
                    }
                }
                if crate::cycles::verts(before.to_set().insert(e)).contains(v) {
                    let x = choose|x: Edge| #[trigger] before.to_set().insert(e).contains(x) && (x.0 == v || x.1 == v);
                    if x != e {
                        assert(before.to_set().contains(x));
                        assert(crate::cycles::verts(before.to_set()).contains(v));
                        assert(o0.contains(v));
                    }
                }
            }
            assert(out@ =~= crate::cycles::verts(edges@.take(i + 1).to_set()));
        }
        i = i + 1;
    }
    proof {
        assert(edges@.take(edges@.len() as int) =~= edges@);
    }
    out
}

/// The edges at `a`.
pub open spec fn touches(a: usize) -> spec_fn(Edge) -> bool {
    |e: Edge| e.0 == a || e.1 == a
}

/// How many of the (distinct) edges touch `a`.
fn count_touching(edges: &Vec<Edge>, a: usize) -> (r: usize)
    requires
        edges@.no_duplicates(),
    ensures
        r == edges@.to_set().filter(touches(a)).len(),
{
    let mut count: usize = 0;
    let mut i: usize = 0;
    proof {
        assert(edges@.take(0).to_set().filter(touches(a)) =~= Set::empty());
    }
    while i < edges.len()
        invariant
            edges@.no_duplicates(),
            i <= edges@.len(),
            count == edges@.take(i as int).to_set().filter(touches(a)).len(),
            count <= i,
        decreases edges@.len() - i,
    {
        let e = edges[i];
        let ghost before = edges@.take(i as int);
        proof {
            assert(edges@.take(i + 1) =~= before.push(e));
            before.lemma_push_to_set_commute(e);
            vstd::seq_lib::seq_to_set_is_finite(before);
            assert(!before.to_set().contains(e)) by {
                if before.contains(e) {
                    let k = choose|k: int| 0 <= k < before.len() && before[k] == e;
                    assert(edges@[k] == edges@[i as int]);
                }
            }
            let f0 = before.to_set().filter(touches(a));
            let f1 = before.to_set().insert(e).filter(touches(a));
            if e.0 == a || e.1 == a {
                assert(f1 =~= f0.insert(e));
                assert(!f0.contains(e));
            } else {
                assert(f1 =~= f0);
            }
        }
        if e.0 == a || e.1 == a {
            count = count + 1;
        }
        i = i + 1;
    }
    proof {
        assert(edges@.take(edges@.len() as int) =~= edges@);
    }
    count
}

/// The labels of the faces around `a`.
fn incident_label_set(problem: &FaceBandProblem, labels: &BTreeMap<usize, u8>, a: usize) -> (out: BTreeSet<u8>)
    requires
        problem_wf(*problem),
        labels@.dom() == face_set(*problem),
        problem.vertex_incident_faces@.contains_key(a),
    ensures
        out@ == incident_labels(*problem, labels@, a),
{
    let ghost p = *problem;
    let mut out: BTreeSet<u8> = BTreeSet::new();
    let list = match problem.vertex_incident_faces.get(&a) {
        Some(list) => list,
        None => {
            return out;
        },
    };
    let mut i: usize = 0;
    while i < list.len()
        invariant
            p == *problem,
            problem_wf(p),
            labels@.dom() == face_set(p),
            p.vertex_incident_faces@.contains_key(a),
            p.vertex_incident_faces@[a] == *list,
            i <= list@.len(),
            forall|x: u8| #[trigger] out@.contains(x) <==> exists|k: int| 0 <= k < i && labels@[list@[k]] == x,
        decreases list@.len() - i,
    {
        proof {
            assert(face_set(p).contains(p.vertex_incident_faces@[a]@[i as int]));
        }
        let x = match labels.get(&list[i]) {
            Some(x) => *x,
            None => 0,
        };
        let ghost o0 = out@;
        out.insert(x);
        proof {
            assert forall|y: u8| #[trigger] out@.contains(y) <==> exists|k: int| 0 <= k < i + 1 && labels@[list@[k]] == y by {
                if out@.contains(y) && y != x {
                    assert(o0.contains(y));
                    let k = choose|k: int| 0 <= k < i && labels@[list@[k]] == y;
                    assert(0 <= k < i + 1);
                }
                if y == x {
                    assert(labels@[list@[i as int]] == y);
                }
                if exists|k: int| 0 <= k < i + 1 && labels@[list@[k]] == y {
                    let k = choose|k: int| 0 <= k < i + 1 && labels@[list@[k]] == y;
                    if k < i {
                        assert(o0.contains(y));
                    }
                }
            }
        }
        i = i + 1;
    }
    proof {
        assert forall|y: u8| out@.contains(y) <==> incident_labels(p, labels@, a).contains(y) by {
            if out@.contains(y) {
                let k = choose|k: int| 0 <= k < list@.len() && labels@[list@[k]] == y;
                assert(labels@[p.vertex_incident_faces@[a]@[k]] == y);
            }
            if incident_labels(p, labels@, a).contains(y) {
                let k = choose|k: int| 0 <= k < p.vertex_incident_faces@[a]@.len() && labels@[p.vertex_incident_faces@[a]@[k]] == y;
                assert(labels@[list@[k]] == y);
            }
        }
        assert(out@ =~= incident_labels(p, labels@, a));
    }
    out
}

/// Whether every anchor meets its policy, given the interfaces.
fn check_anchors(problem: &FaceBandProblem, labels: &BTreeMap<usize, u8>, first: &Vec<Edge>, second: &Vec<Edge>) -> (r: bool)
    requires
        problem_wf(*problem),
        labels@.dom() == face_set(*problem),
        problem.band_count == 2 || problem.band_count == 3,
        first@.no_duplicates(),
        first@.to_set() == interface(*problem, labels@, 0),
        problem.band_count == 3 ==> second@.no_duplicates() && second@.to_set() == interface(*problem, labels@, 1),
    ensures
        r == anchors_ok(*problem, labels@),
{
    let ghost p = *problem;
    let ghost full = spec_btree_map_iter(&problem.anchor_policies).remaining();
    for kv in it: problem.anchor_policies.iter()
        invariant
            p == *problem,
            problem_wf(p),
            labels@.dom() == face_set(p),
            p.band_count == 2 || p.band_count == 3,
            first@.no_duplicates(),
            first@.to_set() == interface(p, labels@, 0),
            p.band_count == 3 ==> second@.no_duplicates() && second@.to_set() == interface(p, labels@, 1),
            it.seq() == full,
            full == spec_btree_map_iter(&p.anchor_policies).remaining(),
            forall|j: int| #![trigger full[j]] 0 <= j < it.index() ==> match p.anchor_policies@[*full[j].0] {
                AnchorBandPolicy::InteriorOfSingleBand => incident_labels(p, labels@, *full[j].0).len() == 1,
                AnchorBandPolicy::OnSingleInterface => incident_labels(p, labels@, *full[j].0).len() <= 2
                    && anchor_degree(p, labels@, *full[j].0, (p.band_count - 1) as nat) == 2,
                AnchorBandPolicy::FineCapConnectedToExterior => incident_labels(p, labels@, *full[j].0) == set![last_label(p) as u8],
            },
    {
        let anchor = *kv.0;
        let policy = *kv.1;
        let ghost j0 = it.index();
        proof {
            assert(*full[j0].0 == anchor && *full[j0].1 == policy);
            assert(p.anchor_policies@.contains_key(anchor) && p.anchor_policies@[anchor] == policy);
        }
        let incident = incident_label_set(problem, labels, anchor);
        proof {
            lemma_set_finite_u8(&incident);
        }
        let ok = match policy {
            AnchorBandPolicy::InteriorOfSingleBand => incident.len() == 1,
            AnchorBandPolicy::OnSingleInterface => {
                let d0 = count_touching(first, anchor);
                let d1 = if problem.band_count == 3 { count_touching(second, anchor) } else { 0 };
                proof {
                    reveal_with_fuel(anchor_degree, 3);
                    if p.band_count == 3 {
                        assert(anchor_degree(p, labels@, anchor, 2) == d0 + d1);
                    } else {
                        assert(anchor_degree(p, labels@, anchor, 1) == d0);
                    }
                }
                incident.len() <= 2 && d0 <= 2 && d1 <= 2 && d0 + d1 == 2
            },
            AnchorBandPolicy::FineCapConnectedToExterior => {
                let last: u8 = if problem.band_count == 3 { 2 } else { 1 };
                let r = incident.len() == 1 && incident.contains(&last);
                proof {
                    if r {
                        assert(incident@ =~= set![last]) by {
                            assert forall|y: u8| incident@.contains(y) implies y == last by {
                                if y != last {
                                    assert(incident@.remove(last).contains(y));
                                    assert(incident@.remove(last).len() == 0);
                                }
                            }
                        }
                    } else if incident@ == set![last] {
                        assert(set![last].len() == 1);
                    }
                }
                r
            },
        };
        if !ok {
            return false;
        }
    }
    proof {
        assert forall|a: usize| #[trigger] p.anchor_policies@.contains_key(a) implies match p.anchor_policies@[a] {
            AnchorBandPolicy::InteriorOfSingleBand => incident_labels(p, labels@, a).len() == 1,
            AnchorBandPolicy::OnSingleInterface => incident_labels(p, labels@, a).len() <= 2
                && anchor_degree(p, labels@, a, (p.band_count - 1) as nat) == 2,
            AnchorBandPolicy::FineCapConnectedToExterior => incident_labels(p, labels@, a) == set![last_label(p) as u8],
        } by {
            assert(full.contains((&a, &p.anchor_policies@[a])));
            let j = choose|j: int| 0 <= j < full.len() && full[j] == (&a, &p.anchor_policies@[a]);
            assert(*full[j].0 == a);
        }
    }
    true
}

/// A tree set of labels holds finitely many elements.
pub proof fn lemma_set_finite_u8(s: &BTreeSet<u8>)
    ensures
        s@.finite(),
{
    let r = spec_btree_keys_iter(s).remaining();
    assert(r.unref().to_set() == s@);
    vstd::seq_lib::seq_to_set_is_finite(r.unref());
}

/// One interface is one cycle that avoids the fixed boundary vertices; its
/// sorted edges and its vertices.
fn check_interface(problem: &FaceBandProblem, edges: &BTreeSet<Edge>) -> (r: Option<(Vec<Edge>, BTreeSet<usize>)>)
    ensures
        r is Some <==> (cycle_component_count_spec(edges@) == Some(1nat)
            && crate::cycles::verts(edges@).disjoint(problem.coarse_boundary_vertices@)
            && crate::cycles::verts(edges@).disjoint(problem.fine_boundary_vertices@)),
        r matches Some((v, vs)) ==> v@.to_set() == edges@ && v@.no_duplicates()
            && (forall|a: int, b: int| 0 <= a < b < v@.len() ==> crate::graph::edge_lt(v@[a], v@[b]))
            && vs@ == crate::cycles::verts(edges@),
{
    let list = crate::cycles::edge_set_to_vec(edges);
    let count = crate::cycles::cycle_component_count(&list);
    match count {
        Some(n) => {
            if n != 1 {
                return None;
            }
        },
        None => {
            return None;
        },
    }
    let vertices = edge_endpoints(&list);
    if !disjoint(&vertices, &problem.coarse_boundary_vertices) || !disjoint(&vertices, &problem.fine_boundary_vertices) {
        return None;
    }
    Some((list, vertices))
}

/// The fixed-boundary labels and the label range hold for every domain.
pub open spec fn domains_respect(p: FaceBandProblem, domains: Map<usize, [bool; 3]>) -> bool {
    &&& domains.dom() == face_set(p)
    &&& forall|f: usize| #[trigger] domains.contains_key(f) ==> (p.band_count == 2 ==> !domains[f][2])
    &&& forall|f: usize| #[trigger] p.coarse_boundary_faces@.contains(f) ==> !domains[f][1] && !domains[f][2]
    &&& forall|f: usize| #[trigger] p.fine_boundary_faces@.contains(f) ==> !domains[f][0]
        && (p.band_count == 3 ==> !domains[f][1])
}

/// The plan's counts and interfaces are those of its labelling.
pub open spec fn plan_matches(p: FaceBandProblem, plan: FaceBandPlan, fingerprint: u64) -> bool {
    &&& plan.band_count == p.band_count
    &&& plan.face_complex_fingerprint == fingerprint
    &&& plan.band_face_counts@.len() == p.band_count
    &&& forall|k: int| 0 <= k < p.band_count ==> #[trigger] plan.band_face_counts@[k] == band(p, plan.labels@, k).len()
    &&& plan.interface_edges@.len() == p.band_count - 1
    &&& forall|k: int| #![trigger plan.interface_edges@[k]] 0 <= k < p.band_count - 1 ==> {
        &&& plan.interface_edges@[k]@.to_set() == interface(p, plan.labels@, k)
        &&& plan.interface_edges@[k]@.no_duplicates()
        &&& forall|a: int, b: int| 0 <= a < b < plan.interface_edges@[k]@.len()
            ==> crate::graph::edge_lt(plan.interface_edges@[k]@[a], plan.interface_edges@[k]@[b])
    }
}

/// The sum of a list of counts.
pub open spec fn counts_sum(s: Seq<usize>) -> int
    decreases s.len(),
{
    if s.len() == 0 { 0 } else { counts_sum(s.drop_last()) + s.last() }
}

/// The bands of a valid labelling split the transition faces: their sizes add
/// up to the number of transition faces.
pub proof fn band_sizes_cover_faces(p: FaceBandProblem, l: Map<usize, u8>)
    requires
        problem_error(p) is None,
        valid_labelling(p, l),
    ensures
        p.band_count == 2 ==> band(p, l, 0).len() + band(p, l, 1).len() == p.transition_faces@.len(),
        p.band_count == 3 ==> band(p, l, 0).len() + band(p, l, 1).len() + band(p, l, 2).len() == p.transition_faces@.len(),
{
    let fs = face_set(p);
    vstd::seq_lib::seq_to_set_is_finite(p.transition_faces@);
    p.transition_faces@.unique_seq_to_set();
    let b0 = band(p, l, 0);
    let b1 = band(p, l, 1);
    let b2 = band(p, l, 2);
    vstd::set_lib::lemma_len_subset(b0, fs);
    vstd::set_lib::lemma_len_subset(b1, fs);
    vstd::set_lib::lemma_len_subset(b2, fs);
    assert(b0.disjoint(b1));
    vstd::set_lib::lemma_set_disjoint_lens(b0, b1);
    if p.band_count == 2 {
        assert forall|f: usize| fs.contains(f) implies (b0 + b1).contains(f) by {
            assert(l.contains_key(f));
        }
        assert(fs =~= b0 + b1);
    } else {
        assert((b0 + b1).disjoint(b2));
        vstd::set_lib::lemma_set_disjoint_lens(b0 + b1, b2);
        assert forall|f: usize| fs.contains(f) implies (b0 + b1 + b2).contains(f) by {
            assert(l.contains_key(f));
        }
        assert(fs =~= b0 + b1 + b2);
    }
}

/// Check a fully decided labelling against the band contract and build its plan.
fn validate_complete(problem: &FaceBandProblem, domains: &BTreeMap<usize, [bool; 3]>, fingerprint: u64) -> (r: Option<FaceBandPlan>)
    requires
        problem_wf(*problem),
        problem_error(*problem) is None,
        domains_respect(*problem, domains@),
    ensures
        r matches Some(plan) ==> least_labels(domains@) == Some(plan.labels@)
            && valid_labelling(*problem, plan.labels@) && plan_matches(*problem, plan, fingerprint),
        r is None ==> least_labels(domains@) is None || !valid_labelling(*problem, least_labels(domains@)->0),
{
    let ghost p = *problem;
    let labels = match labels_from_domains(domains) {
        Some(l) => l,
        None => {
            return None;
        },
    };
    let ghost l = labels@;
    proof {
        assert(l.dom() =~= face_set(p));
        assert forall|f: usize| #[trigger] l.contains_key(f) implies l[f] < p.band_count by {
            assert(domains@.contains_key(f));
        }
        assert forall|f: usize| #[trigger] p.coarse_boundary_faces@.contains(f) implies l[f] == 0 by {
            assert(face_set(p).contains(f));
            assert(domains@.contains_key(f));
        }
        assert forall|f: usize| #[trigger] p.fine_boundary_faces@.contains(f) implies l[f] == last_label(p) by {
            assert(face_set(p).contains(f));
            assert(domains@.contains_key(f));
        }
    }
    if !check_adjacency(problem, &labels) {
        return None;
    }
    if !check_vertex_spread(problem, &labels) {
        return None;
    }
    let mut band_face_counts: Vec<usize> = Vec::new();
    let mut k: u8 = 0;
    while (k as usize) < problem.band_count
        invariant
            p == *problem,
            labels@ == l,
            l.dom() == face_set(p),
            p.band_count == 2 || p.band_count == 3,
            k <= p.band_count,
            least_labels(domains@) == Some(l),
            band_face_counts@.len() == k,
            forall|j: int| 0 <= j < k ==> #[trigger] band_ok(p, l, j) && band_face_counts@[j] == band(p, l, j).len(),
        decreases p.band_count - k,
    {
        match check_band(problem, &labels, k) {
            Some(n) => {
                band_face_counts.push(n);
            },
            None => {
                return None;
            },
        }
        k = k + 1;
    }
    let (first_set, second_set) = compute_interfaces(problem, &labels);
    let (first, first_vertices) = match check_interface(problem, &first_set) {
        Some(x) => x,
        None => {
            return None;
        },
    };
    let mut interface_edges: Vec<Vec<Edge>> = Vec::new();
    let mut second: Vec<Edge> = Vec::new();
    if problem.band_count == 3 {
        let (s, second_vertices) = match check_interface(problem, &second_set) {
            Some(x) => x,
            None => {
                return None;
            },
        };
        if !disjoint(&first_vertices, &second_vertices) {
            return None;
        }
        second = s;
    }
    proof {
        assert(interfaces_ok(p, l)) by {
            assert forall|j: int, k2: int| 0 <= j < k2 < p.band_count - 1 implies
                crate::cycles::verts(#[trigger] interface(p, l, j)).disjoint(crate::cycles::verts(#[trigger] interface(p, l, k2))) by {
                assert(j == 0 && k2 == 1);
            }
        }
    }
    if !check_anchors(problem, &labels, &first, &second) {
        return None;
    }
    let ghost first_view = first@;
    let ghost second_view = second@;
    interface_edges.push(first);
    if problem.band_count == 3 {
        interface_edges.push(second);
    }
    let plan = FaceBandPlan {
        band_count: problem.band_count,
        labels,
        interface_edges,
        band_face_counts,
        face_complex_fingerprint: fingerprint,
    };
    proof {
        assert(plan.interface_edges@[0]@ == first_view);
        if p.band_count == 3 {
            assert(plan.interface_edges@[1]@ == second_view);
        }
        assert(plan.labels@ == l);
        assert(adjacency_ok(p, l));
        assert(vertex_spread_ok(p, l));
        assert(anchors_ok(p, l));
        assert(forall|j: int| 0 <= j < p.band_count ==> #[trigger] band_ok(p, l, j));
        assert(valid_labelling(p, l));
        assert forall|k: int| #![trigger plan.interface_edges@[k]] 0 <= k < p.band_count - 1 implies {
            &&& plan.interface_edges@[k]@.to_set() == interface(p, plan.labels@, k)
            &&& plan.interface_edges@[k]@.no_duplicates()
            &&& forall|a: int, b: int| 0 <= a < b < plan.interface_edges@[k]@.len()
                ==> crate::graph::edge_lt(plan.interface_edges@[k]@[a], plan.interface_edges@[k]@[b])
        } by {
            if k == 0 {
                assert(plan.interface_edges@[k]@ == first_view);
            } else {
                assert(plan.interface_edges@[k]@ == second_view);
            }
        }
        assert forall|k: int| 0 <= k < p.band_count implies #[trigger] plan.band_face_counts@[k] == band(p, plan.labels@, k).len() by {
            assert(band_ok(p, l, k));
        }
        assert(plan_matches(p, plan, fingerprint));
    }
    Some(plan)
}

// ---------------------------------------------------------------------------
// Domain propagation

/// Labelling `l` picks an open label of every domain.
pub open spec fn consistent(l: Map<usize, u8>, domains: Map<usize, [bool; 3]>) -> bool {
    forall|f: usize| #[trigger] domains.contains_key(f) ==> l.contains_key(f) && l[f] < 3 && domains[f][l[f] as int]
}

/// Every domain of `new` is a subset of the same face's domain in `old`.
pub open spec fn shrinks(new: Map<usize, [bool; 3]>, old: Map<usize, [bool; 3]>) -> bool {
    &&& new.dom() == old.dom()
    &&& forall|f: usize, x: int| #[trigger] new.contains_key(f) && 0 <= x < 3 && new[f][x] ==> #[trigger] old[f][x]
}

/// The open (face, label) pairs of the domains.
pub open spec fn open_pairs(domains: Map<usize, [bool; 3]>) -> Set<(usize, u8)> {
    Set::new(|q: (usize, u8)| domains.contains_key(q.0) && q.1 < 3 && domains[q.0][q.1 as int])
}

/// Faces listed as vertex neighbours share a vertex, and face adjacency is symmetric.
pub open spec fn problem_coherent(p: FaceBandProblem) -> bool {
    &&& forall|a: usize, b: usize| #[trigger] face_step(p, a, b) ==> face_step(p, b, a)
    &&& forall|f: usize, i: int| #![trigger p.face_vertex_neighbours@[f]@[i]]
        p.face_vertex_neighbours@.contains_key(f) && 0 <= i < p.face_vertex_neighbours@[f]@.len()
            ==> exists|v: usize| incident_vertex(p, f, v) && incident_vertex(p, p.face_vertex_neighbours@[f]@[i], v)
}

pub proof fn lemma_open_pairs_finite(domains: Map<usize, [bool; 3]>)
    requires
        domains.dom().finite(),
    ensures
        open_pairs(domains).finite(),
{
    let d = domains.dom();
    let s0 = d.map(|f: usize| (f, 0u8));
    let s1 = d.map(|f: usize| (f, 1u8));
    let s2 = d.map(|f: usize| (f, 2u8));
    d.lemma_map_finite(|f: usize| (f, 0u8));
    d.lemma_map_finite(|f: usize| (f, 1u8));
    d.lemma_map_finite(|f: usize| (f, 2u8));
    assert forall|q: (usize, u8)| open_pairs(domains).contains(q) implies (s0 + s1 + s2).contains(q) by {
        if q.1 == 0 {
            assert(s0.contains((q.0, 0u8)));
        } else if q.1 == 1 {
            assert(s1.contains((q.0, 1u8)));
        } else {
            assert(s2.contains((q.0, 2u8)));
        }
    }
    vstd::set_lib::lemma_len_subset(open_pairs(domains), s0 + s1 + s2);
}

pub proof fn lemma_shrink_pairs(new: Map<usize, [bool; 3]>, old: Map<usize, [bool; 3]>, f: usize, x: int)
    requires
        old.dom().finite(),
        shrinks(new, old),
        old.contains_key(f),
        0 <= x < 3,
        old[f][x],
        !new[f][x],
    ensures
        open_pairs(new).len() < open_pairs(old).len(),
{
    lemma_open_pairs_finite(old);
    assert(open_pairs(new).subset_of(open_pairs(old)));
    assert(open_pairs(old).contains((f, x as u8)));
    assert(!open_pairs(new).contains((f, x as u8)));
    vstd::set_lib::lemma_len_subset(open_pairs(new), open_pairs(old).remove((f, x as u8)));
}

proof fn lemma_shrink_transitive(a: Map<usize, [bool; 3]>, b: Map<usize, [bool; 3]>, c: Map<usize, [bool; 3]>)
    requires
        shrinks(a, b),
        shrinks(b, c),
    ensures
        shrinks(a, c),
{
    assert forall|f: usize, x: int| #[trigger] a.contains_key(f) && 0 <= x < 3 && a[f][x] implies #[trigger] c[f][x] by {
        assert(b[f][x]);
    }
}

proof fn lemma_shrink_pairs_subset(new: Map<usize, [bool; 3]>, old: Map<usize, [bool; 3]>)
    requires
        old.dom().finite(),
        shrinks(new, old),
    ensures
        open_pairs(new).len() <= open_pairs(old).len(),
{
    lemma_open_pairs_finite(old);
    assert(open_pairs(new).subset_of(open_pairs(old)));
    vstd::set_lib::lemma_len_subset(open_pairs(new), open_pairs(old));
}

/// The number of open labels of a domain.
fn domain_size(d: [bool; 3]) -> (n: usize)
    ensures
        n == (if d[0] { 1usize } else { 0usize }) + (if d[1] { 1usize } else { 0usize }) + (if d[2] { 1usize } else { 0usize }),
        n <= 3,
{
    let mut n: usize = 0;
    if d[0] {
        n = n + 1;
    }
    if d[1] {
        n = n + 1;
    }
    if d[2] {
        n = n + 1;
    }
    n
}

/// The labels open in both domains.
fn domain_and(a: [bool; 3], b: [bool; 3]) -> (r: [bool; 3])
    ensures
        forall|x: int| 0 <= x < 3 ==> r[x] == (a[x] && b[x]),
{
    [a[0] && b[0], a[1] && b[1], a[2] && b[2]]
}

/// The domains `a` and `b` open the same labels on the same faces.
pub open spec fn same_domains(a: Map<usize, [bool; 3]>, b: Map<usize, [bool; 3]>) -> bool {
    &&& a.dom() == b.dom()
    &&& forall|f: usize, x: int| #[trigger] a.contains_key(f) && 0 <= x < 3 ==> #[trigger] a[f][x] == b[f][x]
}

/// Every face of `list` opens label `x`.
pub open spec fn open_on_all(d: Map<usize, [bool; 3]>, list: Seq<usize>, x: int) -> bool {
    forall|k: int| 0 <= k < list.len() ==> #[trigger] d[list[k]][x]
}

/// The policy of `anchor` holds of the domains `d` and would prune nothing:
/// an interior anchor's faces all open the same labels, at least one; a fine
/// cap's faces open the fine label alone.
pub open spec fn anchor_stable(p: FaceBandProblem, d: Map<usize, [bool; 3]>, anchor: usize) -> bool {
    let list = p.vertex_incident_faces@[anchor]@;
    match p.anchor_policies@[anchor] {
        AnchorBandPolicy::InteriorOfSingleBand => {
            &&& list.len() > 0
            &&& exists|x: int| 0 <= x < 3 && #[trigger] open_on_all(d, list, x)
            &&& forall|k: int, j: int, x: int| 0 <= k < list.len() && 0 <= j < list.len() && 0 <= x < 3
                && #[trigger] d[list[k]][x] ==> #[trigger] d[list[j]][x]
        },
        AnchorBandPolicy::FineCapConnectedToExterior => forall|k: int, x: int| 0 <= k < list.len() && 0 <= x < 3
            ==> (#[trigger] d[list[k]][x] <==> x == last_label(p)),
        AnchorBandPolicy::OnSingleInterface => true,
    }
}

/// Apply the interior and fine-cap anchor policies once; `false` when a
/// policy cannot be met. Where nothing changed, every policy already held.
fn apply_anchor_policies(problem: &FaceBandProblem, domains: &mut BTreeMap<usize, [bool; 3]>, pruned: &mut usize) -> (r: (bool, bool))
    requires
        problem_wf(*problem),
        problem_error(*problem) is None,
        domains_respect(*problem, old(domains)@),
    ensures
        shrinks(final(domains)@, old(domains)@),
        domains_respect(*problem, final(domains)@),
        r.1 ==> open_pairs(final(domains)@).len() < open_pairs(old(domains)@).len(),
        r.0 && !r.1 ==> same_domains(final(domains)@, old(domains)@)
            && forall|a: usize| #[trigger] problem.anchor_policies@.contains_key(a) ==> anchor_stable(*problem, old(domains)@, a),
        forall|l: Map<usize, u8>| valid_labelling(*problem, l) && consistent(l, old(domains)@)
            ==> r.0 && consistent(l, final(domains)@),
{
    let ghost p = *problem;
    let ghost d0 = domains@;
    let ghost fs = face_set(p);
    proof {
        vstd::seq_lib::seq_to_set_is_finite(p.transition_faces@);
    }
    let mut changed = false;
    let ghost full = spec_btree_map_iter(&problem.anchor_policies).remaining();
    for kv in it: problem.anchor_policies.iter()
        invariant
            p == *problem,
            problem_wf(p),
            problem_error(p) is None,
            fs == face_set(p),
            fs.finite(),
            d0.dom() == fs,
            d0 == old(domains)@,
            shrinks(domains@, d0),
            domains_respect(p, domains@),
            changed ==> open_pairs(domains@).len() < open_pairs(d0).len(),
            !changed ==> same_domains(domains@, d0),
            !changed ==> forall|j: int| 0 <= j < it.index() ==> anchor_stable(p, d0, *(#[trigger] full[j]).0),
            forall|l: Map<usize, u8>| valid_labelling(p, l) && consistent(l, d0) ==> consistent(l, domains@),
            it.seq() == full,
            full == spec_btree_map_iter(&p.anchor_policies).remaining(),
    {
        let anchor = *kv.0;
        let policy = *kv.1;
        let ghost j0 = it.index();
        let ghost ch0 = changed;
        proof {
            assert(*full[j0].0 == anchor && *full[j0].1 == policy);
            assert(p.anchor_policies@.contains_key(anchor) && p.anchor_policies@[anchor] == policy);
        }
        proof {
            assert(p.vertex_incident_faces@.contains_key(anchor));
        }
        let list = match problem.vertex_incident_faces.get(&anchor) {
            Some(list) => list,
            None => {
                return (true, changed);
            },
        };
        let ghost dstart = domains@;
        match policy {
            AnchorBandPolicy::InteriorOfSingleBand => {
                if list.len() == 0 {
                    proof {
                        assert forall|l: Map<usize, u8>| valid_labelling(p, l) && consistent(l, d0) implies false by {
                            assert(p.anchor_policies@.contains_key(anchor));
                            assert(incident_labels(p, l, anchor) =~= Set::empty());
                        }
                    }
                    return (false, changed);
                }
                let mut common: [bool; 3] = [true, true, true];
                let mut i: usize = 0;
                while i < list.len()
                    invariant
                        p == *problem,
                        problem_wf(p),
                        domains@ == dstart,
                        dstart.dom() == face_set(p),
                        d0 == old(domains)@,
                        shrinks(dstart, d0),
                        changed ==> open_pairs(domains@).len() < open_pairs(d0).len(),
                        forall|l: Map<usize, u8>| valid_labelling(p, l) && consistent(l, d0) ==> consistent(l, domains@),
                        p.vertex_incident_faces@.contains_key(anchor),
                        p.vertex_incident_faces@[anchor] == *list,
                        i <= list@.len(),
                        forall|x: int| 0 <= x < 3 ==> (common[x] <==> forall|k: int| 0 <= k < i ==> #[trigger] dstart[list@[k]][x]),
                    decreases list@.len() - i,
                {
                    proof {
                        assert(face_set(p).contains(p.vertex_incident_faces@[anchor]@[i as int]));
                    }
                    let d = match domains.get(&list[i]) {
                        Some(d) => *d,
                        None => [false, false, false],
                    };
                    let ghost c0 = common;
                    common = domain_and(common, d);
                    proof {
                        assert forall|x: int| 0 <= x < 3 implies (common[x] <==> forall|k: int| 0 <= k < i + 1 ==> #[trigger] dstart[list@[k]][x]) by {
                            if common[x] {
                                assert forall|k: int| 0 <= k < i + 1 implies #[trigger] dstart[list@[k]][x] by {
                                    if k < i {
                                        assert(c0[x]);
                                    }
                                }
                            }
                            if forall|k: int| 0 <= k < i + 1 ==> #[trigger] dstart[list@[k]][x] {
                                assert(dstart[list@[i as int]][x]);
                                assert(c0[x]);
                            }
                        }
                    }
                    i = i + 1;
                }
                if !common[0] && !common[1] && !common[2] {
                    proof {
                        assert forall|l: Map<usize, u8>| valid_labelling(p, l) && consistent(l, d0) implies false by {
                            assert(consistent(l, dstart));
                            assert(p.anchor_policies@.contains_key(anchor));
                            assert(incident_labels(p, l, anchor).len() == 1);
                            let x = l[list@[0]];
                            assert(face_set(p).contains(list@[0]));
                            assert(incident_labels(p, l, anchor).contains(x));
                            assert(forall|k: int| 0 <= k < list@.len() ==> #[trigger] dstart[list@[k]][x as int]) by {
                                assert forall|k: int| 0 <= k < list@.len() implies #[trigger] dstart[list@[k]][x as int] by {
                                    assert(face_set(p).contains(list@[k]));
                                    let y = l[list@[k]];
                                    assert(incident_labels(p, l, anchor).contains(y));
                                    lemma_incident_labels_finite(p, l, anchor);
                                    lemma_singleton_set(incident_labels(p, l, anchor), x, y);
                                }
                            }
                            assert(common[x as int]);
                        }
                    }
                    return (false, changed);
                }
                let mut i: usize = 0;
                while i < list.len()
                    invariant
                        p == *problem,
                        problem_wf(p),
                        problem_error(p) is None,
                        fs == face_set(p),
                        fs.finite(),
                        d0.dom() == fs,
                        d0 == old(domains)@,
                        dstart.dom() == fs,
                        p.vertex_incident_faces@.contains_key(anchor),
                        p.vertex_incident_faces@[anchor] == *list,
                        i <= list@.len(),
                        forall|x: int| 0 <= x < 3 ==> (common[x] <==> forall|k: int| 0 <= k < list@.len() ==> #[trigger] dstart[list@[k]][x]),
                        shrinks(domains@, dstart),
                        shrinks(dstart, d0),
                        domains_respect(p, domains@),
                        forall|f: usize| #[trigger] domains@.contains_key(f) && domains@[f] != dstart[f] ==>
                            (exists|k: int| 0 <= k < i && list@[k] == f) && (forall|x: int| 0 <= x < 3 ==> domains@[f][x] == (dstart[f][x] && common[x])),
                        forall|k: int, x: int| 0 <= k < i && 0 <= x < 3 ==> #[trigger] domains@[list@[k]][x] == (dstart[list@[k]][x] && common[x]),
                        changed ==> open_pairs(domains@).len() < open_pairs(d0).len(),
                        ch0 ==> changed,
                        !changed ==> same_domains(domains@, dstart) && same_domains(dstart, d0),
                        exists|x: int| 0 <= x < 3 && common[x],
                    decreases list@.len() - i,
                {
                    let face = list[i];
                    proof {
                        assert(face_set(p).contains(p.vertex_incident_faces@[anchor]@[i as int]));
                    }
                    let d = match domains.get(&face) {
                        Some(d) => *d,
                        None => [false, false, false],
                    };
                    let nd = domain_and(d, common);
                    let before = domain_size(d);
                    let after = domain_size(nd);
                    let ghost dprev = domains@;
                    domains.insert(face, nd);
                    proof {
                        assert(dprev[face] == d);
                        assert(shrinks(domains@, dprev)) by {
                            assert(domains@.dom() =~= dprev.dom());
                        }
                        lemma_shrink_transitive(domains@, dprev, dstart);
                        lemma_shrink_transitive(domains@, dstart, d0);
                        lemma_shrink_transitive(dprev, dstart, d0);
                        lemma_shrink_pairs_subset(domains@, dprev);
                        lemma_shrink_pairs_subset(dprev, d0);
                        if after != before {
                            let x: int = if d[0] && !nd[0] { 0 } else if d[1] && !nd[1] { 1 } else { 2 };
                            lemma_shrink_pairs(domains@, dprev, face, x);
                        }
                        assert forall|f: usize| #[trigger] domains@.contains_key(f) && domains@[f] != dstart[f] implies
                            (exists|k: int| 0 <= k < i + 1 && list@[k] == f) && (forall|x: int| 0 <= x < 3 ==> domains@[f][x] == (dstart[f][x] && common[x])) by {
                            if f == face {
                                assert(list@[i as int] == f);
                                if dprev[face] != dstart[face] {
                                    let k = choose|k: int| 0 <= k < i && list@[k] == face;
                                    assert(forall|x: int| 0 <= x < 3 ==> dprev[face][x] == (dstart[face][x] && common[x]));
                                }
                            } else {
                                assert(dprev[f] != dstart[f]);
                                let k = choose|k: int| 0 <= k < i && list@[k] == f;
                                assert(0 <= k < i + 1);
                            }
                        }
                        assert forall|k: int, x: int| 0 <= k < i + 1 && 0 <= x < 3 implies #[trigger] domains@[list@[k]][x] == (dstart[list@[k]][x] && common[x]) by {
                            if k < i && list@[k] != face {
                                assert(domains@[list@[k]] == dprev[list@[k]]);
                            } else if list@[k] == face {
                                if dprev[face] != dstart[face] {
                                    let k2 = choose|k2: int| 0 <= k2 < i && list@[k2] == face;
                                    assert(forall|x: int| 0 <= x < 3 ==> dprev[face][x] == (dstart[face][x] && common[x]));
                                }
                            }
                        }
                        assert(domains_respect(p, domains@)) by {
                            assert(domains@.dom() =~= dstart.dom());
                            assert forall|f: usize| #[trigger] domains@.contains_key(f) implies (p.band_count == 2 ==> !domains@[f][2]) by {
                                if p.band_count == 2 && domains@[f][2] { assert(dprev[f][2]); }
                            }
                            assert forall|f: usize| #[trigger] p.coarse_boundary_faces@.contains(f) implies !domains@[f][1] && !domains@[f][2] by {
                                assert(face_set(p).contains(f));
                                if domains@[f][1] { assert(dprev[f][1]); }
                                if domains@[f][2] { assert(dprev[f][2]); }
                            }
                            assert forall|f: usize| #[trigger] p.fine_boundary_faces@.contains(f) implies !domains@[f][0] && (p.band_count == 3 ==> !domains@[f][1]) by {
                                assert(face_set(p).contains(f));
                                if domains@[f][0] { assert(dprev[f][0]); }
                                if domains@[f][1] { assert(dprev[f][1]); }
                            }
                        }
                    }
                    proof {
                        if after == before {
                            assert forall|x: int| 0 <= x < 3 implies nd[x] == d[x] by {}
                            assert(same_domains(domains@, dprev));
                        }
                    }
                    if after != before {
                        changed = true;
                    }
                    *pruned = pruned.saturating_add(before - after);
                    i = i + 1;
                }
                proof {
                    if !changed {
                        assert forall|k: int, j: int, x: int| 0 <= k < list@.len() && 0 <= j < list@.len() && 0 <= x < 3
                            && #[trigger] d0[list@[k]][x] implies #[trigger] d0[list@[j]][x] by {
                            assert(face_set(p).contains(list@[k]));
                            assert(face_set(p).contains(list@[j]));
                            assert(dstart[list@[k]][x]);
                            assert(domains@[list@[k]][x]);
                            assert(common[x]);
                            assert(dstart[list@[j]][x]);
                        }
                        let x0 = choose|x: int| 0 <= x < 3 && common[x];
                        assert forall|k: int| 0 <= k < list@.len() implies #[trigger] d0[list@[k]][x0] by {
                            assert(face_set(p).contains(list@[k]));
                            assert(dstart[list@[k]][x0]);
                        }
                        assert(open_on_all(d0, list@, x0));
                        assert(anchor_stable(p, d0, anchor));
                    }
                    assert forall|l: Map<usize, u8>| valid_labelling(p, l) && consistent(l, d0) implies consistent(l, domains@) by {
                        assert(consistent(l, dstart));
                        assert forall|f: usize| #[trigger] domains@.contains_key(f) implies l.contains_key(f) && l[f] < 3 && domains@[f][l[f] as int] by {
                            assert(dstart.contains_key(f));
                            if domains@[f] != dstart[f] {
                                let k = choose|k: int| 0 <= k < list@.len() && list@[k] == f;
                                let x = l[f];
                                assert(p.anchor_policies@.contains_key(anchor));
                                assert(incident_labels(p, l, anchor).contains(x)) by {
                                    assert(l[p.vertex_incident_faces@[anchor]@[k]] == x);
                                }
                                assert forall|k2: int| 0 <= k2 < list@.len() implies #[trigger] dstart[list@[k2]][x as int] by {
                                    assert(face_set(p).contains(list@[k2]));
                                    let y = l[list@[k2]];
                                    assert(incident_labels(p, l, anchor).contains(y));
                                    lemma_incident_labels_finite(p, l, anchor);
                                    lemma_singleton_set(incident_labels(p, l, anchor), x, y);
                                }
                                assert(common[x as int]);
                            }
                        }
                    }
                }
            },
            AnchorBandPolicy::FineCapConnectedToExterior => {
                let fine: usize = problem.band_count - 1;
                let mut i: usize = 0;
                while i < list.len()
                    invariant
                        p == *problem,
                        problem_wf(p),
                        problem_error(p) is None,
                        fine == p.band_count - 1,
                        fs == face_set(p),
                        fs.finite(),
                        d0.dom() == fs,
                        d0 == old(domains)@,
                        dstart.dom() == fs,
                        p.anchor_policies@.contains_key(anchor),
                        p.anchor_policies@[anchor] == AnchorBandPolicy::FineCapConnectedToExterior,
                        p.vertex_incident_faces@.contains_key(anchor),
                        p.vertex_incident_faces@[anchor] == *list,
                        i <= list@.len(),
                        shrinks(domains@, dstart),
                        shrinks(dstart, d0),
                        domains_respect(p, domains@),
                        forall|l: Map<usize, u8>| valid_labelling(p, l) && consistent(l, d0) ==> consistent(l, domains@),
                        changed ==> open_pairs(domains@).len() < open_pairs(d0).len(),
                        ch0 ==> changed,
                        !changed ==> same_domains(domains@, dstart) && same_domains(dstart, d0),
                        !changed ==> forall|k: int, x: int| 0 <= k < i && 0 <= x < 3 ==> (#[trigger] d0[list@[k]][x] <==> x == fine),
                    decreases list@.len() - i,
                {
                    let face = list[i];
                    proof {
                        assert(face_set(p).contains(p.vertex_incident_faces@[anchor]@[i as int]));
                    }
                    let d = match domains.get(&face) {
                        Some(d) => *d,
                        None => [false, false, false],
                    };
                    if !d[fine] {
                        proof {
                            assert forall|l: Map<usize, u8>| valid_labelling(p, l) && consistent(l, d0) implies false by {
                                assert(consistent(l, domains@));
                                assert(incident_labels(p, l, anchor) == set![last_label(p) as u8]);
                                assert(incident_labels(p, l, anchor).contains(l[list@[i as int]]));
                                assert(domains@.contains_key(face));
                            }
                            lemma_shrink_transitive(domains@, dstart, d0);
                        }
                        return (false, changed);
                    }
                    let nd: [bool; 3] = if fine == 1 { [false, true, false] } else { [false, false, true] };
                    let before = domain_size(d);
                    let after = domain_size(nd);
                    let ghost dprev = domains@;
                    domains.insert(face, nd);
                    proof {
                        assert(dprev[face] == d);
                        assert(shrinks(domains@, dprev)) by {
                            assert(domains@.dom() =~= dprev.dom());
                        }
                        lemma_shrink_transitive(domains@, dprev, dstart);
                        lemma_shrink_transitive(dprev, dstart, d0);
                        lemma_shrink_pairs_subset(domains@, dprev);
                        lemma_shrink_pairs_subset(dprev, d0);
                        if after != before {
                            let x: int = if d[0] && !nd[0] { 0 } else if d[1] && !nd[1] { 1 } else { 2 };
                            lemma_shrink_pairs(domains@, dprev, face, x);
                        }
                        assert forall|l: Map<usize, u8>| valid_labelling(p, l) && consistent(l, d0) implies consistent(l, domains@) by {
                            assert(consistent(l, dprev));
                            assert(incident_labels(p, l, anchor) == set![last_label(p) as u8]);
                            assert(incident_labels(p, l, anchor).contains(l[list@[i as int]]));
                        }
                        assert(domains_respect(p, domains@)) by {
                            assert(domains@.dom() =~= dprev.dom());
                            assert forall|f: usize| #[trigger] domains@.contains_key(f) implies (p.band_count == 2 ==> !domains@[f][2]) by {
                                if p.band_count == 2 && domains@[f][2] { assert(dprev[f][2]); }
                            }
                            assert forall|f: usize| #[trigger] p.coarse_boundary_faces@.contains(f) implies !domains@[f][1] && !domains@[f][2] by {
                                assert(face_set(p).contains(f));
                                if domains@[f][1] { assert(dprev[f][1]); }
                                if domains@[f][2] { assert(dprev[f][2]); }
                            }
                            assert forall|f: usize| #[trigger] p.fine_boundary_faces@.contains(f) implies !domains@[f][0] && (p.band_count == 3 ==> !domains@[f][1]) by {
                                assert(face_set(p).contains(f));
                                if domains@[f][0] { assert(dprev[f][0]); }
                                if domains@[f][1] { assert(dprev[f][1]); }
                            }
                        }
                    }
                    proof {
                        if after == before && !changed {
                            assert forall|x: int| 0 <= x < 3 implies nd[x] == d[x] by {}
                            assert(same_domains(domains@, dprev));
                            assert forall|k: int, x: int| 0 <= k < i + 1 && 0 <= x < 3 implies (#[trigger] d0[list@[k]][x] <==> x == fine) by {
                                assert(face_set(p).contains(list@[k]));
                                if k == i {
                                    assert(d0[face][x] == d[x]);
                                }
                            }
                        }
                    }
                    if after != before {
                        changed = true;
                    }
                    *pruned = pruned.saturating_add(before - after);
                    i = i + 1;
                }
                proof {
                    if !changed {
                        assert(anchor_stable(p, d0, anchor));
                    }
                }
            },
            AnchorBandPolicy::OnSingleInterface => {},
        }
        proof {
            lemma_shrink_transitive(domains@, dstart, d0);
            if !changed {
                assert(anchor_stable(p, d0, anchor));
                assert(!ch0);
                assert forall|j: int| 0 <= j < j0 + 1 implies anchor_stable(p, d0, *(#[trigger] full[j]).0) by {
                    if j == j0 {
                        assert(*full[j].0 == anchor);
                    }
                }
            }
        }
    }
    proof {
        if !changed {
            assert forall|a: usize| #[trigger] p.anchor_policies@.contains_key(a) implies anchor_stable(p, d0, a) by {
                assert(full.contains((&a, &p.anchor_policies@[a])));
                let j = choose|j: int| 0 <= j < full.len() && full[j] == (&a, &p.anchor_policies@[a]);
            }
        }
    }
    (true, changed)
}

proof fn lemma_singleton_set(s: Set<u8>, x: u8, y: u8)
    requires
        s.finite(),
        s.len() == 1,
        s.contains(x),
        s.contains(y),
    ensures
        x == y,
{
    if x != y {
        assert(s.remove(x).contains(y));
        assert(s.remove(x).len() == 0);
    }
}

/// Some label open at face `n` is within one of `x`.
pub open spec fn supported(domains: Map<usize, [bool; 3]>, n: usize, x: int) -> bool {
    exists|y: int| 0 <= y < 3 && domains[n][y] && near(x as u8, y as u8)
}

/// Whether every listed face keeps a label within one of `x`.
fn all_supported(v: &Vec<usize>, snapshot: &BTreeMap<usize, [bool; 3]>, x: usize) -> (r: bool)
    requires
        x < 3,
        forall|i: int| 0 <= i < v@.len() ==> snapshot@.contains_key(#[trigger] v@[i]),
    ensures
        r == forall|i: int| 0 <= i < v@.len() ==> supported(snapshot@, #[trigger] v@[i], x as int),
{
    let mut i: usize = 0;
    while i < v.len()
        invariant
            x < 3,
            forall|k: int| 0 <= k < v@.len() ==> snapshot@.contains_key(#[trigger] v@[k]),
            i <= v@.len(),
            forall|k: int| 0 <= k < i ==> supported(snapshot@, #[trigger] v@[k], x as int),
        decreases v@.len() - i,
    {
        let d = match snapshot.get(&v[i]) {
            Some(d) => *d,
            None => [false, false, false],
        };
        let ok = (d[0] && x <= 1) || d[1] || (d[2] && x >= 1);
        if !ok {
            proof {
                assert(snapshot@[v@[i as int]] == d);
                assert(!supported(snapshot@, v@[i as int], x as int)) by {
                    if supported(snapshot@, v@[i as int], x as int) {
                        let y = choose|y: int| 0 <= y < 3 && snapshot@[v@[i as int]][y] && near(x as u8, y as u8);
                        assert(d[y]);
                    }
                }
            }
            return false;
        }
        proof {
            assert(snapshot@[v@[i as int]] == d);
            if d[1] {
                assert(near(x as u8, 1u8));
            } else if d[0] && x <= 1 {
                assert(near(x as u8, 0u8));
            } else {
                assert(near(x as u8, 2u8));
            }
        }
        i = i + 1;
    }
    true
}

/// Label `x` of face `f` stays under local pruning against the domains `d`: it
/// is open, and every neighbour and every vertex neighbour keeps a label within
/// one of it.
pub open spec fn label_kept(p: FaceBandProblem, d: Map<usize, [bool; 3]>, f: usize, x: int) -> bool {
    &&& d[f][x]
    &&& p.face_adjacency@.contains_key(f) ==> forall|j: int| 0 <= j < p.face_adjacency@[f]@.len() ==> supported(d, #[trigger] p.face_adjacency@[f]@[j], x)
    &&& p.face_vertex_neighbours@.contains_key(f) ==> forall|j: int| 0 <= j < p.face_vertex_neighbours@[f]@.len() ==> supported(d, #[trigger] p.face_vertex_neighbours@[f]@[j], x)
}

/// Some label of face `f` stays under local pruning.
pub open spec fn face_kept(p: FaceBandProblem, d: Map<usize, [bool; 3]>, f: usize) -> bool {
    label_kept(p, d, f, 0) || label_kept(p, d, f, 1) || label_kept(p, d, f, 2)
}

/// `n`, or `usize::MAX` where `n` is larger.
pub open spec fn saturated(n: int) -> int {
    if n > usize::MAX { usize::MAX as int } else { n }
}

/// Removing labels from one face's domain removes exactly that many open pairs.
proof fn lemma_replace_pairs(prev: Map<usize, [bool; 3]>, f: usize, a: [bool; 3])
    requires
        prev.dom().finite(),
        prev.contains_key(f),
        forall|x: int| 0 <= x < 3 && a[x] ==> prev[f][x],
    ensures
        open_pairs(prev).len() == open_pairs(prev.insert(f, a)).len() + domain_size_spec(prev[f]) - domain_size_spec(a),
{
    let new = prev.insert(f, a);
    assert(new.dom() =~= prev.dom());
    lemma_open_pairs_finite(new);
    let d = prev[f];
    let dropped = Set::new(|q: (usize, u8)| q.0 == f && q.1 < 3 && d[q.1 as int] && !a[q.1 as int]);
    let e0 = if d[0] && !a[0] { Set::<(usize, u8)>::empty().insert((f, 0u8)) } else { Set::<(usize, u8)>::empty() };
    let e1 = if d[1] && !a[1] { e0.insert((f, 1u8)) } else { e0 };
    let e2 = if d[2] && !a[2] { e1.insert((f, 2u8)) } else { e1 };
    assert(!e0.contains((f, 1u8)));
    assert(!e1.contains((f, 2u8)));
    assert(dropped =~= e2) by {
        assert forall|q: (usize, u8)| dropped.contains(q) implies e2.contains(q) by {
            if q.1 == 0 {
                assert(q == (f, 0u8));
            } else if q.1 == 1 {
                assert(q == (f, 1u8));
            } else {
                assert(q == (f, 2u8));
            }
        }
    }
    assert(e2.len() == domain_size_spec(d) - domain_size_spec(a));
    assert(open_pairs(prev) =~= open_pairs(new) + dropped);
    assert(open_pairs(new).disjoint(dropped));
    vstd::set_lib::lemma_set_disjoint_lens(open_pairs(new), dropped);
}

/// Drop labels that some neighbour or vertex neighbour cannot follow, judged
/// against the domains as they stood on entry; `None` when a domain empties.
/// The count is the number of labels dropped.
fn prune_local_label_constraints(problem: &FaceBandProblem, domains: &mut BTreeMap<usize, [bool; 3]>) -> (r: Option<usize>)
    requires
        problem_wf(*problem),
        problem_error(*problem) is None,
        problem.band_count == 3,
        domains_respect(*problem, old(domains)@),
    ensures
        shrinks(final(domains)@, old(domains)@),
        domains_respect(*problem, final(domains)@),
        r is None <==> exists|f: usize| face_set(*problem).contains(f) && !face_kept(*problem, old(domains)@, f),
        r is Some ==> forall|f: usize, x: int| final(domains)@.contains_key(f) && 0 <= x < 3
            ==> (#[trigger] final(domains)@[f][x] <==> label_kept(*problem, old(domains)@, f, x)),
        r matches Some(n) ==> n == saturated(open_pairs(old(domains)@).len() - open_pairs(final(domains)@).len()),
        r matches Some(n) ==> (n > 0 ==> open_pairs(final(domains)@).len() < open_pairs(old(domains)@).len()),
        forall|l: Map<usize, u8>| problem_coherent(*problem) && valid_labelling(*problem, l) && consistent(l, old(domains)@)
            ==> r is Some && consistent(l, final(domains)@),
{
    let ghost p = *problem;
    let ghost d0 = domains@;
    let ghost fs = face_set(p);
    proof {
        vstd::seq_lib::seq_to_set_is_finite(p.transition_faces@);
    }
    let snapshot = domains.clone();
    let mut pruned: usize = 0;
    let mut i: usize = 0;
    while i < problem.transition_faces.len()
        invariant
            p == *problem,
            problem_wf(p),
            problem_error(p) is None,
            p.band_count == 3,
            fs == face_set(p),
            fs.finite(),
            d0 == old(domains)@,
            snapshot@ == d0,
            d0.dom() == fs,
            i <= p.transition_faces@.len(),
            shrinks(domains@, d0),
            domains_respect(p, domains@),
            forall|f: usize| #[trigger] domains@.contains_key(f) && domains@[f] != d0[f] ==> exists|k: int| 0 <= k < i && p.transition_faces@[k] == f,
            forall|k: int| 0 <= k < p.transition_faces@.len() && i <= k ==> #[trigger] domains@[p.transition_faces@[k]] == d0[p.transition_faces@[k]],
            forall|k: int, x: int| 0 <= k < i && 0 <= x < 3 && #[trigger] domains@[p.transition_faces@[k]][x] ==> {
                let f = p.transition_faces@[k];
                &&& (p.face_adjacency@.contains_key(f) ==> forall|j: int| 0 <= j < p.face_adjacency@[f]@.len() ==> supported(d0, #[trigger] p.face_adjacency@[f]@[j], x))
                &&& (p.face_vertex_neighbours@.contains_key(f) ==> forall|j: int| 0 <= j < p.face_vertex_neighbours@[f]@.len() ==> supported(d0, #[trigger] p.face_vertex_neighbours@[f]@[j], x))
            },
            forall|k: int, x: int| 0 <= k < i && 0 <= x < 3 && d0[p.transition_faces@[k]][x]
                && (p.face_adjacency@.contains_key(p.transition_faces@[k]) ==> forall|j: int| 0 <= j < p.face_adjacency@[p.transition_faces@[k]]@.len() ==> supported(d0, #[trigger] p.face_adjacency@[p.transition_faces@[k]]@[j], x))
                && (p.face_vertex_neighbours@.contains_key(p.transition_faces@[k]) ==> forall|j: int| 0 <= j < p.face_vertex_neighbours@[p.transition_faces@[k]]@.len() ==> supported(d0, #[trigger] p.face_vertex_neighbours@[p.transition_faces@[k]]@[j], x))
                ==> #[trigger] domains@[p.transition_faces@[k]][x],
            pruned > 0 ==> open_pairs(domains@).len() < open_pairs(d0).len(),
            pruned == saturated(open_pairs(d0).len() - open_pairs(domains@).len()),
            forall|k: int| 0 <= k < i ==> face_kept(p, d0, #[trigger] p.transition_faces@[k]),
        decreases p.transition_faces@.len() - i,
    {
        let face = problem.transition_faces[i];
        proof {
            assert(fs.contains(face));
        }
        let s = match snapshot.get(&face) {
            Some(d) => *d,
            None => [false, false, false],
        };
        let adjacency = problem.face_adjacency.get(&face);
        let vertex_neighbours = problem.face_vertex_neighbours.get(&face);
        proof {
            if p.face_adjacency@.contains_key(face) {
                assert forall|j: int| 0 <= j < p.face_adjacency@[face]@.len() implies snapshot@.contains_key(#[trigger] p.face_adjacency@[face]@[j]) by {
                    assert(fs.contains(p.face_adjacency@[face]@[j]));
                }
            }
            if p.face_vertex_neighbours@.contains_key(face) {
                assert forall|j: int| 0 <= j < p.face_vertex_neighbours@[face]@.len() implies snapshot@.contains_key(#[trigger] p.face_vertex_neighbours@[face]@[j]) by {
                    assert(fs.contains(p.face_vertex_neighbours@[face]@[j]));
                }
            }
        }
        let mut allowed: [bool; 3] = [false, false, false];
        let mut x: usize = 0;
        while x < 3
            invariant
                p == *problem,
                x <= 3,
                snapshot@ == d0,
                d0.contains_key(face),
                s == d0[face],
                forall|y: int| x <= y < 3 ==> !allowed[y],
                forall|y: int| 0 <= y < x ==> (allowed[y] <==> (s[y]
                    && (p.face_adjacency@.contains_key(face) ==> forall|j: int| 0 <= j < p.face_adjacency@[face]@.len() ==> supported(d0, #[trigger] p.face_adjacency@[face]@[j], y))
                    && (p.face_vertex_neighbours@.contains_key(face) ==> forall|j: int| 0 <= j < p.face_vertex_neighbours@[face]@.len() ==> supported(d0, #[trigger] p.face_vertex_neighbours@[face]@[j], y)))),
                match adjacency {
                    Some(v) => p.face_adjacency@.contains_key(face) && p.face_adjacency@[face] == *v,
                    None => !p.face_adjacency@.contains_key(face),
                },
                match vertex_neighbours {
                    Some(v) => p.face_vertex_neighbours@.contains_key(face) && p.face_vertex_neighbours@[face] == *v,
                    None => !p.face_vertex_neighbours@.contains_key(face),
                },
                adjacency matches Some(v) ==> forall|j: int| 0 <= j < v@.len() ==> snapshot@.contains_key(#[trigger] v@[j]),
                vertex_neighbours matches Some(v) ==> forall|j: int| 0 <= j < v@.len() ==> snapshot@.contains_key(#[trigger] v@[j]),
            decreases 3 - x,
        {
            let adjacency_ok = match adjacency {
                Some(v) => all_supported(v, &snapshot, x),
                None => true,
            };
            let neighbours_ok = match vertex_neighbours {
                Some(v) => all_supported(v, &snapshot, x),
                None => true,
            };
            if s[x] && adjacency_ok && neighbours_ok {
                allowed.set(x, true);
            }
            x = x + 1;
        }
        if !allowed[0] && !allowed[1] && !allowed[2] {
            proof {
                assert(fs.contains(face) && !face_kept(p, d0, face));
                assert forall|l: Map<usize, u8>| problem_coherent(p) && valid_labelling(p, l) && consistent(l, d0) implies false by {
                    let y = l[face];
                    assert(d0.contains_key(face));
                    assert(s[y as int]);
                    lemma_label_supported(p, l, d0, face);
                    assert(allowed[y as int]);
                }
                lemma_shrink_transitive(domains@, d0, d0);
            }
            return None;
        }
        let current = match domains.get(&face) {
            Some(d) => *d,
            None => [false, false, false],
        };
        proof {
            assert(p.transition_faces@[i as int] == face);
            assert(current == d0[face]);
        }
        let before = domain_size(current);
        let after = domain_size(allowed);
        let ghost dprev = domains@;
        domains.insert(face, allowed);
        proof {
            assert(face_kept(p, d0, face));
            assert(dprev.dom().finite());
            lemma_replace_pairs(dprev, face, allowed);
            assert(shrinks(domains@, dprev)) by {
                assert(domains@.dom() =~= dprev.dom());
            }
            lemma_shrink_transitive(domains@, dprev, d0);
            lemma_shrink_pairs_subset(domains@, dprev);
            lemma_shrink_pairs_subset(dprev, d0);
            if after != before {
                let y: int = if current[0] && !allowed[0] { 0 } else if current[1] && !allowed[1] { 1 } else { 2 };
                lemma_shrink_pairs(domains@, dprev, face, y);
            }
            assert(domains_respect(p, domains@)) by {
                assert(domains@.dom() =~= dprev.dom());
                assert forall|f: usize| #[trigger] p.coarse_boundary_faces@.contains(f) implies !domains@[f][1] && !domains@[f][2] by {
                    assert(face_set(p).contains(f));
                    if domains@[f][1] { assert(dprev[f][1]); }
                    if domains@[f][2] { assert(dprev[f][2]); }
                }
                assert forall|f: usize| #[trigger] p.fine_boundary_faces@.contains(f) implies !domains@[f][0] && (p.band_count == 3 ==> !domains@[f][1]) by {
                    assert(face_set(p).contains(f));
                    if domains@[f][0] { assert(dprev[f][0]); }
                    if domains@[f][1] { assert(dprev[f][1]); }
                }
            }
            assert forall|f: usize| #[trigger] domains@.contains_key(f) && domains@[f] != d0[f] implies exists|k: int| 0 <= k < i + 1 && p.transition_faces@[k] == f by {
                if f != face {
                    assert(dprev[f] != d0[f]);
                    let k = choose|k: int| 0 <= k < i && p.transition_faces@[k] == f;
                    assert(0 <= k < i + 1);
                }
            }
            assert forall|k: int| 0 <= k < p.transition_faces@.len() && i + 1 <= k implies #[trigger] domains@[p.transition_faces@[k]] == d0[p.transition_faces@[k]] by {
                assert(p.transition_faces@[k] != face) by {
                    assert(p.transition_faces@.no_duplicates());
                }
            }
            assert forall|k: int, y: int| 0 <= k < i + 1 && 0 <= y < 3 && #[trigger] domains@[p.transition_faces@[k]][y] implies {
                let f = p.transition_faces@[k];
                &&& (p.face_adjacency@.contains_key(f) ==> forall|j: int| 0 <= j < p.face_adjacency@[f]@.len() ==> supported(d0, #[trigger] p.face_adjacency@[f]@[j], y))
                &&& (p.face_vertex_neighbours@.contains_key(f) ==> forall|j: int| 0 <= j < p.face_vertex_neighbours@[f]@.len() ==> supported(d0, #[trigger] p.face_vertex_neighbours@[f]@[j], y))
            } by {
                if k < i {
                    assert(p.transition_faces@[k] != face) by {
                        assert(p.transition_faces@.no_duplicates());
                    }
                    assert(dprev[p.transition_faces@[k]][y]);
                }
            }
            assert forall|k: int, y: int| 0 <= k < i + 1 && 0 <= y < 3 && d0[p.transition_faces@[k]][y]
                && (p.face_adjacency@.contains_key(p.transition_faces@[k]) ==> forall|j: int| 0 <= j < p.face_adjacency@[p.transition_faces@[k]]@.len() ==> supported(d0, #[trigger] p.face_adjacency@[p.transition_faces@[k]]@[j], y))
                && (p.face_vertex_neighbours@.contains_key(p.transition_faces@[k]) ==> forall|j: int| 0 <= j < p.face_vertex_neighbours@[p.transition_faces@[k]]@.len() ==> supported(d0, #[trigger] p.face_vertex_neighbours@[p.transition_faces@[k]]@[j], y))
                implies #[trigger] domains@[p.transition_faces@[k]][y] by {
                if k < i {
                    assert(p.transition_faces@[k] != face) by {
                        assert(p.transition_faces@.no_duplicates());
                    }
                }
            }
        }
        if after != before {
            pruned = pruned.saturating_add(before - after);
        }
        proof {
            assert forall|k: int| 0 <= k < i + 1 implies face_kept(p, d0, #[trigger] p.transition_faces@[k]) by {
                if k == i {
                    assert(p.transition_faces@[k] == face);
                }
            }
        }
        i = i + 1;
    }
    proof {
        assert forall|f: usize| face_set(p).contains(f) implies face_kept(p, d0, f) by {
            let k = choose|k: int| 0 <= k < p.transition_faces@.len() && p.transition_faces@[k] == f;
        }
        assert forall|f: usize, x: int| domains@.contains_key(f) && 0 <= x < 3
            implies (#[trigger] domains@[f][x] <==> label_kept(p, d0, f, x)) by {
            assert(fs.contains(f));
            let k = choose|k: int| 0 <= k < p.transition_faces@.len() && p.transition_faces@[k] == f;
            if domains@[f][x] {
                assert(d0[f][x]);
            }
        }
        assert forall|l: Map<usize, u8>| problem_coherent(p) && valid_labelling(p, l) && consistent(l, d0) implies consistent(l, domains@) by {
            assert forall|f: usize| #[trigger] domains@.contains_key(f) implies l.contains_key(f) && l[f] < 3 && domains@[f][l[f] as int] by {
                assert(d0.contains_key(f));
                if domains@[f] != d0[f] {
                    let k = choose|k: int| 0 <= k < p.transition_faces@.len() && p.transition_faces@[k] == f;
                    lemma_label_supported(p, l, d0, f);
                }
            }
        }
    }
    Some(pruned)
}

/// Under a coherent problem, the label of a face in a valid consistent
/// labelling is supported by every neighbour and vertex neighbour.
proof fn lemma_label_supported(p: FaceBandProblem, l: Map<usize, u8>, d: Map<usize, [bool; 3]>, face: usize)
    requires
        problem_wf(p),
        problem_coherent(p),
        valid_labelling(p, l),
        consistent(l, d),
        d.dom() == face_set(p),
        face_set(p).contains(face),
    ensures
        p.face_adjacency@.contains_key(face) ==> forall|j: int| 0 <= j < p.face_adjacency@[face]@.len() ==> supported(d, #[trigger] p.face_adjacency@[face]@[j], l[face] as int),
        p.face_vertex_neighbours@.contains_key(face) ==> forall|j: int| 0 <= j < p.face_vertex_neighbours@[face]@.len() ==> supported(d, #[trigger] p.face_vertex_neighbours@[face]@[j], l[face] as int),
{
    let x = l[face];
    if p.face_adjacency@.contains_key(face) {
        assert forall|j: int| 0 <= j < p.face_adjacency@[face]@.len() implies supported(d, #[trigger] p.face_adjacency@[face]@[j], x as int) by {
            let n = p.face_adjacency@[face]@[j];
            assert(face_set(p).contains(n));
            assert(near(l[face], l[n]));
            assert(d.contains_key(n));
            assert(d[n][l[n] as int]);
            assert(l[n] < 3);
        }
    }
    if p.face_vertex_neighbours@.contains_key(face) {
        assert forall|j: int| 0 <= j < p.face_vertex_neighbours@[face]@.len() implies supported(d, #[trigger] p.face_vertex_neighbours@[face]@[j], x as int) by {
            let g = p.face_vertex_neighbours@[face]@[j];
            assert(face_set(p).contains(g));
            let v = choose|v: usize| incident_vertex(p, face, v) && incident_vertex(p, g, v);
            let list = p.vertex_incident_faces@[v]@;
            let a = choose|a: int| 0 <= a < list.len() && list[a] == face;
            let b = choose|b: int| 0 <= b < list.len() && list[b] == g;
            assert(p.vertex_incident_faces@.contains_key(v));
            assert(near(l[list[a]], l[list[b]]));
            assert(d.contains_key(g));
            assert(d[g][l[g] as int]);
            assert(l[g] < 3);
        }
    }
}

proof fn lemma_reach_mono(p: FaceBandProblem, a: Set<usize>, b: Set<usize>, s: usize)
    requires
        a.subset_of(b),
    ensures
        reach(p, a, s).subset_of(reach(p, b, s)),
{
    assert forall|u: usize| reach(p, a, s).contains(u) implies reach(p, b, s).contains(u) by {
        assert forall|t: Set<usize>| step_closed(p, b, t) && t.contains(s) implies #[trigger] t.contains(u) by {
            assert(step_closed(p, a, t));
        }
    }
}

proof fn lemma_reach_trans(p: FaceBandProblem, a: Set<usize>, s: usize, u: usize)
    requires
        reach(p, a, s).contains(u),
    ensures
        reach(p, a, u).subset_of(reach(p, a, s)),
{
    assert forall|w: usize| reach(p, a, u).contains(w) implies reach(p, a, s).contains(w) by {
        assert forall|t: Set<usize>| step_closed(p, a, t) && t.contains(s) implies #[trigger] t.contains(w) by {
            assert(t.contains(u));
        }
    }
}

proof fn lemma_reach_sym(p: FaceBandProblem, a: Set<usize>, s: usize, t: usize)
    requires
        forall|x: usize, y: usize| #[trigger] face_step(p, x, y) ==> face_step(p, y, x),
        a.contains(s),
        reach(p, a, s).contains(t),
    ensures
        reach(p, a, t).contains(s),
{
    let back = Set::new(|u: usize| a.contains(u) && reach(p, a, u).contains(s));
    lemma_reach_closed(p, a, s);
    assert(back.contains(s));
    assert forall|u: usize, v: usize| back.contains(u) && #[trigger] face_step(p, u, v) && a.contains(v) implies back.contains(v) by {
        assert(face_step(p, v, u));
        lemma_reach_closed(p, a, v);
        assert(reach(p, a, v).contains(u));
        lemma_reach_trans(p, a, v, u);
    }
    assert(step_closed(p, a, back));
    assert(back.contains(t));
}

/// The transition faces where label `label` is open.
pub open spec fn open_faces(p: FaceBandProblem, d: Map<usize, [bool; 3]>, label: int) -> Set<usize> {
    Set::new(|f: usize| face_set(p).contains(f) && d[f][label])
}

/// The faces fixed to label `label`: it is their only open label.
pub open spec fn fixed_faces(p: FaceBandProblem, d: Map<usize, [bool; 3]>, label: int) -> Set<usize> {
    Set::new(|f: usize| open_faces(p, d, label).contains(f) && domain_size_spec(d[f]) == 1)
}

/// Label `label` is open on some face, and every face fixed to it is reached
/// from the least such face through faces where it is open.
#[verifier::opaque]
pub open spec fn label_connected(p: FaceBandProblem, d: Map<usize, [bool; 3]>, label: int) -> bool {
    &&& exists|f: usize| open_faces(p, d, label).contains(f)
    &&& forall|f: usize| #[trigger] fixed_faces(p, d, label).contains(f)
        ==> reach(p, open_faces(p, d, label), set_min(fixed_faces(p, d, label))).contains(f)
}

/// Label `label` is open somewhere, and the faces already fixed to it are
/// connected through the faces where it is open.
fn label_connected_through_possible(problem: &FaceBandProblem, domains: &BTreeMap<usize, [bool; 3]>, label: u8) -> (r: bool)
    requires
        problem_wf(*problem),
        problem_error(*problem) is None,
        domains_respect(*problem, domains@),
        label < 3,
    ensures
        r == label_connected(*problem, domains@, label as int),
        forall|l: Map<usize, u8>| problem_coherent(*problem) && valid_labelling(*problem, l) && consistent(l, domains@)
            && label < problem.band_count ==> r,
{
    proof {
        reveal(label_connected);
    }
    let ghost p = *problem;
    let ghost d = domains@;
    let mut possible: BTreeSet<usize> = BTreeSet::new();
    let mut i: usize = 0;
    while i < problem.transition_faces.len()
        invariant
            p == *problem,
            d == domains@,
            label < 3,
            i <= p.transition_faces@.len(),
            forall|f: usize| #[trigger] possible@.contains(f) <==> exists|k: int| 0 <= k < i && p.transition_faces@[k] == f
                && d.contains_key(f) && d[f][label as int],
        decreases p.transition_faces@.len() - i,
    {
        let f = problem.transition_faces[i];
        let dom = domains.get(&f);
        let ghost p0 = possible@;
        match dom {
            Some(x) => {
                if x[label as usize] {
                    possible.insert(f);
                }
            },
            None => {},
        }
        proof {
            assert forall|g: usize| #[trigger] possible@.contains(g) <==> exists|k: int| 0 <= k < i + 1 && p.transition_faces@[k] == g
                && d.contains_key(g) && d[g][label as int] by {
                if possible@.contains(g) && !p0.contains(g) {
                    assert(p.transition_faces@[i as int] == g);
                }
                if p0.contains(g) {
                    let k = choose|k: int| 0 <= k < i && p.transition_faces@[k] == g && d.contains_key(g) && d[g][label as int];
                    assert(0 <= k < i + 1);
                }
                if exists|k: int| 0 <= k < i + 1 && p.transition_faces@[k] == g && d.contains_key(g) && d[g][label as int] {
                    let k = choose|k: int| 0 <= k < i + 1 && p.transition_faces@[k] == g && d.contains_key(g) && d[g][label as int];
                    if k < i {
                        assert(p0.contains(g));
                    }
                }
            }
        }
        i = i + 1;
    }
    let ghost poss = possible@;
    proof {
        assert(d.dom() == face_set(p));
        assert forall|f: usize| poss.contains(f) <==> (face_set(p).contains(f) && d[f][label as int]) by {
            if face_set(p).contains(f) && d[f][label as int] {
                let k = choose|k: int| 0 <= k < p.transition_faces@.len() && p.transition_faces@[k] == f;
            }
        }
        assert forall|l: Map<usize, u8>| problem_coherent(p) && valid_labelling(p, l) && consistent(l, d) && label < p.band_count
            implies band(p, l, label as int).subset_of(poss) by {
            assert forall|f: usize| band(p, l, label as int).contains(f) implies poss.contains(f) by {
                assert(d.contains_key(f));
            }
        }
        assert(poss =~= open_faces(p, d, label as int));
        lemma_set_finite(&possible);
    }
    if possible.is_empty() {
        proof {
            assert(poss.len() == 0);
            assert forall|f: usize| !open_faces(p, d, label as int).contains(f) by {
                if open_faces(p, d, label as int).contains(f) {
                    assert(poss.contains(f));
                    assert(poss.remove(f).len() < poss.len());
                }
            }
            assert forall|l: Map<usize, u8>| problem_coherent(p) && valid_labelling(p, l) && consistent(l, d)
                && label < p.band_count implies false by {
                assert(band_ok(p, l, label as int));
                let b = band(p, l, label as int);
                assert(b.len() > 0);
                vstd::seq_lib::seq_to_set_is_finite(p.transition_faces@);
                assert(b.finite());
                let f = b.choose();
                assert(b.contains(f));
                assert(poss.contains(f));
            }
        }
        return false;
    }
    let candidates = crate::cycles::vertex_set_to_vec(&possible);
    let mut start: Option<usize> = None;
    let mut assigned: Vec<usize> = Vec::new();
    let mut k: usize = 0;
    while k < candidates.len()
        invariant
            p == *problem,
            d == domains@,
            d.dom() == face_set(p),
            label < 3,
            forall|f: usize| #[trigger] poss.contains(f) <==> (face_set(p).contains(f) && d[f][label as int]),
            candidates@.to_set() == poss,
            k <= candidates@.len(),
            forall|j: int| 0 <= j < assigned@.len() ==> poss.contains(#[trigger] assigned@[j])
                && d[assigned@[j]][0] as int + d[assigned@[j]][1] as int + d[assigned@[j]][2] as int == 1,
            start is None <==> assigned@.len() == 0,
            start matches Some(s0) ==> assigned@.len() > 0 && assigned@[0] == s0,
            start matches Some(s0) ==> exists|j0: int| 0 <= j0 < k && candidates@[j0] == s0
                && forall|j: int| 0 <= j < j0 ==> domain_size_spec(d[#[trigger] candidates@[j]]) != 1,
            forall|a: int, b: int| 0 <= a < b < candidates@.len() ==> candidates@[a] < candidates@[b],
            forall|f: usize| poss.contains(f) && (d[f][0] as int + d[f][1] as int + d[f][2] as int == 1)
                && (exists|j: int| 0 <= j < k && candidates@[j] == f) ==> #[trigger] assigned@.contains(f),
        decreases candidates@.len() - k,
    {
        let f = candidates[k];
        proof {
            assert(candidates@.to_set().contains(f));
        }
        let dom = match domains.get(&f) {
            Some(x) => *x,
            None => [false, false, false],
        };
        let ghost a0 = assigned@;
        let ghost st0 = start;
        if domain_size(dom) == 1 {
            if start.is_none() {
                start = Some(f);
            }
            assigned.push(f);
        }
        proof {
            assert(poss.contains(f));
            assert(face_set(p).contains(f));
            assert(d.contains_key(f));
            assert(dom == d[f]);
            assert forall|g: usize| poss.contains(g) && (d[g][0] as int + d[g][1] as int + d[g][2] as int == 1)
                && (exists|j: int| 0 <= j < k + 1 && candidates@[j] == g) implies #[trigger] assigned@.contains(g) by {
                let j = choose|j: int| 0 <= j < k + 1 && candidates@[j] == g;
                if j < k {
                    assert(a0.contains(g));
                    let q = choose|q: int| 0 <= q < a0.len() && a0[q] == g;
                    assert(assigned@[q] == g);
                } else {
                    assert(assigned@[assigned@.len() - 1] == g);
                }
            }
            if a0.len() > 0 {
                assert(assigned@[0] == a0[0]);
            }
            if st0 is None && start is Some {
                assert forall|j: int| 0 <= j < k implies domain_size_spec(d[#[trigger] candidates@[j]]) != 1 by {
                    let g = candidates@[j];
                    assert(candidates@.to_set().contains(g));
                    if domain_size_spec(d[g]) == 1 {
                        assert(assigned@.len() == 1);
                        assert(a0.contains(g));
                    }
                }
                assert(candidates@[k as int] == f);
            }
            if st0 is Some {
                let j0 = choose|j0: int| 0 <= j0 < k && candidates@[j0] == st0->0
                    && forall|j: int| 0 <= j < j0 ==> domain_size_spec(d[#[trigger] candidates@[j]]) != 1;
                assert(0 <= j0 < k + 1);
            }
        }
        k = k + 1;
    }
    let ghost fixed = fixed_faces(p, d, label as int);
    proof {
        assert forall|f: usize| fixed.contains(f) implies #[trigger] assigned@.contains(f) by {
            assert(poss.contains(f));
            assert(candidates@.to_set().contains(f));
            let j = choose|j: int| 0 <= j < candidates@.len() && candidates@[j] == f;
            assert(d[f][0] as int + d[f][1] as int + d[f][2] as int == 1);
        }
        assert forall|f: usize| #[trigger] assigned@.contains(f) implies fixed.contains(f) by {
            let q = choose|q: int| 0 <= q < assigned@.len() && assigned@[q] == f;
            assert(poss.contains(assigned@[q]));
        }
        if start is Some {
            let s0 = start->0;
            assert(assigned@.contains(assigned@[0]));
            assert(fixed.contains(s0));
            let j0 = choose|j0: int| 0 <= j0 < candidates@.len() && candidates@[j0] == s0
                && forall|j: int| 0 <= j < j0 ==> domain_size_spec(d[#[trigger] candidates@[j]]) != 1;
            assert forall|f: usize| fixed.contains(f) implies s0 <= f by {
                assert(poss.contains(f));
                assert(candidates@.to_set().contains(f));
                let j = choose|j: int| 0 <= j < candidates@.len() && candidates@[j] == f;
                if j < j0 {
                    assert(domain_size_spec(d[candidates@[j]]) != 1);
                }
            }
            let m = set_min(fixed);
            assert(fixed.contains(m) && forall|x: usize| fixed.contains(x) ==> m <= x);
            assert(m == s0);
        } else {
            assert forall|f: usize| !fixed.contains(f) by {
                if fixed.contains(f) {
                    assert(assigned@.contains(f));
                }
            }
            assert(poss.contains(poss.choose()));
        }
    }
    let s0 = match start {
        None => {
            return true;
        },
        Some(s0) => s0,
    };
    let reached = flood_faces(problem, s0, &possible);
    let mut j: usize = 0;
    while j < assigned.len()
        invariant
            p == *problem,
            d == domains@,
            d.dom() == face_set(p),
            label < 3,
            forall|f: usize| #[trigger] poss.contains(f) <==> (face_set(p).contains(f) && d[f][label as int]),
            assigned@.len() > 0 && assigned@[0] == s0,
            forall|q: int| 0 <= q < assigned@.len() ==> poss.contains(#[trigger] assigned@[q])
                && d[assigned@[q]][0] as int + d[assigned@[q]][1] as int + d[assigned@[q]][2] as int == 1,
            reached@ == reach(p, poss, s0),
            poss == open_faces(p, d, label as int),
            fixed == fixed_faces(p, d, label as int),
            s0 == set_min(fixed),
            forall|f: usize| fixed.contains(f) ==> #[trigger] assigned@.contains(f),
            forall|f: usize| #[trigger] assigned@.contains(f) ==> fixed.contains(f),
            exists|f: usize| open_faces(p, d, label as int).contains(f),
            j <= assigned@.len(),
            forall|q: int| 0 <= q < j ==> reached@.contains(#[trigger] assigned@[q]),
        decreases assigned@.len() - j,
    {
        if !reached.contains(&assigned[j]) {
            proof {
                assert(assigned@.contains(assigned@[j as int]));
                assert(fixed.contains(assigned@[j as int]));
                assert forall|l: Map<usize, u8>| problem_coherent(p) && valid_labelling(p, l) && consistent(l, d)
                    && label < p.band_count implies false by {
                    let b = band(p, l, label as int);
                    let a = assigned@[j as int];
                    lemma_fixed_in_band(p, l, d, label, a);
                    lemma_fixed_in_band(p, l, d, label, s0);
                    assert(band_ok(p, l, label as int));
                    let m = set_min(b);
                    assert(b.contains(m)) by {
                        vstd::seq_lib::seq_to_set_is_finite(p.transition_faces@);
                        lemma_set_min(b);
                    }
                    assert(reach(p, b, m) == b);
                    lemma_reach_sym(p, b, m, s0);
                    lemma_reach_trans(p, b, s0, m);
                    lemma_reach_mono(p, b, poss, s0);
                }
                reveal(label_connected);
            }
            return false;
        }
        j = j + 1;
    }
    proof {
        assert forall|f: usize| #[trigger] fixed_faces(p, d, label as int).contains(f) implies reach(p, open_faces(p, d, label as int), set_min(fixed_faces(p, d, label as int))).contains(f) by {
            assert(assigned@.contains(f));
            let q = choose|q: int| 0 <= q < assigned@.len() && assigned@[q] == f;
            assert(reached@.contains(assigned@[q]));
        }
    }
    true
}

proof fn lemma_fixed_in_band(p: FaceBandProblem, l: Map<usize, u8>, d: Map<usize, [bool; 3]>, label: u8, a: usize)
    requires
        consistent(l, d),
        d.dom() == face_set(p),
        l.dom() == face_set(p),
        face_set(p).contains(a),
        label < 3,
        d[a][label as int],
        d[a][0] as int + d[a][1] as int + d[a][2] as int == 1,
    ensures
        band(p, l, label as int).contains(a),
{
    assert(d.contains_key(a));
    assert(d[a][l[a] as int]);
}

proof fn lemma_set_min(b: Set<usize>)
    requires
        b.finite(),
        b.len() > 0,
    ensures
        b.contains(set_min(b)),
        forall|x: usize| b.contains(x) ==> set_min(b) <= x,
    decreases b.len(),
{
    let x = b.choose();
    assert(b.contains(x));
    if b.len() == 1 {
        assert(b.remove(x).len() == 0);
        assert forall|y: usize| b.contains(y) implies y == x by {
            if y != x {
                assert(b.remove(x).contains(y));
            }
        }
        assert(b.contains(x) && forall|y: usize| b.contains(y) ==> x <= y);
    } else {
        let r = b.remove(x);
        lemma_set_min(r);
        let m = set_min(r);
        if x < m {
            assert(b.contains(x) && forall|y: usize| b.contains(y) ==> x <= y);
        } else {
            assert(b.contains(m) && forall|y: usize| b.contains(y) ==> m <= y);
        }
    }
}

/// Every label below the band count is connected.
fn labels_connected(problem: &FaceBandProblem, domains: &BTreeMap<usize, [bool; 3]>) -> (r: bool)
    requires
        problem_wf(*problem),
        problem_error(*problem) is None,
        domains_respect(*problem, domains@),
    ensures
        r == forall|label: int| 0 <= label < problem.band_count ==> #[trigger] label_connected(*problem, domains@, label),
        forall|l: Map<usize, u8>| problem_coherent(*problem) && valid_labelling(*problem, l) && consistent(l, domains@) ==> r,
{
    let ghost p = *problem;
    let mut label: u8 = 0;
    while (label as usize) < problem.band_count
        invariant
            p == *problem,
            problem_wf(p),
            problem_error(p) is None,
            domains_respect(p, domains@),
            label <= p.band_count,
            p.band_count <= 3,
            forall|m: int| 0 <= m < label ==> #[trigger] label_connected(p, domains@, m),
        decreases p.band_count - label,
    {
        if !label_connected_through_possible(problem, domains, label) {
            return false;
        }
        label = label + 1;
    }
    true
}

/// The domains `d` are a fixed point of propagation: every anchor policy holds
/// with nothing to prune, with three bands every open label keeps local
/// support, and every label below the band count is connected.
pub open spec fn propagation_stable(p: FaceBandProblem, d: Map<usize, [bool; 3]>) -> bool {
    &&& forall|a: usize| #[trigger] p.anchor_policies@.contains_key(a) ==> anchor_stable(p, d, a)
    &&& p.band_count == 3 ==> forall|f: usize, x: int| d.contains_key(f) && 0 <= x < 3 && #[trigger] d[f][x] ==> label_kept(p, d, f, x)
    &&& forall|label: int| 0 <= label < p.band_count ==> #[trigger] label_connected(p, d, label)
}

proof fn lemma_same_domains_equal(a: Map<usize, [bool; 3]>, b: Map<usize, [bool; 3]>)
    requires
        same_domains(a, b),
    ensures
        a == b,
{
    assert forall|f: usize| a.contains_key(f) implies a[f] == b[f] by {
        assert(a[f] =~= b[f]);
    }
    assert(a =~= b);
}

/// Apply anchor policies, local label constraints and label connectivity
/// until nothing changes; `false` when a constraint cannot be met. No valid
/// labelling of a coherent problem that picks open labels is lost, and on
/// success the domains are a fixed point of propagation.
fn propagate(problem: &FaceBandProblem, domains: &mut BTreeMap<usize, [bool; 3]>, rounds: &mut usize, pruned: &mut usize) -> (r: bool)
    requires
        problem_wf(*problem),
        problem_error(*problem) is None,
        domains_respect(*problem, old(domains)@),
    ensures
        r ==> propagation_stable(*problem, final(domains)@),
        shrinks(final(domains)@, old(domains)@),
        domains_respect(*problem, final(domains)@),
        forall|l: Map<usize, u8>| problem_coherent(*problem) && valid_labelling(*problem, l) && consistent(l, old(domains)@)
            ==> r && consistent(l, final(domains)@),
{
    let ghost p = *problem;
    let ghost d0 = domains@;
    proof {
        vstd::seq_lib::seq_to_set_is_finite(p.transition_faces@);
        assert(shrinks(d0, d0));
    }
    loop
        invariant
            p == *problem,
            problem_wf(p),
            problem_error(p) is None,
            face_set(p).finite(),
            d0 == old(domains)@,
            d0.dom() == face_set(p),
            shrinks(domains@, d0),
            domains_respect(p, domains@),
            forall|l: Map<usize, u8>| problem_coherent(p) && valid_labelling(p, l) && consistent(l, d0) ==> consistent(l, domains@),
        decreases open_pairs(domains@).len(),
    {
        *rounds = rounds.saturating_add(1);
        let ghost dround = domains@;
        let (ok, anchor_changed) = apply_anchor_policies(problem, domains, pruned);
        proof {
            lemma_shrink_transitive(domains@, dround, d0);
        }
        if !ok {
            return false;
        }
        let mut changed = anchor_changed;
        let ghost dmid = domains@;
        proof {
            if !anchor_changed {
                lemma_same_domains_equal(dmid, dround);
            }
        }
        if problem.band_count == 3 {
            match prune_local_label_constraints(problem, domains) {
                None => {
                    proof {
                        lemma_shrink_transitive(domains@, dmid, d0);
                    }
                    return false;
                },
                Some(n) => {
                    proof {
                        lemma_shrink_pairs_subset(domains@, dmid);
                        lemma_shrink_pairs_subset(dmid, dround);
                    }
                    proof {
                        if n == 0 {
                            assert forall|f: usize, x: int| #[trigger] domains@.contains_key(f) && 0 <= x < 3 implies #[trigger] domains@[f][x] == dmid[f][x] by {
                                if dmid[f][x] && !domains@[f][x] {
                                    lemma_shrink_pairs(domains@, dmid, f, x);
                                }
                            }
                            lemma_same_domains_equal(domains@, dmid);
                        }
                    }
                    if n > 0 {
                        changed = true;
                    }
                    *pruned = pruned.saturating_add(n);
                },
            }
        }
        proof {
            if p.band_count != 3 {
                assert(domains@ == dmid);
            }
            lemma_shrink_transitive(domains@, dmid, dround);
            lemma_shrink_transitive(domains@, dround, d0);
            lemma_shrink_pairs_subset(domains@, dround);
            lemma_shrink_pairs_subset(dmid, dround);
            lemma_shrink_pairs_subset(domains@, dmid);
        }
        if !labels_connected(problem, domains) {
            return false;
        }
        if !changed {
            proof {
                assert(domains@ == dround);
            }
            return true;
        }
    }
}

/// The face to branch on: among faces with more than one open label, the one
/// with fewest open labels, ties broken by address and then by face.
fn choose_branch_face(problem: &FaceBandProblem, domains: &BTreeMap<usize, [bool; 3]>) -> (r: Option<usize>)
    requires
        problem_wf(*problem),
        problem_error(*problem) is None,
        domains_respect(*problem, domains@),
    ensures
        r matches Some(f) ==> domains@.contains_key(f) && domain_size_spec(domains@[f]) > 1,
        r is None ==> forall|f: usize| #[trigger] domains@.contains_key(f) ==> domain_size_spec(domains@[f]) <= 1,
{
    let ghost p = *problem;
    let mut best: Option<(usize, usize, u64)> = None;
    let ghost full = spec_btree_map_iter(domains).remaining();
    for kv in it: domains.iter()
        invariant
            p == *problem,
            problem_wf(p),
            problem_error(p) is None,
            domains_respect(p, domains@),
            it.seq() == full,
            full == spec_btree_map_iter(domains).remaining(),
            best matches Some((f, n, a)) ==> domains@.contains_key(f) && domain_size_spec(domains@[f]) > 1,
            best is None ==> forall|j: int| 0 <= j < it.index() ==> domain_size_spec(*(#[trigger] full[j]).1) <= 1,
    {
        let face = *kv.0;
        let ghost j0 = it.index();
        proof {
            assert(*full[j0].0 == face && *full[j0].1 == *kv.1);
            assert(domains@.contains_key(face) && domains@[face] == *kv.1);
        }
        let n = domain_size(*kv.1);
        if n > 1 {
            proof {
                assert(face_set(p).contains(face));
                assert(!p.coarse_boundary_faces@.contains(face));
                assert(!p.fine_boundary_faces@.contains(face));
            }
            let address = match problem.face_addresses.get(&face) {
                Some(a) => *a,
                None => 0,
            };
            let better = match best {
                None => true,
                Some((_, bn, ba)) => n < bn || (n == bn && address < ba),
            };
            if better {
                best = Some((face, n, address));
            }
        }
    }
    proof {
        if best is None {
            assert forall|f: usize| #[trigger] domains@.contains_key(f) implies domain_size_spec(domains@[f]) <= 1 by {
                assert(full.contains((&f, &domains@[f])));
                let j = choose|j: int| 0 <= j < full.len() && full[j] == (&f, &domains@[f]);
            }
        }
    }
    match best {
        Some((f, _, _)) => Some(f),
        None => None,
    }
}

/// The number of open labels of a domain.
pub open spec fn domain_size_spec(d: [bool; 3]) -> int {
    (if d[0] { 1int } else { 0int }) + (if d[1] { 1int } else { 0int }) + (if d[2] { 1int } else { 0int })
}

/// The open labels of a domain ordered by distance from the preferred label,
/// the smaller label first on ties.
fn label_order(d: [bool; 3], preferred: u8) -> (out: Vec<u8>)
    ensures
        forall|x: u8| x < 3 && d[x as int] ==> #[trigger] out@.contains(x),
        forall|i: int| 0 <= i < out@.len() ==> #[trigger] out@[i] < 3 && d[out@[i] as int],
        out@.len() <= 3,
{
    let mut out: Vec<u8> = Vec::new();
    let pref: u8 = if preferred > 2 { 2 } else { preferred };
    let mut dist: u8 = 0;
    while dist < 3
        invariant
            pref <= 2,
            dist <= 3,
            forall|x: u8| x < 3 && d[x as int] && (x as int - pref as int <= dist as int - 1) && (pref as int - x as int <= dist as int - 1) ==> #[trigger] out@.contains(x),
            forall|i: int| 0 <= i < out@.len() ==> #[trigger] out@[i] < 3 && d[out@[i] as int],
            forall|i: int| 0 <= i < out@.len() ==> (#[trigger] out@[i] as int - pref as int <= dist as int - 1) && (pref as int - out@[i] as int <= dist as int - 1),
            out@.no_duplicates(),
        decreases 3 - dist,
    {
        let ghost o0 = out@;
        if pref >= dist {
            let x = pref - dist;
            if d[x as usize] {
                out.push(x);
            }
        }
        let ghost o1 = out@;
        proof {
            if pref >= dist && d[(pref - dist) as int] {
                assert(o1[o1.len() - 1] == pref - dist);
                assert(o1.contains((pref - dist) as u8));
            }
        }
        if dist > 0 && pref + dist < 3 {
            let x = pref + dist;
            if d[x as usize] {
                out.push(x);
            }
        }
        proof {
            assert forall|x: u8| x < 3 && d[x as int] && (x as int - pref as int <= dist as int) && (pref as int - x as int <= dist as int) implies #[trigger] out@.contains(x) by {
                if (x as int - pref as int <= dist as int - 1) && (pref as int - x as int <= dist as int - 1) {
                    assert(o0.contains(x));
                    let k = choose|k: int| 0 <= k < o0.len() && o0[k] == x;
                    assert(out@[k] == x);
                } else if x as int == pref as int - dist as int {
                    assert(o1.contains(x));
                    let k = choose|k: int| 0 <= k < o1.len() && o1[k] == x;
                    assert(out@[k] == x);
                } else {
                    assert(x as int == pref as int + dist as int);
                    assert(out@[out@.len() - 1] == x);
                }
            }
        }
        dist = dist + 1;
    }
    proof {
        let three = set![0u8, 1u8, 2u8];
        assert(out@.to_set().subset_of(three));
        out@.unique_seq_to_set();
        vstd::set_lib::lemma_len_subset(out@.to_set(), three);
    }
    out
}

// ---------------------------------------------------------------------------
// Fingerprint

/// Strictly increasing.
pub open spec fn strictly_increasing(s: Seq<usize>) -> bool {
    forall|i: int, j: int| 0 <= i < j < s.len() ==> s[i] < s[j]
}

/// The elements of a finite set in increasing order.
pub open spec fn sorted_elements(s: Set<usize>) -> Seq<usize> {
    choose|q: Seq<usize>| q.to_set() == s && strictly_increasing(q)
}

pub proof fn lemma_sorted_unique(a: Seq<usize>, b: Seq<usize>)
    requires
        strictly_increasing(a),
        strictly_increasing(b),
        a.to_set() == b.to_set(),
    ensures
        a == b,
    decreases a.len(),
{
    if a.len() == 0 {
        if b.len() > 0 {
            assert(b.to_set().contains(b[0]));
        }
        assert(a =~= b);
    } else {
        assert(a.to_set().contains(a[0]));
        assert(b.to_set().contains(a[0]));
        assert(b.len() > 0);
        assert(b.to_set().contains(b[0]));
        assert(a.to_set().contains(b[0]));
        let ka = choose|k: int| 0 <= k < b.len() && b[k] == a[0];
        let kb = choose|k: int| 0 <= k < a.len() && a[k] == b[0];
        if ka > 0 {
            assert(b[0] < b[ka]);
        }
        if kb > 0 {
            assert(a[0] < a[kb]);
        }
        assert(a[0] == b[0]);
        let a1 = a.drop_first();
        let b1 = b.drop_first();
        assert forall|x: usize| a1.to_set().contains(x) <==> b1.to_set().contains(x) by {
            if a1.to_set().contains(x) {
                let k = choose|k: int| 0 <= k < a1.len() && a1[k] == x;
                assert(a[k + 1] == x);
                assert(a[0] < x);
                assert(b.to_set().contains(x) && a.to_set().contains(x));
                let m = choose|m: int| 0 <= m < b.len() && b[m] == x;
                assert(m != 0);
                assert(b1[m - 1] == x);
            }
            if b1.to_set().contains(x) {
                let k = choose|k: int| 0 <= k < b1.len() && b1[k] == x;
                assert(b[k + 1] == x);
                assert(b[0] < x);
                assert(a.to_set().contains(x));
                let m = choose|m: int| 0 <= m < a.len() && a[m] == x;
                assert(m != 0);
                assert(a1[m - 1] == x);
            }
        }
        assert(a1.to_set() =~= b1.to_set());
        lemma_sorted_unique(a1, b1);
        assert(a =~= b) by {
            assert forall|i: int| 0 <= i < a.len() implies a[i] == b[i] by {
                if i > 0 {
                    assert(a[i] == a1[i - 1]);
                    assert(b[i] == b1[i - 1]);
                }
            }
        }
    }
}

/// FNV-style hash of a sequence of slots, one multiply per slot.
pub open spec fn fnv_slots(s: Seq<usize>) -> u64
    decreases s.len(),
{
    if s.len() == 0 {
        0xcbf29ce484222325u64
    } else {
        vstd::wrapping::u64_specs::wrapping_mul(fnv_slots(s.drop_last()) ^ (s.last() as u64), 0x100000001b3u64)
    }
}

/// The slots hashed into a problem's fingerprint: its transition faces, its
/// coarse and fine boundary faces in increasing order, and its band count.
pub open spec fn fingerprint_slots(p: FaceBandProblem) -> Seq<usize> {
    p.transition_faces@ + sorted_elements(p.coarse_boundary_faces@) + sorted_elements(p.fine_boundary_faces@)
        + seq![p.band_count]
}

/// Fold one slot into a hash.
fn fnv_step(hash: u64, value: usize) -> (h: u64)
    ensures
        h == vstd::wrapping::u64_specs::wrapping_mul(hash ^ (value as u64), 0x100000001b3u64),
{
    (hash ^ (value as u64)).wrapping_mul(0x100000001b3)
}

/// The elements of a tree set in increasing order.
fn sorted_set_elements(set: &BTreeSet<usize>) -> (out: Vec<usize>)
    ensures
        out@ == sorted_elements(set@),
{
    let out = crate::cycles::vertex_set_to_vec(set);
    proof {
        let q = choose|q: Seq<usize>| q.to_set() == set@ && strictly_increasing(q);
        assert(out@.to_set() == set@ && strictly_increasing(out@));
        lemma_sorted_unique(out@, sorted_elements(set@));
    }
    out
}

/// The face-complex fingerprint of a problem.
fn fingerprint(problem: &FaceBandProblem) -> (h: u64)
    ensures
        h == fnv_slots(fingerprint_slots(*problem)),
{
    let coarse = sorted_set_elements(&problem.coarse_boundary_faces);
    let fine = sorted_set_elements(&problem.fine_boundary_faces);
    let mut slots: Vec<usize> = Vec::new();
    let mut i: usize = 0;
    while i < problem.transition_faces.len()
        invariant
            i <= problem.transition_faces@.len(),
            slots@ == problem.transition_faces@.take(i as int),
        decreases problem.transition_faces@.len() - i,
    {
        slots.push(problem.transition_faces[i]);
        proof {
            assert(problem.transition_faces@.take(i + 1) =~= problem.transition_faces@.take(i as int).push(problem.transition_faces@[i as int]));
        }
        i = i + 1;
    }
    proof {
        assert(problem.transition_faces@.take(problem.transition_faces@.len() as int) =~= problem.transition_faces@);
    }
    let ghost base = slots@;
    let mut i: usize = 0;
    while i < coarse.len()
        invariant
            i <= coarse@.len(),
            slots@ == base + coarse@.take(i as int),
        decreases coarse@.len() - i,
    {
        slots.push(coarse[i]);
        proof {
            assert(coarse@.take(i + 1) =~= coarse@.take(i as int).push(coarse@[i as int]));
            assert(base + coarse@.take(i + 1) =~= (base + coarse@.take(i as int)).push(coarse@[i as int]));
        }
        i = i + 1;
    }
    proof {
        assert(coarse@.take(coarse@.len() as int) =~= coarse@);
    }
    let ghost base2 = slots@;
    let mut i: usize = 0;
    while i < fine.len()
        invariant
            i <= fine@.len(),
            slots@ == base2 + fine@.take(i as int),
        decreases fine@.len() - i,
    {
        slots.push(fine[i]);
        proof {
            assert(fine@.take(i + 1) =~= fine@.take(i as int).push(fine@[i as int]));
            assert(base2 + fine@.take(i + 1) =~= (base2 + fine@.take(i as int)).push(fine@[i as int]));
        }
        i = i + 1;
    }
    proof {
        assert(fine@.take(fine@.len() as int) =~= fine@);
    }
    slots.push(problem.band_count);
    proof {
        assert(slots@ =~= fingerprint_slots(*problem));
    }
    let mut hash: u64 = 0xcbf29ce484222325;
    let mut i: usize = 0;
    while i < slots.len()
        invariant
            i <= slots@.len(),
            hash == fnv_slots(slots@.take(i as int)),
        decreases slots@.len() - i,
    {
        proof {
            assert(slots@.take(i + 1).drop_last() =~= slots@.take(i as int));
        }
        hash = fnv_step(hash, slots[i]);
        i = i + 1;
    }
    proof {
        assert(slots@.take(slots@.len() as int) =~= slots@);
    }
    hash
}

/// The ladder step named by the number of source-face rings.
pub open spec fn ladder_step_label(rings: usize) -> Seq<char> {
    if rings == 0 {
        "F0CurrentTransitionFaces"@
    } else if rings == 1 {
        "F1OneSourceFaceRing"@
    } else if rings == 2 {
        "F2TwoSourceFaceRings"@
    } else {
        "Unsupported"@
    }
}

fn ladder_step(source_face_rings: usize) -> (r: &'static str)
    ensures
        r@ == ladder_step_label(source_face_rings),
{
    if source_face_rings == 0 {
        "F0CurrentTransitionFaces"
    } else if source_face_rings == 1 {
        "F1OneSourceFaceRing"
    } else if source_face_rings == 2 {
        "F2TwoSourceFaceRings"
    } else {
        "Unsupported"
    }
}

// ---------------------------------------------------------------------------
// The search

/// The starting domains: coarse faces in band 0, fine faces in the last band,
/// every other face open to every band.
pub open spec fn initial_domains(p: FaceBandProblem) -> Map<usize, [bool; 3]> {
    Map::new(|f: usize| face_set(p).contains(f), |f: usize|
        if p.coarse_boundary_faces@.contains(f) {
            [true, false, false]
        } else if p.fine_boundary_faces@.contains(f) {
            if p.band_count == 3 { [false, false, true] } else { [false, true, false] }
        } else {
            [true, true, p.band_count == 3]
        })
}

pub proof fn lemma_valid_consistent_initial(p: FaceBandProblem, l: Map<usize, u8>)
    requires
        problem_error(p) is None,
        valid_labelling(p, l),
    ensures
        consistent(l, initial_domains(p)),
{
    assert forall|f: usize| #[trigger] initial_domains(p).contains_key(f) implies l.contains_key(f) && l[f] < 3
        && initial_domains(p)[f][l[f] as int] by {
        assert(l.contains_key(f));
        if p.coarse_boundary_faces@.contains(f) {
            assert(l[f] == 0);
        } else if p.fine_boundary_faces@.contains(f) {
            assert(l[f] == last_label(p));
        }
    }
}

proof fn lemma_leaf_labels(l: Map<usize, u8>, d: Map<usize, [bool; 3]>)
    requires
        consistent(l, d),
        l.dom() == d.dom(),
        forall|f: usize| #[trigger] d.contains_key(f) ==> domain_size_spec(d[f]) <= 1,
    ensures
        least_labels(d) == Some(l),
{
    assert forall|f: usize| #[trigger] d.contains_key(f) implies domain_min(d[f]) == Some(l[f]) by {
        assert(d[f][l[f] as int]);
        assert(domain_size_spec(d[f]) <= 1);
    }
    assert(least_labels(d) is Some);
    assert(least_labels(d)->0 =~= l);
}

enum SearchResult {
    Closed(FaceBandPlan),
    Exhausted,
    Budget,
}

/// A bound on the states that a search examines from domains with `k` open
/// (face, label) pairs: a leaf examines one, and a branch tries at most three
/// labels, each one state and a search on fewer open pairs.
pub open spec fn search_state_bound(k: nat) -> nat
    decreases k,
{
    if k == 0 { 1 } else { 3 * (1 + search_state_bound((k - 1) as nat)) }
}

/// The state budget that lets the search of a problem run to its end.
pub open spec fn face_band_state_bound(p: FaceBandProblem) -> nat {
    search_state_bound(open_pairs(initial_domains(p)).len())
}

proof fn lemma_state_bound_mono(a: nat, b: nat)
    requires
        a <= b,
    ensures
        1 <= search_state_bound(a) <= search_state_bound(b),
    decreases b,
{
    if a < b {
        lemma_state_bound_mono(a, (b - 1) as nat);
    }
}

struct Search<'a> {
    problem: &'a FaceBandProblem,
    domains: BTreeMap<usize, [bool; 3]>,
    preferred: BTreeMap<usize, u8>,
    maximum_states: u64,
    states: u64,
    propagation_rounds: usize,
    pruned_domains: usize,
    fingerprint: u64,
    budget_hit: bool,
}

impl<'a> Search<'a> {
    fn new(problem: &'a FaceBandProblem, maximum_states: u64, fingerprint: u64) -> (s: Self)
        requires
            problem_wf(*problem),
            problem_error(*problem) is None,
        ensures
            s.problem == problem,
            s.domains@ == initial_domains(*problem),
            s.states == 0,
            !s.budget_hit,
            s.maximum_states == maximum_states,
            s.fingerprint == fingerprint,
    {
        let ghost p = *problem;
        let coarse_distances = face_distances(problem, &problem.coarse_boundary_faces);
        let fine_distances = face_distances(problem, &problem.fine_boundary_faces);
        let last: u8 = if problem.band_count == 3 { 2 } else { 1 };
        let mut domains: BTreeMap<usize, [bool; 3]> = BTreeMap::new();
        let mut preferred: BTreeMap<usize, u8> = BTreeMap::new();
        let mut i: usize = 0;
        while i < problem.transition_faces.len()
            invariant
                p == *problem,
                last == p.band_count - 1,
                p.band_count == 2 || p.band_count == 3,
                i <= p.transition_faces@.len(),
                domains@.dom() == p.transition_faces@.take(i as int).to_set(),
                forall|f: usize| #[trigger] domains@.contains_key(f) ==> domains@[f] == initial_domains(p)[f],
            decreases p.transition_faces@.len() - i,
        {
            let face = problem.transition_faces[i];
            let labels: [bool; 3] = if problem.coarse_boundary_faces.contains(&face) {
                [true, false, false]
            } else if problem.fine_boundary_faces.contains(&face) {
                if last == 2 { [false, false, true] } else { [false, true, false] }
            } else {
                [true, true, last == 2]
            };
            let coarse: usize = match coarse_distances.get(&face) {
                Some(d) => *d,
                None => usize::MAX / 4,
            };
            let fine: usize = match fine_distances.get(&face) {
                Some(d) => *d,
                None => usize::MAX / 4,
            };
            let sum = coarse.saturating_add(fine);
            let denominator: usize = if sum > 1 { sum } else { 1 };
            proof {
                assert((last as u128) * (coarse as u128) <= 2 * 0xffff_ffff_ffff_ffffu128) by (nonlinear_arith)
                    requires last <= 2, coarse <= 0xffff_ffff_ffff_ffffu128;
            }
            let numerator: u128 = (last as u128) * (coarse as u128) + (denominator as u128) / 2;
            let estimate: u128 = numerator / (denominator as u128);
            let guess: u8 = if estimate > last as u128 { last } else { estimate as u8 };
            proof {
                assert(p.transition_faces@.take(i + 1) =~= p.transition_faces@.take(i as int).push(face));
                p.transition_faces@.take(i as int).lemma_push_to_set_commute(face);
                assert(face_set(p).contains(face)) by {
                    assert(p.transition_faces@[i as int] == face);
                }
            }
            domains.insert(face, labels);
            preferred.insert(face, guess);
            i = i + 1;
        }
        proof {
            assert(p.transition_faces@.take(p.transition_faces@.len() as int) =~= p.transition_faces@);
            assert(domains@ =~= initial_domains(p));
        }
        Search {
            problem,
            domains,
            preferred,
            maximum_states,
            states: 0,
            propagation_rounds: 0,
            pruned_domains: 0,
            fingerprint,
            budget_hit: false,
        }
    }

    fn search(&mut self) -> (r: Option<FaceBandPlan>)
        requires
            problem_wf(*old(self).problem),
            problem_error(*old(self).problem) is None,
            domains_respect(*old(self).problem, old(self).domains@),
        ensures
            final(self).problem == old(self).problem,
            final(self).maximum_states == old(self).maximum_states,
            final(self).fingerprint == old(self).fingerprint,
            old(self).budget_hit ==> final(self).budget_hit,
            final(self).states >= old(self).states,
            final(self).budget_hit ==> old(self).budget_hit || final(self).states >= final(self).maximum_states,
            old(self).states <= old(self).maximum_states ==> final(self).states <= final(self).maximum_states,
            final(self).states <= old(self).states + search_state_bound(open_pairs(old(self).domains@).len()),
            old(self).states + search_state_bound(open_pairs(old(self).domains@).len()) <= old(self).maximum_states
                && !old(self).budget_hit ==> !final(self).budget_hit,
            r is Some ==> final(self).states > old(self).states,
            r matches Some(plan) ==> valid_labelling(*old(self).problem, plan.labels@)
                && plan_matches(*old(self).problem, plan, old(self).fingerprint),
            r is None && !final(self).budget_hit ==> forall|l: Map<usize, u8>| problem_coherent(*old(self).problem)
                && valid_labelling(*old(self).problem, l) ==> !consistent(l, old(self).domains@),
        decreases open_pairs(old(self).domains@).len(),
    {
        let ghost p = *self.problem;
        let ghost d0 = self.domains@;
        let ghost s0 = self.states;
        proof {
            vstd::seq_lib::seq_to_set_is_finite(p.transition_faces@);
            lemma_state_bound_mono(0, open_pairs(d0).len());
        }
        if self.states >= self.maximum_states {
            self.budget_hit = true;
            return None;
        }
        let next = choose_branch_face(self.problem, &self.domains);
        let face = match next {
            None => {
                self.states = self.states + 1;
                let r = validate_complete(self.problem, &self.domains, self.fingerprint);
                proof {
                    if r is None {
                        assert forall|l: Map<usize, u8>| problem_coherent(p) && valid_labelling(p, l) implies !consistent(l, d0) by {
                            if consistent(l, d0) {
                                lemma_leaf_labels(l, d0);
                            }
                        }
                    }
                }
                return r;
            },
            Some(face) => face,
        };
        let dom = match self.domains.get(&face) {
            Some(d) => *d,
            None => [false, false, false],
        };
        let pref = match self.preferred.get(&face) {
            Some(x) => *x,
            None => 0,
        };
        let order = label_order(dom, pref);
        let checkpoint = self.domains.clone();
        let ghost k = open_pairs(d0).len();
        proof {
            assert(open_pairs(d0).contains((face, 0u8)) || open_pairs(d0).contains((face, 1u8)) || open_pairs(d0).contains((face, 2u8)));
            lemma_open_pairs_finite(d0);
            assert(k > 0);
        }
        let ghost u = 1 + search_state_bound((k - 1) as nat);
        proof {
            assert(search_state_bound(k) == 3 * u);
            lemma_state_bound_mono(0, (k - 1) as nat);
        }
        let mut idx: usize = 0;
        while idx < order.len()
            invariant
                *self.problem == p,
                problem_wf(p),
                problem_error(p) is None,
                face_set(p).finite(),
                checkpoint@ == d0,
                self.domains@ == d0,
                domains_respect(p, d0),
                d0.contains_key(face),
                d0[face] == dom,
                domain_size_spec(dom) > 1,
                forall|x: u8| x < 3 && dom[x as int] ==> #[trigger] order@.contains(x),
                forall|i: int| 0 <= i < order@.len() ==> #[trigger] order@[i] < 3 && dom[order@[i] as int],
                self.maximum_states == old(self).maximum_states,
                self.fingerprint == old(self).fingerprint,
                self.problem == old(self).problem,
                old(self).budget_hit ==> self.budget_hit,
                self.states >= old(self).states,
                self.budget_hit ==> old(self).budget_hit || self.states >= self.maximum_states,
                idx <= order@.len(),
                order@.len() <= 3,
                s0 == old(self).states,
                k == open_pairs(d0).len(),
                k > 0,
                u == 1 + search_state_bound((k - 1) as nat),
                u >= 2,
                search_state_bound(k) == 3 * u,
                self.states <= s0 + idx * u,
                idx * u <= 3 * u,
                s0 <= self.maximum_states ==> self.states <= self.maximum_states,
                s0 + search_state_bound(k) <= self.maximum_states && !old(self).budget_hit ==> !self.budget_hit,
                !self.budget_hit ==> forall|l: Map<usize, u8>| problem_coherent(p) && valid_labelling(p, l) && consistent(l, d0)
                    ==> forall|t: int| 0 <= t < idx ==> l[face] != #[trigger] order@[t],
                d0 == old(self).domains@,
            ensures
                self.maximum_states == old(self).maximum_states,
                self.fingerprint == old(self).fingerprint,
                self.problem == old(self).problem,
                old(self).budget_hit ==> self.budget_hit,
                self.states >= old(self).states,
                self.budget_hit ==> old(self).budget_hit || self.states >= self.maximum_states,
                self.states <= s0 + search_state_bound(k),
                s0 <= self.maximum_states ==> self.states <= self.maximum_states,
                s0 + search_state_bound(k) <= self.maximum_states && !old(self).budget_hit ==> !self.budget_hit,
                !self.budget_hit ==> forall|l: Map<usize, u8>| problem_coherent(p) && valid_labelling(p, l) && consistent(l, d0)
                    ==> forall|t: int| 0 <= t < order@.len() ==> l[face] != #[trigger] order@[t],
            decreases order@.len() - idx,
        {
            let ghost b0 = self.budget_hit;
            proof {
                assert(idx * u <= 2 * u) by (nonlinear_arith)
                    requires idx <= 2, u >= 0;
                assert(idx * u <= 3 * u) by (nonlinear_arith)
                    requires idx <= 3, u >= 0;
            }
            if self.states >= self.maximum_states {
                self.budget_hit = true;
                break;
            }
            self.states = self.states + 1;
            let ghost smid = self.states;
            let label = order[idx];
            let single: [bool; 3] = if label == 0 { [true, false, false] } else if label == 1 { [false, true, false] } else { [false, false, true] };
            self.domains.insert(face, single);
            let ghost d1 = self.domains@;
            proof {
                assert(shrinks(d1, d0)) by {
                    assert(d1.dom() =~= d0.dom());
                }
                assert(domains_respect(p, d1)) by {
                    assert(d1.dom() =~= d0.dom());
                    assert forall|f: usize| #[trigger] d1.contains_key(f) implies (p.band_count == 2 ==> !d1[f][2]) by {
                        if p.band_count == 2 && d1[f][2] { assert(d0[f][2]); }
                    }
                    assert forall|f: usize| #[trigger] p.coarse_boundary_faces@.contains(f) implies !d1[f][1] && !d1[f][2] by {
                        assert(face_set(p).contains(f));
                        if d1[f][1] { assert(d0[f][1]); }
                        if d1[f][2] { assert(d0[f][2]); }
                    }
                    assert forall|f: usize| #[trigger] p.fine_boundary_faces@.contains(f) implies !d1[f][0] && (p.band_count == 3 ==> !d1[f][1]) by {
                        assert(face_set(p).contains(f));
                        if d1[f][0] { assert(d0[f][0]); }
                        if d1[f][1] { assert(d0[f][1]); }
                    }
                }
                let other: int = if label != 0 && dom[0] { 0 } else if label != 1 && dom[1] { 1 } else { 2 };
                assert(other != label && dom[other]);
                lemma_shrink_pairs(d1, d0, face, other);
            }
            let propagated = propagate(self.problem, &mut self.domains, &mut self.propagation_rounds, &mut self.pruned_domains);
            if propagated {
                proof {
                    lemma_shrink_pairs_subset(self.domains@, d1);
                }
                let ghost d2 = self.domains@;
                proof {
                    lemma_state_bound_mono(open_pairs(d2).len(), (k - 1) as nat);
                    assert((idx + 1) * u == idx * u + u) by (nonlinear_arith);
                    assert((idx + 1) * u <= 3 * u) by (nonlinear_arith)
                        requires idx + 1 <= 3, u >= 0;
                }
                let found = self.search();
                if let Some(plan) = found {
                    return Some(plan);
                }
                proof {
                    assert(self.states <= s0 + (idx + 1) * u);
                }
                proof {
                    if !self.budget_hit {
                        assert(!b0);
                        assert forall|l: Map<usize, u8>| problem_coherent(p) && valid_labelling(p, l) && consistent(l, d0)
                            implies forall|t: int| 0 <= t < idx + 1 ==> l[face] != #[trigger] order@[t] by {
                            assert(forall|t: int| 0 <= t < idx ==> l[face] != #[trigger] order@[t]);
                            if l[face] == order@[idx as int] {
                                assert(consistent(l, d1)) by {
                                    assert forall|f: usize| #[trigger] d1.contains_key(f) implies l.contains_key(f) && l[f] < 3 && d1[f][l[f] as int] by {
                                        assert(d0.contains_key(f));
                                    }
                                }
                                assert(consistent(l, d2));
                            }
                        }
                    }
                }
            } else {
                proof {
                    assert forall|l: Map<usize, u8>| !self.budget_hit && problem_coherent(p) && valid_labelling(p, l) && consistent(l, d0)
                        implies forall|t: int| 0 <= t < idx + 1 ==> l[face] != #[trigger] order@[t] by {
                        assert(forall|t: int| 0 <= t < idx ==> l[face] != #[trigger] order@[t]);
                        if l[face] == order@[idx as int] {
                            assert(consistent(l, d1)) by {
                                assert forall|f: usize| #[trigger] d1.contains_key(f) implies l.contains_key(f) && l[f] < 3 && d1[f][l[f] as int] by {
                                    assert(d0.contains_key(f));
                                }
                            }
                        }
                    }
                }
            }
            proof {
                assert((idx + 1) * u == idx * u + u) by (nonlinear_arith);
                assert((idx + 1) * u <= 3 * u) by (nonlinear_arith)
                    requires idx + 1 <= 3, u >= 0;
            }
            self.domains = checkpoint.clone();
            idx = idx + 1;
        }
        proof {
            if !self.budget_hit {
                assert forall|l: Map<usize, u8>| problem_coherent(p) && valid_labelling(p, l) implies !consistent(l, d0) by {
                    if consistent(l, d0) {
                        assert(d0[face][l[face] as int]);
                        assert(order@.contains(l[face]));
                        let t = choose|t: int| 0 <= t < order@.len() && order@[t] == l[face];
                    }
                }
            }
        }
        None
    }
}

/// The evidence record of a search that ended with `outcome`.
pub open spec fn evidence_matches(p: FaceBandProblem, ev: FaceBandEvidence, fingerprint: u64,
    outcome: FaceBandOutcomeKind, plan: Option<FaceBandPlan>) -> bool {
    &&& ev.band_count == p.band_count
    &&& ev.face_complex_fingerprint == fingerprint
    &&& ev.transition_faces == p.transition_faces@.len()
    &&& ev.coarse_boundary_faces == p.coarse_boundary_faces@.len()
    &&& ev.fine_boundary_faces == p.fine_boundary_faces@.len()
    &&& ev.true_pinch_count == 0 && ev.one_face_wedge_count == 0 && ev.multi_face_wedge_count == 0
    &&& ev.cap_faces == 0 && ev.corridor_faces == 0 && ev.core_faces_sacrificed == 0
    &&& ev.anchor_policies@ == p.anchor_policies@
    &&& ev.source_face_rings == p.source_face_rings
    &&& ev.outcome == outcome
    &&& match plan {
        None => ev.band_face_counts@.len() == 0 && ev.interface_edge_counts@.len() == 0
            && ev.interface_vertex_counts@.len() == 0,
        Some(plan) => {
            &&& ev.band_face_counts@ == plan.band_face_counts@
            &&& ev.interface_edge_counts@.len() == plan.interface_edges@.len()
            &&& ev.interface_vertex_counts@.len() == plan.interface_edges@.len()
            &&& forall|k: int| 0 <= k < plan.interface_edges@.len() ==> #[trigger] ev.interface_edge_counts@[k] == plan.interface_edges@[k]@.len()
                && ev.interface_vertex_counts@[k] == crate::cycles::verts(plan.interface_edges@[k]@.to_set()).len()
        },
    }
}

impl<'a> Search<'a> {
    fn run(&mut self) -> (r: SearchResult)
        requires
            problem_wf(*old(self).problem),
            problem_error(*old(self).problem) is None,
            old(self).domains@ == initial_domains(*old(self).problem),
            !old(self).budget_hit,
            old(self).states == 0,
        ensures
            final(self).states <= final(self).maximum_states,
            r is Closed ==> final(self).states >= 1,
            face_band_state_bound(*old(self).problem) <= old(self).maximum_states ==> !(r is Budget),
            final(self).problem == old(self).problem,
            final(self).fingerprint == old(self).fingerprint,
            final(self).maximum_states == old(self).maximum_states,
            r is Budget ==> final(self).budget_hit && final(self).states >= final(self).maximum_states,
            r matches SearchResult::Closed(plan) ==> valid_labelling(*old(self).problem, plan.labels@)
                && plan_matches(*old(self).problem, plan, old(self).fingerprint),
            r is Exhausted ==> forall|l: Map<usize, u8>| problem_coherent(*old(self).problem) ==> !valid_labelling(*old(self).problem, l),
    {
        let ghost p = *self.problem;
        let ghost d0 = self.domains@;
        proof {
            assert(domains_respect(p, d0)) by {
                assert(d0.dom() =~= face_set(p));
            }
        }
        if !propagate(self.problem, &mut self.domains, &mut self.propagation_rounds, &mut self.pruned_domains) {
            proof {
                assert forall|l: Map<usize, u8>| problem_coherent(p) implies !valid_labelling(p, l) by {
                    if valid_labelling(p, l) {
                        lemma_valid_consistent_initial(p, l);
                    }
                }
            }
            return SearchResult::Exhausted;
        }
        let ghost d1 = self.domains@;
        proof {
            vstd::seq_lib::seq_to_set_is_finite(p.transition_faces@);
            lemma_shrink_pairs_subset(d1, d0);
            lemma_state_bound_mono(open_pairs(d1).len(), open_pairs(d0).len());
        }
        match self.search() {
            Some(plan) => SearchResult::Closed(plan),
            None => {
                if self.budget_hit {
                    SearchResult::Budget
                } else {
                    proof {
                        assert forall|l: Map<usize, u8>| problem_coherent(p) implies !valid_labelling(p, l) by {
                            if valid_labelling(p, l) {
                                lemma_valid_consistent_initial(p, l);
                                assert(consistent(l, d1));
                            }
                        }
                    }
                    SearchResult::Exhausted
                }
            },
        }
    }

    fn evidence(&self, outcome: FaceBandOutcomeKind, plan: Option<&FaceBandPlan>) -> (ev: FaceBandEvidence)
        ensures
            evidence_matches(*self.problem, ev, self.fingerprint, outcome, match plan { Some(x) => Some(*x), None => None }),
            ev.states_examined == self.states,
            ev.propagation_rounds == self.propagation_rounds,
            ev.pruned_domains == self.pruned_domains,
    {
        let mut band_face_counts: Vec<usize> = Vec::new();
        let mut interface_edge_counts: Vec<usize> = Vec::new();
        let mut interface_vertex_counts: Vec<usize> = Vec::new();
        match plan {
            Some(x) => {
                band_face_counts = crate::graph::copy_slots(&x.band_face_counts);
                let mut k: usize = 0;
                while k < x.interface_edges.len()
                    invariant
                        k <= x.interface_edges@.len(),
                        interface_edge_counts@.len() == k,
                        interface_vertex_counts@.len() == k,
                        forall|j: int| 0 <= j < k ==> #[trigger] interface_edge_counts@[j] == x.interface_edges@[j]@.len()
                            && interface_vertex_counts@[j] == crate::cycles::verts(x.interface_edges@[j]@.to_set()).len(),
                    decreases x.interface_edges@.len() - k,
                {
                    let edges = &x.interface_edges[k];
                    let ghost e0 = interface_edge_counts@;
                    let ghost v0 = interface_vertex_counts@;
                    interface_edge_counts.push(edges.len());
                    let vertices = edge_endpoints(edges);
                    let nv = vertices.len();
                    interface_vertex_counts.push(nv);
                    proof {
                        assert(nv == vertices@.len());
                        assert forall|j: int| 0 <= j < k + 1 implies #[trigger] interface_edge_counts@[j] == x.interface_edges@[j]@.len()
                            && interface_vertex_counts@[j] == crate::cycles::verts(x.interface_edges@[j]@.to_set()).len() by {
                            if j < k {
                                assert(interface_edge_counts@[j] == e0[j]);
                                assert(interface_vertex_counts@[j] == v0[j]);
                            }
                        }
                    }
                    k = k + 1;
                }
            },
            None => {},
        }
        FaceBandEvidence {
            band_count: self.problem.band_count,
            face_complex_fingerprint: self.fingerprint,
            transition_faces: self.problem.transition_faces.len(),
            coarse_boundary_faces: self.problem.coarse_boundary_faces.len(),
            fine_boundary_faces: self.problem.fine_boundary_faces.len(),
            states_examined: self.states,
            propagation_rounds: self.propagation_rounds,
            pruned_domains: self.pruned_domains,
            band_face_counts,
            interface_edge_counts,
            interface_vertex_counts,
            true_pinch_count: 0,
            one_face_wedge_count: 0,
            multi_face_wedge_count: 0,
            anchor_policies: self.problem.anchor_policies.clone(),
            cap_faces: 0,
            corridor_faces: 0,
            core_faces_sacrificed: 0,
            source_face_rings: self.problem.source_face_rings,
            outcome,
        }
    }
}

/// The exact face-band search. Invalid problems are answered with the first
/// failed check. A closed outcome carries a labelling that satisfies the whole
/// band contract; an exhausted outcome means that no labelling does, when face
/// adjacency is symmetric and vertex neighbours share a vertex; a budget
/// outcome means the state budget ran out first.
pub fn solve_exact_face_bands(problem: &FaceBandProblem, limits: FaceBandLimits) -> (r: FaceBandSolveOutcome)
    requires
        problem_error(*problem) is None ==> problem_wf(*problem),
    ensures
        r is InvalidInput <==> problem_error(*problem) is Some,
        r matches FaceBandSolveOutcome::InvalidInput { reason } ==> problem_error(*problem) == Some(reason@),
        problem_error(*problem) is None && problem_coherent(*problem) && (exists|l: Map<usize, u8>| valid_labelling(*problem, l))
            && face_band_state_bound(*problem) <= limits.maximum_states ==> r is Closed,
        r matches FaceBandSolveOutcome::Closed(_, evidence) ==> 1 <= evidence.states_examined <= limits.maximum_states,
        r matches FaceBandSolveOutcome::Closed(plan, _) ==> counts_sum(plan.band_face_counts@) == problem.transition_faces@.len(),
        r matches FaceBandSolveOutcome::FamilyExhaustedNoSolution { states_examined, .. } ==> states_examined <= limits.maximum_states,
        r matches FaceBandSolveOutcome::SearchBudgetExhausted { states_examined, .. } ==> states_examined == limits.maximum_states,
        r matches FaceBandSolveOutcome::Closed(plan, evidence) ==> valid_labelling(*problem, plan.labels@)
            && plan_matches(*problem, *plan, fnv_slots(fingerprint_slots(*problem)))
            && evidence_matches(*problem, evidence, fnv_slots(fingerprint_slots(*problem)), FaceBandOutcomeKind::Closed, Some(*plan)),
        r matches FaceBandSolveOutcome::FamilyExhaustedNoSolution { band_count, states_examined, evidence } ==>
            band_count == problem.band_count && states_examined == evidence.states_examined
            && evidence_matches(*problem, evidence, fnv_slots(fingerprint_slots(*problem)), FaceBandOutcomeKind::FamilyExhaustedNoSolution, None)
            && (problem_coherent(*problem) ==> forall|l: Map<usize, u8>| !valid_labelling(*problem, l)),
        r matches FaceBandSolveOutcome::SearchBudgetExhausted { band_count, states_examined, evidence } ==>
            band_count == problem.band_count && states_examined == evidence.states_examined
            && evidence_matches(*problem, evidence, fnv_slots(fingerprint_slots(*problem)), FaceBandOutcomeKind::SearchBudgetExhausted, None),
{
    match validate_problem(problem) {
        Err(reason) => FaceBandSolveOutcome::InvalidInput { reason },
        Ok(()) => {
            let fingerprint = fingerprint(problem);
            let mut search = Search::new(problem, limits.maximum_states, fingerprint);
            let outcome = search.run();
            match outcome {
                SearchResult::Closed(plan) => {
                    proof {
                        band_sizes_cover_faces(*problem, plan.labels@);
                        let c = plan.band_face_counts@;
                        assert(c[0] == band(*problem, plan.labels@, 0).len());
                        assert(c[1] == band(*problem, plan.labels@, 1).len());
                        if problem.band_count == 3 {
                            assert(c[2] == band(*problem, plan.labels@, 2).len());
                            assert(c.drop_last().drop_last().drop_last() =~= Seq::<usize>::empty());
                            assert(counts_sum(c) == c[0] + c[1] + c[2]) by {
                                reveal_with_fuel(counts_sum, 4);
                                assert(c.drop_last().drop_last().last() == c[0]);
                                assert(c.drop_last().last() == c[1]);
                            }
                        } else {
                            assert(c.drop_last().drop_last() =~= Seq::<usize>::empty());
                            assert(counts_sum(c) == c[0] + c[1]) by {
                                reveal_with_fuel(counts_sum, 3);
                                assert(c.drop_last().last() == c[0]);
                            }
                        }
                    }
                    let evidence = search.evidence(FaceBandOutcomeKind::Closed, Some(&plan));
                    FaceBandSolveOutcome::Closed(Box::new(plan), evidence)
                },
                SearchResult::Exhausted => {
                    let evidence = search.evidence(FaceBandOutcomeKind::FamilyExhaustedNoSolution, None);
                    FaceBandSolveOutcome::FamilyExhaustedNoSolution {
                        band_count: problem.band_count,
                        states_examined: search.states,
                        evidence,
                    }
                },
                SearchResult::Budget => {
                    let evidence = search.evidence(FaceBandOutcomeKind::SearchBudgetExhausted, None);
                    FaceBandSolveOutcome::SearchBudgetExhausted {
                        band_count: problem.band_count,
                        states_examined: search.states,
                        evidence,
                    }
                },
            }
        },
    }
}

// ---------------------------------------------------------------------------
// JSON

/// One labelled face as JSON.
pub open spec fn label_item_text(f: usize, x: u8) -> Seq<char> {
    "{\"face\":"@ + decimal(f as nat) + ",\"label\":"@ + decimal(x as nat) + "}"@
}

/// One edge as a JSON pair.
pub open spec fn edge_pair_text(e: Edge) -> Seq<char> {
    "["@ + decimal(e.0 as nat) + ","@ + decimal(e.1 as nat) + "]"@
}

/// A list of edges as a JSON array of pairs.
pub open spec fn edge_list_text(edges: Seq<Edge>) -> Seq<char> {
    "["@ + comma_join(edges.map(|i: int, e: Edge| edge_pair_text(e))) + "]"@
}

/// The JSON text of a plan: its band count, fingerprint, labels in face
/// order, interface edge lists and band face counts.
pub open spec fn plan_json_text(plan: FaceBandPlan) -> Seq<char> {
    "{\"band_count\":"@ + decimal(plan.band_count as nat) + ",\"face_complex_fingerprint\":"@
        + decimal(plan.face_complex_fingerprint as nat) + ",\"labels\":["@
        + comma_join(sorted_elements(plan.labels@.dom()).map(|i: int, f: usize| label_item_text(f, plan.labels@[f])))
        + "],\"interface_edges\":["@
        + comma_join(plan.interface_edges@.map(|i: int, v: Vec<Edge>| edge_list_text(v@)))
        + "],\"band_face_counts\":"@ + count_list_text(plan.band_face_counts@) + "}"@
}

/// The keys of a tree map in iteration order are its sorted keys.
proof fn lemma_map_keys_sorted<V>(full: Seq<(&usize, &V)>, m: Map<usize, V>)
    requires
        vstd::std_specs::btree::increasing_seq(full.map_values(|kv: (&usize, &V)| *kv.0)),
        full.len() == m.dom().len(),
        m.dom().finite(),
        forall|i: int| 0 <= i < full.len() ==> m.contains_key(*full[i].0),
        forall|k: usize| #[trigger] m.contains_key(k) ==> exists|i: int| 0 <= i < full.len() && *full[i].0 == k,
    ensures
        full.map_values(|kv: (&usize, &V)| *kv.0) == sorted_elements(m.dom()),
{
    let keys = full.map_values(|kv: (&usize, &V)| *kv.0);
    crate::reachability::lemma_increasing_keys(keys);
    assert forall|k: usize| keys.to_set().contains(k) <==> m.dom().contains(k) by {
        if m.dom().contains(k) {
            let i = choose|i: int| 0 <= i < full.len() && *full[i].0 == k;
            assert(keys[i] == k);
        }
        if keys.to_set().contains(k) {
            let i = choose|i: int| 0 <= i < keys.len() && keys[i] == k;
        }
    }
    assert(keys.to_set() =~= m.dom());
    assert(strictly_increasing(keys));
    let q = sorted_elements(m.dom());
    assert(q.to_set() == m.dom() && strictly_increasing(q));
    lemma_sorted_unique(keys, q);
}

fn push_edge_list(out: &mut String, edges: &Vec<Edge>)
    ensures
        final(out)@ == old(out)@ + edge_list_text(edges@),
{
    let ghost start = out@;
    let ghost items = edges@.map(|i: int, e: Edge| edge_pair_text(e));
    out.append("[");
    let mut i: usize = 0;
    while i < edges.len()
        invariant
            i <= edges@.len(),
            items == edges@.map(|i: int, e: Edge| edge_pair_text(e)),
            out@ == start + "["@ + comma_join(items.take(i as int)),
        decreases edges@.len() - i,
    {
        push_separator(out, i);
        let e = edges[i];
        out.append("[");
        push_usize(out, e.0);
        out.append(",");
        push_usize(out, e.1);
        out.append("]");
        proof {
            assert(items.take(i + 1) =~= items.take(i as int).push(items[i as int]));
            lemma_comma_join_push(items.take(i as int), items[i as int]);
            if i == 0 {
                assert(items.take(0) =~= Seq::<Seq<char>>::empty());
            }
            reveal_strlit(",");
            assert(out@ =~= start + "["@ + comma_join(items.take(i + 1)));
        }
        i = i + 1;
    }
    out.append("]");
    proof {
        assert(items.take(edges@.len() as int) =~= items);
        assert(out@ =~= start + edge_list_text(edges@));
    }
}

/// The JSON text of a face-band plan.
pub fn face_band_plan_json(plan: &FaceBandPlan) -> (out: String)
    ensures
        out@ == plan_json_text(*plan),
{
    let mut out = String::new();
    out.append("{\"band_count\":");
    push_usize(&mut out, plan.band_count);
    out.append(",\"face_complex_fingerprint\":");
    push_u64(&mut out, plan.face_complex_fingerprint);
    out.append(",\"labels\":[");
    let ghost head = out@;
    let ghost full = spec_btree_map_iter(&plan.labels).remaining();
    let ghost keys = full.map_values(|kv: (&usize, &u8)| *kv.0);
    let ghost items = keys.map(|i: int, f: usize| label_item_text(f, plan.labels@[f]));
    let total = plan.labels.len();
    let mut done: usize = 0;
    for kv in it: plan.labels.iter()
        invariant
            done == it.index(),
            it.index() <= full.len(),
            full.len() == total,
            it.seq() == full,
            full == spec_btree_map_iter(&plan.labels).remaining(),
            keys == full.map_values(|kv: (&usize, &u8)| *kv.0),
            items == keys.map(|i: int, f: usize| label_item_text(f, plan.labels@[f])),
            out@ == head + comma_join(items.take(it.index() as int)),
    {
        let ghost j0 = it.index();
        proof {
            assert(plan.labels@.contains_key(*full[j0].0) && plan.labels@[*full[j0].0] == *full[j0].1);
            assert(*full[j0].0 == *kv.0 && *full[j0].1 == *kv.1);
        }
        push_separator(&mut out, done);
        out.append("{\"face\":");
        push_usize(&mut out, *kv.0);
        out.append(",\"label\":");
        push_u64(&mut out, *kv.1 as u64);
        out.append("}");
        proof {
            assert(items.take(j0 + 1) =~= items.take(j0 as int).push(items[j0 as int]));
            lemma_comma_join_push(items.take(j0 as int), items[j0 as int]);
            if j0 == 0 {
                assert(items.take(0) =~= Seq::<Seq<char>>::empty());
            }
            assert(items[j0 as int] == label_item_text(*kv.0, *kv.1));
            assert(out@ =~= head + comma_join(items.take(j0 + 1)));
        }
        done = done + 1;
    }
    proof {
        assert(items.take(full.len() as int) =~= items);
        assert forall|k: usize| #[trigger] plan.labels@.contains_key(k) implies exists|i: int| 0 <= i < full.len() && *full[i].0 == k by {
            assert(full.contains((&k, &plan.labels@[k])));
            let i = choose|i: int| 0 <= i < full.len() && full[i] == (&k, &plan.labels@[k]);
            assert(*full[i].0 == k);
        }
        lemma_map_keys_sorted(full, plan.labels@);
    }
    out.append("],\"interface_edges\":[");
    let ghost head2 = out@;
    let ghost iitems = plan.interface_edges@.map(|i: int, v: Vec<Edge>| edge_list_text(v@));
    let mut k: usize = 0;
    while k < plan.interface_edges.len()
        invariant
            k <= plan.interface_edges@.len(),
            iitems == plan.interface_edges@.map(|i: int, v: Vec<Edge>| edge_list_text(v@)),
            out@ == head2 + comma_join(iitems.take(k as int)),
        decreases plan.interface_edges@.len() - k,
    {
        push_separator(&mut out, k);
        push_edge_list(&mut out, &plan.interface_edges[k]);
        proof {
            assert(iitems.take(k + 1) =~= iitems.take(k as int).push(iitems[k as int]));
            lemma_comma_join_push(iitems.take(k as int), iitems[k as int]);
            if k == 0 {
                assert(iitems.take(0) =~= Seq::<Seq<char>>::empty());
            }
            assert(out@ =~= head2 + comma_join(iitems.take(k + 1)));
        }
        k = k + 1;
    }
    proof {
        assert(iitems.take(plan.interface_edges@.len() as int) =~= iitems);
    }
    out.append("],\"band_face_counts\":");
    push_count_list(&mut out, &plan.band_face_counts);
    out.append("}");
    proof {
        assert(out@ =~= plan_json_text(*plan));
    }
    out
}

/// One anchor policy as a JSON member.
pub open spec fn anchor_item_text(v: usize, policy: AnchorBandPolicy) -> Seq<char> {
    "\""@ + decimal(v as nat) + "\":\""@ + anchor_policy_label(policy) + "\""@
}

/// The JSON text of face-band evidence, anchors in vertex order.
pub open spec fn evidence_json_text(ev: FaceBandEvidence) -> Seq<char> {
    "{\"ladder_step\":\""@
        + ladder_step_label(ev.source_face_rings)
        + "\",\"band_count\":"@
        + decimal(ev.band_count as nat)
        + ",\"face_complex_fingerprint\":"@
        + decimal(ev.face_complex_fingerprint as nat)
        + ",\"transition_faces\":"@
        + decimal(ev.transition_faces as nat)
        + ",\"coarse_boundary_faces\":"@
        + decimal(ev.coarse_boundary_faces as nat)
        + ",\"fine_boundary_faces\":"@
        + decimal(ev.fine_boundary_faces as nat)
        + ",\"states_examined\":"@
        + decimal(ev.states_examined as nat)
        + ",\"propagation_rounds\":"@
        + decimal(ev.propagation_rounds as nat)
        + ",\"pruned_domains\":"@
        + decimal(ev.pruned_domains as nat)
        + ",\"band_face_counts\":"@
        + count_list_text(ev.band_face_counts@)
        + ",\"interface_edge_counts\":"@
        + count_list_text(ev.interface_edge_counts@)
        + ",\"interface_vertex_counts\":"@
        + count_list_text(ev.interface_vertex_counts@)
        + ",\"true_pinch_count\":"@
        + decimal(ev.true_pinch_count as nat)
        + ",\"one_face_wedge_count\":"@
        + decimal(ev.one_face_wedge_count as nat)
        + ",\"multi_face_wedge_count\":"@
        + decimal(ev.multi_face_wedge_count as nat)
        + ",\"anchor_policies\":{"@
        + comma_join(sorted_elements(ev.anchor_policies@.dom()).map(|i: int, v: usize| anchor_item_text(v, ev.anchor_policies@[v])))
        + "},\"cap_faces\":"@
        + decimal(ev.cap_faces as nat)
        + ",\"corridor_faces\":"@
        + decimal(ev.corridor_faces as nat)
        + ",\"core_faces_sacrificed\":"@
        + decimal(ev.core_faces_sacrificed as nat)
        + ",\"outcome\":\""@
        + outcome_kind_label(ev.outcome)
        + "\"}"@
}

fn push_anchor_items(out: &mut String, anchors: &BTreeMap<usize, AnchorBandPolicy>)
    ensures
        final(out)@ == old(out)@ + comma_join(sorted_elements(anchors@.dom()).map(|i: int, v: usize| anchor_item_text(v, anchors@[v]))),
{
    let ghost head = out@;
    let ghost full = spec_btree_map_iter(anchors).remaining();
    let ghost keys = full.map_values(|kv: (&usize, &AnchorBandPolicy)| *kv.0);
    let ghost items = keys.map(|i: int, v: usize| anchor_item_text(v, anchors@[v]));
    let total = anchors.len();
    let mut done: usize = 0;
    for kv in it: anchors.iter()
        invariant
            done == it.index(),
            it.index() <= full.len(),
            full.len() == total,
            it.seq() == full,
            full == spec_btree_map_iter(anchors).remaining(),
            keys == full.map_values(|kv: (&usize, &AnchorBandPolicy)| *kv.0),
            items == keys.map(|i: int, v: usize| anchor_item_text(v, anchors@[v])),
            out@ == head + comma_join(items.take(it.index() as int)),
    {
        let ghost j0 = it.index();
        proof {
            assert(anchors@.contains_key(*full[j0].0) && anchors@[*full[j0].0] == *full[j0].1);
            assert(*full[j0].0 == *kv.0 && *full[j0].1 == *kv.1);
        }
        push_separator(out, done);
        out.append("\"");
        push_usize(out, *kv.0);
        out.append("\":\"");
        out.append(kv.1.as_str());
        out.append("\"");
        proof {
            assert(items.take(j0 + 1) =~= items.take(j0 as int).push(items[j0 as int]));
            lemma_comma_join_push(items.take(j0 as int), items[j0 as int]);
            if j0 == 0 {
                assert(items.take(0) =~= Seq::<Seq<char>>::empty());
            }
            assert(items[j0 as int] == anchor_item_text(*kv.0, *kv.1));
            assert(out@ =~= head + comma_join(items.take(j0 + 1)));
        }
        done = done + 1;
    }
    proof {
        assert(items.take(full.len() as int) =~= items);
        assert forall|k: usize| #[trigger] anchors@.contains_key(k) implies exists|i: int| 0 <= i < full.len() && *full[i].0 == k by {
            assert(full.contains((&k, &anchors@[k])));
            let i = choose|i: int| 0 <= i < full.len() && full[i] == (&k, &anchors@[k]);
            assert(*full[i].0 == k);
        }
        lemma_map_keys_sorted(full, anchors@);
    }
}

/// The JSON text of face-band evidence.
pub fn face_band_evidence_json(evidence: &FaceBandEvidence) -> (out: String)
    ensures
        out@ == evidence_json_text(*evidence),
{
    let mut out = String::new();
    out.append("{\"ladder_step\":\"");
    out.append(ladder_step(evidence.source_face_rings));
    out.append("\",\"band_count\":");
    push_usize(&mut out, evidence.band_count);
    out.append(",\"face_complex_fingerprint\":");
    push_u64(&mut out, evidence.face_complex_fingerprint);
    out.append(",\"transition_faces\":");
    push_usize(&mut out, evidence.transition_faces);
    out.append(",\"coarse_boundary_faces\":");
    push_usize(&mut out, evidence.coarse_boundary_faces);
    out.append(",\"fine_boundary_faces\":");
    push_usize(&mut out, evidence.fine_boundary_faces);
    out.append(",\"states_examined\":");
    push_u64(&mut out, evidence.states_examined);
    out.append(",\"propagation_rounds\":");
    push_usize(&mut out, evidence.propagation_rounds);
    out.append(",\"pruned_domains\":");
    push_usize(&mut out, evidence.pruned_domains);
    out.append(",\"band_face_counts\":");
    push_count_list(&mut out, &evidence.band_face_counts);
    out.append(",\"interface_edge_counts\":");
    push_count_list(&mut out, &evidence.interface_edge_counts);
    out.append(",\"interface_vertex_counts\":");
    push_count_list(&mut out, &evidence.interface_vertex_counts);
    out.append(",\"true_pinch_count\":");
    push_usize(&mut out, evidence.true_pinch_count);
    out.append(",\"one_face_wedge_count\":");
    push_usize(&mut out, evidence.one_face_wedge_count);
    out.append(",\"multi_face_wedge_count\":");
    push_usize(&mut out, evidence.multi_face_wedge_count);
    out.append(",\"anchor_policies\":{");
    push_anchor_items(&mut out, &evidence.anchor_policies);
    out.append("},\"cap_faces\":");
    push_usize(&mut out, evidence.cap_faces);
    out.append(",\"corridor_faces\":");
    push_usize(&mut out, evidence.corridor_faces);
    out.append(",\"core_faces_sacrificed\":");
    push_usize(&mut out, evidence.core_faces_sacrificed);
    out.append(",\"outcome\":\"");
    out.append(evidence.outcome.as_str());
    out.append("\"}");
    proof {
        assert(out@ =~= evidence_json_text(*evidence));
    }
    out
}


/// The plan is a valid labelling of the problem with the counts, interfaces
/// and fingerprint that the labelling determines.
pub open spec fn plan_valid(p: FaceBandProblem, plan: FaceBandPlan) -> bool {
    &&& problem_error(p) is None
    &&& valid_labelling(p, plan.labels@)
    &&& plan_matches(p, plan, fnv_slots(fingerprint_slots(p)))
}

pub fn edge_lists_equal(a: &Vec<Edge>, b: &Vec<Edge>) -> (r: bool)
    ensures
        r == (a@ == b@),
{
    if a.len() != b.len() {
        return false;
    }
    let mut i: usize = 0;
    while i < a.len()
        invariant
            i <= a@.len(),
            a@.len() == b@.len(),
            forall|k: int| 0 <= k < i ==> a@[k] == b@[k],
        decreases a@.len() - i,
    {
        if a[i].0 != b[i].0 || a[i].1 != b[i].1 {
            return false;
        }
        i = i + 1;
    }
    proof {
        assert(a@ =~= b@);
    }
    true
}

fn count_lists_equal(a: &Vec<usize>, b: &Vec<usize>) -> (r: bool)
    ensures
        r == (a@ == b@),
{
    if a.len() != b.len() {
        return false;
    }
    let mut i: usize = 0;
    while i < a.len()
        invariant
            i <= a@.len(),
            a@.len() == b@.len(),
            forall|k: int| 0 <= k < i ==> a@[k] == b@[k],
        decreases a@.len() - i,
    {
        if a[i] != b[i] {
            return false;
        }
        i = i + 1;
    }
    proof {
        assert(a@ =~= b@);
    }
    true
}

/// Two plans that match one labelling of one problem have the same counts,
/// interfaces and fingerprint.
pub(crate) proof fn lemma_plan_unique(p: FaceBandProblem, a: FaceBandPlan, b: FaceBandPlan, fp: u64)
    requires
        plan_matches(p, a, fp),
        plan_matches(p, b, fp),
        a.labels@ == b.labels@,
    ensures
        a.band_face_counts@ == b.band_face_counts@,
        a.interface_edges@.len() == b.interface_edges@.len(),
        forall|k: int| 0 <= k < a.interface_edges@.len() ==> (#[trigger] a.interface_edges@[k])@ == b.interface_edges@[k]@,
{
    assert(a.band_face_counts@ =~= b.band_face_counts@);
    assert forall|k: int| 0 <= k < a.interface_edges@.len() implies (#[trigger] a.interface_edges@[k])@ == b.interface_edges@[k]@ by {
        crate::polygon_incidence::lemma_edges_sorted_unique(a.interface_edges@[k]@, b.interface_edges@[k]@);
    }
}

/// The plan that a labelling determines, when the labelling is valid for a
/// problem that the solver accepts; `None` when no plan with these labels is
/// valid.
pub fn plan_for_labels(problem: &FaceBandProblem, labels: &BTreeMap<usize, u8>) -> (r: Option<FaceBandPlan>)
    requires
        problem_error(*problem) is None ==> problem_wf(*problem),
    ensures
        r matches Some(pl) ==> pl.labels@ == labels@ && plan_valid(*problem, pl),
        r is None ==> forall|pl: FaceBandPlan| pl.labels@ == labels@ ==> !#[trigger] plan_valid(*problem, pl),
{
    let ghost p = *problem;
    if validate_problem(problem).is_err() {
        return None;
    }
    let faces = &problem.transition_faces;
    let mut domains: BTreeMap<usize, [bool; 3]> = BTreeMap::new();
    let mut i: usize = 0;
    while i < faces.len()
        invariant
            p == *problem,
            problem_wf(p),
            problem_error(p) is None,
            faces@ == p.transition_faces@,
            i <= faces@.len(),
            forall|f: usize| #[trigger] domains@.contains_key(f) <==> exists|k: int| 0 <= k < i && faces@[k] == f,
            forall|f: usize| #[trigger] domains@.contains_key(f) ==> labels@.contains_key(f) && labels@[f] < p.band_count
                && domains@[f] == [labels@[f] == 0, labels@[f] == 1, labels@[f] == 2]
                && (p.coarse_boundary_faces@.contains(f) ==> labels@[f] == 0)
                && (p.fine_boundary_faces@.contains(f) ==> labels@[f] == last_label(p)),
        decreases faces@.len() - i,
    {
        let f = faces[i];
        let l = match labels.get(&f) {
            Some(l) => *l,
            None => {
                proof {
                    assert(face_set(p).contains(f));
                }
                return None;
            },
        };
        if (l as usize) >= problem.band_count {
            return None;
        }
        if problem.coarse_boundary_faces.contains(&f) && l != 0 {
            return None;
        }
        if problem.fine_boundary_faces.contains(&f) && (l as usize) != problem.band_count - 1 {
            return None;
        }
        domains.insert(f, [l == 0, l == 1, l == 2]);
        i = i + 1;
    }
    proof {
        assert forall|f: usize| #[trigger] domains@.contains_key(f) <==> face_set(p).contains(f) by {
            if face_set(p).contains(f) {
                let k = choose|k: int| 0 <= k < faces@.len() && faces@[k] == f;
            }
        }
        assert(domains@.dom() =~= face_set(p));
    }
    let n_labels = labels.len();
    if n_labels != domains.len() {
        proof {
            assert(labels@.dom() != face_set(p)) by {
                if labels@.dom() == face_set(p) {
                    assert(labels@.dom() =~= domains@.dom());
                }
            }
        }
        return None;
    }
    proof {
        assert(domains@.dom().subset_of(labels@.dom()));
        lemma_set_finite_map(labels);
        vstd::set_lib::lemma_len_subset(domains@.dom(), labels@.dom());
        assert(labels@.dom() =~= domains@.dom()) by {
            if !(labels@.dom() =~= domains@.dom()) {
                let x = choose|x: usize| labels@.dom().contains(x) && !domains@.dom().contains(x);
                vstd::set_lib::lemma_len_subset(domains@.dom(), labels@.dom().remove(x));
            }
        }
        assert(domains_respect(p, domains@));
        assert(least_labels(domains@) == Some(labels@)) by {
            assert(Map::new(|f: usize| domains@.contains_key(f), |f: usize| domain_min(domains@[f])->0) =~= labels@);
        }
    }
    let fp = fingerprint(problem);
    validate_complete(problem, &domains, fp)
}

/// Whether the plan is a valid labelling of a problem that the solver accepts,
/// with exactly the counts, interfaces and fingerprint of that labelling.
pub fn face_band_plan_is_valid(problem: &FaceBandProblem, plan: &FaceBandPlan) -> (r: bool)
    requires
        problem_error(*problem) is None ==> problem_wf(*problem),
    ensures
        r == plan_valid(*problem, *plan),
{
    let ghost p = *problem;
    match plan_for_labels(problem, &plan.labels) {
        None => false,
        Some(built) => {
            let ghost fp = fnv_slots(fingerprint_slots(p));
            if plan.band_count != built.band_count {
                return false;
            }
            if plan.face_complex_fingerprint != built.face_complex_fingerprint {
                return false;
            }
            if !count_lists_equal(&plan.band_face_counts, &built.band_face_counts) {
                proof {
                    if plan_matches(p, *plan, fp) {
                        lemma_plan_unique(p, *plan, built, fp);
                    }
                }
                return false;
            }
            if plan.interface_edges.len() != built.interface_edges.len() {
                return false;
            }
            let mut k: usize = 0;
            while k < plan.interface_edges.len()
                invariant
                    k <= plan.interface_edges@.len(),
                    plan.interface_edges@.len() == built.interface_edges@.len(),
                    forall|j: int| 0 <= j < k ==> (#[trigger] plan.interface_edges@[j])@ == built.interface_edges@[j]@,
                    p == *problem,
                    fp == fnv_slots(fingerprint_slots(p)),
                    plan_valid(p, built),
                    built.labels@ == plan.labels@,
                    plan.band_face_counts@ == built.band_face_counts@,
                    plan.face_complex_fingerprint == built.face_complex_fingerprint,
                    plan.band_count == built.band_count,
                decreases plan.interface_edges@.len() - k,
            {
                if !edge_lists_equal(&plan.interface_edges[k], &built.interface_edges[k]) {
                    proof {
                        if plan_matches(p, *plan, fp) {
                            lemma_plan_unique(p, *plan, built, fp);
                        }
                    }
                    return false;
                }
                k = k + 1;
            }
            proof {
                assert(plan_matches(p, *plan, fp));
            }
            true
        },
    }
}

proof fn lemma_set_finite_map<V>(m: &BTreeMap<usize, V>)
    ensures
        m@.dom().finite(),
{
    let r = spec_btree_map_iter(m).remaining();
    assert forall|k: usize| m@.dom().contains(k) implies r.map_values(|kv: (&usize, &V)| *kv.0).to_set().contains(k) by {
        assert(r.contains((&k, &m@[k])));
        let j = choose|j: int| 0 <= j < r.len() && r[j] == (&k, &m@[k]);
        assert(r.map_values(|kv: (&usize, &V)| *kv.0)[j] == k);
    }
    vstd::seq_lib::seq_to_set_is_finite(r.map_values(|kv: (&usize, &V)| *kv.0));
    vstd::set_lib::lemma_len_subset(m@.dom(), r.map_values(|kv: (&usize, &V)| *kv.0).to_set());
}

} // verus!
