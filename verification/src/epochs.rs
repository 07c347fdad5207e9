//! The decisions of certified coarsening epochs: the order in which
//! candidate patches are tried, what each attempt changes in the budget, the
//! report and the sets of dirty sites and blocked patches, when an epoch ends
//! the run, and which candidates the next epoch reconsiders. The mesh work
//! between these decisions (refreshing a patch, solving its cavity) is done
//! by the caller, who hands each result back.

use vstd::prelude::*;
use std::collections::{BTreeMap, BTreeSet};
use crate::records::TriangleAddress;
use crate::essential_cycle::VertexAddress;

verus! {

/// A candidate vertex to retire, with its parent faces, its one-ring and the
/// slack of its level requirement.
#[derive(Debug, Clone, PartialEq, Eq)]
pub struct CoarseningPatch {
    pub vertex: usize,
    pub seed_face: usize,
    pub address: VertexAddress,
    pub level: usize,
    pub parent_faces: Vec<TriangleAddress>,
    pub boundary_cycle: Vec<usize>,
    pub retained_vertices: Vec<usize>,
    pub removable_vertices: Vec<usize>,
    pub transition_halo: Vec<usize>,
    pub requirement_margin: isize,
}

/// Limits of a run of epochs.
#[derive(Debug, Clone, Copy, PartialEq, Eq)]
pub struct CertifiedEpochLimits {
    pub max_adjacent_level_delta: usize,
    pub search_state_budget: usize,
}

/// How one attempt on a candidate ended.
#[derive(Debug, Clone, Copy, PartialEq, Eq)]
pub enum EpochCandidateStatus {
    Committed,
    ProvenInfeasible,
    SearchBudgetExhausted,
    InvalidBoundary,
}

/// One attempt on a candidate in an epoch.
#[derive(Debug, Clone, PartialEq, Eq)]
pub struct EpochCandidateAttempt {
    pub epoch: usize,
    pub vertex: usize,
    pub address: VertexAddress,
    pub status: EpochCandidateStatus,
    pub states_examined: usize,
    pub reason: Option<String>,
}

/// What the caller found when it tried a candidate.
#[derive(Debug, Clone, PartialEq, Eq)]
pub enum CandidateResult {
    /// The candidate no longer has a closed one-ring.
    Stale,
    /// The cavity was retriangulated and committed; the sites of its ring
    /// and of its new faces.
    Committed { states_examined: usize, touched_sites: Vec<usize> },
    ProvenInfeasible { states_examined: usize, reason: String },
    SearchBudgetExhausted { states_examined: usize },
    InvalidBoundary { reason: String },
}

/// Where a run of epochs stands.
#[derive(Debug, Clone, PartialEq, Eq)]
pub struct EpochProgress {
    /// Commits of each closed epoch.
    pub epoch_commits: Vec<usize>,
    pub remaining_budget: usize,
    pub states_examined: usize,
    /// Commits so far in the open epoch.
    pub committed: usize,
    /// Sites touched by the open epoch's commits.
    pub dirty_sites: BTreeSet<usize>,
    pub attempts: Vec<EpochCandidateAttempt>,
    /// Vertices whose last attempt was proven infeasible.
    pub blocked: BTreeSet<usize>,
}

/// The reason recorded for a candidate without a closed one-ring.
pub open spec fn stale_reason() -> Seq<char> {
    "candidate no longer has a closed one-ring"@
}

/// The status, state count and reason recorded for a result.
pub open spec fn attempt_of(result: CandidateResult) -> (EpochCandidateStatus, usize, Option<Seq<char>>) {
    match result {
        CandidateResult::Stale => (EpochCandidateStatus::InvalidBoundary, 0, Some(stale_reason())),
        CandidateResult::Committed { states_examined, .. } => (EpochCandidateStatus::Committed, states_examined, None),
        CandidateResult::ProvenInfeasible { states_examined, reason } =>
            (EpochCandidateStatus::ProvenInfeasible, states_examined, Some(reason@)),
        CandidateResult::SearchBudgetExhausted { states_examined } =>
            (EpochCandidateStatus::SearchBudgetExhausted, states_examined, None),
        CandidateResult::InvalidBoundary { reason } => (EpochCandidateStatus::InvalidBoundary, 0, Some(reason@)),
    }
}

/// The states that a result spends from the budget and adds to the count.
pub open spec fn result_states(result: CandidateResult) -> usize {
    match result {
        CandidateResult::Committed { states_examined, .. } => states_examined,
        CandidateResult::ProvenInfeasible { states_examined, .. } => states_examined,
        CandidateResult::SearchBudgetExhausted { states_examined } => states_examined,
        _ => 0,
    }
}

/// `a` is the attempt recorded for `result` in `epoch`.
pub open spec fn attempt_matches(a: EpochCandidateAttempt, epoch: usize, vertex: usize, address: VertexAddress,
    result: CandidateResult) -> bool {
    let (status, states, reason) = attempt_of(result);
    &&& a.epoch == epoch
    &&& a.vertex == vertex
    &&& a.address == address
    &&& a.status == status
    &&& a.states_examined == states
    &&& match reason {
        Some(r) => a.reason matches Some(s) && s@ == r,
        None => a.reason is None,
    }
}

fn copy_string(s: &String) -> (out: String)
    ensures
        out@ == s@,
{
    let mut out = String::new();
    out.append(s.as_str());
    out
}

/// Add the sites to the set.
fn add_sites(set: &mut BTreeSet<usize>, sites: &Vec<usize>)
    ensures
        final(set)@ == old(set)@ + sites@.to_set(),
{
    let mut i: usize = 0;
    proof {
        assert(set@ =~= old(set)@ + sites@.take(0).to_set());
    }
    while i < sites.len()
        invariant
            i <= sites@.len(),
            set@ == old(set)@ + sites@.take(i as int).to_set(),
        decreases sites@.len() - i,
    {
        set.insert(sites[i]);
        proof {
            sites@.take(i as int).lemma_push_to_set_commute(sites@[i as int]);
            assert(sites@.take(i + 1) =~= sites@.take(i as int).push(sites@[i as int]));
            assert(set@ =~= old(set)@ + sites@.take(i + 1).to_set());
        }
        i = i + 1;
    }
    proof {
        assert(sites@.take(sites@.len() as int) =~= sites@);
    }
}

impl EpochProgress {
    /// A run that has not tried anything, with the whole budget.
    pub fn start(limits: CertifiedEpochLimits) -> (p: Self)
        ensures
            p.epoch_commits@.len() == 0,
            p.remaining_budget == limits.search_state_budget,
            p.states_examined == 0,
            p.committed == 0,
            p.dirty_sites@.len() == 0,
            p.attempts@.len() == 0,
            p.blocked@.len() == 0,
    {
        EpochProgress {
            epoch_commits: Vec::new(),
            remaining_budget: limits.search_state_budget,
            states_examined: 0,
            committed: 0,
            dirty_sites: BTreeSet::new(),
            attempts: Vec::new(),
            blocked: BTreeSet::new(),
        }
    }

    /// The number of the open epoch, counting from one.
    pub fn epoch(&self) -> (e: usize)
        requires
            self.epoch_commits@.len() < usize::MAX,
        ensures
            e == self.epoch_commits@.len() + 1,
    {
        self.epoch_commits.len() + 1
    }

    /// Before a live candidate is tried: the budget is spent and the run must
    /// stop with its search exhausted.
    pub fn budget_spent(&self) -> (r: bool)
        ensures
            r == (self.remaining_budget == 0),
    {
        self.remaining_budget == 0
    }

    /// Record what trying the candidate `vertex` at `address` gave. The
    /// answer is whether the run must stop now, its search exhausted.
    pub fn record_attempt(&mut self, vertex: usize, address: VertexAddress, result: CandidateResult) -> (stop: bool)
        requires
            old(self).epoch_commits@.len() < usize::MAX,
            old(self).states_examined + result_states(result) <= usize::MAX,
            old(self).committed < usize::MAX,
        ensures
            stop == (result is SearchBudgetExhausted),
            final(self).epoch_commits@ == old(self).epoch_commits@,
            final(self).attempts@.len() == old(self).attempts@.len() + 1,
            final(self).attempts@.drop_last() == old(self).attempts@,
            attempt_matches(final(self).attempts@.last(), (old(self).epoch_commits@.len() + 1) as usize, vertex, address, result),
            final(self).states_examined == old(self).states_examined + result_states(result),
            final(self).remaining_budget == match result {
                CandidateResult::Committed { .. } | CandidateResult::ProvenInfeasible { .. } =>
                    if old(self).remaining_budget >= result_states(result) { (old(self).remaining_budget - result_states(result)) as usize }
                    else { 0usize },
                _ => old(self).remaining_budget,
            },
            final(self).committed == old(self).committed + (if result is Committed { 1int } else { 0int }),
            final(self).dirty_sites@ == match result {
                CandidateResult::Committed { touched_sites, .. } => old(self).dirty_sites@ + touched_sites@.to_set(),
                _ => old(self).dirty_sites@,
            },
            final(self).blocked@ == match result {
                CandidateResult::Committed { .. } => old(self).blocked@.remove(vertex),
                CandidateResult::ProvenInfeasible { .. } => old(self).blocked@.insert(vertex),
                _ => old(self).blocked@,
            },
    {
        let epoch = self.epoch_commits.len() + 1;
        match result {
            CandidateResult::Stale => {
                proof { reveal_strlit("candidate no longer has a closed one-ring"); }
                self.attempts.push(EpochCandidateAttempt {
                    epoch, vertex, address, status: EpochCandidateStatus::InvalidBoundary, states_examined: 0,
                    reason: Some("candidate no longer has a closed one-ring".to_string()),
                });
                false
            },
            CandidateResult::Committed { states_examined, touched_sites } => {
                self.remaining_budget = self.remaining_budget.saturating_sub(states_examined);
                self.states_examined = self.states_examined + states_examined;
                self.attempts.push(EpochCandidateAttempt {
                    epoch, vertex, address, status: EpochCandidateStatus::Committed, states_examined, reason: None,
                });
                add_sites(&mut self.dirty_sites, &touched_sites);
                self.blocked.remove(&vertex);
                self.committed = self.committed + 1;
                false
            },
            CandidateResult::ProvenInfeasible { states_examined, reason } => {
                self.remaining_budget = self.remaining_budget.saturating_sub(states_examined);
                self.states_examined = self.states_examined + states_examined;
                self.attempts.push(EpochCandidateAttempt {
                    epoch, vertex, address, status: EpochCandidateStatus::ProvenInfeasible, states_examined,
                    reason: Some(copy_string(&reason)),
                });
                self.blocked.insert(vertex);
                false
            },
            CandidateResult::SearchBudgetExhausted { states_examined } => {
                self.states_examined = self.states_examined + states_examined;
                self.attempts.push(EpochCandidateAttempt {
                    epoch, vertex, address, status: EpochCandidateStatus::SearchBudgetExhausted, states_examined, reason: None,
                });
                true
            },
            CandidateResult::InvalidBoundary { reason } => {
                self.attempts.push(EpochCandidateAttempt {
                    epoch, vertex, address, status: EpochCandidateStatus::InvalidBoundary, states_examined: 0,
                    reason: Some(copy_string(&reason)),
                });
                false
            },
        }
    }
}

/// The next epoch reconsiders a refreshed candidate whose vertex or one of
/// whose retained vertices was touched.
pub open spec fn reconsidered(dirty: Set<usize>, r: Option<(usize, Vec<usize>)>) -> bool {
    match r {
        Some((v, retained)) => dirty.contains(v) || exists|k: int| 0 <= k < retained@.len() && dirty.contains(#[trigger] retained@[k]),
        None => false,
    }
}

/// The indices below `upto` that the next epoch reconsiders, in order.
pub open spec fn pending_upto(dirty: Set<usize>, refreshed: Seq<Option<(usize, Vec<usize>)>>, upto: int) -> Seq<usize>
    decreases upto,
{
    if upto <= 0 {
        Seq::empty()
    } else {
        pending_upto(dirty, refreshed, upto - 1)
            + if reconsidered(dirty, refreshed[upto - 1]) { seq![(upto - 1) as usize] } else { Seq::<usize>::empty() }
    }
}

proof fn lemma_pending_increasing(dirty: Set<usize>, refreshed: Seq<Option<(usize, Vec<usize>)>>, upto: int)
    requires
        upto <= usize::MAX + 1,
    ensures
        forall|a: int, b: int| 0 <= a < b < pending_upto(dirty, refreshed, upto).len()
            ==> pending_upto(dirty, refreshed, upto)[a] < pending_upto(dirty, refreshed, upto)[b],
        forall|a: int| 0 <= a < pending_upto(dirty, refreshed, upto).len() ==> pending_upto(dirty, refreshed, upto)[a] < upto,
    decreases upto,
{
    if upto > 0 {
        lemma_pending_increasing(dirty, refreshed, upto - 1);
        let prev = pending_upto(dirty, refreshed, upto - 1);
        let cur = pending_upto(dirty, refreshed, upto);
        if reconsidered(dirty, refreshed[upto - 1]) {
            assert(cur =~= prev.push((upto - 1) as usize));
            assert forall|a: int, b: int| 0 <= a < b < cur.len() implies cur[a] < cur[b] by {
                if b == cur.len() - 1 {
                    assert(cur[a] == prev[a]);
                } else {
                    assert(cur[a] == prev[a] && cur[b] == prev[b]);
                }
            }
            assert forall|a: int| 0 <= a < cur.len() implies cur[a] < upto by {
                if a < prev.len() {
                    assert(cur[a] == prev[a]);
                }
            }
        } else {
            assert(cur =~= prev);
        }
    }
}

fn touches(dirty: &BTreeSet<usize>, r: &Option<(usize, Vec<usize>)>) -> (b: bool)
    ensures
        b == reconsidered(dirty@, *r),
{
    match r {
        Some((v, retained)) => {
            if dirty.contains(v) {
                return true;
            }
            let mut k: usize = 0;
            while k < retained.len()
                invariant
                    k <= retained@.len(),
                    *r == Some((*v, *retained)),
                    forall|q: int| 0 <= q < k ==> !dirty@.contains(#[trigger] retained@[q]),
                decreases retained@.len() - k,
            {
                if dirty.contains(&retained[k]) {
                    proof {
                        assert(dirty@.contains(retained@[k as int]));
                        let pair = r->0;
                        assert(pair.1 == *retained);
                        assert(exists|q: int| 0 <= q < pair.1@.len() && dirty@.contains(#[trigger] pair.1@[q]));
                    }
                    return true;
                }
                k = k + 1;
            }
            false
        },
        None => false,
    }
}

impl EpochProgress {
    /// Close the open epoch: record its commits. The answer is whether
    /// another epoch follows (some candidate was committed).
    pub fn close_epoch(&mut self) -> (again: bool)
        ensures
            final(self).epoch_commits@ == old(self).epoch_commits@.push(old(self).committed),
            again == (old(self).committed != 0),
            final(self).remaining_budget == old(self).remaining_budget,
            final(self).states_examined == old(self).states_examined,
            final(self).committed == old(self).committed,
            final(self).dirty_sites@ == old(self).dirty_sites@,
            final(self).attempts@ == old(self).attempts@,
            final(self).blocked@ == old(self).blocked@,
    {
        self.epoch_commits.push(self.committed);
        self.committed != 0
    }

    /// Open the next epoch. `refreshed[i]` is, for candidate `i` of the
    /// pool, its refreshed vertex and retained vertices when its vertex is
    /// live and it still has a closed one-ring. The answer lists the
    /// candidates touched by the closed epoch's commits, in pool order; the
    /// new epoch starts with no commits and no dirty sites.
    pub fn next_epoch(&mut self, refreshed: &Vec<Option<(usize, Vec<usize>)>>) -> (pending: Vec<usize>)
        ensures
            pending@ == pending_upto(old(self).dirty_sites@, refreshed@, refreshed@.len() as int),
            forall|a: int, b: int| 0 <= a < b < pending@.len() ==> pending@[a] < pending@[b],
            forall|a: int| 0 <= a < pending@.len() ==> pending@[a] < refreshed@.len(),
            final(self).committed == 0,
            final(self).dirty_sites@.len() == 0,
            final(self).epoch_commits@ == old(self).epoch_commits@,
            final(self).remaining_budget == old(self).remaining_budget,
            final(self).states_examined == old(self).states_examined,
            final(self).attempts@ == old(self).attempts@,
            final(self).blocked@ == old(self).blocked@,
    {
        let mut pending: Vec<usize> = Vec::new();
        let mut i: usize = 0;
        while i < refreshed.len()
            invariant
                i <= refreshed@.len(),
                pending@ == pending_upto(self.dirty_sites@, refreshed@, i as int),
                *self == *old(self),
            decreases refreshed@.len() - i,
        {
            if touches(&self.dirty_sites, &refreshed[i]) {
                pending.push(i);
            }
            proof {
                let r: Seq<usize> = if reconsidered(self.dirty_sites@, refreshed@[i as int]) { seq![i] } else { Seq::<usize>::empty() };
                assert(pending_upto(self.dirty_sites@, refreshed@, i + 1) == pending_upto(self.dirty_sites@, refreshed@, i as int) + r);
                if !reconsidered(self.dirty_sites@, refreshed@[i as int]) {
                    assert(pending_upto(self.dirty_sites@, refreshed@, i as int) + r =~= pending_upto(self.dirty_sites@, refreshed@, i as int));
                }
            }
            i = i + 1;
        }
        proof {
            lemma_pending_increasing(old(self).dirty_sites@, refreshed@, refreshed@.len() as int);
        }
        self.committed = 0;
        self.dirty_sites = BTreeSet::new();
        pending
    }
}

/// Candidate `a` is tried before `b`: larger requirement margin first, then
/// higher level, then smaller address, then smaller vertex.
pub open spec fn patch_before(a: CoarseningPatch, b: CoarseningPatch) -> bool {
    ||| a.requirement_margin > b.requirement_margin
    ||| a.requirement_margin == b.requirement_margin && a.level > b.level
    ||| a.requirement_margin == b.requirement_margin && a.level == b.level && a.address < b.address
    ||| a.requirement_margin == b.requirement_margin && a.level == b.level && a.address == b.address && a.vertex < b.vertex
}

fn patch_less(a: &CoarseningPatch, b: &CoarseningPatch) -> (r: bool)
    ensures
        r == patch_before(*a, *b),
{
    a.requirement_margin > b.requirement_margin
        || (a.requirement_margin == b.requirement_margin && a.level > b.level)
        || (a.requirement_margin == b.requirement_margin && a.level == b.level && a.address < b.address)
        || (a.requirement_margin == b.requirement_margin && a.level == b.level && a.address == b.address && a.vertex < b.vertex)
}

/// `x` placed into the sorted `s` after every candidate it does not come
/// before.
pub open spec fn insert_stable(s: Seq<CoarseningPatch>, x: CoarseningPatch) -> Seq<CoarseningPatch>
    decreases s.len(),
{
    if s.len() == 0 || !patch_before(x, s.last()) {
        s.push(x)
    } else {
        insert_stable(s.drop_last(), x).push(s.last())
    }
}

/// The candidates sorted by `patch_before`, those that tie kept in their
/// given order.
pub open spec fn stable_sorted(s: Seq<CoarseningPatch>) -> Seq<CoarseningPatch>
    decreases s.len(),
{
    if s.len() == 0 {
        s
    } else {
        insert_stable(stable_sorted(s.drop_last()), s.last())
    }
}

/// `s` without each candidate whose vertex is that of the one before it.
pub open spec fn dedup_vertices(s: Seq<CoarseningPatch>) -> Seq<CoarseningPatch>
    decreases s.len(),
{
    if s.len() == 0 {
        s
    } else if s.len() >= 2 && s[s.len() - 2].vertex == s.last().vertex {
        dedup_vertices(s.drop_last())
    } else {
        dedup_vertices(s.drop_last()).push(s.last())
    }
}

proof fn lemma_insert_at(s: Seq<CoarseningPatch>, x: CoarseningPatch, p: int)
    requires
        0 <= p <= s.len(),
        forall|q: int| p <= q < s.len() ==> patch_before(x, #[trigger] s[q]),
        p == 0 || !patch_before(x, s[p - 1]),
    ensures
        insert_stable(s, x) == s.take(p).push(x) + s.skip(p),
    decreases s.len(),
{
    if p == s.len() {
        assert(s.skip(p).len() == 0);
        assert(s.take(p) =~= s);
        assert(s.take(p).push(x) + s.skip(p) =~= s.push(x));
    } else {
        let r = s.drop_last();
        lemma_insert_at(r, x, p);
        assert(r.take(p) =~= s.take(p));
        assert(r.skip(p).push(s.last()) =~= s.skip(p));
        assert(insert_stable(s, x) == insert_stable(r, x).push(s.last()));
        assert((r.take(p).push(x) + r.skip(p)).push(s.last()) =~= s.take(p).push(x) + s.skip(p));
    }
}

/// The candidates in the order they are tried: sorted by `patch_before`,
/// ties in their given order, and each candidate dropped whose vertex is
/// that of the one before it.
pub fn order_patches(patches: Vec<CoarseningPatch>) -> (out: Vec<CoarseningPatch>)
    ensures
        out@ == dedup_vertices(stable_sorted(patches@)),
{
    let ghost input = patches@;
    let total = patches.len();
    let mut rest = patches;
    let mut sorted: Vec<CoarseningPatch> = Vec::new();
    let mut taken: usize = 0;
    proof {
        assert(input.take(0) =~= Seq::<CoarseningPatch>::empty());
    }
    while rest.len() > 0
        invariant
            taken + rest@.len() == input.len(),
            input.len() == total,
            rest@ == input.skip(taken as int),
            sorted@ == stable_sorted(input.take(taken as int)),
        decreases rest@.len(),
    {
        let x = rest.remove(0);
        let mut p: usize = sorted.len();
        while p > 0 && patch_less(&x, &sorted[p - 1])
            invariant
                p <= sorted@.len(),
                forall|q: int| p <= q < sorted@.len() ==> patch_before(x, #[trigger] sorted@[q]),
            decreases p,
        {
            p = p - 1;
        }
        proof {
            lemma_insert_at(sorted@, x, p as int);
            assert(input.take(taken + 1).drop_last() =~= input.take(taken as int));
            assert(input.take(taken + 1).last() == x);
        }
        sorted.insert(p, x);
        proof {
            assert(sorted@ =~= stable_sorted(input.take(taken + 1)));
            assert(rest@ =~= input.skip(taken + 1));
        }
        taken = taken + 1;
    }
    proof {
        assert(input.take(taken as int) =~= input);
    }
    let ghost all = sorted@;
    let count = sorted.len();
    let mut out: Vec<CoarseningPatch> = Vec::new();
    let mut previous: Option<usize> = None;
    let mut k: usize = 0;
    proof {
        assert(all.take(0) =~= Seq::<CoarseningPatch>::empty());
    }
    while sorted.len() > 0
        invariant
            k + sorted@.len() == all.len(),
            all.len() == count,
            sorted@ == all.skip(k as int),
            out@ == dedup_vertices(all.take(k as int)),
            previous == (if k == 0 { None } else { Some(all[k - 1].vertex) }),
        decreases sorted@.len(),
    {
        let x = sorted.remove(0);
        let v = x.vertex;
        proof {
            assert(all.take(k + 1).drop_last() =~= all.take(k as int));
            assert(all.take(k + 1).last() == x);
            if k > 0 {
                assert(all.take(k + 1)[k - 1] == all[k - 1]);
            }
        }
        let repeat = match previous {
            Some(pv) => pv == v,
            None => false,
        };
        if !repeat {
            out.push(x);
        }
        proof {
            assert(sorted@ =~= all.skip(k + 1));
        }
        previous = Some(v);
        k = k + 1;
    }
    proof {
        assert(all.take(k as int) =~= all);
    }
    out
}

} // verus!
