//! Arc consistency between the sectors of a reachability problem: a
//! signature survives only while the other sectors can still complete every
//! one of its vertices to a legal degree.

use vstd::prelude::*;
use std::collections::{BTreeMap, BTreeSet};
use crate::reachability::{SectorDegreeSignature, VertexLinkContract, sector_mentions, minkowski_spec, local_domain,
    fixed_or_zero, shifted_spec, legal_spec, sector_vertex_domains, minkowski_u8, apply_ear_domain, legal_values,
    any_legal_in, singleton_u8};

verus! {

broadcast use vstd::std_specs::btree::group_btree_axioms, vstd::laws_cmp::group_laws_cmp;

/// The domain of `v` that starts at `start` and adds the domains of the first
/// `upto` sectors, skipping sector `skip`.
pub open spec fn domain_except(start: u8, sectors: Seq<Vec<SectorDegreeSignature>>, skip: int, v: usize, upto: int) -> Set<u8>
    decreases upto,
{
    if upto <= 0 {
        set![start]
    } else {
        let d = domain_except(start, sectors, skip, v, upto - 1);
        if upto - 1 != skip && sector_mentions(sectors[upto - 1]@, v) {
            minkowski_spec(d, local_domain(sectors[upto - 1]@, v))
        } else {
            d
        }
    }
}

/// Sector `k` may give `count` to `v`: the fixed degree plus `count` fits a
/// byte, and adding the other sectors' domains and the ear shift can still
/// reach a legal degree.
pub open spec fn entry_supported(contracts: Map<usize, VertexLinkContract>, fixed: Map<usize, u8>,
    ears: Map<usize, BTreeSet<i8>>, sectors: Seq<Vec<SectorDegreeSignature>>, k: int, v: usize, count: u8) -> bool {
    let f = fixed_or_zero(fixed, v) + count;
    &&& f <= 255
    &&& {
        let d = domain_except(f as u8, sectors, k, v, sectors.len() as int);
        let e = if ears.contains_key(v) { shifted_spec(d, ears[v]@) } else { d };
        exists|j: int| 0 <= j < legal_spec(contracts, v).len() && e.contains(#[trigger] legal_spec(contracts, v)[j])
    }
}

/// Every contribution of the signature is supported by the other sectors.
pub open spec fn signature_supported_spec(contracts: Map<usize, VertexLinkContract>, fixed: Map<usize, u8>,
    ears: Map<usize, BTreeSet<i8>>, sectors: Seq<Vec<SectorDegreeSignature>>, k: int, sig: SectorDegreeSignature) -> bool {
    forall|i: int| 0 <= i < sig.contributions@.len() ==> #[trigger] entry_supported(contracts, fixed, ears, sectors, k,
        sig.contributions@[i].0, sig.contributions@[i].1)
}

/// The marginal domains describe the sectors.
pub open spec fn marginals_of(marginal: Seq<BTreeMap<usize, BTreeSet<u8>>>, sectors: Seq<Vec<SectorDegreeSignature>>) -> bool {
    &&& marginal.len() == sectors.len()
    &&& forall|s: int, w: usize| #![trigger marginal[s]@.contains_key(w)] 0 <= s < sectors.len() ==> (marginal[s]@.contains_key(w) <==> sector_mentions(sectors[s]@, w))
    &&& forall|s: int, w: usize| #![trigger marginal[s]@[w]] 0 <= s < sectors.len() && marginal[s]@.contains_key(w) ==> marginal[s]@[w]@ == local_domain(sectors[s]@, w)
}

/// Whether sector `sector_index` may keep `signature`.
fn signature_supported(contracts: &BTreeMap<usize, VertexLinkContract>, fixed: &BTreeMap<usize, u8>,
    ears: &BTreeMap<usize, BTreeSet<i8>>, marginal: &Vec<BTreeMap<usize, BTreeSet<u8>>>, sector_index: usize,
    signature: &SectorDegreeSignature, Ghost(sectors): Ghost<Seq<Vec<SectorDegreeSignature>>>) -> (r: bool)
    requires
        marginals_of(marginal@, sectors),
    ensures
        r == signature_supported_spec(contracts@, fixed@, ears@, sectors, sector_index as int, *signature),
{
    let mut i: usize = 0;
    while i < signature.contributions.len()
        invariant
            i <= signature.contributions@.len(),
            marginals_of(marginal@, sectors),
            forall|q: int| 0 <= q < i ==> #[trigger] entry_supported(contracts@, fixed@, ears@, sectors, sector_index as int,
                signature.contributions@[q].0, signature.contributions@[q].1),
        decreases signature.contributions@.len() - i,
    {
        let (vertex, count) = signature.contributions[i];
        let base: u8 = match fixed.get(&vertex) {
            Some(f) => *f,
            None => 0,
        };
        assert(base == fixed_or_zero(fixed@, vertex));
        let start = match base.checked_add(count) {
            Some(f) => f,
            None => {
                proof {
                    assert(!entry_supported(contracts@, fixed@, ears@, sectors, sector_index as int, vertex, count));
                }
                return false;
            }
        };
        let mut domain = singleton_u8(start);
        let mut k: usize = 0;
        while k < marginal.len()
            invariant
                k <= marginal@.len(),
                marginals_of(marginal@, sectors),
                domain@ == domain_except(start, sectors, sector_index as int, vertex, k as int),
            decreases marginal@.len() - k,
        {
            if k != sector_index {
                match marginal[k].get(&vertex) {
                    Some(next) => {
                        domain = minkowski_u8(&domain, next);
                    }
                    None => {}
                }
            }
            k = k + 1;
        }
        let shifted = apply_ear_domain(&domain, ears.get(&vertex));
        let legal = legal_values(contracts, vertex);
        if !any_legal_in(&legal, &shifted) {
            proof {
                assert(domain@ == domain_except(start, sectors, sector_index as int, vertex, sectors.len() as int));
                assert(!entry_supported(contracts@, fixed@, ears@, sectors, sector_index as int, vertex, count));
            }
            return false;
        }
        i = i + 1;
    }
    true
}

/// The number of signatures over all sectors.
pub open spec fn total_signatures(sectors: Seq<Vec<SectorDegreeSignature>>) -> nat
    decreases sectors.len(),
{
    if sectors.len() == 0 { 0 } else { total_signatures(sectors.drop_last()) + sectors.last()@.len() }
}

/// Every sector keeps only signatures that the other sectors support.
pub open spec fn arc_consistent(contracts: Map<usize, VertexLinkContract>, fixed: Map<usize, u8>,
    ears: Map<usize, BTreeSet<i8>>, sectors: Seq<Vec<SectorDegreeSignature>>) -> bool {
    forall|k: int, i: int| 0 <= k < sectors.len() && 0 <= i < sectors[k]@.len() ==>
        #[trigger] signature_supported_spec(contracts, fixed, ears, sectors, k, sectors[k]@[i])
}

/// A filter that keeps as many items as it was given keeps them all.
proof fn lemma_unchanged_filter<A>(s: Seq<A>, f: spec_fn(A) -> bool)
    requires
        s.filter(f).len() == s.len(),
    ensures
        s.filter(f) == s,
    decreases s.len(),
{
    reveal(Seq::filter);
    if s.len() > 0 {
        s.drop_last().lemma_filter_len(f);
        if !f(s.last()) {
            assert(false);
        }
        lemma_unchanged_filter(s.drop_last(), f);
        assert(s.drop_last().push(s.last()) =~= s);
    }
}

/// A filter that every item passes keeps them all.
proof fn lemma_filter_keeps_all<A>(s: Seq<A>, f: spec_fn(A) -> bool)
    requires
        forall|i: int| 0 <= i < s.len() ==> f(s[i]),
    ensures
        s.filter(f) == s,
    decreases s.len(),
{
    reveal(Seq::filter);
    if s.len() > 0 {
        lemma_filter_keeps_all(s.drop_last(), f);
        assert(s.drop_last().push(s.last()) =~= s);
    }
}

/// Domains depend on the sectors' contents alone.
proof fn lemma_domain_except_views(start: u8, a: Seq<Vec<SectorDegreeSignature>>, b: Seq<Vec<SectorDegreeSignature>>,
    skip: int, v: usize, upto: int)
    requires
        a.len() == b.len(),
        upto <= a.len(),
        forall|r: int| 0 <= r < a.len() ==> (#[trigger] a[r])@ == b[r]@,
    ensures
        domain_except(start, a, skip, v, upto) == domain_except(start, b, skip, v, upto),
    decreases upto,
{
    if upto > 0 {
        lemma_domain_except_views(start, a, b, skip, v, upto - 1);
        assert(a[upto - 1]@ == b[upto - 1]@);
    }
}

/// Support of one contribution depends on the sectors' contents alone.
proof fn lemma_entry_views(contracts: Map<usize, VertexLinkContract>, fixed: Map<usize, u8>,
    ears: Map<usize, BTreeSet<i8>>, a: Seq<Vec<SectorDegreeSignature>>, b: Seq<Vec<SectorDegreeSignature>>,
    k: int, v: usize, count: u8)
    requires
        a.len() == b.len(),
        forall|r: int| 0 <= r < a.len() ==> (#[trigger] a[r])@ == b[r]@,
    ensures
        entry_supported(contracts, fixed, ears, a, k, v, count) == entry_supported(contracts, fixed, ears, b, k, v, count),
{
    let f = fixed_or_zero(fixed, v) + count;
    if f <= 255 {
        lemma_domain_except_views(f as u8, a, b, k, v, a.len() as int);
    }
}

/// Support of a signature depends on the sectors' contents alone.
proof fn lemma_supported_views(contracts: Map<usize, VertexLinkContract>, fixed: Map<usize, u8>,
    ears: Map<usize, BTreeSet<i8>>, a: Seq<Vec<SectorDegreeSignature>>, b: Seq<Vec<SectorDegreeSignature>>,
    k: int, sig: SectorDegreeSignature)
    requires
        a.len() == b.len(),
        forall|r: int| 0 <= r < a.len() ==> (#[trigger] a[r])@ == b[r]@,
    ensures
        signature_supported_spec(contracts, fixed, ears, a, k, sig) == signature_supported_spec(contracts, fixed, ears, b, k, sig),
{
    if signature_supported_spec(contracts, fixed, ears, a, k, sig) {
        assert forall|i: int| 0 <= i < sig.contributions@.len() implies
            #[trigger] entry_supported(contracts, fixed, ears, b, k, sig.contributions@[i].0, sig.contributions@[i].1) by {
            lemma_entry_views(contracts, fixed, ears, a, b, k, sig.contributions@[i].0, sig.contributions@[i].1);
        }
    }
    if signature_supported_spec(contracts, fixed, ears, b, k, sig) {
        assert forall|i: int| 0 <= i < sig.contributions@.len() implies
            #[trigger] entry_supported(contracts, fixed, ears, a, k, sig.contributions@[i].0, sig.contributions@[i].1) by {
            lemma_entry_views(contracts, fixed, ears, a, b, k, sig.contributions@[i].0, sig.contributions@[i].1);
        }
    }
}

proof fn lemma_total_le(a: Seq<Vec<SectorDegreeSignature>>, b: Seq<Vec<SectorDegreeSignature>>)
    requires
        a.len() == b.len(),
        forall|r: int| 0 <= r < a.len() ==> (#[trigger] b[r])@.len() <= a[r]@.len(),
    ensures
        total_signatures(b) <= total_signatures(a),
    decreases a.len(),
{
    if a.len() > 0 {
        assert forall|r: int| 0 <= r < a.drop_last().len() implies (#[trigger] b.drop_last()[r])@.len() <= a.drop_last()[r]@.len() by {
            assert(b[r]@.len() <= a[r]@.len());
        }
        lemma_total_le(a.drop_last(), b.drop_last());
        assert(b[a.len() - 1]@.len() <= a[a.len() - 1]@.len());
    }
}

proof fn lemma_total_shrinks(a: Seq<Vec<SectorDegreeSignature>>, b: Seq<Vec<SectorDegreeSignature>>, q: int)
    requires
        a.len() == b.len(),
        forall|r: int| 0 <= r < a.len() ==> (#[trigger] b[r])@.len() <= a[r]@.len(),
        0 <= q < a.len(),
        b[q]@.len() < a[q]@.len(),
    ensures
        total_signatures(b) < total_signatures(a),
    decreases a.len(),
{
    assert forall|r: int| 0 <= r < a.drop_last().len() implies (#[trigger] b.drop_last()[r])@.len() <= a.drop_last()[r]@.len() by {
        assert(b[r]@.len() <= a[r]@.len());
    }
    if q == a.len() - 1 {
        lemma_total_le(a.drop_last(), b.drop_last());
    } else {
        assert(b.drop_last()[q] == b[q] && a.drop_last()[q] == a[q]);
        lemma_total_shrinks(a.drop_last(), b.drop_last(), q);
        assert(b[a.len() - 1]@.len() <= a[a.len() - 1]@.len());
    }
}

/// Signature `sig` names vertex `v`.
pub open spec fn sig_names(sig: SectorDegreeSignature, v: usize) -> bool {
    exists|k: int| 0 <= k < sig.contributions@.len() && (#[trigger] sig.contributions@[k]).0 == v
}

/// All signatures of the sector name the same vertices.
pub open spec fn uniform_sector(sector: Seq<SectorDegreeSignature>) -> bool {
    forall|i: int, j: int, v: usize| 0 <= i < sector.len() && 0 <= j < sector.len()
        ==> (#[trigger] sig_names(sector[i], v) <==> #[trigger] sig_names(sector[j], v))
}

/// Within every sector, all signatures name the same vertices.
pub open spec fn uniform_sectors(sectors: Seq<Vec<SectorDegreeSignature>>) -> bool {
    forall|k: int| 0 <= k < sectors.len() ==> uniform_sector(#[trigger] sectors[k]@)
}

/// `fam` has one non-empty sector for each sector of `sectors`, and each of
/// its signatures is a signature of the matching sector.
pub open spec fn family_within(fam: Seq<Vec<SectorDegreeSignature>>, sectors: Seq<Vec<SectorDegreeSignature>>) -> bool {
    &&& fam.len() == sectors.len()
    &&& forall|k: int| 0 <= k < fam.len() ==> (#[trigger] fam[k])@.len() > 0
    &&& forall|k: int, i: int| 0 <= k < fam.len() && 0 <= i < fam[k]@.len() ==> sectors[k]@.contains(#[trigger] fam[k]@[i])
}

proof fn lemma_mentions_via(sub: Seq<SectorDegreeSignature>, orig: Seq<SectorDegreeSignature>, x: SectorDegreeSignature, v: usize)
    requires
        uniform_sector(orig),
        forall|i: int| 0 <= i < sub.len() ==> orig.contains(#[trigger] sub[i]),
        orig.contains(x),
        sub.len() > 0,
    ensures
        sector_mentions(sub, v) <==> sig_names(x, v),
{
    let jx = choose|j: int| 0 <= j < orig.len() && orig[j] == x;
    if sector_mentions(sub, v) {
        let c = choose|c: u8| #[trigger] crate::reachability::sector_has(sub, v, c);
        let (i, kk) = choose|i: int, kk: int| 0 <= i < sub.len() && 0 <= kk < sub[i].contributions@.len()
            && #[trigger] sub[i].contributions@[kk] == (v, c);
        assert(sig_names(sub[i], v));
        assert(orig.contains(sub[i]));
        let j = choose|j: int| 0 <= j < orig.len() && orig[j] == sub[i];
        assert(sig_names(orig[j], v) <==> sig_names(orig[jx], v));
    }
    if sig_names(x, v) {
        assert(orig.contains(sub[0]));
        let j = choose|j: int| 0 <= j < orig.len() && orig[j] == sub[0];
        assert(sig_names(orig[j], v) <==> sig_names(orig[jx], v));
        assert(sig_names(sub[0], v));
        let kk = choose|kk: int| 0 <= kk < sub[0].contributions@.len() && (#[trigger] sub[0].contributions@[kk]).0 == v;
        let c = sub[0].contributions@[kk].1;
        assert(sub[0].contributions@[kk] == (v, c));
        assert(crate::reachability::sector_has(sub, v, c));
    }
}

proof fn lemma_domain_mono(start: u8, fam: Seq<Vec<SectorDegreeSignature>>, sectors: Seq<Vec<SectorDegreeSignature>>,
    skip: int, v: usize, upto: int)
    requires
        fam.len() == sectors.len(),
        upto <= fam.len(),
        forall|r: int| 0 <= r < fam.len() ==> (sector_mentions((#[trigger] fam[r])@, v) <==> sector_mentions(sectors[r]@, v)),
        forall|r: int| 0 <= r < fam.len() ==> local_domain((#[trigger] fam[r])@, v).subset_of(local_domain(sectors[r]@, v)),
    ensures
        domain_except(start, fam, skip, v, upto).subset_of(domain_except(start, sectors, skip, v, upto)),
    decreases upto,
{
    if upto > 0 {
        lemma_domain_mono(start, fam, sectors, skip, v, upto - 1);
        let r = upto - 1;
        assert(sector_mentions(fam[r]@, v) <==> sector_mentions(sectors[r]@, v));
        assert(local_domain(fam[r]@, v).subset_of(local_domain(sectors[r]@, v)));
    }
}

/// Support only grows from a uniform family to a larger family of the same
/// sectors.
proof fn lemma_support_mono(contracts: Map<usize, VertexLinkContract>, fixed: Map<usize, u8>,
    ears: Map<usize, BTreeSet<i8>>, fam: Seq<Vec<SectorDegreeSignature>>, sectors: Seq<Vec<SectorDegreeSignature>>,
    orig: Seq<Vec<SectorDegreeSignature>>, k: int, sig: SectorDegreeSignature)
    requires
        family_within(fam, sectors),
        sectors.len() == orig.len(),
        forall|r: int, i: int| 0 <= r < sectors.len() && 0 <= i < sectors[r]@.len() ==> orig[r]@.contains(#[trigger] sectors[r]@[i]),
        uniform_sectors(orig),
        signature_supported_spec(contracts, fixed, ears, fam, k, sig),
    ensures
        signature_supported_spec(contracts, fixed, ears, sectors, k, sig),
{
    assert forall|i: int| 0 <= i < sig.contributions@.len() implies
        #[trigger] entry_supported(contracts, fixed, ears, sectors, k, sig.contributions@[i].0, sig.contributions@[i].1) by {
        let v = sig.contributions@[i].0;
        let count = sig.contributions@[i].1;
        assert(entry_supported(contracts, fixed, ears, fam, k, v, count));
        assert forall|r: int| 0 <= r < fam.len() implies (sector_mentions((#[trigger] fam[r])@, v) <==> sector_mentions(sectors[r]@, v))
            && local_domain(fam[r]@, v).subset_of(local_domain(sectors[r]@, v)) by {
            let x = fam[r]@[0];
            assert(sectors[r]@.contains(x));
            let jx = choose|j: int| 0 <= j < sectors[r]@.len() && sectors[r]@[j] == x;
            assert(orig[r]@.contains(sectors[r]@[jx]));
            assert(uniform_sector(orig[r]@));
            assert forall|q: int| 0 <= q < fam[r]@.len() implies orig[r]@.contains(#[trigger] fam[r]@[q]) by {
                assert(sectors[r]@.contains(fam[r]@[q]));
                let j = choose|j: int| 0 <= j < sectors[r]@.len() && sectors[r]@[j] == fam[r]@[q];
                assert(orig[r]@.contains(sectors[r]@[j]));
            }
            lemma_mentions_via(fam[r]@, orig[r]@, x, v);
            lemma_mentions_via(sectors[r]@, orig[r]@, x, v);
            assert forall|c: u8| local_domain(fam[r]@, v).contains(c) implies local_domain(sectors[r]@, v).contains(c) by {
                let (a, b) = choose|a: int, b: int| 0 <= a < fam[r]@.len() && 0 <= b < fam[r]@[a].contributions@.len()
                    && #[trigger] fam[r]@[a].contributions@[b] == (v, c);
                assert(sectors[r]@.contains(fam[r]@[a]));
                let j = choose|j: int| 0 <= j < sectors[r]@.len() && sectors[r]@[j] == fam[r]@[a];
                assert(sectors[r]@[j].contributions@[b] == (v, c));
            }
        }
        let f = fixed_or_zero(fixed, v) + count;
        let d1 = domain_except(f as u8, fam, k, v, fam.len() as int);
        let d2 = domain_except(f as u8, sectors, k, v, sectors.len() as int);
        lemma_domain_mono(f as u8, fam, sectors, k, v, fam.len() as int);
        let e1 = if ears.contains_key(v) { shifted_spec(d1, ears[v]@) } else { d1 };
        let e2 = if ears.contains_key(v) { shifted_spec(d2, ears[v]@) } else { d2 };
        assert(e1.subset_of(e2));
        let j = choose|j: int| 0 <= j < legal_spec(contracts, v).len() && e1.contains(#[trigger] legal_spec(contracts, v)[j]);
        assert(e2.contains(legal_spec(contracts, v)[j]));
    }
}

/// Remove, round by round, the signatures that the other sectors cannot
/// support, until a round removes nothing. Where within each sector all
/// signatures name the same vertices, every arc-consistent family of non-empty
/// sectors inside the old sectors stays inside the result.
pub fn ac3(contracts: &BTreeMap<usize, VertexLinkContract>, fixed: &BTreeMap<usize, u8>,
    ears: &BTreeMap<usize, BTreeSet<i8>>, sectors: &mut Vec<Vec<SectorDegreeSignature>>)
    ensures
        final(sectors)@.len() == old(sectors)@.len(),
        forall|k: int, i: int| 0 <= k < final(sectors)@.len() && 0 <= i < final(sectors)@[k]@.len()
            ==> old(sectors)@[k]@.contains(#[trigger] final(sectors)@[k]@[i]),
        arc_consistent(contracts@, fixed@, ears@, final(sectors)@),
        arc_consistent(contracts@, fixed@, ears@, old(sectors)@) ==> forall|k: int| 0 <= k < final(sectors)@.len()
            ==> (#[trigger] final(sectors)@[k])@ == old(sectors)@[k]@,
        uniform_sectors(old(sectors)@) ==> forall|fam: Seq<Vec<SectorDegreeSignature>>| #[trigger] family_within(fam, old(sectors)@)
            && arc_consistent(contracts@, fixed@, ears@, fam) ==> family_within(fam, final(sectors)@),
{
    let ghost initial = sectors@;
    loop
        invariant
            sectors@.len() == initial.len(),
            forall|k: int, i: int| 0 <= k < sectors@.len() && 0 <= i < sectors@[k]@.len()
                ==> initial[k]@.contains(#[trigger] sectors@[k]@[i]),
            arc_consistent(contracts@, fixed@, ears@, initial) ==> forall|k: int| 0 <= k < sectors@.len()
                ==> (#[trigger] sectors@[k])@ == initial[k]@,
            uniform_sectors(initial) ==> forall|fam: Seq<Vec<SectorDegreeSignature>>| #[trigger] family_within(fam, initial)
                && arc_consistent(contracts@, fixed@, ears@, fam) ==> family_within(fam, sectors@),
        ensures
            sectors@.len() == initial.len(),
            forall|k: int, i: int| 0 <= k < sectors@.len() && 0 <= i < sectors@[k]@.len()
                ==> initial[k]@.contains(#[trigger] sectors@[k]@[i]),
            arc_consistent(contracts@, fixed@, ears@, sectors@),
            arc_consistent(contracts@, fixed@, ears@, initial) ==> forall|k: int| 0 <= k < sectors@.len()
                ==> (#[trigger] sectors@[k])@ == initial[k]@,
            uniform_sectors(initial) ==> forall|fam: Seq<Vec<SectorDegreeSignature>>| #[trigger] family_within(fam, initial)
                && arc_consistent(contracts@, fixed@, ears@, fam) ==> family_within(fam, sectors@),
        decreases total_signatures(sectors@),
    {
        let marginal = sector_vertex_domains(sectors.as_slice());
        let ghost start = sectors@;
        let mut previous: Vec<Vec<SectorDegreeSignature>> = Vec::new();
        std::mem::swap(&mut previous, sectors);
        let mut changed = false;
        let mut k: usize = 0;
        while k < previous.len()
            invariant
                k <= start.len(),
                marginals_of(marginal@, start),
                previous@.len() == start.len(),
                forall|q: int| k <= q < start.len() ==> previous@[q] == start[q],
                sectors@.len() == k,
                forall|q: int| 0 <= q < k ==> (#[trigger] sectors@[q])@ == start[q]@.filter(
                    |sig: SectorDegreeSignature| signature_supported_spec(contracts@, fixed@, ears@, start, q, sig)),
                changed == exists|q: int| 0 <= q < k && (#[trigger] sectors@[q])@.len() != start[q]@.len(),
            decreases start.len() - k,
        {
            let mut kept: Vec<SectorDegreeSignature> = Vec::new();
            let mut rest: Vec<SectorDegreeSignature> = Vec::new();
            std::mem::swap(&mut rest, &mut previous[k]);
            let ghost all = start[k as int]@;
            let old_len = rest.len();
            assert(rest@ == all);
            let mut taken: usize = 0;
            while rest.len() > 0
                invariant
                    marginals_of(marginal@, start),
                    k < start.len(),
                    all.len() == old_len,
                    taken + rest@.len() == all.len(),
                    rest@ == all.skip(taken as int),
                    kept@ == all.take(taken as int).filter(
                        |sig: SectorDegreeSignature| signature_supported_spec(contracts@, fixed@, ears@, start, k as int, sig)),
                decreases rest@.len(),
            {
                let sig = rest.remove(0);
                let keep = signature_supported(contracts, fixed, ears, &marginal, k, &sig, Ghost(start));
                proof {
                    assert(all.take(taken + 1) =~= all.take(taken as int).push(sig));
                    all.take(taken as int).lemma_filter_push(sig,
                        |s: SectorDegreeSignature| signature_supported_spec(contracts@, fixed@, ears@, start, k as int, s));
                }
                if keep {
                    kept.push(sig);
                }
                taken = taken + 1;
                proof {
                    assert(rest@ =~= all.skip(taken as int));
                }
            }
            proof {
                assert(all.take(taken as int) =~= all);
            }
            let differs = kept.len() != old_len;
            let ghost before = sectors@;
            let ghost was_changed = changed;
            changed = changed || differs;
            sectors.push(kept);
            proof {
                assert forall|q: int| 0 <= q < k implies sectors@[q] == before[q] by {}
                if was_changed {
                    let q = choose|q: int| 0 <= q < k && (#[trigger] before[q])@.len() != start[q]@.len();
                    assert(sectors@[q] == before[q]);
                }
                if differs {
                    assert(sectors@[k as int]@.len() != start[k as int]@.len());
                }
                if !changed {
                    assert forall|q: int| 0 <= q < k + 1 implies (#[trigger] sectors@[q])@.len() == start[q]@.len() by {
                        if q < k {
                            assert(sectors@[q] == before[q]);
                        }
                    }
                }
            }
            k = k + 1;
        }
        proof {
            broadcast use vstd::seq_lib::group_filter_ensures;
            assert forall|q: int, i: int| 0 <= q < sectors@.len() && 0 <= i < sectors@[q]@.len()
                implies initial[q]@.contains(#[trigger] sectors@[q]@[i]) by {
                let f = |s: SectorDegreeSignature| signature_supported_spec(contracts@, fixed@, ears@, start, q, s);
                let x = start[q]@.filter(f)[i];
                start[q]@.lemma_filter_contains_rev(f, x);
                let j = choose|j: int| 0 <= j < start[q]@.len() && start[q]@[j] == x;
                assert(initial[q]@.contains(start[q]@[j]));
            }
            assert forall|r: int| 0 <= r < start.len() implies (#[trigger] sectors@[r])@.len() <= start[r]@.len() by {
                start[r]@.lemma_filter_len(|s: SectorDegreeSignature| signature_supported_spec(contracts@, fixed@, ears@, start, r, s));
            }
            if uniform_sectors(initial) {
                assert forall|fam: Seq<Vec<SectorDegreeSignature>>| #[trigger] family_within(fam, initial)
                    && arc_consistent(contracts@, fixed@, ears@, fam) implies family_within(fam, sectors@) by {
                    assert(family_within(fam, start));
                    assert forall|q: int, i: int| 0 <= q < fam.len() && 0 <= i < fam[q]@.len()
                        implies sectors@[q]@.contains(#[trigger] fam[q]@[i]) by {
                        let x = fam[q]@[i];
                        assert(start[q]@.contains(x));
                        let j = choose|j: int| 0 <= j < start[q]@.len() && start[q]@[j] == x;
                        assert(signature_supported_spec(contracts@, fixed@, ears@, fam, q, fam[q]@[i]));
                        lemma_support_mono(contracts@, fixed@, ears@, fam, start, initial, q, x);
                        let f = |s: SectorDegreeSignature| signature_supported_spec(contracts@, fixed@, ears@, start, q, s);
                        start[q]@.lemma_filter_contains(f, j);
                    }
                }
            }
            if arc_consistent(contracts@, fixed@, ears@, initial) {
                assert forall|r: int| 0 <= r < start.len() implies (#[trigger] sectors@[r])@.len() == start[r]@.len() by {
                    let f = |s: SectorDegreeSignature| signature_supported_spec(contracts@, fixed@, ears@, start, r, s);
                    assert forall|i: int| 0 <= i < start[r]@.len() implies f(start[r]@[i]) by {
                        assert(start[r]@[i] == initial[r]@[i]);
                        assert(signature_supported_spec(contracts@, fixed@, ears@, initial, r, initial[r]@[i]));
                        assert forall|t: int| 0 <= t < initial.len() implies (#[trigger] initial[t])@ == start[t]@ by {}
                        lemma_supported_views(contracts@, fixed@, ears@, initial, start, r, initial[r]@[i]);
                    }
                    lemma_filter_keeps_all(start[r]@, f);
                }
                assert(!changed);
            }
        }
        if !changed {
            proof {
                assert forall|r: int| 0 <= r < start.len() implies (#[trigger] sectors@[r])@ == start[r]@ by {
                    assert(sectors@[r]@.len() == start[r]@.len());
                    lemma_unchanged_filter(start[r]@, |s: SectorDegreeSignature| signature_supported_spec(contracts@, fixed@, ears@, start, r, s));
                }
                assert forall|q: int, i: int| 0 <= q < sectors@.len() && 0 <= i < sectors@[q]@.len()
                    implies #[trigger] signature_supported_spec(contracts@, fixed@, ears@, sectors@, q, sectors@[q]@[i]) by {
                    let f = |s: SectorDegreeSignature| signature_supported_spec(contracts@, fixed@, ears@, start, q, s);
                    start[q]@.lemma_filter_pred(f, i);
                    lemma_supported_views(contracts@, fixed@, ears@, start, sectors@, q, sectors@[q]@[i]);
                }
            }
            break;
        }
        proof {
            let q = choose|q: int| 0 <= q < start.len() && (#[trigger] sectors@[q])@.len() != start[q]@.len();
            lemma_total_shrinks(start, sectors@, q);
        }
    }
}

/// For a vertex without a link contract or ear shift, sector `k` may give it
/// `count` exactly when the fixed degree plus `count` fits a byte and the
/// other sectors' domains can bring it to 5, 6 or 7.
pub proof fn ordinary_vertex_support(contracts: Map<usize, VertexLinkContract>, fixed: Map<usize, u8>,
    ears: Map<usize, BTreeSet<i8>>, sectors: Seq<Vec<SectorDegreeSignature>>, k: int, v: usize, count: u8)
    requires
        !contracts.contains_key(v),
        !ears.contains_key(v),
    ensures
        entry_supported(contracts, fixed, ears, sectors, k, v, count) <==> ({
            let f = fixed_or_zero(fixed, v) + count;
            &&& f <= 255
            &&& {
                let d = domain_except(f as u8, sectors, k, v, sectors.len() as int);
                d.contains(5u8) || d.contains(6u8) || d.contains(7u8)
            }
        }),
{
    let l = legal_spec(contracts, v);
    crate::reachability::legal_degrees(contracts, v, 5);
    crate::reachability::legal_degrees(contracts, v, 6);
    crate::reachability::legal_degrees(contracts, v, 7);
    assert(l.contains(5u8) && l.contains(6u8) && l.contains(7u8));
    let f = fixed_or_zero(fixed, v) + count;
    if f <= 255 {
        let d = domain_except(f as u8, sectors, k, v, sectors.len() as int);
        if exists|j: int| 0 <= j < l.len() && d.contains(#[trigger] l[j]) {
            let j = choose|j: int| 0 <= j < l.len() && d.contains(#[trigger] l[j]);
            crate::reachability::legal_degrees(contracts, v, l[j]);
            assert(l.contains(l[j]));
        }
        if d.contains(5u8) {
            let j = choose|j: int| 0 <= j < l.len() && l[j] == 5u8;
            assert(d.contains(l[j]));
        }
        if d.contains(6u8) {
            let j = choose|j: int| 0 <= j < l.len() && l[j] == 6u8;
            assert(d.contains(l[j]));
        }
        if d.contains(7u8) {
            let j = choose|j: int| 0 <= j < l.len() && l[j] == 7u8;
            assert(d.contains(l[j]));
        }
    }
}

/// Degree `d` is legal for `v`: inside its contract's window, or 5, 6 or 7
/// for a vertex without a contract.
pub open spec fn degree_allowed(contracts: Map<usize, VertexLinkContract>, v: usize, d: u8) -> bool {
    if contracts.contains_key(v) {
        contracts[v].target_degree_min <= d <= contracts[v].target_degree_max
    } else {
        d == 5 || d == 6 || d == 7
    }
}

/// The domain `d` of `v` shifted by its ear domain, where it has one.
pub open spec fn ear_shifted(ears: Map<usize, BTreeSet<i8>>, v: usize, d: Set<u8>) -> Set<u8> {
    if ears.contains_key(v) { shifted_spec(d, ears[v]@) } else { d }
}

/// Sector `k` may give `count` to `v` exactly when the fixed degree plus
/// `count` fits a byte and the other sectors' domains, shifted by the ear
/// domain of `v` where it has one, can reach a degree legal for `v`.
pub proof fn support_means_a_legal_degree_is_reachable(contracts: Map<usize, VertexLinkContract>, fixed: Map<usize, u8>,
    ears: Map<usize, BTreeSet<i8>>, sectors: Seq<Vec<SectorDegreeSignature>>, k: int, v: usize, count: u8)
    ensures
        entry_supported(contracts, fixed, ears, sectors, k, v, count) <==> ({
            let f = fixed_or_zero(fixed, v) + count;
            &&& f <= 255
            &&& {
                let e = ear_shifted(ears, v, domain_except(f as u8, sectors, k, v, sectors.len() as int));
                exists|x: u8| degree_allowed(contracts, v, x) && #[trigger] e.contains(x)
            }
        }),
{
    let l = legal_spec(contracts, v);
    let f = fixed_or_zero(fixed, v) + count;
    if f <= 255 {
        let d = domain_except(f as u8, sectors, k, v, sectors.len() as int);
        let e = ear_shifted(ears, v, d);
        if exists|j: int| 0 <= j < l.len() && e.contains(#[trigger] l[j]) {
            let j = choose|j: int| 0 <= j < l.len() && e.contains(#[trigger] l[j]);
            crate::reachability::legal_degrees(contracts, v, l[j]);
            assert(l.contains(l[j]));
            assert(degree_allowed(contracts, v, l[j]) && e.contains(l[j]));
            assert(exists|x: u8| degree_allowed(contracts, v, x) && #[trigger] e.contains(x));
        }
        if exists|x: u8| degree_allowed(contracts, v, x) && #[trigger] e.contains(x) {
            let x = choose|x: u8| degree_allowed(contracts, v, x) && #[trigger] e.contains(x);
            crate::reachability::legal_degrees(contracts, v, x);
            assert(l.contains(x));
            let j = choose|j: int| 0 <= j < l.len() && l[j] == x;
            assert(e.contains(l[j]));
            assert(entry_supported(contracts, fixed, ears, sectors, k, v, count));
        }
        if entry_supported(contracts, fixed, ears, sectors, k, v, count) {
            assert(exists|j: int| 0 <= j < l.len() && e.contains(#[trigger] l[j]));
        }
    }
}

} // verus!
