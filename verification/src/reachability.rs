//! Degree reachability for abstract full-polygon sectors: exact incidence
//! signatures, Minkowski degree domains and arc-consistency pruning.

use vstd::prelude::*;
use std::collections::{BTreeMap, BTreeSet};
use crate::graph::{Edge, Triangle};
use vstd::std_specs::btree::{spec_btree_keys_iter, spec_btree_map_iter};
use vstd::std_specs::iter::IteratorSpec;

verus! {

broadcast use vstd::std_specs::btree::group_btree_axioms, vstd::laws_cmp::group_laws_cmp;

/// Whether the per-sector degree domains leave a legal degree for every vertex.
#[derive(Debug, Clone, Copy, PartialEq, Eq)]
pub enum DegreeDomainOutcome {
    /// Every vertex keeps a legal degree in its domain: a necessary condition only.
    NecessaryFeasible,
    ProvenImpossibleWithinPerSectorFullPolygon,
    UnknownDueToUnsupportedSector,
}

/// The possible incidence counts of one vertex.
#[derive(Debug, Clone, PartialEq, Eq)]
pub struct VertexIncidenceDomain {
    pub source_slot: usize,
    pub possible_counts: BTreeSet<u8>,
}

/// One exact incidence signature of a sector together with how many
/// triangulations share it.
#[derive(Debug, Clone, PartialEq, Eq, PartialOrd, Ord)]
pub struct SectorDegreeSignature {
    pub contributions: Vec<(usize, u8)>,
    pub member_topology_count: usize,
}

/// The degree contract of one ring vertex: its legal final degrees, whether it
/// is a pentagon anchor, and the link edges fixed outside the sectors.
#[derive(Debug, Clone, PartialEq, Eq)]
pub struct VertexLinkContract {
    pub target_degree_min: u8,
    pub target_degree_max: u8,
    pub pentagon_anchor: bool,
    pub fixed_link_edges: BTreeSet<Edge>,
}

/// `{x + y | x in a, y in b, x + y <= 255}`.
pub open spec fn minkowski_spec(a: Set<u8>, b: Set<u8>) -> Set<u8> {
    Set::new(|z: u8| exists|x: u8, y: u8| a.contains(x) && b.contains(y) && x + y == z)
}

/// The elements of a `u8` set in iteration order.
pub fn u8_set_to_vec(set: &BTreeSet<u8>) -> (out: Vec<u8>)
    ensures
        out@.to_set() == set@,
{
    let mut out: Vec<u8> = Vec::new();
    let ghost full = spec_btree_keys_iter(set).remaining();
    for e in it: set.iter()
        invariant
            it.seq() == full,
            out@.len() == it.index(),
            forall|j: int| 0 <= j < it.index() ==> out@[j] == *#[trigger] full[j],
    {
        out.push(*e);
    }
    proof {
        assert(out@ =~= full.unref());
    }
    out
}

/// The Minkowski sum of two degree domains, dropping sums above 255.
pub fn minkowski_u8(a: &BTreeSet<u8>, b: &BTreeSet<u8>) -> (out: BTreeSet<u8>)
    ensures
        out@ == minkowski_spec(a@, b@),
{
    let av = u8_set_to_vec(a);
    let bv = u8_set_to_vec(b);
    let mut out: BTreeSet<u8> = BTreeSet::new();
    let mut i: usize = 0;
    while i < av.len()
        invariant
            av@.to_set() == a@,
            bv@.to_set() == b@,
            i <= av@.len(),
            forall|z: u8| #[trigger] out@.contains(z) <==> exists|p: int, q: int| 0 <= p < i && 0 <= q < bv@.len() && av@[p] + bv@[q] == z,
        decreases av@.len() - i,
    {
        let mut j: usize = 0;
        while j < bv.len()
            invariant
                av@.to_set() == a@,
                bv@.to_set() == b@,
                i < av@.len(),
                j <= bv@.len(),
                forall|z: u8| #[trigger] out@.contains(z) <==> (exists|p: int, q: int| 0 <= p < i && 0 <= q < bv@.len() && av@[p] + bv@[q] == z) || (exists|q: int| 0 <= q < j && av@[i as int] + bv@[q] == z),
            decreases bv@.len() - j,
        {
            let x = av[i];
            let y = bv[j];
            if let Some(z) = x.checked_add(y) {
                out.insert(z);
            }
            j = j + 1;
        }
        proof {
            assert forall|z: u8| #[trigger] out@.contains(z) <==> exists|p: int, q: int| 0 <= p < i + 1 && 0 <= q < bv@.len() && av@[p] + bv@[q] == z by {
                if exists|p: int, q: int| 0 <= p < i + 1 && 0 <= q < bv@.len() && av@[p] + bv@[q] == z {
                    let (p, q) = choose|p: int, q: int| 0 <= p < i + 1 && 0 <= q < bv@.len() && av@[p] + bv@[q] == z;
                    if p == i {
                        assert(exists|q: int| 0 <= q < bv@.len() && av@[i as int] + bv@[q] == z);
                    }
                }
            }
        }
        i = i + 1;
    }
    proof {
        assert forall|z: u8| out@.contains(z) <==> minkowski_spec(a@, b@).contains(z) by {
            if out@.contains(z) {
                let (p, q) = choose|p: int, q: int| 0 <= p < av@.len() && 0 <= q < bv@.len() && av@[p] + bv@[q] == z;
                assert(av@.to_set().contains(av@[p]));
                assert(bv@.to_set().contains(bv@[q]));
            }
            if minkowski_spec(a@, b@).contains(z) {
                let (x, y) = choose|x: u8, y: u8| a@.contains(x) && b@.contains(y) && x + y == z;
                assert(av@.to_set().contains(x));
                assert(bv@.to_set().contains(y));
                let p = choose|p: int| 0 <= p < av@.len() && av@[p] == x;
                let q = choose|q: int| 0 <= q < bv@.len() && bv@[q] == y;
            }
        }
        assert(out@ =~= minkowski_spec(a@, b@));
    }
    out
}

/// `{base + delta | base in domain, delta in ear, 0 <= base + delta <= 255}`.
pub open spec fn shifted_spec(domain: Set<u8>, ear: Set<i8>) -> Set<u8> {
    Set::new(|z: u8| exists|x: u8, d: i8| domain.contains(x) && ear.contains(d) && x + d == z)
}

/// Shift a degree domain by the possible ear deltas (no shift without an ear domain).
pub fn apply_ear_domain(domain: &BTreeSet<u8>, ear_domain: Option<&BTreeSet<i8>>) -> (out: BTreeSet<u8>)
    ensures
        ear_domain is None ==> out@ == domain@,
        ear_domain matches Some(e) ==> out@ == shifted_spec(domain@, e@),
{
    match ear_domain {
        None => domain.clone(),
        Some(ear) => {
            let dv = u8_set_to_vec(domain);
            let mut ev: Vec<i8> = Vec::new();
            let ghost full = spec_btree_keys_iter(ear).remaining();
            for d in it: ear.iter()
                invariant
                    it.seq() == full,
                    ev@.len() == it.index(),
                    forall|j: int| 0 <= j < it.index() ==> ev@[j] == *#[trigger] full[j],
            {
                ev.push(*d);
            }
            proof {
                assert(ev@ =~= full.unref());
            }
            let mut out: BTreeSet<u8> = BTreeSet::new();
            let mut i: usize = 0;
            while i < dv.len()
                invariant
                    dv@.to_set() == domain@,
                    ev@.to_set() == ear@,
                    i <= dv@.len(),
                    forall|z: u8| #[trigger] out@.contains(z) <==> exists|p: int, q: int| 0 <= p < i && 0 <= q < ev@.len() && dv@[p] + ev@[q] == z,
                decreases dv@.len() - i,
            {
                let mut j: usize = 0;
                while j < ev.len()
                    invariant
                        dv@.to_set() == domain@,
                        ev@.to_set() == ear@,
                        i < dv@.len(),
                        j <= ev@.len(),
                        forall|z: u8| #[trigger] out@.contains(z) <==> (exists|p: int, q: int| 0 <= p < i && 0 <= q < ev@.len() && dv@[p] + ev@[q] == z) || (exists|q: int| 0 <= q < j && dv@[i as int] + ev@[q] == z),
                    decreases ev@.len() - j,
                {
                    let value: i16 = dv[i] as i16 + ev[j] as i16;
                    if 0 <= value && value <= 255 {
                        out.insert(value as u8);
                    }
                    j = j + 1;
                }
                proof {
                    assert forall|z: u8| #[trigger] out@.contains(z) <==> exists|p: int, q: int| 0 <= p < i + 1 && 0 <= q < ev@.len() && dv@[p] + ev@[q] == z by {
                        if exists|p: int, q: int| 0 <= p < i + 1 && 0 <= q < ev@.len() && dv@[p] + ev@[q] == z {
                            let (p, q) = choose|p: int, q: int| 0 <= p < i + 1 && 0 <= q < ev@.len() && dv@[p] + ev@[q] == z;
                            if p == i {
                                assert(exists|q: int| 0 <= q < ev@.len() && dv@[i as int] + ev@[q] == z);
                            }
                        }
                    }
                }
                i = i + 1;
            }
            proof {
                assert forall|z: u8| out@.contains(z) <==> shifted_spec(domain@, ear@).contains(z) by {
                    if out@.contains(z) {
                        let (p, q) = choose|p: int, q: int| 0 <= p < dv@.len() && 0 <= q < ev@.len() && dv@[p] + ev@[q] == z;
                        assert(dv@.to_set().contains(dv@[p]));
                        assert(ev@.to_set().contains(ev@[q]));
                    }
                    if shifted_spec(domain@, ear@).contains(z) {
                        let (x, d) = choose|x: u8, d: i8| domain@.contains(x) && ear@.contains(d) && x + d == z;
                        assert(dv@.to_set().contains(x));
                        assert(ev@.to_set().contains(d));
                        let p = choose|p: int| 0 <= p < dv@.len() && dv@[p] == x;
                        let q = choose|q: int| 0 <= q < ev@.len() && ev@[q] == d;
                    }
                }
                assert(out@ =~= shifted_spec(domain@, ear@));
            }
            out
        },
    }
}

/// Whether the polygon has at least three vertices, all different.
pub fn is_simple_abstract_polygon(vertices: &[usize]) -> (r: bool)
    ensures
        r == (vertices@.len() >= 3 && vertices@.no_duplicates()),
{
    if vertices.len() < 3 {
        return false;
    }
    let mut i: usize = 0;
    while i < vertices.len()
        invariant
            i <= vertices@.len(),
            forall|a: int, b: int| 0 <= a < i && 0 <= b < vertices@.len() && a != b ==> vertices@[a] != vertices@[b],
        decreases vertices@.len() - i,
    {
        let mut j: usize = 0;
        while j < vertices.len()
            invariant
                i < vertices@.len(),
                j <= vertices@.len(),
                forall|a: int, b: int| 0 <= a < i && 0 <= b < vertices@.len() && a != b ==> vertices@[a] != vertices@[b],
                forall|b: int| 0 <= b < j && b != i ==> vertices@[i as int] != vertices@[b],
            decreases vertices@.len() - j,
        {
            if j != i && vertices[i] == vertices[j] {
                return false;
            }
            j = j + 1;
        }
        i = i + 1;
    }
    true
}


/// A degree signature: `(vertex, incidence)` pairs.
pub type Signature = Vec<(usize, u8)>;

/// The incidence recorded for `v` in a signature, summed over its entries.
pub open spec fn sig_sum(s: Seq<(usize, u8)>, v: usize) -> nat
    decreases s.len(),
{
    if s.len() == 0 {
        0
    } else {
        sig_sum(s.drop_last(), v) + (if s.last().0 == v { s.last().1 as nat } else { 0nat })
    }
}

/// Whether `v` is named by some entry of the signature.
pub open spec fn sig_mentions(s: Seq<(usize, u8)>, v: usize) -> bool {
    exists|i: int| 0 <= i < s.len() && (#[trigger] s[i]).0 == v
}

/// The combined incidence of `v` over two signatures and one more triangle.
pub open spec fn combined_total(a: Seq<(usize, u8)>, b: Seq<(usize, u8)>, t: Triangle, v: usize) -> nat {
    sig_sum(a, v) + sig_sum(b, v) + crate::graph::corners_equal(t, v)
}

/// Signature entries sorted by strictly increasing vertex.
pub open spec fn strictly_sorted(s: Seq<(usize, u8)>) -> bool {
    forall|i: int, j: int| 0 <= i < j < s.len() ==> s[i].0 < s[j].0
}

pub(crate) proof fn lemma_sig_sum_push(s: Seq<(usize, u8)>, x: (usize, u8), v: usize)
    ensures
        sig_sum(s.push(x), v) == sig_sum(s, v) + (if x.0 == v { x.1 as nat } else { 0nat }),
{
    assert(s.push(x).drop_last() =~= s);
}

pub(crate) proof fn lemma_sig_sum_absent(s: Seq<(usize, u8)>, v: usize)
    requires
        !sig_mentions(s, v),
    ensures
        sig_sum(s, v) == 0,
    decreases s.len(),
{
    if s.len() > 0 {
        assert(!sig_mentions(s.drop_last(), v)) by {
            if sig_mentions(s.drop_last(), v) {
                let i = choose|i: int| 0 <= i < s.drop_last().len() && (#[trigger] s.drop_last()[i]).0 == v;
                assert(s[i].0 == v);
            }
        }
        lemma_sig_sum_absent(s.drop_last(), v);
        assert(s[s.len() - 1].0 != v);
    }
}

/// The counts of a signature: `(v, sig_sum)` for the strictly sorted vertices.
pub open spec fn is_total_signature(out: Seq<(usize, u8)>, total: spec_fn(usize) -> nat, mentioned: spec_fn(usize) -> bool) -> bool {
    &&& strictly_sorted(out)
    &&& forall|i: int| 0 <= i < out.len() ==> mentioned((#[trigger] out[i]).0) && out[i].1 as nat == total(out[i].0)
    &&& forall|v: usize| #[trigger] mentioned(v) ==> sig_mentions(out, v)
}

/// The merge of signatures `a` and `b` with triangle `t`: `None` when some
/// vertex's incidence exceeds 255, else the sorted signature of the combined
/// incidences.
pub open spec fn merged_signature(a: Seq<(usize, u8)>, b: Seq<(usize, u8)>, t: Triangle) -> Option<Seq<(usize, u8)>> {
    if exists|v: usize| #[trigger] combined_total(a, b, t, v) > 255 {
        None
    } else {
        Some(choose|out: Seq<(usize, u8)>| #[trigger] merge_of(out, a, b, t))
    }
}

/// `out` is the sorted signature of the incidences of `a`, `b` and `t` together.
pub open spec fn merge_of(out: Seq<(usize, u8)>, a: Seq<(usize, u8)>, b: Seq<(usize, u8)>, t: Triangle) -> bool {
    is_total_signature(
        out,
        |v: usize| combined_total(a, b, t, v),
        |v: usize| sig_mentions(a, v) || sig_mentions(b, v) || crate::graph::corners_equal(t, v) > 0,
    )
}

/// Two strictly sorted signatures with the same entries are equal.
proof fn lemma_sorted_unique(a: Seq<(usize, u8)>, b: Seq<(usize, u8)>)
    requires
        strictly_sorted(a),
        strictly_sorted(b),
        forall|x: (usize, u8)| a.contains(x) <==> b.contains(x),
    ensures
        a == b,
    decreases a.len(),
{
    if a.len() == 0 {
        if b.len() > 0 {
            assert(b.contains(b[0]));
        }
        assert(a =~= b);
    } else {
        assert(a.contains(a[0]));
        assert(b.contains(a[0]));
        let j = choose|j: int| 0 <= j < b.len() && b[j] == a[0];
        assert(b.contains(b[0]));
        let i = choose|i: int| 0 <= i < a.len() && a[i] == b[0];
        if i > 0 {
            assert(a[0].0 < a[i].0);
        }
        if j > 0 {
            assert(b[0].0 < b[j].0);
        }
        assert(a[0] == b[0]);
        let ra = a.subrange(1, a.len() as int);
        let rb = b.subrange(1, b.len() as int);
        assert forall|x: (usize, u8)| ra.contains(x) <==> rb.contains(x) by {
            if ra.contains(x) {
                let k = choose|k: int| 0 <= k < ra.len() && ra[k] == x;
                assert(a[k + 1] == x);
                assert(a[0].0 < a[k + 1].0);
                assert(b.contains(x));
                let m = choose|m: int| 0 <= m < b.len() && b[m] == x;
                assert(m != 0);
                assert(rb[m - 1] == x);
            }
            if rb.contains(x) {
                let k = choose|k: int| 0 <= k < rb.len() && rb[k] == x;
                assert(b[k + 1] == x);
                assert(b[0].0 < b[k + 1].0);
                assert(a.contains(x));
                let m = choose|m: int| 0 <= m < a.len() && a[m] == x;
                assert(m != 0);
                assert(ra[m - 1] == x);
            }
        }
        lemma_sorted_unique(ra, rb);
        assert(a =~= seq![a[0]] + ra);
        assert(b =~= seq![b[0]] + rb);
    }
}

/// A merge that `add_triangle_signature` gives back is the merged signature.
pub(crate) proof fn lemma_merged_signature(a: Seq<(usize, u8)>, b: Seq<(usize, u8)>, t: Triangle, out: Seq<(usize, u8)>)
    requires
        merge_of(out, a, b, t),
        !exists|v: usize| #[trigger] combined_total(a, b, t, v) > 255,
    ensures
        merged_signature(a, b, t) == Some(out),
{
    let total = |v: usize| combined_total(a, b, t, v);
    let mentioned = |v: usize| sig_mentions(a, v) || sig_mentions(b, v) || crate::graph::corners_equal(t, v) > 0;
    let other = choose|o: Seq<(usize, u8)>| #[trigger] merge_of(o, a, b, t);
    assert(merge_of(other, a, b, t));
    assert forall|x: (usize, u8)| out.contains(x) <==> other.contains(x) by {
        if out.contains(x) {
            let k = choose|k: int| 0 <= k < out.len() && out[k] == x;
            assert(mentioned(out[k].0));
            assert(sig_mentions(other, x.0));
            let m = choose|m: int| 0 <= m < other.len() && (#[trigger] other[m]).0 == x.0;
            assert(other[m].1 as nat == total(x.0));
            assert(other[m] == x);
        }
        if other.contains(x) {
            let k = choose|k: int| 0 <= k < other.len() && other[k] == x;
            assert(mentioned(other[k].0));
            assert(sig_mentions(out, x.0));
            let m = choose|m: int| 0 <= m < out.len() && (#[trigger] out[m]).0 == x.0;
            assert(out[m].1 as nat == total(x.0));
            assert(out[m] == x);
        }
    }
    lemma_sorted_unique(out, other);
}

/// Keys produced in increasing order by a tree walk are strictly increasing.
pub proof fn lemma_increasing_keys(keys: Seq<usize>)
    requires
        vstd::std_specs::btree::increasing_seq(keys),
    ensures
        forall|i: int, j: int| 0 <= i < j < keys.len() ==> keys[i] < keys[j],
{
    vstd::std_specs::btree::axiom_increasing_seq_meaning(keys);
    assert(vstd::laws_cmp::obeys_cmp::<usize>());
    assert forall|i: int, j: int| 0 <= i < j < keys.len() implies keys[i] < keys[j] by {
        assert(vstd::std_specs::cmp::OrdSpec::cmp_spec(&keys[i], &keys[j]) is Less);
    }
}

/// Merge two signatures and one triangle; `None` when some vertex's incidence exceeds 255.
pub fn add_triangle_signature(a: &[(usize, u8)], b: &[(usize, u8)], triangle: Triangle) -> (r: Option<Signature>)
    requires
        a@.len() + b@.len() <= usize::MAX,
    ensures
        r is None <==> exists|v: usize| #[trigger] combined_total(a@, b@, triangle, v) > 255,
        r matches Some(out) ==> is_total_signature(
            out@,
            |v: usize| combined_total(a@, b@, triangle, v),
            |v: usize| sig_mentions(a@, v) || sig_mentions(b@, v) || crate::graph::corners_equal(triangle, v) > 0,
        ),
{
    let mut counts: BTreeMap<usize, u8> = BTreeMap::new();
    let ghost both = a@ + b@;
    let ghost mut overflowed: Option<usize> = None;
    let mut i: usize = 0;
    let total_len = a.len() + b.len();
    while i < a.len() + b.len()
        invariant
            both == a@ + b@,
            total_len == a@.len() + b@.len(),
            i <= total_len,
            forall|v: usize| #[trigger] counts@.contains_key(v) <==> sig_mentions(both.take(i as int), v),
            forall|v: usize| #[trigger] counts@.contains_key(v) ==> counts@[v] as nat == sig_sum(both.take(i as int), v),
            forall|v: usize| sig_sum(both.take(i as int), v) <= 255,
        decreases total_len - i,
    {
        let (v, c) = if i < a.len() { a[i] } else { b[i - a.len()] };
        proof {
            assert(both[i as int] == (v, c));
            assert(both.take(i + 1) =~= both.take(i as int).push((v, c)));
            assert forall|w: usize| #[trigger] sig_sum(both.take(i + 1), w) == sig_sum(both.take(i as int), w) + (if w == v { c as nat } else { 0nat }) by {
                lemma_sig_sum_push(both.take(i as int), (v, c), w);
            }
        }
        let current: u8 = match counts.get(&v) { Some(x) => *x, None => 0 };
        proof {
            if !counts@.contains_key(v) {
                lemma_sig_sum_absent(both.take(i as int), v);
            }
        }
        match current.checked_add(c) {
            Some(n) => {
                counts.insert(v, n);
            },
            None => {
                proof {
                    lemma_sig_sum_prefix_monotone(both, i + 1, v);
                    assert(both =~= both.take(both.len() as int));
                    lemma_sig_sum_split(a@, b@, v);
                    assert(combined_total(a@, b@, triangle, v) > 255);
                }
                return None;
            },
        }
        proof {
            assert forall|w: usize| #[trigger] counts@.contains_key(w) <==> sig_mentions(both.take(i + 1), w) by {
                if sig_mentions(both.take(i + 1), w) && w != v {
                    let k = choose|k: int| 0 <= k < both.take(i + 1).len() && (#[trigger] both.take(i + 1)[k]).0 == w;
                    assert(both.take(i as int)[k].0 == w);
                }
                if counts@.contains_key(w) && w != v {
                    let k = choose|k: int| 0 <= k < both.take(i as int).len() && (#[trigger] both.take(i as int)[k]).0 == w;
                    assert(both.take(i + 1)[k].0 == w);
                }
                if w == v {
                    assert(both.take(i + 1)[i as int].0 == w);
                }
            }
        }
        i = i + 1;
    }
    proof {
        assert(both.take(total_len as int) =~= both);
        assert forall|w: usize| #[trigger] sig_sum(both, w) == sig_sum(a@, w) + sig_sum(b@, w) by {
            lemma_sig_sum_split(a@, b@, w);
        }
    }
    let mut k: usize = 0;
    while k < 3
        invariant
            0 <= k <= 3,
            both == a@ + b@,
            forall|w: usize| #[trigger] sig_sum(both, w) == sig_sum(a@, w) + sig_sum(b@, w),
            forall|v: usize| #[trigger] counts@.contains_key(v) <==> sig_mentions(both, v) || crate::graph::corners_in_prefix(triangle, k as int, v) > 0,
            forall|v: usize| #[trigger] counts@.contains_key(v) ==> counts@[v] as nat == sig_sum(both, v) + crate::graph::corners_in_prefix(triangle, k as int, v),
            forall|v: usize| sig_sum(both, v) + crate::graph::corners_in_prefix(triangle, k as int, v) <= 255,
        decreases 3 - k,
    {
        let v = triangle[k];
        let current: u8 = match counts.get(&v) { Some(x) => *x, None => 0 };
        proof {
            if !counts@.contains_key(v) {
                lemma_sig_sum_absent(both, v);
            }
        }
        match current.checked_add(1) {
            Some(n) => {
                counts.insert(v, n);
            },
            None => {
                proof {
                    assert(crate::graph::corners_in_prefix(triangle, 3, v) >= crate::graph::corners_in_prefix(triangle, k as int, v) + 1);
                    assert(combined_total(a@, b@, triangle, v) > 255);
                }
                return None;
            },
        }
        k = k + 1;
    }
    proof {
        assert forall|v: usize| crate::graph::corners_in_prefix(triangle, 3, v) == crate::graph::corners_equal(triangle, v) by {}
        assert forall|v: usize| !(#[trigger] combined_total(a@, b@, triangle, v) > 255) by {
            assert(sig_sum(both, v) + crate::graph::corners_in_prefix(triangle, 3, v) <= 255);
        }
    }
    let mut out: Signature = Vec::new();
    let ghost full = spec_btree_map_iter(&counts).remaining();
    for kv in it: counts.iter()
        invariant
            it.seq() == full,
            vstd::std_specs::btree::increasing_seq(full.map_values(|kv: (&usize, &u8)| *kv.0)),
            out@.len() == it.index(),
            forall|j: int| 0 <= j < it.index() ==> out@[j] == (*(#[trigger] full[j]).0, *full[j].1),
    {
        out.push((*kv.0, *kv.1));
    }
    proof {
        let ghost mentioned = |v: usize| sig_mentions(a@, v) || sig_mentions(b@, v) || crate::graph::corners_equal(triangle, v) > 0;
        let ghost total = |v: usize| combined_total(a@, b@, triangle, v);
        let keys = full.map_values(|kv: (&usize, &u8)| *kv.0);
        lemma_increasing_keys(keys);
        assert forall|i: int, j: int| 0 <= i < j < out@.len() implies out@[i].0 < out@[j].0 by {
            assert(keys[i] < keys[j]);
            assert(keys[i] == out@[i].0);
            assert(keys[j] == out@[j].0);
        }
        assert forall|i: int| 0 <= i < out@.len() implies mentioned((#[trigger] out@[i]).0) && out@[i].1 as nat == total(out@[i].0) by {
            assert(counts@.contains_key(*full[i].0));
            assert(counts@[*full[i].0] == *full[i].1);
            if sig_mentions(both, out@[i].0) {
                let q = choose|q: int| 0 <= q < both.len() && (#[trigger] both[q]).0 == out@[i].0;
                if q < a@.len() {
                    assert(a@[q] == both[q]);
                } else {
                    assert(b@[q - a@.len()] == both[q]);
                }
            }
        }
        assert forall|v: usize| #[trigger] mentioned(v) implies sig_mentions(out@, v) by {
            if sig_mentions(a@, v) {
                let q = choose|q: int| 0 <= q < a@.len() && (#[trigger] a@[q]).0 == v;
                assert(both[q] == a@[q]);
            }
            if sig_mentions(b@, v) {
                let q = choose|q: int| 0 <= q < b@.len() && (#[trigger] b@[q]).0 == v;
                assert(both[a@.len() + q] == b@[q]);
            }
            assert(counts@.contains_key(v));
            assert(full.contains((&v, &counts@[v])));
            let j = choose|j: int| 0 <= j < full.len() && full[j] == (&v, &counts@[v]);
            assert(out@[j].0 == v);
        }
    }
    Some(out)
}

proof fn lemma_sig_sum_split(a: Seq<(usize, u8)>, b: Seq<(usize, u8)>, v: usize)
    ensures
        sig_sum(a + b, v) == sig_sum(a, v) + sig_sum(b, v),
    decreases b.len(),
{
    if b.len() == 0 {
        assert(a + b =~= a);
    } else {
        lemma_sig_sum_split(a, b.drop_last(), v);
        assert((a + b).drop_last() =~= a + b.drop_last());
        assert((a + b).last() == b.last());
    }
}

proof fn lemma_sig_sum_prefix_monotone(s: Seq<(usize, u8)>, k: int, v: usize)
    requires
        0 <= k <= s.len(),
    ensures
        sig_sum(s.take(k), v) <= sig_sum(s, v),
    decreases s.len(),
{
    if k < s.len() {
        assert(s.drop_last().take(k) =~= s.take(k));
        lemma_sig_sum_prefix_monotone(s.drop_last(), k, v);
    } else {
        assert(s.take(k) =~= s);
    }
}


/// Strict order on `(vertex, count)` entries.
pub open spec fn entry_lt(a: (usize, u8), b: (usize, u8)) -> bool {
    a.0 < b.0 || (a.0 == b.0 && a.1 < b.1)
}

/// Strict lexicographic order on signatures.
pub open spec fn sig_lt(a: Seq<(usize, u8)>, b: Seq<(usize, u8)>) -> bool {
    exists|k: int|
        0 <= k <= a.len() && k <= b.len() && a.take(k) == b.take(k) && ((k == a.len() && k < b.len())
            || (k < a.len() && k < b.len() && entry_lt(a[k], b[k])))
}

/// Three-way lexicographic comparison of signatures: -1, 0 or 1.
pub fn compare_signatures(a: &Signature, b: &Signature) -> (r: i8)
    ensures
        r == 0 <==> a@ == b@,
        r < 0 <==> sig_lt(a@, b@),
        r > 0 <==> sig_lt(b@, a@),
        -1 <= r <= 1,
{
    let mut k: usize = 0;
    while k < a.len() && k < b.len()
        invariant
            k <= a@.len(),
            k <= b@.len(),
            a@.take(k as int) == b@.take(k as int),
        decreases a@.len() - k,
    {
        let (x, y) = (a[k], b[k]);
        if x.0 != y.0 || x.1 != y.1 {
            proof {
                lemma_sig_lt_asym(a@, b@);
                assert(a@.take(k as int) == b@.take(k as int));
                if entry_lt(x, y) {
                    assert(sig_lt(a@, b@));
                    lemma_sig_lt_first_diff(a@, b@, k as int);
                } else {
                    assert(entry_lt(y, x));
                    assert(b@.take(k as int) == a@.take(k as int));
                    assert(sig_lt(b@, a@));
                    lemma_sig_lt_first_diff(b@, a@, k as int);
                }
                assert(a@ != b@) by { assert(a@[k as int] != b@[k as int]); }
            }
            return if entry_lt_exec(x, y) { -1 } else { 1 };
        }
        proof {
            assert(a@.take(k + 1) =~= a@.take(k as int).push(x));
            assert(b@.take(k + 1) =~= b@.take(k as int).push(y));
        }
        k = k + 1;
    }
    proof {
        lemma_sig_lt_asym(a@, b@);
        if k == a@.len() && k == b@.len() {
            assert(a@ =~= a@.take(k as int));
            assert(b@ =~= b@.take(k as int));
            lemma_sig_lt_irreflexive(a@);
        } else if k == a@.len() {
            assert(a@.take(k as int) =~= a@);
            lemma_sig_lt_prefix(a@, b@);
            assert(a@ != b@) by { assert(a@.len() != b@.len()); }
        } else {
            assert(b@.take(k as int) =~= b@);
            assert(b@ == a@.take(b@.len() as int));
            lemma_sig_lt_prefix(b@, a@);
            assert(a@ != b@) by { assert(a@.len() != b@.len()); }
        }
    }
    if a.len() == b.len() {
        0
    } else if a.len() < b.len() {
        -1
    } else {
        1
    }
}

fn entry_lt_exec(a: (usize, u8), b: (usize, u8)) -> (r: bool)
    ensures
        r == entry_lt(a, b),
{
    a.0 < b.0 || (a.0 == b.0 && a.1 < b.1)
}

proof fn lemma_sig_lt_irreflexive(a: Seq<(usize, u8)>)
    ensures
        !sig_lt(a, a),
{
}

proof fn lemma_sig_lt_asym(a: Seq<(usize, u8)>, b: Seq<(usize, u8)>)
    ensures
        !(sig_lt(a, b) && sig_lt(b, a)),
{
    if sig_lt(a, b) && sig_lt(b, a) {
        let k = choose|k: int| 0 <= k <= a.len() && k <= b.len() && a.take(k) == b.take(k) && ((k == a.len() && k < b.len()) || (k < a.len() && k < b.len() && entry_lt(a[k], b[k])));
        let m = choose|m: int| 0 <= m <= b.len() && m <= a.len() && b.take(m) == a.take(m) && ((m == b.len() && m < a.len()) || (m < b.len() && m < a.len() && entry_lt(b[m], a[m])));
        if k < m {
            assert(b.take(m)[k] == a.take(m)[k]);
        } else if m < k {
            assert(a.take(k)[m] == b.take(k)[m]);
        }
    }
}

proof fn lemma_sig_lt_first_diff(a: Seq<(usize, u8)>, b: Seq<(usize, u8)>, k: int)
    requires
        0 <= k < a.len(),
        k < b.len(),
        a.take(k) == b.take(k),
        entry_lt(a[k], b[k]),
    ensures
        sig_lt(a, b),
{
}

proof fn lemma_sig_lt_prefix(a: Seq<(usize, u8)>, b: Seq<(usize, u8)>)
    requires
        a.len() < b.len(),
        a == b.take(a.len() as int),
    ensures
        sig_lt(a, b),
{
    assert(a.take(a.len() as int) =~= a);
}

/// Signatures in strictly increasing order, each shared by at least one triangulation.
pub open spec fn canonical_signatures(s: Seq<SectorDegreeSignature>) -> bool {
    &&& forall|i: int, j: int| 0 <= i < j < s.len() ==> sig_lt(s[i].contributions@, s[j].contributions@)
    &&& forall|i: int| 0 <= i < s.len() ==> (#[trigger] s[i]).member_topology_count >= 1
}

proof fn lemma_sig_lt_transitive(a: Seq<(usize, u8)>, b: Seq<(usize, u8)>, c: Seq<(usize, u8)>)
    requires
        sig_lt(a, b),
        sig_lt(b, c),
    ensures
        sig_lt(a, c),
{
    let k = choose|k: int| 0 <= k <= a.len() && k <= b.len() && a.take(k) == b.take(k) && ((k == a.len() && k < b.len()) || (k < a.len() && k < b.len() && entry_lt(a[k], b[k])));
    let m = choose|m: int| 0 <= m <= b.len() && m <= c.len() && b.take(m) == c.take(m) && ((m == b.len() && m < c.len()) || (m < b.len() && m < c.len() && entry_lt(b[m], c[m])));
    if k < m {
        assert(a.take(k) =~= c.take(k)) by {
            assert forall|i: int| 0 <= i < k implies a.take(k)[i] == c.take(k)[i] by {
                assert(a.take(k)[i] == b.take(k)[i]);
                assert(b.take(m)[i] == c.take(m)[i]);
            }
        }
        if k < a.len() {
            assert(b[k] == c[k]) by { assert(b.take(m)[k] == c.take(m)[k]); }
        }
        assert(k <= c.len());
    } else if m < k {
        assert(a.take(m) =~= c.take(m)) by {
            assert forall|i: int| 0 <= i < m implies a.take(m)[i] == c.take(m)[i] by {
                assert(a.take(k)[i] == b.take(k)[i]);
                assert(b.take(m)[i] == c.take(m)[i]);
            }
        }
        assert(a[m] == b[m]) by { assert(a.take(k)[m] == b.take(k)[m]); }
    } else {
        assert(a.take(k) =~= c.take(k)) by {
            assert forall|i: int| 0 <= i < k implies a.take(k)[i] == c.take(k)[i] by {
                assert(a.take(k)[i] == b.take(k)[i]);
                assert(b.take(m)[i] == c.take(m)[i]);
            }
        }
    }
}

/// Index `i` is where signature `s` belongs in `v`: every entry before it is
/// smaller, and the entry at it (if any) is not.
pub open spec fn slot_of(v: Seq<SectorDegreeSignature>, s: Seq<(usize, u8)>, i: int) -> bool {
    &&& 0 <= i <= v.len()
    &&& forall|j: int| 0 <= j < i ==> sig_lt(#[trigger] v[j].contributions@, s)
    &&& i < v.len() ==> !sig_lt(v[i].contributions@, s)
}

/// The index where signature `s` belongs in the canonical list `v`.
pub open spec fn signature_slot(v: Seq<SectorDegreeSignature>, s: Seq<(usize, u8)>) -> int {
    choose|i: int| slot_of(v, s, i)
}

/// The canonical list `v` already holds signature `s`.
pub open spec fn holds_signature(v: Seq<SectorDegreeSignature>, s: Seq<(usize, u8)>) -> bool {
    let i = signature_slot(v, s);
    0 <= i < v.len() && v[i].contributions@ == s
}

/// A signature list as (signature, count) pairs.
pub open spec fn sig_entries(v: Seq<SectorDegreeSignature>) -> Seq<(Seq<(usize, u8)>, int)> {
    Seq::new(v.len(), |i: int| (v[i].contributions@, v[i].member_topology_count as int))
}

/// Index `i` is where signature `s` belongs among the pairs `v`.
pub open spec fn entry_slot_of(v: Seq<(Seq<(usize, u8)>, int)>, s: Seq<(usize, u8)>, i: int) -> bool {
    &&& 0 <= i <= v.len()
    &&& forall|j: int| 0 <= j < i ==> sig_lt(#[trigger] v[j].0, s)
    &&& i < v.len() ==> !sig_lt(v[i].0, s)
}

/// The index where signature `s` belongs among the pairs `v`.
pub open spec fn entry_slot(v: Seq<(Seq<(usize, u8)>, int)>, s: Seq<(usize, u8)>) -> int {
    choose|i: int| entry_slot_of(v, s, i)
}

/// Add `c` to the count of signature `s` among the sorted pairs `v`, or put
/// `(s, c)` in at its place; `None` when the count would pass `usize::MAX`.
pub open spec fn add_entry(v: Seq<(Seq<(usize, u8)>, int)>, s: Seq<(usize, u8)>, c: int) -> Option<Seq<(Seq<(usize, u8)>, int)>> {
    let i = entry_slot(v, s);
    if 0 <= i < v.len() && v[i].0 == s {
        if v[i].1 + c > usize::MAX { None } else { Some(v.update(i, (s, v[i].1 + c))) }
    } else {
        Some(v.insert(i, (s, c)))
    }
}

proof fn lemma_entry_slot_unique(v: Seq<(Seq<(usize, u8)>, int)>, s: Seq<(usize, u8)>, i: int)
    requires
        entry_slot_of(v, s, i),
    ensures
        entry_slot(v, s) == i,
{
    let k = entry_slot(v, s);
    assert(entry_slot_of(v, s, k));
    if k < i {
        assert(sig_lt(v[k].0, s));
    }
    if i < k {
        assert(sig_lt(v[i].0, s));
    }
}

proof fn lemma_slot_unique(v: Seq<SectorDegreeSignature>, s: Seq<(usize, u8)>, i: int)
    requires
        slot_of(v, s, i),
    ensures
        signature_slot(v, s) == i,
{
    let k = signature_slot(v, s);
    assert(slot_of(v, s, k));
    if k < i {
        assert(sig_lt(v[k].contributions@, s));
    }
    if i < k {
        assert(sig_lt(v[i].contributions@, s));
    }
}

/// Add `count` triangulations with signature `sig` to a canonical signature
/// list: the count of an entry already there grows, else a new entry goes in at
/// its place. `false`, with the list unchanged, when that count would overflow.
fn insert_signature(out: &mut Vec<SectorDegreeSignature>, sig: Signature, count: usize) -> (ok: bool)
    requires
        canonical_signatures(old(out)@),
        count >= 1,
    ensures
        !ok <==> holds_signature(old(out)@, sig@)
            && old(out)@[signature_slot(old(out)@, sig@)].member_topology_count + count > usize::MAX,
        !ok ==> final(out)@ == old(out)@,
        ok && holds_signature(old(out)@, sig@) ==> final(out)@ == old(out)@.update(signature_slot(old(out)@, sig@),
            (SectorDegreeSignature { contributions: sig, member_topology_count: (old(out)@[signature_slot(old(out)@, sig@)].member_topology_count + count) as usize })),
        ok && !holds_signature(old(out)@, sig@) ==> final(out)@ == old(out)@.insert(signature_slot(old(out)@, sig@),
            (SectorDegreeSignature { contributions: sig, member_topology_count: count })),
        ok <==> add_entry(sig_entries(old(out)@), sig@, count as int) is Some,
        ok ==> add_entry(sig_entries(old(out)@), sig@, count as int) == Some(sig_entries(final(out)@)),
        ok ==> canonical_signatures(final(out)@),
        ok ==> final(out)@.len() >= old(out)@.len(),
{
    let mut i: usize = 0;
    while i < out.len()
        invariant
            i <= out@.len(),
            out@ == old(out)@,
            count >= 1,
            canonical_signatures(out@),
            forall|j: int| 0 <= j < i ==> sig_lt(#[trigger] out@[j].contributions@, sig@),
        decreases out@.len() - i,
    {
        let c = compare_signatures(&out[i].contributions, &sig);
        if c == 0 {
            proof {
                lemma_slot_unique(out@, sig@, i as int);
                lemma_entry_slot_unique(sig_entries(out@), sig@, i as int);
            }
            let total = match out[i].member_topology_count.checked_add(count) {
                Some(t) => t,
                None => return false,
            };
            let ghost before = out@;
            let ghost sig_view = sig@;
            let entry = SectorDegreeSignature { contributions: sig, member_topology_count: total };
            out.set(i, entry);
            proof {
                assert(sig_view == before[i as int].contributions@);
                assert forall|p: int, q: int| 0 <= p < q < out@.len() implies sig_lt(out@[p].contributions@, out@[q].contributions@) by {
                    assert(out@[p].contributions@ == before[p].contributions@);
                    assert(out@[q].contributions@ == before[q].contributions@);
                }
                assert forall|p: int| 0 <= p < out@.len() implies (#[trigger] out@[p]).member_topology_count >= 1 by {
                    if p != i {
                        assert(out@[p] == before[p]);
                    }
                }
            }
            return true;
        }
        if c > 0 {
            proof {
                lemma_slot_unique(out@, sig@, i as int);
                lemma_entry_slot_unique(sig_entries(out@), sig@, i as int);
            }
            let ghost before = out@;
            let entry = SectorDegreeSignature { contributions: sig, member_topology_count: count };
            let ghost e = entry;
            out.insert(i, entry);
            proof {
                assert(out@ == before.insert(i as int, e));
                assert(e.member_topology_count >= 1);
                assert forall|p: int, q: int| 0 <= p < q < out@.len() implies sig_lt(out@[p].contributions@, out@[q].contributions@) by {
                    if q < i {
                        assert(out@[p] == before[p] && out@[q] == before[q]);
                    } else if q == i {
                        assert(out@[p] == before[p]);
                    } else if p == i {
                        assert(out@[q] == before[q - 1]);
                        if q - 1 > i {
                            lemma_sig_lt_transitive(sig@, before[i as int].contributions@, before[q - 1].contributions@);
                        }
                    } else if p < i {
                        assert(out@[p] == before[p] && out@[q] == before[q - 1]);
                    } else {
                        assert(out@[p] == before[p - 1] && out@[q] == before[q - 1]);
                    }
                }
                assert forall|p: int| 0 <= p < out@.len() implies (#[trigger] out@[p]).member_topology_count >= 1 by {
                    if p < i {
                        assert(out@[p] == before[p]);
                        assert(before[p].member_topology_count >= 1);
                    } else if p > i {
                        assert(out@[p] == before[p - 1]);
                        assert(before[p - 1].member_topology_count >= 1);
                    } else {
                        assert(out@[p] == e);
                    }
                }
            }
            return true;
        }
        i = i + 1;
    }
    proof {
        lemma_slot_unique(out@, sig@, i as int);
        lemma_entry_slot_unique(sig_entries(out@), sig@, i as int);
    }
    let ghost before = out@;
    out.push(SectorDegreeSignature { contributions: sig, member_topology_count: count });
    proof {
        assert forall|p: int, q: int| 0 <= p < q < out@.len() implies sig_lt(out@[p].contributions@, out@[q].contributions@) by {
            if q < before.len() {
                assert(out@[p] == before[p] && out@[q] == before[q]);
            } else {
                assert(out@[p] == before[p]);
            }
        }
    }
    true
}


/// A copy of a signature.
pub fn copy_signature(s: &Signature) -> (out: Signature)
    ensures
        out@ == s@,
{
    let mut out: Signature = Vec::new();
    let mut i: usize = 0;
    while i < s.len()
        invariant
            i <= s@.len(),
            out@ == s@.take(i as int),
        decreases s@.len() - i,
    {
        out.push(s[i]);
        proof {
            assert(s@.take(i + 1) =~= s@.take(i as int).push(s@[i as int]));
        }
        i = i + 1;
    }
    assert(s@.take(s@.len() as int) =~= s@);
    out
}

/// A copy of a signature list.
pub fn copy_signatures(s: &Vec<SectorDegreeSignature>) -> (out: Vec<SectorDegreeSignature>)
    ensures
        out@.len() == s@.len(),
        forall|i: int| 0 <= i < s@.len() ==> (#[trigger] out@[i]).contributions@ == s@[i].contributions@
            && out@[i].member_topology_count == s@[i].member_topology_count,
{
    let mut out: Vec<SectorDegreeSignature> = Vec::new();
    let mut i: usize = 0;
    while i < s.len()
        invariant
            i <= s@.len(),
            out@.len() == i,
            forall|k: int| 0 <= k < i ==> (#[trigger] out@[k]).contributions@ == s@[k].contributions@
                && out@[k].member_topology_count == s@[k].member_topology_count,
        decreases s@.len() - i,
    {
        let c = copy_signature(&s[i].contributions);
        out.push(SectorDegreeSignature { contributions: c, member_topology_count: s[i].member_topology_count });
        i = i + 1;
    }
    out
}

proof fn lemma_canonical_copy(a: Seq<SectorDegreeSignature>, b: Seq<SectorDegreeSignature>)
    requires
        canonical_signatures(a),
        a.len() == b.len(),
        forall|i: int| 0 <= i < a.len() ==> (#[trigger] b[i]).contributions@ == a[i].contributions@
            && b[i].member_topology_count == a[i].member_topology_count,
    ensures
        canonical_signatures(b),
{
    assert forall|i: int, j: int| 0 <= i < j < b.len() implies sig_lt(b[i].contributions@, b[j].contributions@) by {
        assert(sig_lt(a[i].contributions@, a[j].contributions@));
    }
}

/// The triangle on polygon positions `lo`, `mid` and `hi`.
pub open spec fn span_triangle(poly: Seq<usize>, lo: int, mid: int, hi: int) -> Triangle {
    [poly[lo], poly[mid], poly[hi]]
}

/// Triangle `t` has three distinct corners and no forbidden side.
pub open spec fn span_usable(forb: Set<Edge>, t: Triangle) -> bool {
    &&& crate::graph::distinct_spec(t)
    &&& !forb.contains(crate::graph::tri_edges_spec(t)[0])
    &&& !forb.contains(crate::graph::tri_edges_spec(t)[1])
    &&& !forb.contains(crate::graph::tri_edges_spec(t)[2])
}

/// Add to `acc` the merges of the left pair `l` with the first `b` right pairs
/// through triangle `t`, each counted `l.1 * r.1` times; `None` on overflow.
pub open spec fn pair_fold(acc: Option<Seq<(Seq<(usize, u8)>, int)>>, l: (Seq<(usize, u8)>, int),
    right: Seq<(Seq<(usize, u8)>, int)>, t: Triangle, b: int) -> Option<Seq<(Seq<(usize, u8)>, int)>>
    decreases b,
{
    if b <= 0 {
        acc
    } else {
        match pair_fold(acc, l, right, t, b - 1) {
            None => None,
            Some(o) => {
                let r = right[b - 1];
                if l.0.len() + r.0.len() > usize::MAX {
                    None
                } else {
                    match merged_signature(l.0, r.0, t) {
                        None => Some(o),
                        Some(sig) => if l.1 * r.1 > usize::MAX { None } else { add_entry(o, sig, l.1 * r.1) },
                    }
                }
            },
        }
    }
}

/// Add to `acc` the merges of the first `a` left pairs with every right pair.
pub open spec fn rows_fold(acc: Option<Seq<(Seq<(usize, u8)>, int)>>, left: Seq<(Seq<(usize, u8)>, int)>,
    right: Seq<(Seq<(usize, u8)>, int)>, t: Triangle, a: int) -> Option<Seq<(Seq<(usize, u8)>, int)>>
    decreases a,
{
    if a <= 0 {
        acc
    } else {
        pair_fold(rows_fold(acc, left, right, t, a - 1), left[a - 1], right, t, right.len() as int)
    }
}

/// The sorted (signature, count) pairs of the triangulations of the polygon
/// interval `lo..=hi` that use no forbidden edge and no degenerate triangle:
/// each triangulation has a triangle on the side `lo`–`hi`, whose apex splits
/// it into two smaller intervals. `None` when a count or an incidence overflows.
pub open spec fn interval_entries(poly: Seq<usize>, forb: Set<Edge>, lo: int, hi: int) -> Option<Seq<(Seq<(usize, u8)>, int)>>
    decreases hi - lo, hi - lo + 1,
{
    if hi <= lo + 1 {
        Some(seq![(Seq::<(usize, u8)>::empty(), 1int)])
    } else {
        mids_fold(poly, forb, lo, hi, hi)
    }
}

/// The pairs of the interval `lo..=hi` from the apexes `lo + 1 .. m`.
pub open spec fn mids_fold(poly: Seq<usize>, forb: Set<Edge>, lo: int, hi: int, m: int) -> Option<Seq<(Seq<(usize, u8)>, int)>>
    decreases hi - lo, m - lo,
{
    if m <= lo + 1 || m > hi {
        Some(Seq::empty())
    } else {
        let mid = m - 1;
        match mids_fold(poly, forb, lo, hi, m - 1) {
            None => None,
            Some(acc) => {
                let t = span_triangle(poly, lo, mid, hi);
                if !span_usable(forb, t) {
                    Some(acc)
                } else {
                    match interval_entries(poly, forb, lo, mid) {
                        None => None,
                        Some(left) => match interval_entries(poly, forb, mid, hi) {
                            None => None,
                            Some(right) => rows_fold(Some(acc), left, right, t, left.len() as int),
                        },
                    }
                }
            },
        }
    }
}

pub(crate) proof fn lemma_pair_none_acc(l: (Seq<(usize, u8)>, int), right: Seq<(Seq<(usize, u8)>, int)>, t: Triangle, b: int)
    ensures
        pair_fold(None, l, right, t, b) is None,
    decreases b,
{
    if b > 0 {
        lemma_pair_none_acc(l, right, t, b - 1);
    }
}

pub(crate) proof fn lemma_pair_none(acc: Option<Seq<(Seq<(usize, u8)>, int)>>, l: (Seq<(usize, u8)>, int),
    right: Seq<(Seq<(usize, u8)>, int)>, t: Triangle, b1: int, b2: int)
    requires
        b1 <= b2,
        pair_fold(acc, l, right, t, b1) is None,
    ensures
        pair_fold(acc, l, right, t, b2) is None,
    decreases b2 - b1,
{
    if b1 < b2 {
        lemma_pair_none(acc, l, right, t, b1, b2 - 1);
    }
}

pub(crate) proof fn lemma_rows_none(acc: Option<Seq<(Seq<(usize, u8)>, int)>>, left: Seq<(Seq<(usize, u8)>, int)>,
    right: Seq<(Seq<(usize, u8)>, int)>, t: Triangle, a1: int, a2: int)
    requires
        a1 <= a2,
        rows_fold(acc, left, right, t, a1) is None,
    ensures
        rows_fold(acc, left, right, t, a2) is None,
    decreases a2 - a1,
{
    if a1 < a2 {
        lemma_rows_none(acc, left, right, t, a1, a2 - 1);
        lemma_pair_none_acc(left[a2 - 1], right, t, right.len() as int);
    }
}

pub(crate) proof fn lemma_mids_none(poly: Seq<usize>, forb: Set<Edge>, lo: int, hi: int, m1: int, m2: int)
    requires
        m1 <= m2 <= hi,
        mids_fold(poly, forb, lo, hi, m1) is None,
    ensures
        mids_fold(poly, forb, lo, hi, m2) is None,
    decreases m2 - m1,
{
    if m1 < m2 {
        lemma_mids_none(poly, forb, lo, hi, m1, m2 - 1);
    }
}

/// The memo slot of the interval `a..=b` of an `n`-gon.
pub open spec fn memo_slot(n: int, a: int, b: int) -> int {
    a * n + b
}

/// Every memoised interval holds its exact pairs.
pub open spec fn memo_exact(memo: Seq<Option<Vec<SectorDegreeSignature>>>, poly: Seq<usize>, forb: Set<Edge>) -> bool {
    forall|a: int, b: int| 0 <= a < b < poly.len() && (#[trigger] memo[memo_slot(poly.len() as int, a, b)]) is Some
        ==> interval_entries(poly, forb, a, b) == Some(sig_entries(memo[memo_slot(poly.len() as int, a, b)]->0@))
}

proof fn lemma_memo_slot_unique(n: int, a: int, b: int, c: int, d: int)
    requires
        0 <= a < n,
        0 <= b < n,
        0 <= c < n,
        0 <= d < n,
        memo_slot(n, a, b) == memo_slot(n, c, d),
    ensures
        a == c && b == d,
{
    assert(a == c && b == d) by (nonlinear_arith)
        requires 0 <= b < n, 0 <= d < n, a * n + b == c * n + d, 0 <= a, 0 <= c;
}

/// Every memoised interval holds a canonical signature list.
pub open spec fn memo_ok(memo: Seq<Option<Vec<SectorDegreeSignature>>>) -> bool {
    forall|i: int| 0 <= i < memo.len() && (#[trigger] memo[i]) is Some ==> canonical_signatures(memo[i]->0@)
}

fn incidence_rec(
    polygon: &[usize],
    forbidden_edges: &BTreeSet<Edge>,
    lo: usize,
    hi: usize,
    memo: &mut Vec<Option<Vec<SectorDegreeSignature>>>,
) -> (r: Option<Vec<SectorDegreeSignature>>)
    requires
        lo <= hi < polygon@.len() <= 255,
        old(memo)@.len() == polygon@.len() * polygon@.len(),
        memo_ok(old(memo)@),
        memo_exact(old(memo)@, polygon@, forbidden_edges@),
    ensures
        final(memo)@.len() == polygon@.len() * polygon@.len(),
        memo_ok(final(memo)@),
        memo_exact(final(memo)@, polygon@, forbidden_edges@),
        match r {
            Some(v) => interval_entries(polygon@, forbidden_edges@, lo as int, hi as int) == Some(sig_entries(v@)),
            None => interval_entries(polygon@, forbidden_edges@, lo as int, hi as int) is None,
        },
        r matches Some(v) ==> canonical_signatures(v@),
    decreases hi - lo,
{
    let ghost poly = polygon@;
    let ghost forb = forbidden_edges@;
    let n = polygon.len();
    if hi <= lo + 1 {
        let mut base: Vec<SectorDegreeSignature> = Vec::new();
        base.push(SectorDegreeSignature { contributions: Vec::new(), member_topology_count: 1 });
        proof {
            assert(sig_entries(base@) =~= seq![(Seq::<(usize, u8)>::empty(), 1int)]);
        }
        return Some(base);
    }
    proof {
        assert(lo * n + hi < n * n) by (nonlinear_arith)
            requires lo < hi, hi < n;
        assert(lo * n <= n * n) by (nonlinear_arith)
            requires lo < n;
        assert(n * n <= 65025) by (nonlinear_arith)
            requires n <= 255;
    }
    let slot = lo * n + hi;
    proof {
        assert(slot == memo_slot(n as int, lo as int, hi as int));
    }
    if let Some(cached) = &memo[slot] {
        proof {
            assert(memo@[slot as int] is Some);
        }
        let copy = copy_signatures(cached);
        proof {
            lemma_canonical_copy(cached@, copy@);
            assert(sig_entries(copy@) =~= sig_entries(cached@));
        }
        return Some(copy);
    }
    let mut out: Vec<SectorDegreeSignature> = Vec::new();
    let mut mid = lo + 1;
    proof {
        assert(sig_entries(out@) =~= Seq::<(Seq<(usize, u8)>, int)>::empty());
    }
    while mid < hi
        invariant
            lo < mid <= hi,
            hi < polygon@.len() <= 255,
            n == polygon@.len(),
            poly == polygon@,
            forb == forbidden_edges@,
            slot == memo_slot(n as int, lo as int, hi as int),
            slot < n * n,
            memo@.len() == n * n,
            memo_ok(memo@),
            memo_exact(memo@, poly, forb),
            canonical_signatures(out@),
            mids_fold(poly, forb, lo as int, hi as int, mid as int) == Some(sig_entries(out@)),
        decreases hi - mid,
    {
        let triangle: Triangle = [polygon[lo], polygon[mid], polygon[hi]];
        let ghost t = span_triangle(poly, lo as int, mid as int, hi as int);
        proof {
            assert(triangle =~= t);
        }
        let ghost acc0 = sig_entries(out@);
        let sides = crate::graph::triangle_edges(triangle);
        if crate::graph::distinct(triangle) && !forbidden_edges.contains(&sides[0])
            && !forbidden_edges.contains(&sides[1]) && !forbidden_edges.contains(&sides[2]) {
            proof {
                assert(span_usable(forb, t));
            }
            let left = match incidence_rec(polygon, forbidden_edges, lo, mid, memo) {
                Some(v) => v,
                None => {
                    proof {
                        lemma_mids_none(poly, forb, lo as int, hi as int, mid + 1, hi as int);
                    }
                    return None;
                },
            };
            let right = match incidence_rec(polygon, forbidden_edges, mid, hi, memo) {
                Some(v) => v,
                None => {
                    proof {
                        lemma_mids_none(poly, forb, lo as int, hi as int, mid + 1, hi as int);
                    }
                    return None;
                },
            };
            let ghost lv = sig_entries(left@);
            let ghost rv = sig_entries(right@);
            let mut a: usize = 0;
            while a < left.len()
                invariant
                    canonical_signatures(out@),
                    lo < mid < hi,
                    hi < polygon@.len() <= 255,
                    n == polygon@.len(),
                    poly == polygon@,
                    forb == forbidden_edges@,
                    slot == memo_slot(n as int, lo as int, hi as int),
                    slot < n * n,
                    memo@.len() == n * n,
                    memo_ok(memo@),
                    memo_exact(memo@, poly, forb),
                    a <= left@.len(),
                    canonical_signatures(left@),
                    canonical_signatures(right@),
                    lv == sig_entries(left@),
                    rv == sig_entries(right@),
                    t == span_triangle(poly, lo as int, mid as int, hi as int),
                    triangle == t,
                    mids_fold(poly, forb, lo as int, hi as int, mid + 1) == rows_fold(Some(acc0), lv, rv, t, lv.len() as int),
                    rows_fold(Some(acc0), lv, rv, t, a as int) == Some(sig_entries(out@)),
                decreases left@.len() - a,
            {
                let mut b: usize = 0;
                while b < right.len()
                    invariant
                        canonical_signatures(out@),
                        lo < mid < hi,
                        hi < polygon@.len() <= 255,
                        n == polygon@.len(),
                        poly == polygon@,
                        forb == forbidden_edges@,
                        slot == memo_slot(n as int, lo as int, hi as int),
                        slot < n * n,
                        memo@.len() == n * n,
                        memo_ok(memo@),
                        memo_exact(memo@, poly, forb),
                        a < left@.len(),
                        b <= right@.len(),
                        canonical_signatures(left@),
                        canonical_signatures(right@),
                        lv == sig_entries(left@),
                        rv == sig_entries(right@),
                        t == span_triangle(poly, lo as int, mid as int, hi as int),
                        triangle == t,
                        mids_fold(poly, forb, lo as int, hi as int, mid + 1) == rows_fold(Some(acc0), lv, rv, t, lv.len() as int),
                        pair_fold(rows_fold(Some(acc0), lv, rv, t, a as int), lv[a as int], rv, t, b as int) == Some(sig_entries(out@)),
                    decreases right@.len() - b,
                {
                    let l = &left[a];
                    let r = &right[b];
                    let ghost before = rows_fold(Some(acc0), lv, rv, t, a as int);
                    proof {
                        assert(lv[a as int] == (l.contributions@, l.member_topology_count as int));
                        assert(rv[b as int] == (r.contributions@, r.member_topology_count as int));
                    }
                    if l.contributions.len() > usize::MAX - r.contributions.len() {
                        proof {
                            assert(pair_fold(before, lv[a as int], rv, t, b + 1) is None);
                            lemma_pair_none(before, lv[a as int], rv, t, b + 1, rv.len() as int);
                            lemma_rows_none(Some(acc0), lv, rv, t, a + 1, lv.len() as int);
                            lemma_mids_none(poly, forb, lo as int, hi as int, mid + 1, hi as int);
                        }
                        return None;
                    }
                    let ghost o = sig_entries(out@);
                    if let Some(sig) = add_triangle_signature(&l.contributions, &r.contributions, triangle) {
                        proof {
                            lemma_merged_signature(l.contributions@, r.contributions@, t, sig@);
                        }
                        let count = match l.member_topology_count.checked_mul(r.member_topology_count) {
                            Some(c) => c,
                            None => {
                                proof {
                                    assert(pair_fold(before, lv[a as int], rv, t, b + 1) is None);
                                    lemma_pair_none(before, lv[a as int], rv, t, b + 1, rv.len() as int);
                                    lemma_rows_none(Some(acc0), lv, rv, t, a + 1, lv.len() as int);
                                    lemma_mids_none(poly, forb, lo as int, hi as int, mid + 1, hi as int);
                                }
                                return None;
                            },
                        };
                        proof {
                            assert(l.member_topology_count >= 1 && r.member_topology_count >= 1);
                            assert(count >= 1) by (nonlinear_arith)
                                requires count == l.member_topology_count * r.member_topology_count,
                                    l.member_topology_count >= 1, r.member_topology_count >= 1;
                        }
                        if !insert_signature(&mut out, sig, count) {
                            proof {
                                assert(pair_fold(before, lv[a as int], rv, t, b + 1) is None);
                                lemma_pair_none(before, lv[a as int], rv, t, b + 1, rv.len() as int);
                                lemma_rows_none(Some(acc0), lv, rv, t, a + 1, lv.len() as int);
                                lemma_mids_none(poly, forb, lo as int, hi as int, mid + 1, hi as int);
                            }
                            return None;
                        }
                        proof {
                            assert(pair_fold(before, lv[a as int], rv, t, b + 1) == Some(sig_entries(out@)));
                        }
                    } else {
                        proof {
                            assert(merged_signature(l.contributions@, r.contributions@, t) is None);
                            assert(pair_fold(before, lv[a as int], rv, t, b + 1) == Some(o));
                        }
                    }
                    b = b + 1;
                }
                a = a + 1;
            }
        } else {
            proof {
                assert(!span_usable(forb, t));
            }
        }
        mid = mid + 1;
    }
    let stored = copy_signatures(&out);
    proof {
        lemma_canonical_copy(out@, stored@);
        assert(sig_entries(stored@) =~= sig_entries(out@));
    }
    let ghost m0 = memo@;
    memo.set(slot, Some(stored));
    proof {
        assert forall|i: int| 0 <= i < memo@.len() && (#[trigger] memo@[i]) is Some implies canonical_signatures(memo@[i]->0@) by {
            if i != slot {
                assert(memo@[i] == old(memo)@[i] || true);
            }
        }
        assert forall|a: int, b: int| 0 <= a < b < poly.len() && (#[trigger] memo@[memo_slot(poly.len() as int, a, b)]) is Some
            implies interval_entries(poly, forb, a, b) == Some(sig_entries(memo@[memo_slot(poly.len() as int, a, b)]->0@)) by {
            if memo_slot(poly.len() as int, a, b) == slot {
                lemma_memo_slot_unique(n as int, a, b, lo as int, hi as int);
            } else {
                assert(0 <= a * n + b < n * n) by (nonlinear_arith)
                    requires 0 <= a < b < n;
                assert(m0[memo_slot(poly.len() as int, a, b)] == memo@[memo_slot(poly.len() as int, a, b)]);
            }
        }
    }
    Some(out)
}

/// The exact incidence signatures of all triangulations of `polygon` that use no
/// forbidden edge and no degenerate triangle, with their multiplicities.
pub fn incidence_signatures(polygon: &[usize], forbidden_edges: &BTreeSet<Edge>) -> (r: Result<Vec<SectorDegreeSignature>, String>)
    requires
        polygon@.len() >= 1,
    ensures
        polygon@.len() > 255 ==> (r matches Err(m) && m@ == "polygon has "@ + crate::json::decimal(polygon@.len())
            + " vertices; u8 incidence signatures support at most 255"@),
        polygon@.len() <= 255 ==> match r {
            Ok(v) => interval_entries(polygon@, forbidden_edges@, 0, polygon@.len() - 1) == Some(sig_entries(v@)),
            Err(m) => interval_entries(polygon@, forbidden_edges@, 0, polygon@.len() - 1) is None
                && m@ == "incidence signature count overflow"@,
        },
        r matches Ok(v) ==> canonical_signatures(v@),
        r matches Ok(v) ==> forall|k: int| 0 <= k < v@.len()
            ==> crate::signature_laws::realized(polygon@, forbidden_edges@, 0, polygon@.len() - 1, (#[trigger] v@[k]).contributions@),
        r matches Ok(v) ==> forall|tris: Seq<Triangle>| #[trigger] crate::signature_laws::triangulates(polygon@, 0, polygon@.len() - 1, tris)
            && (forall|j: int| 0 <= j < tris.len() ==> crate::signature_laws::allowed_triangle(forbidden_edges@, #[trigger] tris[j]))
            ==> exists|k: int| 0 <= k < v@.len() && crate::signature_laws::counts_corners((#[trigger] v@[k]).contributions@, tris),
{
    if polygon.len() > 255 {
        let mut m = "polygon has ".to_string();
        crate::json::push_usize(&mut m, polygon.len());
        m.append(" vertices; u8 incidence signatures support at most 255");
        return Err(m);
    }
    let n = polygon.len();
    proof {
        assert(n * n <= 255 * 255) by (nonlinear_arith)
            requires n <= 255;
    }
    let mut memo: Vec<Option<Vec<SectorDegreeSignature>>> = Vec::new();
    let mut i: usize = 0;
    while i < n * n
        invariant
            n == polygon@.len(),
            n <= 255,
            n * n <= 255 * 255,
            i <= n * n,
            memo@.len() == i,
            forall|k: int| 0 <= k < i ==> (#[trigger] memo@[k]) is None,
        decreases n * n - i,
    {
        memo.push(None);
        i = i + 1;
    }
    proof {
        assert forall|a: int, b: int| 0 <= a < b < polygon@.len() && (#[trigger] memo@[memo_slot(polygon@.len() as int, a, b)]) is Some
            implies interval_entries(polygon@, forbidden_edges@, a, b) == Some(sig_entries(memo@[memo_slot(polygon@.len() as int, a, b)]->0@)) by {
            assert(0 <= a * n + b < n * n) by (nonlinear_arith)
                requires 0 <= a < b < n;
            assert(memo@[memo_slot(polygon@.len() as int, a, b)] is None);
        }
    }
    match incidence_rec(polygon, forbidden_edges, 0, n - 1, &mut memo) {
        Some(v) => {
            proof {
                crate::signature_laws::signatures_come_from_allowed_triangulations(polygon@, forbidden_edges@, v@);
                assert forall|tris: Seq<Triangle>| #[trigger] crate::signature_laws::triangulates(polygon@, 0, polygon@.len() - 1, tris)
                    && (forall|j: int| 0 <= j < tris.len() ==> crate::signature_laws::allowed_triangle(forbidden_edges@, #[trigger] tris[j]))
                    implies exists|k: int| 0 <= k < v@.len() && crate::signature_laws::counts_corners((#[trigger] v@[k]).contributions@, tris) by {
                    crate::signature_laws::every_allowed_triangulation_is_counted(polygon@, forbidden_edges@, v@, tris);
                }
            }
            Ok(v)
        },
        None => Err("incidence signature count overflow".to_string()),
    }
}


/// Some signature of the sector gives vertex `v` the incidence `c`.
pub open spec fn sector_has(sector: Seq<SectorDegreeSignature>, v: usize, c: u8) -> bool {
    exists|i: int, k: int| 0 <= i < sector.len() && 0 <= k < sector[i].contributions@.len() && #[trigger] sector[i].contributions@[k] == (v, c)
}

/// Some signature of the sector names vertex `v`.
pub open spec fn sector_mentions(sector: Seq<SectorDegreeSignature>, v: usize) -> bool {
    exists|c: u8| #[trigger] sector_has(sector, v, c)
}

/// The incidences that the sector's signatures allow for `v`.
pub open spec fn local_domain(sector: Seq<SectorDegreeSignature>, v: usize) -> Set<u8> {
    Set::new(|c: u8| sector_has(sector, v, c))
}

/// For one sector: every named vertex with the set of incidences its signatures allow.
pub fn local_domains(sector: &Vec<SectorDegreeSignature>) -> (out: BTreeMap<usize, BTreeSet<u8>>)
    ensures
        forall|v: usize| #[trigger] out@.contains_key(v) <==> sector_mentions(sector@, v),
        forall|v: usize| #[trigger] out@.contains_key(v) ==> out@[v]@ == local_domain(sector@, v),
{
    let mut out: BTreeMap<usize, BTreeSet<u8>> = BTreeMap::new();
    let mut i: usize = 0;
    while i < sector.len()
        invariant
            i <= sector@.len(),
            forall|v: usize| #[trigger] out@.contains_key(v) <==> exists|c: u8| sector_has(sector@.take(i as int), v, c),
            forall|v: usize, c: u8| out@.contains_key(v) ==> (#[trigger] out@[v]@.contains(c) <==> sector_has(sector@.take(i as int), v, c)),
        decreases sector@.len() - i,
    {
        let sig = &sector[i].contributions;
        let ghost done = sector@.take(i as int);
        let ghost next = sector@.take(i + 1);
        let mut k: usize = 0;
        while k < sig.len()
            invariant
                i < sector@.len(),
                sig@ == sector@[i as int].contributions@,
                done == sector@.take(i as int),
                next == sector@.take(i + 1),
                k <= sig@.len(),
                forall|v: usize| #[trigger] out@.contains_key(v) <==> (exists|c: u8| sector_has(done, v, c)) || exists|q: int| 0 <= q < k && sig@[q].0 == v,
                forall|v: usize, c: u8| out@.contains_key(v) ==> (#[trigger] out@[v]@.contains(c) <==> sector_has(done, v, c) || exists|q: int| 0 <= q < k && sig@[q] == (v, c)),
            decreases sig@.len() - k,
        {
            let (v, c) = sig[k];
            let mut set: BTreeSet<u8> = match out.get(&v) { Some(s) => s.clone(), None => BTreeSet::new() };
            set.insert(c);
            out.insert(v, set);
            proof {
                assert(sig@[k as int] == (v, c));
            }
            k = k + 1;
        }
        proof {
            assert forall|v: usize, c: u8| sector_has(next, v, c) <==> sector_has(done, v, c) || exists|q: int| 0 <= q < sig@.len() && sig@[q] == (v, c) by {
                if sector_has(next, v, c) {
                    let (p, q) = choose|p: int, q: int| 0 <= p < next.len() && 0 <= q < next[p].contributions@.len() && #[trigger] next[p].contributions@[q] == (v, c);
                    if p < i {
                        assert(done[p] == next[p]);
                    }
                }
                if sector_has(done, v, c) {
                    let (p, q) = choose|p: int, q: int| 0 <= p < done.len() && 0 <= q < done[p].contributions@.len() && #[trigger] done[p].contributions@[q] == (v, c);
                    assert(next[p] == done[p]);
                }
                if exists|q: int| 0 <= q < sig@.len() && sig@[q] == (v, c) {
                    let q = choose|q: int| 0 <= q < sig@.len() && sig@[q] == (v, c);
                    assert(next[i as int].contributions@[q] == (v, c));
                }
            }
            assert forall|v: usize| #[trigger] out@.contains_key(v) <==> exists|c: u8| sector_has(next, v, c) by {
                if out@.contains_key(v) {
                    if !(exists|c: u8| sector_has(done, v, c)) {
                        let q = choose|q: int| 0 <= q < sig@.len() && sig@[q].0 == v;
                        assert(sector_has(next, v, sig@[q].1));
                    } else {
                        let c = choose|c: u8| sector_has(done, v, c);
                        assert(sector_has(next, v, c));
                    }
                }
            }
        }
        i = i + 1;
    }
    proof {
        assert(sector@.take(sector@.len() as int) =~= sector@);
        assert forall|v: usize| #[trigger] out@.contains_key(v) implies out@[v]@ == local_domain(sector@, v) by {
            assert(out@[v]@ =~= local_domain(sector@, v));
        }
    }
    out
}

/// The per-sector incidence domains of every sector.
pub fn sector_vertex_domains(sectors: &[Vec<SectorDegreeSignature>]) -> (out: Vec<BTreeMap<usize, BTreeSet<u8>>>)
    ensures
        out@.len() == sectors@.len(),
        forall|s: int, v: usize| #![trigger out@[s]@.contains_key(v)] 0 <= s < sectors@.len() ==> (out@[s]@.contains_key(v) <==> sector_mentions(sectors@[s]@, v)),
        forall|s: int, v: usize| #![trigger out@[s]@[v]] 0 <= s < sectors@.len() && out@[s]@.contains_key(v) ==> out@[s]@[v]@ == local_domain(sectors@[s]@, v),
{
    let mut out: Vec<BTreeMap<usize, BTreeSet<u8>>> = Vec::new();
    let mut i: usize = 0;
    while i < sectors.len()
        invariant
            i <= sectors@.len(),
            out@.len() == i,
            forall|s: int, v: usize| #![trigger out@[s]@.contains_key(v)] 0 <= s < i ==> (out@[s]@.contains_key(v) <==> sector_mentions(sectors@[s]@, v)),
            forall|s: int, v: usize| #![trigger out@[s]@[v]] 0 <= s < i && out@[s]@.contains_key(v) ==> out@[s]@[v]@ == local_domain(sectors@[s]@, v),
        decreases sectors@.len() - i,
    {
        out.push(local_domains(&sectors[i]));
        i = i + 1;
    }
    out
}

/// The legal final degrees of `vertex`: its contract's window, or 5..=7.
pub open spec fn legal_spec(contracts: Map<usize, VertexLinkContract>, vertex: usize) -> Seq<u8> {
    if contracts.contains_key(vertex) {
        let c = contracts[vertex];
        Seq::new(if c.target_degree_max >= c.target_degree_min { (c.target_degree_max - c.target_degree_min + 1) as nat } else { 0nat }, |k: int| (c.target_degree_min + k) as u8)
    } else {
        seq![5u8, 6u8, 7u8]
    }
}

/// The legal final degrees of `vertex`, in increasing order.
pub fn legal_values(contracts: &BTreeMap<usize, VertexLinkContract>, vertex: usize) -> (out: Vec<u8>)
    ensures
        out@ == legal_spec(contracts@, vertex),
        !contracts@.contains_key(vertex) ==> out@.len() == 3 && out@[0] == 5 && out@[1] == 6 && out@[2] == 7,
        contracts@.contains_key(vertex) ==> forall|d: u8| out@.contains(d)
            <==> contracts@[vertex].target_degree_min <= d <= contracts@[vertex].target_degree_max,
        forall|i: int, j: int| 0 <= i < j < out@.len() ==> out@[i] < out@[j],
{
    match contracts.get(&vertex) {
        None => {
            let out = vec![5u8, 6u8, 7u8];
            assert(out@ =~= seq![5u8, 6u8, 7u8]);
            out
        },
        Some(c) => {
            let mut out: Vec<u8> = Vec::new();
            let mut d: u16 = c.target_degree_min as u16;
            while d <= c.target_degree_max as u16
                invariant
                    c.target_degree_min <= d <= 256,
                    d <= c.target_degree_max + 1 || c.target_degree_max < c.target_degree_min,
                    c.target_degree_max < c.target_degree_min ==> d == c.target_degree_min,
                    out@.len() == d - c.target_degree_min,
                    forall|k: int| 0 <= k < out@.len() ==> #[trigger] out@[k] == c.target_degree_min + k,
                decreases 256 - d,
            {
                out.push(d as u8);
                d = d + 1;
            }
            proof {
                assert(contracts@.contains_key(vertex) && contracts@[vertex] == *c);
                let legal = legal_spec(contracts@, vertex);
                if c.target_degree_min <= c.target_degree_max {
                    assert(d == c.target_degree_max + 1);
                } else {
                    assert(d == c.target_degree_min);
                }
                assert(out@.len() == legal.len());
                assert forall|k: int| 0 <= k < out@.len() implies out@[k] == legal[k] by {
                    assert(out@[k] == c.target_degree_min + k);
                    assert(c.target_degree_min + k <= 255);
                }
                assert(out@ =~= legal);
                assert forall|dd: u8| out@.contains(dd)
                    <==> c.target_degree_min <= dd <= c.target_degree_max by {
                    if c.target_degree_min <= dd <= c.target_degree_max {
                        assert(out@[dd - c.target_degree_min] == dd);
                    }
                }
            }
            out
        },
    }
}

/// A vertex without a link contract may end with degree 5, 6 or 7 and no
/// other; one with a contract, with any degree of its window.
pub proof fn legal_degrees(contracts: Map<usize, VertexLinkContract>, vertex: usize, d: u8)
    ensures
        !contracts.contains_key(vertex) ==> (legal_spec(contracts, vertex).contains(d) <==> (d == 5 || d == 6 || d == 7)),
        contracts.contains_key(vertex) ==> (legal_spec(contracts, vertex).contains(d)
            <==> contracts[vertex].target_degree_min <= d <= contracts[vertex].target_degree_max),
{
    let l = legal_spec(contracts, vertex);
    if !contracts.contains_key(vertex) {
        if d == 5 { assert(l[0] == d); }
        if d == 6 { assert(l[1] == d); }
        if d == 7 { assert(l[2] == d); }
    } else {
        let c = contracts[vertex];
        if c.target_degree_min <= d <= c.target_degree_max {
            assert(l[d - c.target_degree_min] == d);
        }
    }
}

/// Whether `vertex` is a pentagon anchor.
pub fn is_anchor(contracts: &BTreeMap<usize, VertexLinkContract>, vertex: usize) -> (r: bool)
    ensures
        r == (contracts@.contains_key(vertex) && contracts@[vertex].pentagon_anchor),
{
    match contracts.get(&vertex) {
        Some(c) => c.pentagon_anchor,
        None => false,
    }
}

/// Whether some value of `legal` lies in `domain`.
pub fn any_legal_in(legal: &Vec<u8>, domain: &BTreeSet<u8>) -> (r: bool)
    ensures
        r == exists|k: int| 0 <= k < legal@.len() && domain@.contains(#[trigger] legal@[k]),
{
    let mut k: usize = 0;
    while k < legal.len()
        invariant
            k <= legal@.len(),
            forall|q: int| 0 <= q < k ==> !domain@.contains(#[trigger] legal@[q]),
        decreases legal@.len() - k,
    {
        if domain.contains(&legal[k]) {
            return true;
        }
        k = k + 1;
    }
    false
}


/// Adding degree domains does not depend on their order.
pub proof fn minkowski_commutes(a: Set<u8>, b: Set<u8>)
    ensures
        minkowski_spec(a, b) == minkowski_spec(b, a),
{
    assert forall|z: u8| minkowski_spec(a, b).contains(z) implies minkowski_spec(b, a).contains(z) by {
        let (x, y) = choose|x: u8, y: u8| a.contains(x) && b.contains(y) && x + y == z;
        assert(b.contains(y) && a.contains(x) && y + x == z);
    }
    assert forall|z: u8| minkowski_spec(b, a).contains(z) implies minkowski_spec(a, b).contains(z) by {
        let (x, y) = choose|x: u8, y: u8| b.contains(x) && a.contains(y) && x + y == z;
        assert(a.contains(y) && b.contains(x) && y + x == z);
    }
    assert(minkowski_spec(a, b) =~= minkowski_spec(b, a));
}

/// Adding the domain that holds only zero leaves a domain unchanged.
pub proof fn minkowski_zero_is_neutral(a: Set<u8>)
    ensures
        minkowski_spec(a, set![0u8]) == a,
{
    assert forall|z: u8| a.contains(z) implies minkowski_spec(a, set![0u8]).contains(z) by {
        assert(a.contains(z) && set![0u8].contains(0u8) && z + 0u8 == z);
    }
    assert(minkowski_spec(a, set![0u8]) =~= a);
}

/// An ear domain that only allows no change leaves a degree domain unchanged.
pub proof fn zero_ear_shift_is_neutral(domain: Set<u8>)
    ensures
        shifted_spec(domain, set![0i8]) == domain,
{
    assert forall|z: u8| domain.contains(z) implies shifted_spec(domain, set![0i8]).contains(z) by {
        assert(domain.contains(z) && set![0i8].contains(0i8) && z + 0i8 == z);
    }
    assert(shifted_spec(domain, set![0i8]) =~= domain);
}


// ---------------------------------------------------------------------------
// Global degree domains

/// The keys of a map keyed by vertex.
pub fn map_keys<V>(m: &BTreeMap<usize, V>) -> (out: Vec<usize>)
    ensures
        out@.to_set() == m@.dom(),
{
    let mut out: Vec<usize> = Vec::new();
    let ghost full = spec_btree_map_iter(m).remaining();
    for kv in it: m.iter()
        invariant
            it.seq() == full,
            full == spec_btree_map_iter(m).remaining(),
            out@.len() == it.index(),
            forall|j: int| 0 <= j < it.index() ==> out@[j] == *(#[trigger] full[j]).0,
    {
        out.push(*kv.0);
    }
    proof {
        assert forall|k: usize| out@.to_set().contains(k) <==> m@.dom().contains(k) by {
            if out@.to_set().contains(k) {
                let j = choose|j: int| 0 <= j < out@.len() && out@[j] == k;
                assert(m@.contains_key(*full[j].0));
            }
            if m@.contains_key(k) {
                assert(full.contains((&k, &m@[k])));
                let j = choose|j: int| 0 <= j < full.len() && full[j] == (&k, &m@[k]);
                assert(out@[j] == k);
            }
        }
        assert(out@.to_set() =~= m@.dom());
    }
    out
}

/// The fixed degree of `v`, zero when none is recorded.
pub open spec fn fixed_or_zero(fixed: Map<usize, u8>, v: usize) -> u8 {
    if fixed.contains_key(v) { fixed[v] } else { 0 }
}

/// The degree domain of `v` after adding the domains of the first `k` sectors
/// that name it to its fixed degree.
pub open spec fn domain_after(fixed: Map<usize, u8>, sectors: Seq<Vec<SectorDegreeSignature>>, v: usize, k: int) -> Set<u8>
    decreases k,
{
    if k <= 0 {
        set![fixed_or_zero(fixed, v)]
    } else {
        let d = domain_after(fixed, sectors, v, k - 1);
        if sector_mentions(sectors[k - 1]@, v) { minkowski_spec(d, local_domain(sectors[k - 1]@, v)) } else { d }
    }
}

/// The degree domain of `v`: fixed degree plus every sector's domain, then
/// shifted by the ear domain when one is recorded.
pub open spec fn global_domain(fixed: Map<usize, u8>, sectors: Seq<Vec<SectorDegreeSignature>>,
    ears: Map<usize, BTreeSet<i8>>, v: usize) -> Set<u8> {
    let d = domain_after(fixed, sectors, v, sectors.len() as int);
    if ears.contains_key(v) { shifted_spec(d, ears[v]@) } else { d }
}

/// Some sector names `v`.
pub open spec fn some_sector_mentions(sectors: Seq<Vec<SectorDegreeSignature>>, v: usize) -> bool {
    exists|k: int| 0 <= k < sectors.len() && #[trigger] sector_mentions(sectors[k]@, v)
}

pub(crate) fn singleton_u8(x: u8) -> (s: BTreeSet<u8>)
    ensures
        s@ == set![x],
{
    let mut s: BTreeSet<u8> = BTreeSet::new();
    s.insert(x);
    proof {
        assert(s@ =~= set![x]);
    }
    s
}

/// The degree domain of one vertex over all sectors.
fn vertex_domain(fixed: &BTreeMap<usize, u8>, marginal: &Vec<BTreeMap<usize, BTreeSet<u8>>>,
    ears: &BTreeMap<usize, BTreeSet<i8>>, v: usize, Ghost(sectors): Ghost<Seq<Vec<SectorDegreeSignature>>>) -> (d: BTreeSet<u8>)
    requires
        marginal@.len() == sectors.len(),
        forall|s: int, w: usize| #![trigger marginal@[s]@.contains_key(w)] 0 <= s < sectors.len() ==> (marginal@[s]@.contains_key(w) <==> sector_mentions(sectors[s]@, w)),
        forall|s: int, w: usize| #![trigger marginal@[s]@[w]] 0 <= s < sectors.len() && marginal@[s]@.contains_key(w) ==> marginal@[s]@[w]@ == local_domain(sectors[s]@, w),
    ensures
        d@ == global_domain(fixed@, sectors, ears@, v),
{
    let base: u8 = match fixed.get(&v) {
        Some(f) => *f,
        None => 0,
    };
    let mut domain = singleton_u8(base);
    let mut k: usize = 0;
    while k < marginal.len()
        invariant
            k <= marginal@.len(),
            marginal@.len() == sectors.len(),
            forall|s: int, w: usize| #![trigger marginal@[s]@.contains_key(w)] 0 <= s < sectors.len() ==> (marginal@[s]@.contains_key(w) <==> sector_mentions(sectors[s]@, w)),
            forall|s: int, w: usize| #![trigger marginal@[s]@[w]] 0 <= s < sectors.len() && marginal@[s]@.contains_key(w) ==> marginal@[s]@[w]@ == local_domain(sectors[s]@, w),
            domain@ == domain_after(fixed@, sectors, v, k as int),
        decreases marginal@.len() - k,
    {
        match marginal[k].get(&v) {
            Some(next) => {
                domain = minkowski_u8(&domain, next);
            }
            None => {}
        }
        k = k + 1;
    }
    apply_ear_domain(&domain, ears.get(&v))
}

/// The degree domain of every vertex that a fixed degree, a sector or an ear domain names.
pub fn global_domains(fixed: &BTreeMap<usize, u8>, sectors: &Vec<Vec<SectorDegreeSignature>>,
    ears: &BTreeMap<usize, BTreeSet<i8>>) -> (out: BTreeMap<usize, BTreeSet<u8>>)
    ensures
        forall|v: usize| #[trigger] out@.contains_key(v) <==> (fixed@.contains_key(v) || some_sector_mentions(sectors@, v)
            || ears@.contains_key(v)),
        forall|v: usize| #[trigger] out@.contains_key(v) ==> out@[v]@ == global_domain(fixed@, sectors@, ears@, v),
{
    let marginal = sector_vertex_domains(sectors.as_slice());
    let mut vertices: Vec<usize> = map_keys(fixed);
    let mut k: usize = 0;
    while k < marginal.len()
        invariant
            k <= marginal@.len(),
            marginal@.len() == sectors@.len(),
            forall|s: int, w: usize| #![trigger marginal@[s]@.contains_key(w)] 0 <= s < sectors@.len() ==> (marginal@[s]@.contains_key(w) <==> sector_mentions(sectors@[s]@, w)),
            forall|w: usize| vertices@.contains(w) <==> (fixed@.contains_key(w)
                || exists|s: int| 0 <= s < k && #[trigger] sector_mentions(sectors@[s]@, w)),
        decreases marginal@.len() - k,
    {
        let mut appended = map_keys(&marginal[k]);
        let ghost keys = appended@;
        let ghost before = vertices@;
        vertices.append(&mut appended);
        proof {
            assert(vertices@ == before + keys);
            assert forall|w: usize| vertices@.contains(w) <==> (fixed@.contains_key(w)
                || exists|s: int| 0 <= s < k + 1 && #[trigger] sector_mentions(sectors@[s]@, w)) by {
                if vertices@.contains(w) {
                    let j = choose|j: int| 0 <= j < vertices@.len() && vertices@[j] == w;
                    if j >= before.len() {
                        assert(keys[j - before.len()] == w);
                        assert(keys.to_set().contains(w));
                        assert(marginal@[k as int]@.contains_key(w));
                    } else {
                        assert(before.contains(w));
                    }
                }
                if exists|s: int| 0 <= s < k + 1 && #[trigger] sector_mentions(sectors@[s]@, w) {
                    let s = choose|s: int| 0 <= s < k + 1 && #[trigger] sector_mentions(sectors@[s]@, w);
                    if s == k {
                        assert(marginal@[k as int]@.contains_key(w));
                        assert(keys.to_set().contains(w));
                        let j = choose|j: int| 0 <= j < keys.len() && keys[j] == w;
                        assert(vertices@[before.len() + j] == w);
                    } else {
                        assert(exists|s2: int| 0 <= s2 < k && #[trigger] sector_mentions(sectors@[s2]@, w));
                        assert(before.contains(w));
                        let j = choose|j: int| 0 <= j < before.len() && before[j] == w;
                        assert(vertices@[j] == w);
                    }
                } else if fixed@.contains_key(w) {
                    assert(before.contains(w));
                    let j = choose|j: int| 0 <= j < before.len() && before[j] == w;
                    assert(vertices@[j] == w);
                }
            }
        }
        k = k + 1;
    }
    let mut ear_list = map_keys(ears);
    let ghost ear_keys = ear_list@;
    let ghost before = vertices@;
    vertices.append(&mut ear_list);
    assert(vertices@ == before + ear_keys);
    let mut out: BTreeMap<usize, BTreeSet<u8>> = BTreeMap::new();
    let mut i: usize = 0;
    while i < vertices.len()
        invariant
            i <= vertices@.len(),
            marginal@.len() == sectors@.len(),
            forall|s: int, w: usize| #![trigger marginal@[s]@.contains_key(w)] 0 <= s < sectors@.len() ==> (marginal@[s]@.contains_key(w) <==> sector_mentions(sectors@[s]@, w)),
            forall|s: int, w: usize| #![trigger marginal@[s]@[w]] 0 <= s < sectors@.len() && marginal@[s]@.contains_key(w) ==> marginal@[s]@[w]@ == local_domain(sectors@[s]@, w),
            forall|w: usize| #[trigger] out@.contains_key(w) <==> exists|j: int| 0 <= j < i && vertices@[j] == w,
            forall|w: usize| #[trigger] out@.contains_key(w) ==> out@[w]@ == global_domain(fixed@, sectors@, ears@, w),
        decreases vertices@.len() - i,
    {
        let v = vertices[i];
        let d = vertex_domain(fixed, &marginal, ears, v, Ghost(sectors@));
        out.insert(v, d);
        i = i + 1;
    }
    proof {
        assert forall|w: usize| #[trigger] out@.contains_key(w) <==> (fixed@.contains_key(w) || some_sector_mentions(sectors@, w)
            || ears@.contains_key(w)) by {
            if out@.contains_key(w) {
                let j = choose|j: int| 0 <= j < vertices@.len() && vertices@[j] == w;
                if j >= before.len() {
                    assert(ear_keys[j - before.len()] == w);
                    assert(ear_keys.to_set().contains(w));
                } else {
                    assert(before.contains(w));
                }
            }
            if fixed@.contains_key(w) || some_sector_mentions(sectors@, w) {
                assert(before.contains(w));
                let j = choose|j: int| 0 <= j < before.len() && before[j] == w;
                assert(vertices@[j] == w);
            } else if ears@.contains_key(w) {
                assert(ear_keys.to_set().contains(w));
                let j = choose|j: int| 0 <= j < ear_keys.len() && ear_keys[j] == w;
                assert(vertices@[before.len() + j] == w);
            }
        }
    }
    out
}


} // verus!
