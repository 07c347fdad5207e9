//! Which sectors own each ring vertex, and the conservative ear-delta domain
//! that bounds how far pentagon-anchor ears may move a vertex's degree.

use vstd::prelude::*;
use std::collections::{BTreeMap, BTreeSet};
use crate::reachability::{SectorDegreeSignature, VertexLinkContract, sector_mentions, some_sector_mentions,
    sector_vertex_domains, map_keys};

verus! {

broadcast use vstd::std_specs::btree::group_btree_axioms, vstd::laws_cmp::group_laws_cmp;

/// At most this many ears may be cut at one pentagon anchor.
pub const MAX_EARS_PER_ANCHOR: usize = 2;

/// The sector indices that mention `v`, in increasing order.
pub open spec fn owners_spec(sectors: Seq<Vec<SectorDegreeSignature>>, v: usize, upto: int) -> Seq<u64>
    decreases upto,
{
    if upto <= 0 {
        Seq::empty()
    } else if sector_mentions(sectors[upto - 1]@, v) {
        owners_spec(sectors, v, upto - 1).push((upto - 1) as u64)
    } else {
        owners_spec(sectors, v, upto - 1)
    }
}

/// For every vertex that some sector mentions, the indices of the sectors
/// that mention it, in increasing order.
pub fn sector_owner_map(sectors: &[Vec<SectorDegreeSignature>]) -> (out: BTreeMap<usize, Vec<u64>>)
    ensures
        forall|v: usize| #[trigger] out@.contains_key(v) <==> some_sector_mentions(sectors@, v),
        forall|v: usize| #[trigger] out@.contains_key(v) ==> out@[v]@ == owners_spec(sectors@, v, sectors@.len() as int),
{
    let marginal = sector_vertex_domains(sectors);
    let mut out: BTreeMap<usize, Vec<u64>> = BTreeMap::new();
    let mut s: usize = 0;
    while s < sectors.len()
        invariant
            s <= sectors@.len(),
            marginal@.len() == sectors@.len(),
            forall|q: int, w: usize| #![trigger marginal@[q]@.contains_key(w)] 0 <= q < sectors@.len()
                ==> (marginal@[q]@.contains_key(w) <==> sector_mentions(sectors@[q]@, w)),
            forall|w: usize| #[trigger] out@.contains_key(w) <==> owners_spec(sectors@, w, s as int).len() > 0,
            forall|w: usize| #[trigger] out@.contains_key(w) ==> out@[w]@ == owners_spec(sectors@, w, s as int),
        decreases sectors@.len() - s,
    {
        let vertices = map_keys(&marginal[s]);
        let ghost before = out@;
        let mut j: usize = 0;
        while j < vertices.len()
            invariant
                s < sectors@.len(),
                j <= vertices@.len(),
                vertices@.to_set() == marginal@[s as int]@.dom(),
                forall|w: usize| #[trigger] out@.contains_key(w) <==> (before.contains_key(w)
                    || exists|q: int| 0 <= q < j && vertices@[q] == w),
                forall|w: usize| #[trigger] out@.contains_key(w) ==> out@[w]@ == (if exists|q: int| 0 <= q < j && vertices@[q] == w {
                    owners_spec(sectors@, w, s as int).push(s as u64)
                } else {
                    before[w]@
                }),
                forall|w: usize| #[trigger] before.contains_key(w) ==> before[w]@ == owners_spec(sectors@, w, s as int),
                forall|w: usize| #[trigger] before.contains_key(w) <==> owners_spec(sectors@, w, s as int).len() > 0,
            decreases vertices@.len() - j,
        {
            let v = vertices[j];
            let ghost seen = exists|q: int| 0 <= q < j && vertices@[q] == v;
            if !seen_before(&vertices, j, v) {
                let mut list: Vec<u64> = match out.get(&v) {
                    Some(l) => crate::graph::copy_vec(l),
                    None => Vec::new(),
                };
                proof {
                    if !before.contains_key(v) {
                        assert(list@ =~= owners_spec(sectors@, v, s as int));
                    }
                }
                list.push(s as u64);
                out.insert(v, list);
            }
            j = j + 1;
        }
        proof {
            assert forall|w: usize| #[trigger] out@.contains_key(w) <==> owners_spec(sectors@, w, s + 1).len() > 0 by {
                if marginal@[s as int]@.contains_key(w) {
                    assert(vertices@.to_set().contains(w));
                }
                if exists|q: int| 0 <= q < vertices@.len() && vertices@[q] == w {
                    let q = choose|q: int| 0 <= q < vertices@.len() && vertices@[q] == w;
                    assert(vertices@.to_set().contains(vertices@[q]));
                }
            }
            assert forall|w: usize| #[trigger] out@.contains_key(w) implies out@[w]@ == owners_spec(sectors@, w, s + 1) by {
                if marginal@[s as int]@.contains_key(w) {
                    assert(vertices@.to_set().contains(w));
                }
                if exists|q: int| 0 <= q < vertices@.len() && vertices@[q] == w {
                    let q = choose|q: int| 0 <= q < vertices@.len() && vertices@[q] == w;
                    assert(vertices@.to_set().contains(vertices@[q]));
                }
            }
        }
        s = s + 1;
    }
    proof {
        assert forall|w: usize| owners_spec(sectors@, w, sectors@.len() as int).len() > 0 <==> some_sector_mentions(sectors@, w) by {
            lemma_owners_nonempty(sectors@, w, sectors@.len() as int);
        }
    }
    out
}

/// A vertex has an owner among the first `upto` sectors exactly when one of
/// them mentions it.
proof fn lemma_owners_nonempty(sectors: Seq<Vec<SectorDegreeSignature>>, v: usize, upto: int)
    requires
        0 <= upto <= sectors.len(),
    ensures
        owners_spec(sectors, v, upto).len() > 0 <==> exists|k: int| 0 <= k < upto && #[trigger] sector_mentions(sectors[k]@, v),
    decreases upto,
{
    if upto > 0 {
        lemma_owners_nonempty(sectors, v, upto - 1);
        if exists|k: int| 0 <= k < upto && #[trigger] sector_mentions(sectors[k]@, v) {
            let k = choose|k: int| 0 <= k < upto && #[trigger] sector_mentions(sectors[k]@, v);
            if k < upto - 1 {
                assert(exists|k2: int| 0 <= k2 < upto - 1 && #[trigger] sector_mentions(sectors[k2]@, v));
            }
        }
    }
}

/// Whether `v` occurs among the first `j` entries of `list`.
fn seen_before(list: &Vec<usize>, j: usize, v: usize) -> (r: bool)
    requires
        j <= list@.len(),
    ensures
        r == exists|q: int| 0 <= q < j && list@[q] == v,
{
    let mut q: usize = 0;
    while q < j
        invariant
            j <= list@.len(),
            q <= j,
            forall|p: int| 0 <= p < q ==> list@[p] != v,
        decreases j - q,
    {
        if list[q] == v {
            return true;
        }
        q = q + 1;
    }
    false
}


/// The pentagon anchors among the link contracts.
pub open spec fn anchor_set(contracts: Map<usize, VertexLinkContract>) -> Set<usize> {
    Set::new(|v: usize| contracts.contains_key(v) && contracts[v].pentagon_anchor)
}

/// Whether a sector mentions some pentagon anchor.
pub open spec fn holds_anchor(contracts: Map<usize, VertexLinkContract>, sector: Seq<SectorDegreeSignature>) -> bool {
    exists|a: usize| anchor_set(contracts).contains(a) && #[trigger] sector_mentions(sector, a)
}

/// A vertex an ear may touch: an anchor, or a vertex of a sector that holds an anchor.
pub open spec fn ear_touchable(contracts: Map<usize, VertexLinkContract>, sectors: Seq<Vec<SectorDegreeSignature>>, v: usize) -> bool {
    anchor_set(contracts).contains(v) || exists|k: int| 0 <= k < sectors.len()
        && #[trigger] sector_mentions(sectors[k]@, v) && holds_anchor(contracts, sectors[k]@)
}

/// The deltas from `-m` to `m`.
pub open spec fn delta_window(m: int) -> Set<i8> {
    Set::new(|x: i8| -m <= x <= m)
}

/// The ear-delta domain of every sector vertex and every touchable vertex:
/// touchable vertices may move by up to two ears per anchor either way, the
/// others not at all. Also says whether there is no anchor. Fails when the
/// bound does not fit a signed byte.
pub fn conservative_ear_delta_domains(contracts: &BTreeMap<usize, VertexLinkContract>,
    sectors: &[Vec<SectorDegreeSignature>]) -> (r: Result<(BTreeMap<usize, BTreeSet<i8>>, bool), String>)
    ensures
        anchor_set(contracts@).finite(),
        r is Err <==> anchor_set(contracts@).len() * MAX_EARS_PER_ANCHOR > 127,
        r matches Err(message) ==> message@ == "generic ear bound exceeds i8 delta evidence"@,
        r matches Ok((domains, no_anchors)) ==> {
            &&& no_anchors == (anchor_set(contracts@).len() == 0)
            &&& forall|v: usize| #[trigger] domains@.contains_key(v) <==> (some_sector_mentions(sectors@, v)
                || ear_touchable(contracts@, sectors@, v))
            &&& forall|v: usize| #[trigger] domains@.contains_key(v) ==> domains@[v]@ == (if ear_touchable(contracts@, sectors@, v) {
                delta_window(anchor_set(contracts@).len() * MAX_EARS_PER_ANCHOR)
            } else {
                set![0i8]
            })
        },
{
    let keys = map_keys(contracts);
    let mut anchors: BTreeSet<usize> = BTreeSet::new();
    let mut i: usize = 0;
    while i < keys.len()
        invariant
            i <= keys@.len(),
            keys@.to_set() == contracts@.dom(),
            forall|v: usize| #[trigger] anchors@.contains(v) <==> (anchor_set(contracts@).contains(v)
                && exists|q: int| 0 <= q < i && keys@[q] == v),
        decreases keys@.len() - i,
    {
        let v = keys[i];
        match contracts.get(&v) {
            Some(c) => {
                if c.pentagon_anchor {
                    anchors.insert(v);
                }
            },
            None => {},
        }
        i = i + 1;
    }
    proof {
        assert forall|v: usize| anchors@.contains(v) <==> anchor_set(contracts@).contains(v) by {
            if anchor_set(contracts@).contains(v) {
                assert(keys@.to_set().contains(v));
            }
        }
        assert(anchors@ =~= anchor_set(contracts@));
        vstd::set_lib::lemma_set_subset_finite(contracts@.dom(), anchor_set(contracts@));
    }
    let count = anchors.len();
    if count > 63 {
        proof { reveal_strlit("generic ear bound exceeds i8 delta evidence"); }
        return Err("generic ear bound exceeds i8 delta evidence".to_string());
    }
    let max_ears: i8 = (count * MAX_EARS_PER_ANCHOR) as i8;
    let marginal = sector_vertex_domains(sectors);
    let mut touchable: BTreeSet<usize> = anchors.clone();
    let mut mentioned: Vec<usize> = Vec::new();
    let mut s: usize = 0;
    while s < sectors.len()
        invariant
            s <= sectors@.len(),
            anchors@ == anchor_set(contracts@),
            marginal@.len() == sectors@.len(),
            forall|q: int, w: usize| #![trigger marginal@[q]@.contains_key(w)] 0 <= q < sectors@.len()
                ==> (marginal@[q]@.contains_key(w) <==> sector_mentions(sectors@[q]@, w)),
            forall|w: usize| #[trigger] mentioned@.contains(w) <==> exists|q: int| 0 <= q < s && #[trigger] sector_mentions(sectors@[q]@, w),
            forall|w: usize| #[trigger] touchable@.contains(w) <==> (anchor_set(contracts@).contains(w) || exists|q: int| 0 <= q < s
                && #[trigger] sector_mentions(sectors@[q]@, w) && holds_anchor(contracts@, sectors@[q]@)),
        decreases sectors@.len() - s,
    {
        let vertices = map_keys(&marginal[s]);
        let mut holds = false;
        let mut j: usize = 0;
        while j < vertices.len()
            invariant
                j <= vertices@.len(),
                holds == exists|q: int| 0 <= q < j && anchors@.contains(#[trigger] vertices@[q]),
            decreases vertices@.len() - j,
        {
            if anchors.contains(&vertices[j]) {
                holds = true;
            }
            j = j + 1;
        }
        proof {
            assert(holds == holds_anchor(contracts@, sectors@[s as int]@)) by {
                if holds {
                    let q = choose|q: int| 0 <= q < vertices@.len() && anchors@.contains(#[trigger] vertices@[q]);
                    assert(vertices@.to_set().contains(vertices@[q]));
                    assert(marginal@[s as int]@.contains_key(vertices@[q]));
                }
                if holds_anchor(contracts@, sectors@[s as int]@) {
                    let a = choose|a: usize| anchor_set(contracts@).contains(a) && #[trigger] sector_mentions(sectors@[s as int]@, a);
                    assert(marginal@[s as int]@.contains_key(a));
                    assert(vertices@.to_set().contains(a));
                    let q = choose|q: int| 0 <= q < vertices@.len() && vertices@[q] == a;
                    assert(anchors@.contains(vertices@[q]));
                }
            }
        }
        let ghost before_touchable = touchable@;
        let ghost before_mentioned = mentioned@;
        let mut k: usize = 0;
        while k < vertices.len()
            invariant
                k <= vertices@.len(),
                forall|w: usize| #[trigger] mentioned@.contains(w) <==> (before_mentioned.contains(w)
                    || exists|q: int| 0 <= q < k && vertices@[q] == w),
                forall|w: usize| #[trigger] touchable@.contains(w) <==> (before_touchable.contains(w)
                    || (holds && exists|q: int| 0 <= q < k && vertices@[q] == w)),
            decreases vertices@.len() - k,
        {
            let ghost m0 = mentioned@;
            mentioned.push(vertices[k]);
            proof {
                assert forall|w: usize| #[trigger] mentioned@.contains(w) <==> (before_mentioned.contains(w)
                    || exists|q: int| 0 <= q < k + 1 && vertices@[q] == w) by {
                    if mentioned@.contains(w) {
                        let p = choose|p: int| 0 <= p < mentioned@.len() && mentioned@[p] == w;
                        if p < m0.len() {
                            assert(m0.contains(w));
                        }
                    }
                    if m0.contains(w) {
                        let p = choose|p: int| 0 <= p < m0.len() && m0[p] == w;
                        assert(mentioned@[p] == w);
                    }
                    if w == vertices@[k as int] {
                        assert(mentioned@[m0.len() as int] == w);
                    }
                }
            }
            if holds {
                touchable.insert(vertices[k]);
            }
            k = k + 1;
        }
        proof {
            assert forall|w: usize| #[trigger] mentioned@.contains(w) <==> exists|q: int| 0 <= q < s + 1
                && #[trigger] sector_mentions(sectors@[q]@, w) by {
                if exists|q: int| 0 <= q < vertices@.len() && vertices@[q] == w {
                    let q = choose|q: int| 0 <= q < vertices@.len() && vertices@[q] == w;
                    assert(vertices@.to_set().contains(vertices@[q]));
                    assert(marginal@[s as int]@.contains_key(w));
                }
                if sector_mentions(sectors@[s as int]@, w) {
                    assert(marginal@[s as int]@.contains_key(w));
                    assert(vertices@.to_set().contains(w));
                }
            }
            assert forall|w: usize| #[trigger] touchable@.contains(w) <==> (anchor_set(contracts@).contains(w) || exists|q: int| 0 <= q < s + 1
                && #[trigger] sector_mentions(sectors@[q]@, w) && holds_anchor(contracts@, sectors@[q]@)) by {
                if exists|q: int| 0 <= q < vertices@.len() && vertices@[q] == w {
                    let q = choose|q: int| 0 <= q < vertices@.len() && vertices@[q] == w;
                    assert(vertices@.to_set().contains(vertices@[q]));
                    assert(marginal@[s as int]@.contains_key(w));
                }
                if sector_mentions(sectors@[s as int]@, w) {
                    assert(marginal@[s as int]@.contains_key(w));
                    assert(vertices@.to_set().contains(w));
                }
            }
        }
        s = s + 1;
    }
    let mut wide: BTreeSet<i8> = BTreeSet::new();
    let mut x: i8 = -max_ears;
    while x <= max_ears
        invariant
            0 <= max_ears <= 126,
            -max_ears <= x <= max_ears + 1,
            forall|y: i8| #[trigger] wide@.contains(y) <==> -max_ears <= y < x,
        decreases max_ears + 1 - x,
    {
        wide.insert(x);
        x = x + 1;
    }
    let mut zero: BTreeSet<i8> = BTreeSet::new();
    zero.insert(0);
    let mut domains: BTreeMap<usize, BTreeSet<i8>> = BTreeMap::new();
    let mut touchable_list = crate::cycles::vertex_set_to_vec(&touchable);
    let ghost listed = touchable_list@;
    let ghost sector_vertices = mentioned@;
    mentioned.append(&mut touchable_list);
    proof {
        assert(mentioned@ == sector_vertices + listed);
        assert forall|w: usize| mentioned@.contains(w) <==> (some_sector_mentions(sectors@, w)
            || ear_touchable(contracts@, sectors@, w)) by {
            if mentioned@.contains(w) {
                let p = choose|p: int| 0 <= p < mentioned@.len() && mentioned@[p] == w;
                if p < sector_vertices.len() {
                    assert(sector_vertices.contains(w));
                } else {
                    assert(listed[p - sector_vertices.len()] == w);
                    assert(listed.to_set().contains(w));
                }
            }
            if some_sector_mentions(sectors@, w) {
                assert(sector_vertices.contains(w));
                let p = choose|p: int| 0 <= p < sector_vertices.len() && sector_vertices[p] == w;
                assert(mentioned@[p] == w);
            } else if ear_touchable(contracts@, sectors@, w) {
                assert(touchable@.contains(w));
                assert(listed.to_set().contains(w));
                let p = choose|p: int| 0 <= p < listed.len() && listed[p] == w;
                assert(mentioned@[sector_vertices.len() + p] == w);
            }
        }
    }
    let mut q: usize = 0;
    while q < mentioned.len()
        invariant
            q <= mentioned@.len(),
            forall|w: usize| #[trigger] domains@.contains_key(w) <==> exists|p: int| 0 <= p < q && mentioned@[p] == w,
            forall|w: usize| #[trigger] domains@.contains_key(w) ==> domains@[w]@ == (if touchable@.contains(w) { wide@ } else { zero@ }),
        decreases mentioned@.len() - q,
    {
        let v = mentioned[q];
        if touchable.contains(&v) {
            domains.insert(v, wide.clone());
        } else {
            domains.insert(v, zero.clone());
        }
        q = q + 1;
    }
    proof {
        assert forall|w: usize| #[trigger] domains@.contains_key(w) <==> (some_sector_mentions(sectors@, w)
            || ear_touchable(contracts@, sectors@, w)) by {
            if domains@.contains_key(w) {
                let p = choose|p: int| 0 <= p < mentioned@.len() && mentioned@[p] == w;
                assert(mentioned@.contains(w));
            }
            if some_sector_mentions(sectors@, w) || ear_touchable(contracts@, sectors@, w) {
                assert(mentioned@.contains(w));
                let p = choose|p: int| 0 <= p < mentioned@.len() && mentioned@[p] == w;
            }
        }
        assert(wide@ =~= delta_window(anchor_set(contracts@).len() * MAX_EARS_PER_ANCHOR));
        assert(zero@ =~= set![0i8]);
    }
    Ok((domains, count == 0))
}

} // verus!
