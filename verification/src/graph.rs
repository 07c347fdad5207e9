//! Undirected edges, triangles and the counts derived from triangle lists.

use vstd::prelude::*;
use std::collections::{BTreeMap, BTreeSet};
use vstd::std_specs::btree::spec_btree_map_iter;
use vstd::std_specs::iter::IteratorSpec;

verus! {

broadcast use vstd::std_specs::btree::group_btree_axioms;

/// An undirected edge stored with its smaller endpoint first.
pub type Edge = (usize, usize);

/// A triangle given by three vertex slots.
pub type Triangle = [usize; 3];

/// Lexicographic strict order on edges.
pub open spec fn edge_lt(a: Edge, b: Edge) -> bool {
    a.0 < b.0 || (a.0 == b.0 && a.1 < b.1)
}


/// Edges visited in increasing order by a tree walk are strictly increasing.
pub proof fn lemma_increasing_edge_refs(keys: Seq<&Edge>)
    requires
        vstd::std_specs::btree::increasing_seq(keys),
    ensures
        forall|i: int, j: int| 0 <= i < j < keys.len() ==> edge_lt(*keys[i], *keys[j]),
{
    broadcast use vstd::laws_cmp::group_laws_cmp;
    vstd::std_specs::btree::axiom_increasing_seq_meaning(keys);
    assert(vstd::laws_cmp::obeys_cmp::<&Edge>());
    assert forall|i: int, j: int| 0 <= i < j < keys.len() implies edge_lt(*keys[i], *keys[j]) by {
        assert(vstd::std_specs::cmp::OrdSpec::cmp_spec(&keys[i], &keys[j]) is Less);
    }
}

/// Slots visited in increasing order by a tree walk are strictly increasing.
pub proof fn lemma_increasing_slot_refs(keys: Seq<&usize>)
    requires
        vstd::std_specs::btree::increasing_seq(keys),
    ensures
        forall|i: int, j: int| 0 <= i < j < keys.len() ==> *keys[i] < *keys[j],
{
    broadcast use vstd::laws_cmp::group_laws_cmp;
    vstd::std_specs::btree::axiom_increasing_seq_meaning(keys);
    assert(vstd::laws_cmp::obeys_cmp::<&usize>());
    assert forall|i: int, j: int| 0 <= i < j < keys.len() implies *keys[i] < *keys[j] by {
        assert(vstd::std_specs::cmp::OrdSpec::cmp_spec(&keys[i], &keys[j]) is Less);
    }
}

/// The canonical form of the undirected edge `{a, b}`.
pub open spec fn sorted_spec(a: usize, b: usize) -> Edge {
    if a < b { (a, b) } else { (b, a) }
}

/// The three canonical sides of a triangle, in corner order.
pub open spec fn tri_edges_spec(t: Triangle) -> Seq<Edge> {
    seq![sorted_spec(t[0], t[1]), sorted_spec(t[1], t[2]), sorted_spec(t[2], t[0])]
}

/// How many sides of `t` equal `e`.
pub open spec fn sides_equal(t: Triangle, e: Edge) -> nat {
    (if sorted_spec(t[0], t[1]) == e { 1nat } else { 0nat })
        + (if sorted_spec(t[1], t[2]) == e { 1nat } else { 0nat })
        + (if sorted_spec(t[2], t[0]) == e { 1nat } else { 0nat })
}

/// How many times `e` is a side of a triangle in `tris`, counted with multiplicity.
pub open spec fn edge_count_spec(tris: Seq<Triangle>, e: Edge) -> nat
    decreases tris.len(),
{
    if tris.len() == 0 {
        0
    } else {
        edge_count_spec(tris.drop_last(), e) + sides_equal(tris.last(), e)
    }
}

/// How many corners of `t` are `v`.
pub open spec fn corners_equal(t: Triangle, v: usize) -> nat {
    (if t[0] == v { 1nat } else { 0nat }) + (if t[1] == v { 1nat } else { 0nat }) + (if t[2]
        == v { 1nat } else { 0nat })
}

/// How many triangle corners in `tris` are the vertex `v`.
pub open spec fn incidence_spec(tris: Seq<Triangle>, v: usize) -> nat
    decreases tris.len(),
{
    if tris.len() == 0 {
        0
    } else {
        incidence_spec(tris.drop_last(), v) + corners_equal(tris.last(), v)
    }
}

/// Whether the three corners are pairwise different.
pub open spec fn distinct_spec(t: Triangle) -> bool {
    t[0] != t[1] && t[1] != t[2] && t[0] != t[2]
}

/// The canonical edge `{a, b}`: smaller endpoint first.
pub fn sorted(a: usize, b: usize) -> (e: Edge)
    ensures
        e == sorted_spec(a, b),
        e.0 <= e.1,
{
    if a < b {
        (a, b)
    } else {
        (b, a)
    }
}

/// Whether a triangle has three different corners.
pub fn distinct(t: Triangle) -> (r: bool)
    ensures
        r == distinct_spec(t),
{
    t[0] != t[1] && t[1] != t[2] && t[0] != t[2]
}

/// The corners of a triangle in increasing order.
pub fn canonical_vertices(t: Triangle) -> (s: Triangle)
    ensures
        s[0] <= s[1] <= s[2],
        forall|v: usize| #[trigger] corners_equal(s, v) == corners_equal(t, v),
{
    let (a, b, c) = (t[0], t[1], t[2]);
    let (x, y) = if a <= b { (a, b) } else { (b, a) };
    if c <= x {
        [c, x, y]
    } else if c <= y {
        [x, c, y]
    } else {
        [x, y, c]
    }
}

/// The three canonical sides of a triangle, in corner order.
pub fn triangle_edges(t: Triangle) -> (out: [Edge; 3])
    ensures
        out@ == tri_edges_spec(t),
{
    let out = [sorted(t[0], t[1]), sorted(t[1], t[2]), sorted(t[2], t[0])];
    assert(out@ =~= tri_edges_spec(t));
    out
}

/// For every corner, the opposite side: the corner's contribution to its vertex link.
pub fn triangle_links(t: Triangle) -> (out: [(usize, Edge); 3])
    ensures
        out[0] == (t[0], sorted_spec(t[1], t[2])),
        out[1] == (t[1], sorted_spec(t[0], t[2])),
        out[2] == (t[2], sorted_spec(t[0], t[1])),
{
    [(t[0], sorted(t[1], t[2])), (t[1], sorted(t[0], t[2])), (t[2], sorted(t[0], t[1]))]
}

/// How often each undirected edge is a side of the given triangles.
pub fn edge_counts(triangles: &[Triangle]) -> (out: BTreeMap<Edge, usize>)
    requires
        triangles@.len() * 3 <= usize::MAX,
    ensures
        forall|e: Edge| #[trigger]
            out@.contains_key(e) <==> edge_count_spec(triangles@, e) > 0,
        forall|e: Edge| #[trigger]
            out@.contains_key(e) ==> out@[e] == edge_count_spec(triangles@, e),
{
    let mut out: BTreeMap<Edge, usize> = BTreeMap::new();
    let mut i: usize = 0;
    while i < triangles.len()
        invariant
            i <= triangles@.len(),
            triangles@.len() * 3 <= usize::MAX,
            forall|e: Edge| #[trigger]
                out@.contains_key(e) <==> edge_count_spec(triangles@.take(i as int), e) > 0,
            forall|e: Edge| #[trigger]
                out@.contains_key(e) ==> out@[e] == edge_count_spec(triangles@.take(i as int), e),
            forall|e: Edge| edge_count_spec(triangles@.take(i as int), e) <= 3 * i,
        decreases triangles@.len() - i,
    {
        let t = triangles[i];
        let ghost before = out@;
        let ghost prev = triangles@.take(i as int);
        let ghost next = triangles@.take(i + 1);
        assert(next.drop_last() =~= prev);
        assert(next.last() == t);
        let sides = triangle_edges(t);
        let mut k: usize = 0;
        while k < 3
            invariant
                0 <= k <= 3,
                i < triangles@.len(),
                triangles@.len() * 3 <= usize::MAX,
                sides@ == tri_edges_spec(t),
                forall|e: Edge| edge_count_spec(prev, e) <= 3 * i,
                forall|e: Edge| #[trigger]
                    out@.contains_key(e) <==> (edge_count_spec(prev, e) + count_in_prefix(
                        sides@,
                        k as int,
                        e,
                    ) > 0),
                forall|e: Edge| #[trigger]
                    out@.contains_key(e) ==> out@[e] == edge_count_spec(prev, e) + count_in_prefix(
                        sides@,
                        k as int,
                        e,
                    ),
            decreases 3 - k,
        {
            let e = sides[k];
            let c: usize = match out.get(&e) {
                Some(c) => *c,
                None => 0,
            };
            proof {
                lemma_count_in_prefix_bound(sides@, k as int, e);
            }
            out.insert(e, c + 1);
            k = k + 1;
        }
        proof {
            assert forall|e: Edge| count_in_prefix(sides@, 3, e) == sides_equal(t, e) by {
                reveal_with_fuel(count_in_prefix, 4);
            }
            assert forall|e: Edge| edge_count_spec(next, e) <= 3 * (i + 1) by {
                assert(edge_count_spec(next, e) == edge_count_spec(prev, e) + sides_equal(t, e));
            }
        }
        i = i + 1;
    }
    assert(triangles@.take(triangles@.len() as int) =~= triangles@);
    out
}

/// Occurrences of `e` among the first `k` entries of `s`.
pub open spec fn count_in_prefix(s: Seq<Edge>, k: int, e: Edge) -> nat
    decreases k,
{
    if k <= 0 {
        0
    } else {
        count_in_prefix(s, k - 1, e) + (if s[k - 1] == e { 1nat } else { 0nat })
    }
}

proof fn lemma_count_in_prefix_bound(s: Seq<Edge>, k: int, e: Edge)
    requires
        0 <= k,
    ensures
        count_in_prefix(s, k, e) <= k,
    decreases k,
{
    if k > 0 {
        lemma_count_in_prefix_bound(s, k - 1, e);
    }
}

/// A copy of a list of slots.
pub fn copy_slots(v: &Vec<usize>) -> (out: Vec<usize>)
    ensures
        out@ == v@,
{
    let mut out: Vec<usize> = Vec::new();
    let mut i: usize = 0;
    while i < v.len()
        invariant
            i <= v@.len(),
            out@ == v@.take(i as int),
        decreases v@.len() - i,
    {
        out.push(v[i]);
        proof {
            assert(v@.take(i + 1) =~= v@.take(i as int).push(v@[i as int]));
        }
        i = i + 1;
    }
    proof {
        assert(v@.take(v@.len() as int) =~= v@);
    }
    out
}

/// A copy of a list of plain values.
pub fn copy_vec<T: Copy>(v: &Vec<T>) -> (out: Vec<T>)
    ensures
        out@ == v@,
{
    let mut out: Vec<T> = Vec::new();
    let mut i: usize = 0;
    while i < v.len()
        invariant
            i <= v@.len(),
            out@ == v@.take(i as int),
        decreases v@.len() - i,
    {
        out.push(v[i]);
        proof {
            assert(v@.take(i + 1) =~= v@.take(i as int).push(v@[i as int]));
        }
        i = i + 1;
    }
    proof {
        assert(v@.take(v@.len() as int) =~= v@);
    }
    out
}

} // verus!

verus! {

/// The edges `{p[i], p[i + 1]}` of an open path.
pub open spec fn path_edges_spec(p: Seq<usize>) -> Set<Edge> {
    Set::new(|e: Edge| exists|i: int| 0 <= i < p.len() - 1 && e == sorted_spec(#[trigger] p[i], p[i + 1]))
}

/// The edges `{p[i], p[(i + 1) % n]}` of a closed polygon.
pub open spec fn closed_path_edges_spec(p: Seq<usize>) -> Set<Edge> {
    Set::new(
        |e: Edge|
            exists|i: int| 0 <= i < p.len() && e == sorted_spec(#[trigger] p[i], p[(i + 1) % (p.len() as int)]),
    )
}

/// The vertices that occur as a corner of some triangle.
pub open spec fn active_vertices_spec(tris: Seq<Triangle>) -> Set<usize> {
    Set::new(|v: usize| exists|i: int, j: int| 0 <= i < tris.len() && 0 <= j < 3 && tris[i][j] == v)
}

/// Two triangles with the same corners counted with multiplicity.
pub open spec fn same_corners(s: Triangle, t: Triangle) -> bool {
    forall|v: usize| #[trigger] corners_equal(s, v) == corners_equal(t, v)
}

/// The side opposite corner `j` of `t`.
pub open spec fn opposite_spec(t: Triangle, j: int) -> Edge {
    if j == 0 {
        sorted_spec(t[1], t[2])
    } else if j == 1 {
        sorted_spec(t[0], t[2])
    } else {
        sorted_spec(t[0], t[1])
    }
}

/// Whether `needle` occurs, in order, inside `haystack`, matched greedily.
pub open spec fn greedy_match(needle: Seq<usize>, haystack: Seq<usize>) -> nat
    decreases haystack.len(),
{
    if haystack.len() == 0 {
        0
    } else {
        let k = greedy_match(needle, haystack.drop_last());
        if k < needle.len() && needle[k as int] == haystack.last() {
            k + 1
        } else {
            k
        }
    }
}

/// How often each vertex is a triangle corner.
pub fn triangle_incidence_counts(triangles: &[Triangle]) -> (out: BTreeMap<usize, usize>)
    requires
        triangles@.len() * 3 <= usize::MAX,
    ensures
        forall|v: usize| #[trigger] out@.contains_key(v) <==> incidence_spec(triangles@, v) > 0,
        forall|v: usize| #[trigger]
            out@.contains_key(v) ==> out@[v] == incidence_spec(triangles@, v),
{
    let mut out: BTreeMap<usize, usize> = BTreeMap::new();
    let mut i: usize = 0;
    while i < triangles.len()
        invariant
            i <= triangles@.len(),
            triangles@.len() * 3 <= usize::MAX,
            forall|v: usize| #[trigger]
                out@.contains_key(v) <==> incidence_spec(triangles@.take(i as int), v) > 0,
            forall|v: usize| #[trigger]
                out@.contains_key(v) ==> out@[v] == incidence_spec(triangles@.take(i as int), v),
            forall|v: usize| incidence_spec(triangles@.take(i as int), v) <= 3 * i,
        decreases triangles@.len() - i,
    {
        let t = triangles[i];
        let ghost prev = triangles@.take(i as int);
        let ghost next = triangles@.take(i + 1);
        assert(next.drop_last() =~= prev);
        let mut k: usize = 0;
        while k < 3
            invariant
                0 <= k <= 3,
                i < triangles@.len(),
                triangles@.len() * 3 <= usize::MAX,
                forall|v: usize| incidence_spec(prev, v) <= 3 * i,
                forall|v: usize| #[trigger]
                    out@.contains_key(v) <==> incidence_spec(prev, v) + corners_in_prefix(t, k as int, v) > 0,
                forall|v: usize| #[trigger]
                    out@.contains_key(v) ==> out@[v] == incidence_spec(prev, v) + corners_in_prefix(t, k as int, v),
            decreases 3 - k,
        {
            let v = t[k];
            let c: usize = match out.get(&v) {
                Some(c) => *c,
                None => 0,
            };
            assert(corners_in_prefix(t, k as int, v) <= k);
            out.insert(v, c + 1);
            k = k + 1;
        }
        assert(forall|v: usize| incidence_spec(next, v) == incidence_spec(prev, v) + corners_equal(t, v));
        i = i + 1;
    }
    assert(triangles@.take(triangles@.len() as int) =~= triangles@);
    out
}

/// Corners of `t` among the first `k` that equal `v`.
pub open spec fn corners_in_prefix(t: Triangle, k: int, v: usize) -> nat {
    (if k > 0 && t[0] == v { 1nat } else { 0nat }) + (if k > 1 && t[1] == v { 1nat } else { 0nat })
        + (if k > 2 && t[2] == v { 1nat } else { 0nat })
}

/// The set of undirected edges used by the triangles.
pub fn mesh_edges(triangles: &[Triangle]) -> (out: BTreeSet<Edge>)
    ensures
        forall|e: Edge| #[trigger]
            out@.contains(e) <==> exists|i: int|
                0 <= i < triangles@.len() && tri_edges_spec(triangles@[i]).contains(e),
{
    let mut out: BTreeSet<Edge> = BTreeSet::new();
    let mut i: usize = 0;
    while i < triangles.len()
        invariant
            i <= triangles@.len(),
            forall|e: Edge| #[trigger]
                out@.contains(e) <==> exists|j: int|
                    0 <= j < i && tri_edges_spec(triangles@[j]).contains(e),
        decreases triangles@.len() - i,
    {
        let sides = triangle_edges(triangles[i]);
        out.insert(sides[0]);
        out.insert(sides[1]);
        out.insert(sides[2]);
        proof {
            assert forall|e: Edge| #[trigger] out@.contains(e) <==> exists|j: int|
                0 <= j < i + 1 && tri_edges_spec(triangles@[j]).contains(e) by {
                if out@.contains(e) && !(exists|j: int| 0 <= j < i && tri_edges_spec(triangles@[j]).contains(e)) {
                    assert(tri_edges_spec(triangles@[i as int]).contains(e)) by {
                        assert(sides@[0] == e || sides@[1] == e || sides@[2] == e);
                        if sides@[0] == e { assert(tri_edges_spec(triangles@[i as int])[0] == e); }
                        if sides@[1] == e { assert(tri_edges_spec(triangles@[i as int])[1] == e); }
                        if sides@[2] == e { assert(tri_edges_spec(triangles@[i as int])[2] == e); }
                    }
                }
                if exists|j: int| 0 <= j < i + 1 && tri_edges_spec(triangles@[j]).contains(e) {
                    let j = choose|j: int| 0 <= j < i + 1 && tri_edges_spec(triangles@[j]).contains(e);
                    if j == i {
                        let k = choose|k: int| 0 <= k < 3 && tri_edges_spec(triangles@[j])[k] == e;
                        assert(sides@[k] == e);
                    }
                }
            }
        }
        i = i + 1;
    }
    out
}

/// The link of `anchor`: the side opposite `anchor` in every triangle at `anchor`.
pub fn final_link_edges(anchor: usize, triangles: &[Triangle]) -> (out: BTreeSet<Edge>)
    requires
        forall|i: int|
            0 <= i < triangles@.len() ==> corners_equal(#[trigger] triangles@[i], anchor) <= 1,
    ensures
        forall|e: Edge| #[trigger]
            out@.contains(e) <==> exists|i: int, j: int|
                0 <= i < triangles@.len() && 0 <= j < 3 && triangles@[i][j] == anchor && e
                    == opposite_spec(triangles@[i], j),
{
    let mut out: BTreeSet<Edge> = BTreeSet::new();
    let mut i: usize = 0;
    while i < triangles.len()
        invariant
            i <= triangles@.len(),
            forall|q: int|
                0 <= q < triangles@.len() ==> corners_equal(#[trigger] triangles@[q], anchor) <= 1,
            forall|e: Edge| #[trigger]
                out@.contains(e) <==> exists|k: int, j: int|
                    0 <= k < i && 0 <= j < 3 && triangles@[k][j] == anchor && e == opposite_spec(
                        triangles@[k],
                        j,
                    ),
        decreases triangles@.len() - i,
    {
        let t = triangles[i];
        let ghost ti = triangles@[i as int];
        let ghost old_out = out@;
        if t[0] == anchor {
            out.insert(sorted(t[1], t[2]));
            assert(out@.contains(opposite_spec(ti, 0)));
        } else if t[1] == anchor {
            out.insert(sorted(t[0], t[2]));
            assert(out@.contains(opposite_spec(ti, 1)));
        } else if t[2] == anchor {
            out.insert(sorted(t[0], t[1]));
            assert(out@.contains(opposite_spec(ti, 2)));
        }
        proof {
            assert(corners_equal(ti, anchor) <= 1);
            assert forall|e: Edge| #[trigger] out@.contains(e) <==> exists|k: int, j: int|
                0 <= k < i + 1 && 0 <= j < 3 && triangles@[k][j] == anchor && e == opposite_spec(
                    triangles@[k],
                    j,
                ) by {
                if out@.contains(e) && !old_out.contains(e) {
                    if t[0] == anchor {
                        assert(triangles@[i as int][0] == anchor && e == opposite_spec(triangles@[i as int], 0));
                    } else if t[1] == anchor {
                        assert(triangles@[i as int][1] == anchor && e == opposite_spec(triangles@[i as int], 1));
                    } else {
                        assert(triangles@[i as int][2] == anchor && e == opposite_spec(triangles@[i as int], 2));
                    }
                }
                if exists|k: int, j: int|
                    0 <= k < i + 1 && 0 <= j < 3 && triangles@[k][j] == anchor && e
                        == opposite_spec(triangles@[k], j) {
                    let (k, j) = choose|k: int, j: int|
                        0 <= k < i + 1 && 0 <= j < 3 && triangles@[k][j] == anchor && e
                            == opposite_spec(triangles@[k], j);
                    if k < i {
                        assert(old_out.contains(e));
                    } else {
                        assert(k == i);
                    }
                }
            }
        }
        i = i + 1;
    }
    out
}

/// The vertices that occur as a triangle corner.
pub fn active_vertices(triangles: &[Triangle]) -> (out: BTreeSet<usize>)
    ensures
        out@ == active_vertices_spec(triangles@),
{
    let mut out: BTreeSet<usize> = BTreeSet::new();
    let mut i: usize = 0;
    while i < triangles.len()
        invariant
            i <= triangles@.len(),
            forall|v: usize| #[trigger]
                out@.contains(v) <==> exists|k: int, j: int|
                    0 <= k < i && 0 <= j < 3 && triangles@[k][j] == v,
        decreases triangles@.len() - i,
    {
        let t = triangles[i];
        out.insert(t[0]);
        out.insert(t[1]);
        out.insert(t[2]);
        proof {
            assert forall|v: usize| #[trigger] out@.contains(v) <==> exists|k: int, j: int|
                0 <= k < i + 1 && 0 <= j < 3 && triangles@[k][j] == v by {
                if out@.contains(v) && !(exists|k: int, j: int| 0 <= k < i && 0 <= j < 3 && triangles@[k][j] == v) {
                    if t[0] == v { assert(triangles@[i as int][0] == v); }
                    else if t[1] == v { assert(triangles@[i as int][1] == v); }
                    else { assert(triangles@[i as int][2] == v); }
                }
            }
        }
        i = i + 1;
    }
    assert(out@ =~= active_vertices_spec(triangles@));
    out
}

proof fn lemma_sorted_triples(s: Triangle, t: Triangle)
    requires
        s[0] <= s[1] <= s[2],
        t[0] <= t[1] <= t[2],
    ensures
        same_corners(s, t) <==> (s[0] == t[0] && s[1] == t[1] && s[2] == t[2]),
{
    if same_corners(s, t) {
        assert(corners_equal(s, s[0]) == corners_equal(t, s[0]));
        assert(corners_equal(s, s[1]) == corners_equal(t, s[1]));
        assert(corners_equal(s, s[2]) == corners_equal(t, s[2]));
        assert(corners_equal(s, t[0]) == corners_equal(t, t[0]));
        assert(corners_equal(s, t[2]) == corners_equal(t, t[2]));
    }
}

/// Whether two triangles of the list have the same corners (in any order).
pub fn has_duplicate_triangles(triangles: &[Triangle]) -> (r: bool)
    ensures
        r <==> exists|i: int, j: int|
            0 <= i < j < triangles@.len() && same_corners(triangles@[i], triangles@[j]),
{
    let mut seen: Vec<Triangle> = Vec::new();
    let mut i: usize = 0;
    while i < triangles.len()
        invariant
            i <= triangles@.len(),
            seen@.len() == i,
            forall|k: int|
                0 <= k < i ==> (#[trigger] seen@[k])[0] <= seen@[k][1] <= seen@[k][2] && same_corners(
                    seen@[k],
                    triangles@[k],
                ),
            forall|a: int, b: int| 0 <= a < b < i ==> !same_corners(triangles@[a], triangles@[b]),
        decreases triangles@.len() - i,
    {
        let c = canonical_vertices(triangles[i]);
        let mut k: usize = 0;
        while k < seen.len()
            invariant
                k <= seen@.len(),
                seen@.len() == i,
                i < triangles@.len(),
                c[0] <= c[1] <= c[2],
                same_corners(c, triangles@[i as int]),
                forall|q: int|
                    0 <= q < i ==> (#[trigger] seen@[q])[0] <= seen@[q][1] <= seen@[q][2] && same_corners(
                        seen@[q],
                        triangles@[q],
                    ),
                forall|q: int| 0 <= q < k ==> !same_corners(triangles@[q], triangles@[i as int]),
            decreases seen@.len() - k,
        {
            let s = seen[k];
            proof {
                lemma_sorted_triples(s, c);
            }
            if s[0] == c[0] && s[1] == c[1] && s[2] == c[2] {
                proof {
                    assert forall|v: usize| #[trigger] corners_equal(triangles@[k as int], v)
                        == corners_equal(triangles@[i as int], v) by {
                        assert(corners_equal(s, v) == corners_equal(c, v));
                        assert(corners_equal(seen@[k as int], v) == corners_equal(triangles@[k as int], v));
                        assert(corners_equal(c, v) == corners_equal(triangles@[i as int], v));
                    }
                    assert(same_corners(triangles@[k as int], triangles@[i as int]));
                }
                return true;
            }
            k = k + 1;
        }
        seen.push(c);
        i = i + 1;
    }
    false
}

/// The edges between consecutive vertices of an open chain.
pub fn chain_edges(chain: &[usize]) -> (out: BTreeSet<Edge>)
    ensures
        out@ == path_edges_spec(chain@),
{
    let mut out: BTreeSet<Edge> = BTreeSet::new();
    let mut i: usize = 1;
    while i < chain.len()
        invariant
            i >= 1,
            forall|e: Edge| #[trigger]
                out@.contains(e) <==> exists|k: int| 0 <= k < i - 1 && k < chain@.len() - 1 && e == sorted_spec(#[trigger] chain@[k], chain@[k + 1]),
        decreases chain@.len() - i,
    {
        out.insert(sorted(chain[i - 1], chain[i]));
        i = i + 1;
    }
    assert(out@ =~= path_edges_spec(chain@));
    out
}

/// The edges of a closed polygon, the last vertex joined to the first.
pub fn polygon_boundary_edges(polygon: &[usize]) -> (out: BTreeSet<Edge>)
    ensures
        out@ == closed_path_edges_spec(polygon@),
{
    let mut out: BTreeSet<Edge> = BTreeSet::new();
    let n = polygon.len();
    let mut i: usize = 0;
    while i < n
        invariant
            n == polygon@.len(),
            i <= n,
            forall|e: Edge| #[trigger]
                out@.contains(e) <==> exists|k: int|
                    0 <= k < i && e == sorted_spec(#[trigger] polygon@[k], polygon@[(k + 1) % (n as int)]),
        decreases n - i,
    {
        let j = if i + 1 == n { 0 } else { i + 1 };
        assert(j as int == (i + 1) % (n as int)) by (nonlinear_arith)
            requires i < n, j as int == (if i + 1 == n { 0 } else { i + 1 });
        out.insert(sorted(polygon[i], polygon[j]));
        i = i + 1;
    }
    assert(out@ =~= closed_path_edges_spec(polygon@));
    out
}

/// Whether the edge joins the two chains, one endpoint on each.
pub fn is_cross_chain_edge(e: Edge, lower: &BTreeSet<usize>, upper: &BTreeSet<usize>) -> (r: bool)
    ensures
        r == ((lower@.contains(e.0) && upper@.contains(e.1)) || (upper@.contains(e.0)
            && lower@.contains(e.1))),
{
    (lower.contains(&e.0) && upper.contains(&e.1)) || (upper.contains(&e.0) && lower.contains(&e.1))
}

/// The walk around `cycle` from index `s` to index `e`, forwards (`step == 1`) or
/// backwards (`step == n - 1`), both endpoints included.
pub open spec fn walk_spec(cycle: Seq<usize>, s: int, e: int, step: int) -> Seq<usize> {
    let n = cycle.len() as int;
    let len = if step == 1 { (e - s + n) % n + 1 } else { (s - e + n) % n + 1 };
    Seq::new(len as nat, |k: int| cycle[(s + k * step) % n])
}

/// The vertices met walking around `cycle` from index `start` to index `end` in steps of `step`.
pub fn cycle_path(cycle: &[usize], start: usize, end: usize, step: usize) -> (path: Vec<usize>)
    requires
        start < cycle@.len(),
        end < cycle@.len(),
        step == 1 || step + 1 == cycle@.len(),
    ensures
        path@ == walk_spec(cycle@, start as int, end as int, step as int),
{
    let n = cycle.len();
    let ghost d: int = if step == 1 { (end - start + n) % (n as int) } else { (start - end + n) % (n as int) };
    let mut path: Vec<usize> = Vec::new();
    proof {
        assert((start + 0 * step) % (n as int) == start) by (nonlinear_arith)
            requires start < n;
        assert(d == (if step == 1 { (end - start + n) % (n as int) } else { (start - end + n) % (n as int) }));
    }
    path.push(cycle[start]);
    let mut index = start;
    while index != end
        invariant
            n == cycle@.len(),
            start < n,
            end < n,
            index < n,
            step == 1 || step + 1 == n,
            d == (if step == 1 { (end - start + n) % (n as int) } else { (start - end + n) % (n as int) }),
            path@.len() >= 1,
            index as int == (start + (path@.len() - 1) * step) % (n as int),
            (if step == 1 { (end - index + n) % (n as int) } else { (index - end + n) % (n as int) }) + path@.len() - 1 == d,
            forall|k: int|
                0 <= k < path@.len() ==> #[trigger] path@[k] == cycle@[(start + k * step) % (n as int)],
        decreases (if step == 1 { (end - index + n) % (n as int) } else { (index - end + n) % (n as int) }),
    {
        let ghost old_index = index;
        let ghost k = path@.len() - 1;
        index = if step >= n - index { index - (n - step) } else { index + step };
        proof {
            assert(index as int == (start + (k + 1) * step) % (n as int)) by (nonlinear_arith)
                requires
                    index as int == (if old_index + step >= n { old_index + step - n } else { old_index + step }),
                    old_index as int == (start + k * step) % (n as int),
                    old_index < n, step < n || step == 1, n > 0, k >= 0;
            if step == 1 {
                assert((end - index + n) % (n as int) + 1 == (end - old_index + n) % (n as int)) by (nonlinear_arith)
                    requires old_index != end, old_index < n, end < n, index as int == (if old_index + 1 >= n { old_index + 1 - n } else { old_index + 1 });
            } else {
                assert((index - end + n) % (n as int) + 1 == (old_index - end + n) % (n as int)) by (nonlinear_arith)
                    requires old_index != end, old_index < n, end < n, step + 1 == n, index as int == (if old_index + step >= n { old_index + step - n } else { old_index + step });
            }
        }
        path.push(cycle[index]);
    }
    proof {
        assert((end - index + n) % (n as int) == 0 && (index - end + n) % (n as int) == 0) by (nonlinear_arith)
            requires index == end, n > 0;
        assert(path@.len() - 1 == d);
        assert(path@ =~= walk_spec(cycle@, start as int, end as int, step as int));
    }
    path
}

/// The first index of `v` in `s`, if `v` occurs.
pub fn position(s: &[usize], v: usize) -> (r: Option<usize>)
    ensures
        r matches Some(i) ==> s@.index_of_first(v) == Some(i as int),
        r is None ==> s@.index_of_first(v) is None,
{
    proof {
        s@.index_of_first_ensures(v);
    }
    let mut i: usize = 0;
    while i < s.len()
        invariant
            i <= s@.len(),
            forall|j: int| 0 <= j < i ==> s@[j] != v,
        decreases s@.len() - i,
    {
        if s[i] == v {
            proof {
                s@.index_of_first_ensures(v);
                assert(s@[i as int] == v);
                assert(s@.contains(v));
                let r = s@.index_of_first(v);
                let q = r->0;
                if q < i {
                    assert(s@[q] != v);
                }
                if q > i {
                    assert(s@[i as int] != v);
                }
            }
            return Some(i);
        }
        i = i + 1;
    }
    proof {
        assert(!s@.contains(v));
    }
    None
}

/// Whether `f` embeds `needle` into `haystack` in order.
pub open spec fn embeds(needle: Seq<usize>, haystack: Seq<usize>, f: Seq<int>) -> bool {
    &&& f.len() == needle.len()
    &&& forall|m: int| 0 <= m < f.len() ==> 0 <= #[trigger] f[m] < haystack.len() && haystack[f[m]] == needle[m]
    &&& forall|a: int, b: int| 0 <= a < b < f.len() ==> f[a] < f[b]
}

/// Whether `needle` is a (not necessarily contiguous) subsequence of `haystack`.
pub open spec fn is_subsequence_spec(needle: Seq<usize>, haystack: Seq<usize>) -> bool {
    exists|f: Seq<int>| embeds(needle, haystack, f)
}

/// Whether `needle` occurs in order, not necessarily contiguously, inside `haystack`.
pub fn is_subsequence(needle: &[usize], haystack: &[usize]) -> (r: bool)
    ensures
        r == is_subsequence_spec(needle@, haystack@),
{
    let mut next: usize = 0;
    let mut t: usize = 0;
    let ghost mut matched: Seq<int> = Seq::empty();
    let ghost witness: Seq<int> = if is_subsequence_spec(needle@, haystack@) {
        choose|f: Seq<int>| embeds(needle@, haystack@, f)
    } else {
        Seq::empty()
    };
    while t < haystack.len()
        invariant
            t <= haystack@.len(),
            next <= needle@.len(),
            matched.len() == next,
            forall|m: int| 0 <= m < next ==> 0 <= #[trigger] matched[m] < t && haystack@[matched[m]] == needle@[m],
            forall|a: int, b: int| 0 <= a < b < next ==> matched[a] < matched[b],
            is_subsequence_spec(needle@, haystack@) ==> embeds(needle@, haystack@, witness),
            is_subsequence_spec(needle@, haystack@) ==> forall|m: int|
                0 <= m < needle@.len() && #[trigger] witness[m] < t ==> m < next,
        decreases haystack@.len() - t,
    {
        if next < needle.len() && needle[next] == haystack[t] {
            proof {
                matched = matched.push(t as int);
            }
            next = next + 1;
        }
        proof {
            if is_subsequence_spec(needle@, haystack@) {
                assert forall|m: int| 0 <= m < needle@.len() && #[trigger] witness[m] < t + 1 implies m < next by {
                    if witness[m] == t && m > 0 {
                        assert(witness[m - 1] < witness[m]);
                    }
                }
            }
        }
        t = t + 1;
    }
    proof {
        if next == needle@.len() {
            assert(embeds(needle@, haystack@, matched));
        }
        if is_subsequence_spec(needle@, haystack@) && needle@.len() > 0 {
            assert(witness[needle@.len() - 1] < t);
        }
    }
    next == needle.len()
}

/// The outcome of contracting a chain onto a cycle: the unique walk around
/// the cycle between the chain's endpoints that the chain contains in order.
pub open spec fn contract_chain_spec(chain: Seq<usize>, cycle: Seq<usize>) -> Option<Seq<usize>> {
    if chain.len() == 0 || !cycle.contains(chain[0]) || !cycle.contains(chain.last()) {
        None
    } else {
        let s = cycle.index_of_first(chain[0])->0;
        let e = cycle.index_of_first(chain.last())->0;
        let fwd = walk_spec(cycle, s, e, 1);
        let bwd = walk_spec(cycle, s, e, cycle.len() - 1);
        if is_subsequence_spec(fwd, chain) && (!is_subsequence_spec(bwd, chain) || bwd == fwd) {
            Some(fwd)
        } else if is_subsequence_spec(bwd, chain) && !is_subsequence_spec(fwd, chain) {
            Some(bwd)
        } else {
            None
        }
    }
}

pub(crate) fn seq_equal(a: &Vec<usize>, b: &Vec<usize>) -> (r: bool)
    ensures
        r == (a@ == b@),
{
    if a.len() != b.len() {
        return false;
    }
    let mut i: usize = 0;
    while i < a.len()
        invariant
            a@.len() == b@.len(),
            i <= a@.len(),
            forall|j: int| 0 <= j < i ==> a@[j] == b@[j],
        decreases a@.len() - i,
    {
        if a[i] != b[i] {
            return false;
        }
        i = i + 1;
    }
    assert(a@ =~= b@);
    true
}

/// Contract a chain onto a cycle: the walk between its endpoints that the chain
/// contains, which must exist and be unique.
/// Why a chain does not contract onto a cycle.
pub open spec fn contract_chain_error(chain: Seq<usize>, cycle: Seq<usize>) -> Seq<char> {
    if chain.len() == 0 {
        "sector chain is empty"@
    } else if !cycle.contains(chain[0]) {
        "coarse chain start "@ + crate::json::decimal(chain[0] as nat) + " is absent from coarse cycle"@
    } else if !cycle.contains(chain.last()) {
        "coarse chain end "@ + crate::json::decimal(chain.last() as nat) + " is absent from coarse cycle"@
    } else {
        let s = cycle.index_of_first(chain[0])->0;
        let e = cycle.index_of_first(chain.last())->0;
        if is_subsequence_spec(walk_spec(cycle, s, e, 1), chain) {
            "coarse chain "@ + crate::json::debug_list_text(chain) + " is ambiguous on coarse cycle "@
                + crate::json::debug_list_text(cycle)
        } else {
            "coarse chain "@ + crate::json::debug_list_text(chain) + " has no path on coarse cycle "@
                + crate::json::debug_list_text(cycle)
        }
    }
}

pub fn contract_chain_to_cycle(chain: &[usize], cycle: &[usize]) -> (r: Result<Vec<usize>, String>)
    ensures
        r matches Ok(p) ==> contract_chain_spec(chain@, cycle@) == Some(p@),
        r is Err ==> contract_chain_spec(chain@, cycle@) is None,
        r matches Err(m) ==> m@ == contract_chain_error(chain@, cycle@),
{
    if chain.len() == 0 {
        return Err("sector chain is empty".to_string());
    }
    let start = chain[0];
    let end = chain[chain.len() - 1];
    let start_index = match position(cycle, start) {
        Some(i) => i,
        None => {
            proof { cycle@.index_of_first_ensures(start); }
            let mut m = "coarse chain start ".to_string();
            crate::json::push_usize(&mut m, start);
            m.append(" is absent from coarse cycle");
            return Err(m);
        }
    };
    let end_index = match position(cycle, end) {
        Some(i) => i,
        None => {
            proof {
                cycle@.index_of_first_ensures(end);
                cycle@.index_of_first_ensures(start);
            }
            let mut m = "coarse chain end ".to_string();
            crate::json::push_usize(&mut m, end);
            m.append(" is absent from coarse cycle");
            return Err(m);
        }
    };
    proof {
        cycle@.index_of_first_ensures(start);
        cycle@.index_of_first_ensures(end);
    }
    let forward = cycle_path(cycle, start_index, end_index, 1);
    let backward = cycle_path(cycle, start_index, end_index, cycle.len() - 1);
    let f_ok = is_subsequence(&forward, chain);
    let b_ok = is_subsequence(&backward, chain);
    if f_ok && (!b_ok || seq_equal(&forward, &backward)) {
        Ok(forward)
    } else if b_ok && !f_ok {
        Ok(backward)
    } else {
        let mut m = "coarse chain ".to_string();
        crate::json::push_debug_list(&mut m, chain);
        if f_ok {
            m.append(" is ambiguous on coarse cycle ");
        } else {
            m.append(" has no path on coarse cycle ");
        }
        crate::json::push_debug_list(&mut m, cycle);
        Err(m)
    }
}

/// The least and greatest value, if any.
pub fn min_max(values: &[usize]) -> (r: Option<(usize, usize)>)
    ensures
        values@.len() == 0 <==> r is None,
        r matches Some((lo, hi)) ==> values@.contains(lo) && values@.contains(hi) && forall|i: int|
            0 <= i < values@.len() ==> lo <= #[trigger] values@[i] <= hi,
{
    if values.len() == 0 {
        return None;
    }
    let mut lo = values[0];
    let mut hi = values[0];
    let mut i: usize = 1;
    while i < values.len()
        invariant
            1 <= i <= values@.len(),
            values@.contains(lo),
            values@.contains(hi),
            forall|j: int| 0 <= j < i ==> lo <= #[trigger] values@[j] <= hi,
        decreases values@.len() - i,
    {
        if values[i] < lo {
            lo = values[i];
        }
        if values[i] > hi {
            hi = values[i];
        }
        i = i + 1;
    }
    Some((lo, hi))
}

/// Whether a degree known to lie in `lower..=upper` can still be moved into the
/// legal window `legal_min..=legal_max` by at most `capacity` further changes.
/// The degree range `lower..=upper`, widened by `capacity` either way,
/// still meets the legal range.
pub open spec fn repairable(lower: usize, upper: usize, capacity: usize, legal_min: usize, legal_max: usize) -> bool {
    lower - capacity <= legal_max && upper + capacity >= legal_min
}

/// More repair capacity never makes a repairable range unrepairable.
pub proof fn repairable_grows_with_capacity(lower: usize, upper: usize, capacity: usize, more: usize,
    legal_min: usize, legal_max: usize)
    requires
        capacity <= more,
        repairable(lower, upper, capacity, legal_min, legal_max),
    ensures
        repairable(lower, upper, more, legal_min, legal_max),
{
}

pub fn degree_range_repairable(
    lower: usize,
    upper: usize,
    capacity: usize,
    legal_min: usize,
    legal_max: usize,
) -> (r: bool)
    ensures
        r == repairable(lower, upper, capacity, legal_min, legal_max),
{
    let down = if lower >= capacity { lower - capacity } else { 0 };
    let up = if upper <= usize::MAX - capacity { upper + capacity } else { usize::MAX };
    down <= legal_max && up >= legal_min
}

/// Whether the provider's sector is unselected and its choice still compatible.
pub open spec fn provider_available(
    selected: Seq<Option<usize>>,
    compatible: Seq<Vec<usize>>,
    p: (usize, usize),
) -> bool {
    selected[p.0 as int] is None && compatible[p.0 as int]@.contains(p.1)
}

/// The providers `(sector, choice)` of `edge` whose sector is still open and
/// whose choice is still compatible.
pub fn compatible_edge_providers(
    edge: Edge,
    providers: &BTreeMap<Edge, Vec<(usize, usize)>>,
    selected: &[Option<usize>],
    compatible: &[Vec<usize>],
) -> (out: Vec<(usize, usize)>)
    requires
        providers@.contains_key(edge) ==> forall|i: int|
            0 <= i < providers@[edge]@.len() ==> (#[trigger] providers@[edge]@[i]).0 < selected@.len()
                && providers@[edge]@[i].0 < compatible@.len(),
    ensures
        out@ == (if providers@.contains_key(edge) {
            providers@[edge]@.filter(|p: (usize, usize)| provider_available(selected@, compatible@, p))
        } else {
            Seq::empty()
        }),
{
    let mut out: Vec<(usize, usize)> = Vec::new();
    match providers.get(&edge) {
        None => {
            assert(out@ =~= Seq::empty());
        },
        Some(list) => {
            let ghost pred = |p: (usize, usize)| provider_available(selected@, compatible@, p);
            let mut i: usize = 0;
            while i < list.len()
                invariant
                    i <= list@.len(),
                    list@ == providers@[edge]@,
                    pred == (|p: (usize, usize)| provider_available(selected@, compatible@, p)),
                    forall|q: int|
                        0 <= q < list@.len() ==> (#[trigger] list@[q]).0 < selected@.len() && list@[q].0 < compatible@.len(),
                    out@ == list@.take(i as int).filter(pred),
                decreases list@.len() - i,
            {
                let p = list[i];
                let unselected = selected[p.0].is_none();
                let fits = contains_usize(&compatible[p.0], p.1);
                let ok = unselected && fits;
                proof {
                    assert(list@.take(i + 1) =~= list@.take(i as int).push(p));
                    list@.take(i as int).lemma_filter_push(p, pred);
                    assert(list@[i as int] == p);
                    assert(ok == pred(p));
                }
                if ok {
                    out.push(p);
                }
                i = i + 1;
            }
            assert(list@.take(list@.len() as int) =~= list@);
        },
    }
    out
}

/// Whether `v` occurs in `s`.
pub fn contains_usize(s: &Vec<usize>, v: usize) -> (r: bool)
    ensures
        r == s@.contains(v),
{
    let mut i: usize = 0;
    while i < s.len()
        invariant
            i <= s@.len(),
            forall|j: int| 0 <= j < i ==> s@[j] != v,
        decreases s@.len() - i,
    {
        if s[i] == v {
            assert(s@[i as int] == v);
            return true;
        }
        i = i + 1;
    }
    false
}

/// An edge of `left` and `right` that is not a shared boundary edge, if any.
pub fn duplicate_nonboundary_edge(
    left: &BTreeSet<Edge>,
    right: &BTreeSet<Edge>,
    shared_boundary: &BTreeSet<Edge>,
) -> (r: Option<Edge>)
    ensures
        r matches Some(e) ==> left@.contains(e) && right@.contains(e) && !shared_boundary@.contains(e),
        r matches Some(e) ==> forall|f: Edge| #[trigger] left@.contains(f) && right@.contains(f)
            && !shared_boundary@.contains(f) ==> !edge_lt(f, e),
        r is None ==> forall|e: Edge|
            left@.contains(e) && right@.contains(e) ==> #[trigger] shared_boundary@.contains(e),
{
    let listed = crate::cycles::edge_set_to_vec(left);
    let mut i: usize = 0;
    while i < listed.len()
        invariant
            i <= listed@.len(),
            listed@.to_set() == left@,
            forall|a: int, b: int| 0 <= a < b < listed@.len() ==> edge_lt(listed@[a], listed@[b]),
            forall|j: int| 0 <= j < i ==> (right@.contains(#[trigger] listed@[j]) ==> shared_boundary@.contains(listed@[j])),
        decreases listed@.len() - i,
    {
        let e = listed[i];
        if right.contains(&e) && !shared_boundary.contains(&e) {
            proof {
                assert(listed@.to_set().contains(e));
                assert forall|f: Edge| #[trigger] left@.contains(f) && right@.contains(f)
                    && !shared_boundary@.contains(f) implies !edge_lt(f, e) by {
                    assert(listed@.to_set().contains(f));
                    let k = choose|k: int| 0 <= k < listed@.len() && listed@[k] == f;
                    if k > i {
                        assert(edge_lt(listed@[i as int], listed@[k]));
                    }
                }
            }
            return Some(e);
        }
        i = i + 1;
    }
    proof {
        assert forall|e: Edge| left@.contains(e) && right@.contains(e) implies #[trigger] shared_boundary@.contains(e) by {
            assert(listed@.to_set().contains(e));
            let j = choose|j: int| 0 <= j < listed@.len() && listed@[j] == e;
            assert(right@.contains(listed@[j]));
        }
    }
    None
}

/// The edges between consecutive vertices of an open path, in path order.
pub fn path_edges(path: &[usize]) -> (out: Vec<Edge>)
    ensures
        out@.len() == (if path@.len() == 0 { 0int } else { path@.len() as int - 1 }),
        forall|i: int| 0 <= i < out@.len() ==> #[trigger] out@[i] == sorted_spec(path@[i], path@[i + 1]),
{
    let mut out: Vec<Edge> = Vec::new();
    if path.len() == 0 {
        return out;
    }
    let mut i: usize = 1;
    while i < path.len()
        invariant
            1 <= i <= path@.len(),
            out@.len() == i - 1,
            forall|q: int| 0 <= q < out@.len() ==> #[trigger] out@[q] == sorted_spec(path@[q], path@[q + 1]),
        decreases path@.len() - i,
    {
        out.push(sorted(path[i - 1], path[i]));
        i = i + 1;
    }
    out
}

/// The FNV-1a hash of a byte sequence.
pub open spec fn fnv1a_spec(bytes: Seq<u8>) -> u64
    decreases bytes.len(),
{
    if bytes.len() == 0 {
        0xcbf29ce484222325u64
    } else {
        vstd::wrapping::u64_specs::wrapping_mul(fnv1a_spec(bytes.drop_last()) ^ (bytes.last() as u64), 0x100000001b3u64)
    }
}

/// The 64-bit FNV-1a hash of `bytes`.
pub fn fnv1a(bytes: &[u8]) -> (h: u64)
    ensures
        h == fnv1a_spec(bytes@),
{
    let mut hash: u64 = 0xcbf29ce484222325;
    let mut i: usize = 0;
    while i < bytes.len()
        invariant
            i <= bytes@.len(),
            hash == fnv1a_spec(bytes@.take(i as int)),
        decreases bytes@.len() - i,
    {
        proof {
            assert(bytes@.take(i + 1).drop_last() =~= bytes@.take(i as int));
        }
        hash = (hash ^ (bytes[i] as u64)).wrapping_mul(0x100000001b3);
        i = i + 1;
    }
    assert(bytes@.take(bytes@.len() as int) =~= bytes@);
    hash
}

} // verus!
