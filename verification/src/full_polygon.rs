//! Checks on the triangulations of one full sector polygon: the polygon's
//! own shape, which triangle lists are admissible, their diagonals, vertex
//! incidences and vertex links.

use vstd::prelude::*;
use std::collections::{BTreeMap, BTreeSet};
use crate::graph::{Edge, Triangle, sorted_spec, distinct_spec, same_corners, edge_count_spec, closed_path_edges_spec,
    active_vertices_spec, polygon_boundary_edges, has_duplicate_triangles, edge_counts, active_vertices, distinct};
use crate::cycles::{link_spec, link_edges, single_path_spec, is_single_path, vertex_set_to_vec, edge_set_to_vec};
use crate::json::{decimal, push_usize};
use vstd::std_specs::btree::spec_btree_map_iter;
use vstd::std_specs::iter::IteratorSpec;

verus! {

broadcast use vstd::std_specs::btree::group_btree_axioms, vstd::laws_cmp::group_laws_cmp;

/// Why a polygon cannot be triangulated as a full sector, if it cannot.
pub open spec fn polygon_error(vertices: Seq<usize>, boundary: Set<Edge>, forbidden: Set<Edge>) -> Option<Seq<char>> {
    if vertices.len() < 3 {
        Some("full polygon has fewer than three vertices"@)
    } else if vertices.len() > 255 {
        Some("full polygon has "@ + decimal(vertices.len()) + " vertices; u8 incidence limit is 255"@)
    } else if !vertices.no_duplicates() {
        Some("full polygon has duplicate boundary vertices"@)
    } else if boundary != closed_path_edges_spec(vertices) {
        Some("full polygon boundary_edges do not match polygon_vertices"@)
    } else if !boundary.disjoint(forbidden) {
        Some("full polygon marks a boundary edge as forbidden"@)
    } else {
        None
    }
}

/// Check a sector polygon: at least three and at most 255 distinct
/// vertices, boundary edges that close it exactly, none of them forbidden.
pub fn validate_problem(polygon_vertices: &[usize], boundary_edges: &BTreeSet<Edge>,
    forbidden_global_edges: &BTreeSet<Edge>) -> (r: Result<(), String>)
    ensures
        match polygon_error(polygon_vertices@, boundary_edges@, forbidden_global_edges@) {
            Some(m) => r matches Err(message) && message@ == m,
            None => r is Ok,
        },
{
    let n = polygon_vertices.len();
    if n < 3 {
        proof { reveal_strlit("full polygon has fewer than three vertices"); }
        return Err("full polygon has fewer than three vertices".to_string());
    }
    if n > 255 {
        let mut message = String::new();
        proof { reveal_strlit("full polygon has "); reveal_strlit(" vertices; u8 incidence limit is 255"); }
        message.append("full polygon has ");
        push_usize(&mut message, n);
        message.append(" vertices; u8 incidence limit is 255");
        return Err(message);
    }
    let mut i: usize = 0;
    while i < n
        invariant
            n == polygon_vertices@.len(),
            3 <= n <= 255,
            i <= n,
            forall|a: int, b: int| 0 <= a < b < i ==> polygon_vertices@[a] != polygon_vertices@[b],
        decreases n - i,
    {
        let mut j: usize = 0;
        while j < i
            invariant
                n == polygon_vertices@.len(),
                3 <= n <= 255,
                j <= i < n,
                forall|a: int| 0 <= a < j ==> polygon_vertices@[a] != polygon_vertices@[i as int],
            decreases i - j,
        {
            if polygon_vertices[j] == polygon_vertices[i] {
                proof {
                    reveal_strlit("full polygon has duplicate boundary vertices");
                    assert(!polygon_vertices@.no_duplicates());
                }
                return Err("full polygon has duplicate boundary vertices".to_string());
            }
            j = j + 1;
        }
        i = i + 1;
    }
    let expected = polygon_boundary_edges(polygon_vertices);
    if !crate::polygon_incidence::edge_sets_equal(boundary_edges, &expected) {
        proof { reveal_strlit("full polygon boundary_edges do not match polygon_vertices"); }
        return Err("full polygon boundary_edges do not match polygon_vertices".to_string());
    }
    if !crate::polygon_incidence::edges_avoid(boundary_edges, forbidden_global_edges) {
        proof { reveal_strlit("full polygon marks a boundary edge as forbidden"); }
        return Err("full polygon marks a boundary edge as forbidden".to_string());
    }
    Ok(())
}

/// The keys of a map keyed by edge.
fn edge_keys<V>(m: &BTreeMap<Edge, V>) -> (out: Vec<Edge>)
    ensures
        out@.to_set() == m@.dom(),
{
    let mut out: Vec<Edge> = Vec::new();
    let ghost full = spec_btree_map_iter(m).remaining();
    for kv in it: m.iter()
        invariant
            it.seq() == full,
            full == spec_btree_map_iter(m).remaining(),
            out@.len() == it.index(),
            forall|j: int| 0 <= j < it.index() ==> out@[j] == *(#[trigger] full[j]).0,
    {
        out.push(*kv.0);
    }
    proof {
        assert forall|k: Edge| out@.to_set().contains(k) <==> m@.dom().contains(k) by {
            if out@.to_set().contains(k) {
                let j = choose|j: int| 0 <= j < out@.len() && out@[j] == k;
                assert(m@.contains_key(*full[j].0));
            }
            if m@.contains_key(k) {
                assert(full.contains((&k, &m@[k])));
                let j = choose|j: int| 0 <= j < full.len() && full[j] == (&k, &m@[k]);
                assert(out@[j] == k);
            }
        }
        assert(out@.to_set() =~= m@.dom());
    }
    out
}

/// A triangle list is an admissible triangulation of the polygon: no
/// repeated triangle, no degenerate one, every boundary edge on exactly one
/// triangle, every other edge on exactly two, and no forbidden edge.
pub open spec fn topology_allowed_spec(tris: Seq<Triangle>, boundary: Set<Edge>, forbidden: Set<Edge>) -> bool {
    &&& !exists|i: int, j: int| 0 <= i < j < tris.len() && same_corners(tris[i], tris[j])
    &&& forall|i: int| 0 <= i < tris.len() ==> #[trigger] distinct_spec(tris[i])
    &&& forall|e: Edge| boundary.contains(e) ==> #[trigger] edge_count_spec(tris, e) == 1
    &&& forall|e: Edge| #[trigger] edge_count_spec(tris, e) > 0 ==> !forbidden.contains(e)
        && (if boundary.contains(e) { edge_count_spec(tris, e) == 1 } else { edge_count_spec(tris, e) == 2 })
}

/// Whether the triangles are an admissible triangulation of the polygon.
pub fn topology_allowed(triangles: &[Triangle], boundary_edges: &BTreeSet<Edge>, forbidden_global_edges: &BTreeSet<Edge>) -> (r: bool)
    requires
        triangles@.len() * 3 <= usize::MAX,
    ensures
        r == topology_allowed_spec(triangles@, boundary_edges@, forbidden_global_edges@),
{
    if has_duplicate_triangles(triangles) {
        return false;
    }
    let mut i: usize = 0;
    while i < triangles.len()
        invariant
            i <= triangles@.len(),
            forall|q: int| 0 <= q < i ==> #[trigger] distinct_spec(triangles@[q]),
        decreases triangles@.len() - i,
    {
        if !distinct(triangles[i]) {
            return false;
        }
        i = i + 1;
    }
    let counts = edge_counts(triangles);
    let boundary = edge_set_to_vec(boundary_edges);
    let mut b: usize = 0;
    while b < boundary.len()
        invariant
            b <= boundary@.len(),
            boundary@.to_set() == boundary_edges@,
            forall|e: Edge| #[trigger] counts@.contains_key(e) <==> edge_count_spec(triangles@, e) > 0,
            forall|e: Edge| #[trigger] counts@.contains_key(e) ==> counts@[e] == edge_count_spec(triangles@, e),
            forall|q: int| 0 <= q < b ==> edge_count_spec(triangles@, #[trigger] boundary@[q]) == 1,
        decreases boundary@.len() - b,
    {
        let e = boundary[b];
        match counts.get(&e) {
            Some(c) => {
                if *c != 1 {
                    proof { assert(boundary@.to_set().contains(e)); }
                    return false;
                }
            },
            None => {
                proof { assert(boundary@.to_set().contains(e)); }
                return false;
            },
        }
        b = b + 1;
    }
    let keys = edge_keys(&counts);
    let mut k: usize = 0;
    while k < keys.len()
        invariant
            k <= keys@.len(),
            keys@.to_set() == counts@.dom(),
            forall|e: Edge| #[trigger] counts@.contains_key(e) <==> edge_count_spec(triangles@, e) > 0,
            forall|e: Edge| #[trigger] counts@.contains_key(e) ==> counts@[e] == edge_count_spec(triangles@, e),
            forall|q: int| 0 <= q < k ==> !forbidden_global_edges@.contains(#[trigger] keys@[q])
                && (if boundary_edges@.contains(keys@[q]) { edge_count_spec(triangles@, keys@[q]) == 1 } else { edge_count_spec(triangles@, keys@[q]) == 2 }),
        decreases keys@.len() - k,
    {
        let e = keys[k];
        proof { assert(keys@.to_set().contains(e)); }
        let c = match counts.get(&e) {
            Some(c) => *c,
            None => 0,
        };
        if forbidden_global_edges.contains(&e) {
            return false;
        }
        if boundary_edges.contains(&e) {
            if c != 1 {
                return false;
            }
        } else if c != 2 {
            return false;
        }
        k = k + 1;
    }
    proof {
        assert forall|e: Edge| boundary_edges@.contains(e) implies #[trigger] edge_count_spec(triangles@, e) == 1 by {
            assert(boundary@.to_set().contains(e));
            let q = choose|q: int| 0 <= q < boundary@.len() && boundary@[q] == e;
        }
        assert forall|e: Edge| #[trigger] edge_count_spec(triangles@, e) > 0 implies !forbidden_global_edges@.contains(e)
            && (if boundary_edges@.contains(e) { edge_count_spec(triangles@, e) == 1 } else { edge_count_spec(triangles@, e) == 2 }) by {
            assert(counts@.contains_key(e));
            assert(keys@.to_set().contains(e));
            let q = choose|q: int| 0 <= q < keys@.len() && keys@[q] == e;
        }
    }
    true
}

/// The interior edges of a triangulation: its edges that are not boundary edges.
pub fn diagonals(triangles: &[Triangle], boundary_edges: &BTreeSet<Edge>) -> (out: BTreeSet<Edge>)
    requires
        triangles@.len() * 3 <= usize::MAX,
    ensures
        forall|e: Edge| #[trigger] out@.contains(e) <==> edge_count_spec(triangles@, e) > 0 && !boundary_edges@.contains(e),
{
    let counts = edge_counts(triangles);
    let keys = edge_keys(&counts);
    let mut out: BTreeSet<Edge> = BTreeSet::new();
    let mut k: usize = 0;
    while k < keys.len()
        invariant
            k <= keys@.len(),
            keys@.to_set() == counts@.dom(),
            forall|e: Edge| #[trigger] counts@.contains_key(e) <==> edge_count_spec(triangles@, e) > 0,
            forall|e: Edge| #[trigger] out@.contains(e) <==> exists|q: int| 0 <= q < k && keys@[q] == e && !boundary_edges@.contains(e),
        decreases keys@.len() - k,
    {
        let e = keys[k];
        if !boundary_edges.contains(&e) {
            out.insert(e);
        }
        k = k + 1;
    }
    proof {
        assert forall|e: Edge| #[trigger] out@.contains(e) <==> edge_count_spec(triangles@, e) > 0 && !boundary_edges@.contains(e) by {
            if out@.contains(e) {
                let q = choose|q: int| 0 <= q < k && keys@[q] == e && !boundary_edges@.contains(e);
                assert(keys@.to_set().contains(keys@[q]));
            }
            if edge_count_spec(triangles@, e) > 0 && !boundary_edges@.contains(e) {
                assert(counts@.contains_key(e));
                assert(keys@.to_set().contains(e));
                let q = choose|q: int| 0 <= q < keys@.len() && keys@[q] == e;
            }
        }
    }
    out
}

/// The link of every vertex of the triangles: for each corner equal to the
/// vertex, the side opposite it.
pub fn vertex_link_edges(triangles: &[Triangle]) -> (out: BTreeMap<usize, BTreeSet<Edge>>)
    ensures
        out@.dom() == active_vertices_spec(triangles@),
        forall|v: usize| #[trigger] out@.contains_key(v) ==> out@[v]@ == link_spec(v, triangles@),
{
    let vertices = vertex_set_to_vec(&active_vertices(triangles));
    let mut out: BTreeMap<usize, BTreeSet<Edge>> = BTreeMap::new();
    let mut i: usize = 0;
    while i < vertices.len()
        invariant
            i <= vertices@.len(),
            vertices@.to_set() == active_vertices_spec(triangles@),
            forall|v: usize| #[trigger] out@.contains_key(v) <==> exists|q: int| 0 <= q < i && vertices@[q] == v,
            forall|v: usize| #[trigger] out@.contains_key(v) ==> out@[v]@ == link_spec(v, triangles@),
        decreases vertices@.len() - i,
    {
        let v = vertices[i];
        out.insert(v, link_edges(v, triangles));
        i = i + 1;
    }
    proof {
        assert forall|v: usize| out@.dom().contains(v) <==> active_vertices_spec(triangles@).contains(v) by {
            if out@.contains_key(v) {
                let q = choose|q: int| 0 <= q < i && vertices@[q] == v;
                assert(vertices@.to_set().contains(vertices@[q]));
            }
            if active_vertices_spec(triangles@).contains(v) {
                assert(vertices@.to_set().contains(v));
                let q = choose|q: int| 0 <= q < vertices@.len() && vertices@[q] == v;
            }
        }
        assert(out@.dom() =~= active_vertices_spec(triangles@));
    }
    out
}

/// Whether every vertex link is one simple path, as at the vertices of a
/// triangulated polygon.
pub fn local_vertex_links_are_paths(links: &BTreeMap<usize, BTreeSet<Edge>>) -> (r: bool)
    ensures
        r == forall|v: usize| #[trigger] links@.contains_key(v) ==> single_path_spec(links@[v]@),
{
    let keys = crate::reachability::map_keys(links);
    let mut i: usize = 0;
    while i < keys.len()
        invariant
            i <= keys@.len(),
            keys@.to_set() == links@.dom(),
            forall|q: int| 0 <= q < i ==> links@.contains_key(#[trigger] keys@[q]) && single_path_spec(links@[keys@[q]]@),
        decreases keys@.len() - i,
    {
        let v = keys[i];
        proof { assert(keys@.to_set().contains(v)); }
        match links.get(&v) {
            Some(edges) => {
                if !is_single_path(edges) {
                    return false;
                }
            },
            None => {},
        }
        i = i + 1;
    }
    proof {
        assert forall|v: usize| #[trigger] links@.contains_key(v) implies single_path_spec(links@[v]@) by {
            assert(keys@.to_set().contains(v));
            let q = choose|q: int| 0 <= q < keys@.len() && keys@[q] == v;
        }
    }
    true
}


/// The corners of the triangles, three per triangle, in order.
pub open spec fn corner_seq(tris: Seq<Triangle>) -> Seq<usize> {
    Seq::new(3 * tris.len(), |p: int| tris[p / 3][p % 3])
}

/// How often `v` occurs among the first `p` entries of `c`.
pub open spec fn occurrences(c: Seq<usize>, p: int, v: usize) -> nat
    decreases p,
{
    if p <= 0 {
        0
    } else {
        occurrences(c, p - 1, v) + (if c[p - 1] == v { 1nat } else { 0nat })
    }
}

/// The entry at `p` is the 256th occurrence of its vertex.
pub open spec fn overflows_at(c: Seq<usize>, p: int) -> bool {
    occurrences(c, p, c[p]) == 255
}

proof fn lemma_corner_index(i: int, j: int)
    requires
        0 <= i,
        0 <= j < 3,
    ensures
        (3 * i + j) / 3 == i,
        (3 * i + j) % 3 == j,
{
    assert((3 * i + j) / 3 == i && (3 * i + j) % 3 == j) by (nonlinear_arith)
        requires 0 <= i, 0 <= j < 3;
}

/// How many triangle corners each vertex has, as a byte; refused, naming
/// the vertex, as soon as a vertex would reach 256 corners.
pub fn vertex_incidences(triangles: &[Triangle]) -> (r: Result<BTreeMap<usize, u8>, String>)
    ensures
        (forall|p: int| 0 <= p < corner_seq(triangles@).len() ==> !#[trigger] overflows_at(corner_seq(triangles@), p))
            ==> (r matches Ok(m) && forall|v: usize| #[trigger] m@.contains_key(v) <==> occurrences(corner_seq(triangles@),
                corner_seq(triangles@).len() as int, v) > 0),
        r matches Ok(m) ==> forall|v: usize| #[trigger] m@.contains_key(v) ==> m@[v] == occurrences(corner_seq(triangles@),
            corner_seq(triangles@).len() as int, v),
        (exists|p: int| 0 <= p < corner_seq(triangles@).len() && #[trigger] overflows_at(corner_seq(triangles@), p))
            ==> exists|p: int| 0 <= p < corner_seq(triangles@).len() && overflows_at(corner_seq(triangles@), p)
                && (forall|q: int| 0 <= q < p ==> !#[trigger] overflows_at(corner_seq(triangles@), q))
                && (r matches Err(message) && message@ == "vertex "@ + decimal(corner_seq(triangles@)[p] as nat) + " incidence exceeds u8"@),
{
    let ghost c = corner_seq(triangles@);
    let mut out: BTreeMap<usize, u8> = BTreeMap::new();
    let mut i: usize = 0;
    while i < triangles.len()
        invariant
            c == corner_seq(triangles@),
            i <= triangles@.len(),
            forall|v: usize| #[trigger] out@.contains_key(v) <==> occurrences(c, 3 * i, v) > 0,
            forall|v: usize| #[trigger] out@.contains_key(v) ==> out@[v] == occurrences(c, 3 * i, v),
            forall|q: int| 0 <= q < 3 * i ==> !#[trigger] overflows_at(c, q),
        decreases triangles@.len() - i,
    {
        let t = triangles[i];
        let mut j: usize = 0;
        while j < 3
            invariant
                c == corner_seq(triangles@),
                i < triangles@.len(),
                t == triangles@[i as int],
                j <= 3,
                forall|v: usize| #[trigger] out@.contains_key(v) <==> occurrences(c, 3 * i + j, v) > 0,
                forall|v: usize| #[trigger] out@.contains_key(v) ==> out@[v] == occurrences(c, 3 * i + j, v),
                forall|q: int| 0 <= q < 3 * i + j ==> !#[trigger] overflows_at(c, q),
            decreases 3 - j,
        {
            let v = t[j];
            let ghost p = 3 * i + j;
            proof {
                lemma_corner_index(i as int, j as int);
                assert(c[p] == v);
            }
            let count: u8 = match out.get(&v) {
                Some(k) => *k,
                None => 0,
            };
            assert(count == occurrences(c, p, v));
            if count == 255 {
                let mut message = String::new();
                proof { reveal_strlit("vertex "); reveal_strlit(" incidence exceeds u8"); }
                message.append("vertex ");
                push_usize(&mut message, v);
                message.append(" incidence exceeds u8");
                proof {
                    assert(overflows_at(c, p));
                }
                return Err(message);
            }
            out.insert(v, count + 1);
            proof {
                assert forall|q: int| 0 <= q < p + 1 implies !#[trigger] overflows_at(c, q) by {}
            }
            j = j + 1;
        }
        i = i + 1;
    }
    proof {
        assert forall|p: int| 0 <= p < c.len() implies !#[trigger] overflows_at(c, p) by {}
    }
    Ok(out)
}

} // verus!
