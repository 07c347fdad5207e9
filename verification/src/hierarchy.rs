//! One exact 2:1 parent layer of the hierarchy: per-parent level
//! requirements, components of coarsenable parents, their boundary edges and
//! the split of each component into a transition ring and a core.

use vstd::prelude::*;
use crate::json::{decimal, push_usize};
use crate::records::{TriangleAddress, ParentRequirement, HierarchyComponent, HierarchyComponentPlan};

verus! {

/// A parent's dense index in the coarser layer, or why it has none.
#[derive(Debug, Clone, PartialEq, Eq)]
pub enum DenseIndex {
    Index(usize),
    Refused(String),
}

/// Where a face sits in the coarser layer.
#[derive(Debug, Clone, PartialEq, Eq)]
pub enum FaceParent {
    /// The face has no hierarchy address.
    Unaddressed,
    /// The face has an address but no 2:1 parent.
    Orphan,
    /// The parent's address, its subdivision and its dense index in the
    /// coarser layer (or why that index could not be computed).
    Parent { address: TriangleAddress, subdivision: usize, dense: DenseIndex },
}

/// One triangle slot of the fine layer.
#[derive(Debug, Clone, PartialEq, Eq)]
pub struct HierarchyFace {
    pub live: bool,
    pub corners: [usize; 3],
    pub neighbours: [usize; 3],
    pub parent: FaceParent,
}

/// The fine layer: its subdivision, its number of vertex sites and its
/// triangle slots. Slot 0 is never a neighbour.
#[derive(Debug, Clone, PartialEq, Eq)]
pub struct HierarchyGrid {
    pub subdivision: usize,
    pub vertex_count: usize,
    pub faces: Vec<HierarchyFace>,
}

/// What the live children of one parent have shown so far.
#[derive(Debug, Clone, Copy, PartialEq, Eq)]
pub struct ParentTally {
    pub address: Option<TriangleAddress>,
    pub children: u8,
    pub maximum: usize,
}

/// The highest level required at a corner of a face.
pub open spec fn face_level(levels: Seq<usize>, c: [usize; 3]) -> usize {
    let a = levels[c[0] as int];
    let b = levels[c[1] as int];
    let d = levels[c[2] as int];
    let ab = if a >= b { a } else { b };
    if ab >= d { ab } else { d }
}

/// An empty tally.
pub open spec fn blank_tally() -> ParentTally {
    ParentTally { address: None, children: 0, maximum: 0 }
}

/// The tallies of `count` parents and the parent of each face after the
/// first `upto` faces, or the first error.
pub open spec fn tally_faces(faces: Seq<HierarchyFace>, levels: Seq<usize>, cn: usize, count: nat, upto: int)
    -> Result<(Seq<ParentTally>, Seq<usize>), Seq<char>>
    decreases upto,
{
    if upto <= 0 {
        Ok((Seq::new(count, |i: int| blank_tally()), Seq::new(faces.len(), |i: int| usize::MAX)))
    } else {
        match tally_faces(faces, levels, cn, count, upto - 1) {
            Err(e) => Err(e),
            Ok((t, fp)) => {
                let f = upto - 1;
                let face = faces[f];
                if !face.live {
                    Ok((t, fp))
                } else {
                    match face.parent {
                        FaceParent::Unaddressed => Err("active face "@ + decimal(f as nat) + " has no hierarchy address"@),
                        FaceParent::Orphan => Err("active face "@ + decimal(f as nat) + " has no 2-to-1 parent"@),
                        FaceParent::Parent { address, subdivision, dense } => {
                            if subdivision != cn {
                                Err("active face "@ + decimal(f as nat) + " parent subdivision "@ + decimal(subdivision as nat)
                                    + " does not match "@ + decimal(cn as nat))
                            } else {
                                match dense {
                                    DenseIndex::Refused(e) => Err(e@),
                                    DenseIndex::Index(d) => {
                                        let a = t[d as int];
                                        if a.address is Some && a.address != Some(address) {
                                            Err("parent dense index collision"@)
                                        } else if a.children == 255 {
                                            Err("parent child count overflow"@)
                                        } else {
                                            let m = face_level(levels, face.corners);
                                            Ok((t.update(d as int, ParentTally {
                                                address: Some(address),
                                                children: (a.children + 1) as u8,
                                                maximum: if a.maximum >= m { a.maximum } else { m },
                                            }), fp.update(f, d)))
                                        }
                                    },
                                }
                            }
                        },
                    }
                }
            },
        }
    }
}

proof fn lemma_tally_err(faces: Seq<HierarchyFace>, levels: Seq<usize>, cn: usize, count: nat, k: int, n: int)
    requires
        0 <= k <= n,
        tally_faces(faces, levels, cn, count, k) is Err,
    ensures
        tally_faces(faces, levels, cn, count, n) == tally_faces(faces, levels, cn, count, k),
    decreases n - k,
{
    if k < n {
        lemma_tally_err(faces, levels, cn, count, k, n - 1);
    }
}

/// Every live face that names a parent of the right subdivision names a
/// dense index below `count`, and its corners are vertex sites.
pub open spec fn grid_indices_ok(grid: HierarchyGrid) -> bool {
    let cn = grid.subdivision / 2;
    &&& forall|f: int| 0 <= f < grid.faces@.len() && (#[trigger] grid.faces@[f]).live ==> {
        &&& grid.faces@[f].corners[0] < grid.vertex_count
        &&& grid.faces@[f].corners[1] < grid.vertex_count
        &&& grid.faces@[f].corners[2] < grid.vertex_count
        &&& grid.faces@[f].neighbours[0] < grid.faces@.len()
        &&& grid.faces@[f].neighbours[1] < grid.faces@.len()
        &&& grid.faces@[f].neighbours[2] < grid.faces@.len()
        &&& grid.faces@[f].parent matches FaceParent::Parent { subdivision, dense, .. }
            ==> (subdivision == cn ==> (dense matches DenseIndex::Index(d) ==> d < 20 * cn * cn))
    }
    &&& forall|f: int, g: int| 0 <= f < grid.faces@.len() && 0 <= g < grid.faces@.len()
        && #[trigger] dense_of(grid.faces@[f], cn) is Some && #[trigger] dense_of(grid.faces@[g], cn) is Some
        && same_parent(dense_of(grid.faces@[f], cn), dense_of(grid.faces@[g], cn))
        ==> same_index(dense_of(grid.faces@[f], cn), dense_of(grid.faces@[g], cn))
}

/// The parent address and dense index of a live face whose parent has
/// subdivision `cn`. The dense index is a function of the address: one
/// parent address has one index.
pub open spec fn dense_of(face: HierarchyFace, cn: usize) -> Option<(TriangleAddress, usize)> {
    match face.parent {
        FaceParent::Parent { address, subdivision, dense: DenseIndex::Index(d) } =>
            if face.live && subdivision == cn { Some((address, d)) } else { None },
        _ => None,
    }
}

/// The tallies after the first `upto` faces, where they can be taken.
pub open spec fn tallies_of(faces: Seq<HierarchyFace>, levels: Seq<usize>, cn: usize, count: nat, upto: int) -> Seq<ParentTally> {
    match tally_faces(faces, levels, cn, count, upto) {
        Ok((t, fp)) => t,
        Err(_) => Seq::empty(),
    }
}

/// Both name the same parent address.
pub open spec fn same_parent(x: Option<(TriangleAddress, usize)>, y: Option<(TriangleAddress, usize)>) -> bool {
    match (x, y) {
        (Some((a, d)), Some((b, e))) => a == b,
        _ => false,
    }
}

/// The dense index, if any, is below `count`.
pub open spec fn index_below(x: Option<(TriangleAddress, usize)>, count: nat) -> bool {
    match x {
        Some((a, d)) => d < count,
        None => true,
    }
}

/// Both name the same dense index.
pub open spec fn same_index(x: Option<(TriangleAddress, usize)>, y: Option<(TriangleAddress, usize)>) -> bool {
    match (x, y) {
        (Some((a, d)), Some((b, e))) => d == e,
        _ => false,
    }
}

proof fn lemma_tally_witness(faces: Seq<HierarchyFace>, levels: Seq<usize>, cn: usize, count: nat, upto: int)
    requires
        tally_faces(faces, levels, cn, count, upto) is Ok,
        upto <= faces.len(),
        forall|g: int| 0 <= g < faces.len() ==> index_below(#[trigger] dense_of(faces[g], cn), count),
    ensures
        ({
            let t = tallies_of(faces, levels, cn, count, upto);
            forall|d: int| 0 <= d < t.len() && (#[trigger] t[d]).address is Some ==>
                exists|f: int| 0 <= f < upto && dense_of(faces[f], cn) == Some((tally_address(t[d]), d as usize))
        }),
        tallies_of(faces, levels, cn, count, upto).len() == count,
    decreases upto,
{
    if upto > 0 {
        lemma_tally_witness(faces, levels, cn, count, upto - 1);
        let t0 = tallies_of(faces, levels, cn, count, upto - 1);
        let t = tallies_of(faces, levels, cn, count, upto);
        let f = upto - 1;
        assert(tally_faces(faces, levels, cn, count, upto - 1) is Ok);
        let (t0x, fp0) = tally_faces(faces, levels, cn, count, upto - 1)->Ok_0;
        assert(t0x == t0);
        assert forall|d: int| 0 <= d < t0.len() && (#[trigger] t0[d]).address is Some implies
            exists|g: int| 0 <= g < upto - 1 && dense_of(faces[g], cn) == Some((tally_address(t0[d]), d as usize)) by {
        }
        if !faces[f].live {
            assert(t == t0);
        } else {
            match faces[f].parent {
                FaceParent::Parent { address, subdivision, dense } => {
                    match dense {
                        DenseIndex::Index(dd) => {
                            assert(subdivision == cn);
                            assert(dense_of(faces[f], cn) == Some((address, dd)));
                            assert(index_below(dense_of(faces[f], cn), count));
                            let a = t0[dd as int];
                            let m = face_level(levels, faces[f].corners);
                            assert(t == t0.update(dd as int, ParentTally {
                                address: Some(address),
                                children: (a.children + 1) as u8,
                                maximum: if a.maximum >= m { a.maximum } else { m },
                            }));
                            assert forall|d: int| 0 <= d < t.len() && (#[trigger] t[d]).address is Some implies
                                exists|g: int| 0 <= g < upto && dense_of(faces[g], cn) == Some((tally_address(t[d]), d as usize)) by {
                                if d != dd {
                                    assert(t[d] == t0[d]);
                                    let g = choose|g: int| 0 <= g < upto - 1 && dense_of(faces[g], cn) == Some((tally_address(t0[d]), d as usize));
                                    assert(0 <= g < upto);
                                } else {
                                    assert(dense_of(faces[f], cn) == Some((tally_address(t[d]), d as usize)));
                                }
                            }
                        },
                        DenseIndex::Refused(_) => {},
                    }
                },
                _ => {},
            }
        }
    }
}

proof fn lemma_tally_error_all_addressed(t: Seq<ParentTally>, d: int)
    requires
        tally_error(t, d) is None,
        0 <= d,
    ensures
        forall|e: int| d <= e < t.len() ==> (#[trigger] t[e]).address is Some,
    decreases t.len() - d,
{
    if d < t.len() {
        lemma_tally_error_all_addressed(t, d + 1);
    }
}

fn max3(a: usize, b: usize, c: usize) -> (m: usize)
    ensures
        m == ({ let ab = if a >= b { a } else { b }; if ab >= c { ab } else { c } }),
{
    let ab = if a >= b { a } else { b };
    if ab >= c { ab } else { c }
}

fn face_message(f: usize, tail: &str) -> (m: String)
    ensures
        m@ == "active face "@ + decimal(f as nat) + tail@,
{
    let mut m = "active face ".to_string();
    push_usize(&mut m, f);
    m.append(tail);
    m
}

fn copy_string(s: &String) -> (out: String)
    ensures
        out@ == s@,
{
    let mut out = String::new();
    out.append(s.as_str());
    out
}

/// Tally the live faces under their parents; the second vector gives each
/// live face's parent.
fn tally(grid: &HierarchyGrid, levels: &[usize], cn: usize, count: usize)
    -> (r: Result<(Vec<ParentTally>, Vec<usize>), String>)
    requires
        grid_indices_ok(*grid),
        levels@.len() == grid.vertex_count,
        cn == grid.subdivision / 2,
        count == 20 * cn * cn,
    ensures
        match tally_faces(grid.faces@, levels@, cn, count as nat, grid.faces@.len() as int) {
            Err(e) => r matches Err(m) && m@ == e,
            Ok((t, fp)) => r matches Ok((tv, fv)) && tv@ == t && fv@ == fp,
        },
{
    let mut t: Vec<ParentTally> = Vec::new();
    let mut i: usize = 0;
    while i < count
        invariant
            i <= count,
            t@ == Seq::new(i as nat, |k: int| blank_tally()),
        decreases count - i,
    {
        t.push(ParentTally { address: None, children: 0, maximum: 0 });
        proof {
            assert(t@ =~= Seq::new((i + 1) as nat, |k: int| blank_tally()));
        }
        i = i + 1;
    }
    let n = grid.faces.len();
    let mut fp: Vec<usize> = Vec::new();
    let mut i: usize = 0;
    while i < n
        invariant
            i <= n,
            n == grid.faces@.len(),
            fp@ == Seq::new(i as nat, |k: int| usize::MAX),
        decreases n - i,
    {
        fp.push(usize::MAX);
        proof {
            assert(fp@ =~= Seq::new((i + 1) as nat, |k: int| usize::MAX));
        }
        i = i + 1;
    }
    proof {
        assert(t@ =~= Seq::new(count as nat, |k: int| blank_tally()));
        assert(fp@ =~= Seq::new(grid.faces@.len(), |k: int| usize::MAX));
    }
    let mut f: usize = 0;
    while f < n
        invariant
            f <= n,
            n == grid.faces@.len(),
            grid_indices_ok(*grid),
            levels@.len() == grid.vertex_count,
            cn == grid.subdivision / 2,
            count == 20 * cn * cn,
            tally_faces(grid.faces@, levels@, cn, count as nat, f as int) == Ok::<(Seq<ParentTally>, Seq<usize>), Seq<char>>((t@, fp@)),
            t@.len() == count,
            fp@.len() == n,
        decreases n - f,
    {
        let face = &grid.faces[f];
        proof {
            assert(grid.faces@[f as int] == *face);
        }
        if face.live {
            match &face.parent {
                FaceParent::Unaddressed => {
                    proof {
                        lemma_tally_err(grid.faces@, levels@, cn, count as nat, f + 1, n as int);
                    }
                    return Err(face_message(f, " has no hierarchy address"));
                },
                FaceParent::Orphan => {
                    proof {
                        lemma_tally_err(grid.faces@, levels@, cn, count as nat, f + 1, n as int);
                    }
                    return Err(face_message(f, " has no 2-to-1 parent"));
                },
                FaceParent::Parent { address, subdivision, dense } => {
                    if *subdivision != cn {
                        let mut m = face_message(f, " parent subdivision ");
                        push_usize(&mut m, *subdivision);
                        m.append(" does not match ");
                        push_usize(&mut m, cn);
                        proof {
                            lemma_tally_err(grid.faces@, levels@, cn, count as nat, f + 1, n as int);
                        }
                        return Err(m);
                    }
                    let d = match dense {
                        DenseIndex::Refused(e) => {
                            proof {
                                lemma_tally_err(grid.faces@, levels@, cn, count as nat, f + 1, n as int);
                            }
                            return Err(copy_string(e));
                        },
                        DenseIndex::Index(d) => *d,
                    };
                    let a = t[d];
                    match a.address {
                        Some(existing) => {
                            if existing != *address {
                                proof {
                                    lemma_tally_err(grid.faces@, levels@, cn, count as nat, f + 1, n as int);
                                }
                                return Err("parent dense index collision".to_string());
                            }
                        },
                        None => {},
                    }
                    if a.children == 255 {
                        proof {
                            lemma_tally_err(grid.faces@, levels@, cn, count as nat, f + 1, n as int);
                        }
                        return Err("parent child count overflow".to_string());
                    }
                    let c = face.corners;
                    let m = max3(levels[c[0]], levels[c[1]], levels[c[2]]);
                    let maximum = if a.maximum >= m { a.maximum } else { m };
                    t.set(d, ParentTally { address: Some(*address), children: a.children + 1, maximum });
                    fp.set(f, d);
                },
            }
        }
        f = f + 1;
    }
    Ok((t, fp))
}

/// The first parent, from `d` on, that has no live child or not exactly four.
pub open spec fn tally_error(t: Seq<ParentTally>, d: int) -> Option<Seq<char>>
    decreases t.len() - d,
{
    if d < 0 || d >= t.len() {
        None
    } else if t[d].address is None {
        Some("parent face "@ + decimal(d as nat) + " has no active children"@)
    } else if t[d].children != 4 {
        Some("parent face "@ + decimal(d as nat) + " has "@ + decimal(t[d].children as nat) + " active children, expected 4"@)
    } else {
        tally_error(t, d + 1)
    }
}

fn parent_message(d: usize, middle: &str, k: usize, tail: &str) -> (m: String)
    ensures
        m@ == "parent face "@ + decimal(d as nat) + middle@ + decimal(k as nat) + tail@,
{
    let mut m = "parent face ".to_string();
    push_usize(&mut m, d);
    m.append(middle);
    push_usize(&mut m, k);
    m.append(tail);
    m
}

fn check_tallies(t: &Vec<ParentTally>) -> (r: Result<(), String>)
    ensures
        match tally_error(t@, 0) {
            Some(e) => r matches Err(m) && m@ == e,
            None => r is Ok,
        },
{
    let mut d: usize = 0;
    while d < t.len()
        invariant
            d <= t@.len(),
            tally_error(t@, 0) == tally_error(t@, d as int),
        decreases t@.len() - d,
    {
        if t[d].address.is_none() {
            let mut m = "parent face ".to_string();
            push_usize(&mut m, d);
            m.append(" has no active children");
            return Err(m);
        }
        if t[d].children != 4 {
            return Err(parent_message(d, " has ", t[d].children as usize, " active children, expected 4"));
        }
        d = d + 1;
    }
    Ok(())
}

/// Array `a` with slot `i` set to `v`.
pub open spec fn set3(a: [usize; 3], i: int, v: usize) -> [usize; 3] {
    [if i == 0 { v } else { a[0] }, if i == 1 { v } else { a[1] }, if i == 2 { v } else { a[2] }]
}

/// Record `right` as a neighbour of `left` once; an error when `left`
/// already has three others.
pub open spec fn push_link(nb: Seq<[usize; 3]>, deg: Seq<usize>, left: int, right: usize)
    -> Result<(Seq<[usize; 3]>, Seq<usize>), Seq<char>> {
    if exists|i: int| 0 <= i < deg[left] && #[trigger] nb[left][i] == right {
        Ok((nb, deg))
    } else if deg[left] >= 3 {
        Err("parent face "@ + decimal(left as nat) + " has more than 3 neighbours"@)
    } else {
        Ok((nb.update(left, set3(nb[left], deg[left] as int, right)), deg.update(left, (deg[left] + 1) as usize)))
    }
}

/// The links after looking at the first `j` neighbours of face `f`.
pub open spec fn link_face(faces: Seq<HierarchyFace>, fp: Seq<usize>, nb: Seq<[usize; 3]>, deg: Seq<usize>, f: int, j: int)
    -> Result<(Seq<[usize; 3]>, Seq<usize>), Seq<char>>
    decreases j,
{
    if j <= 0 {
        Ok((nb, deg))
    } else {
        match link_face(faces, fp, nb, deg, f, j - 1) {
            Err(e) => Err(e),
            Ok((n1, d1)) => {
                let other = faces[f].neighbours[j - 1];
                let left = fp[f];
                if other == 0 || !faces[other as int].live {
                    Ok((n1, d1))
                } else {
                    let right = fp[other as int];
                    if right != usize::MAX && right != left {
                        push_link(n1, d1, left as int, right)
                    } else {
                        Ok((n1, d1))
                    }
                }
            },
        }
    }
}

/// The links after the first `upto` faces.
pub open spec fn link_faces(faces: Seq<HierarchyFace>, fp: Seq<usize>, count: nat, upto: int)
    -> Result<(Seq<[usize; 3]>, Seq<usize>), Seq<char>>
    decreases upto,
{
    if upto <= 0 {
        Ok((Seq::new(count, |i: int| [usize::MAX, usize::MAX, usize::MAX]), Seq::new(count, |i: int| 0usize)))
    } else {
        match link_faces(faces, fp, count, upto - 1) {
            Err(e) => Err(e),
            Ok((n1, d1)) => {
                let f = upto - 1;
                if !faces[f].live || fp[f] == usize::MAX {
                    Ok((n1, d1))
                } else {
                    link_face(faces, fp, n1, d1, f, 3)
                }
            },
        }
    }
}

/// Every face's parent is unset or a parent index.
pub open spec fn parents_in_range(fp: Seq<usize>, count: int) -> bool {
    forall|f: int| 0 <= f < fp.len() ==> #[trigger] fp[f] == usize::MAX || fp[f] < count
}

proof fn lemma_link_face_err(faces: Seq<HierarchyFace>, fp: Seq<usize>, nb: Seq<[usize; 3]>, deg: Seq<usize>, f: int, k: int, j: int)
    requires
        0 <= k <= j,
        link_face(faces, fp, nb, deg, f, k) is Err,
    ensures
        link_face(faces, fp, nb, deg, f, j) == link_face(faces, fp, nb, deg, f, k),
    decreases j - k,
{
    if k < j {
        lemma_link_face_err(faces, fp, nb, deg, f, k, j - 1);
    }
}

proof fn lemma_link_faces_err(faces: Seq<HierarchyFace>, fp: Seq<usize>, count: nat, k: int, n: int)
    requires
        0 <= k <= n,
        link_faces(faces, fp, count, k) is Err,
    ensures
        link_faces(faces, fp, count, n) == link_faces(faces, fp, count, k),
    decreases n - k,
{
    if k < n {
        lemma_link_faces_err(faces, fp, count, k, n - 1);
    }
}

/// Link the parents of neighbouring live faces.
fn link_parents(grid: &HierarchyGrid, fp: &Vec<usize>, count: usize) -> (r: Result<(Vec<[usize; 3]>, Vec<usize>), String>)
    requires
        grid_indices_ok(*grid),
        fp@.len() == grid.faces@.len(),
        parents_in_range(fp@, count as int),
    ensures
        match link_faces(grid.faces@, fp@, count as nat, grid.faces@.len() as int) {
            Err(e) => r matches Err(m) && m@ == e,
            Ok((n1, d1)) => r matches Ok((nv, dv)) && nv@ == n1 && dv@ == d1,
        },
        r matches Ok((nv, dv)) ==> nv@.len() == count && dv@.len() == count
            && forall|q: int, i: int| 0 <= q < count && 0 <= i < dv@[q] ==> #[trigger] nv@[q][i] < count && nv@[q][i] != q,
        r matches Ok((nv, dv)) ==> forall|q: int| 0 <= q < count ==> #[trigger] dv@[q] <= 3,
{
    let mut nb: Vec<[usize; 3]> = Vec::new();
    let mut deg: Vec<usize> = Vec::new();
    let mut i: usize = 0;
    while i < count
        invariant
            i <= count,
            nb@ == Seq::new(i as nat, |k: int| [usize::MAX, usize::MAX, usize::MAX]),
            deg@ == Seq::new(i as nat, |k: int| 0usize),
        decreases count - i,
    {
        nb.push([usize::MAX, usize::MAX, usize::MAX]);
        deg.push(0);
        proof {
            assert(nb@ =~= Seq::new((i + 1) as nat, |k: int| [usize::MAX, usize::MAX, usize::MAX]));
            assert(deg@ =~= Seq::new((i + 1) as nat, |k: int| 0usize));
        }
        i = i + 1;
    }
    let n = grid.faces.len();
    let mut f: usize = 0;
    while f < n
        invariant
            f <= n,
            n == grid.faces@.len(),
            grid_indices_ok(*grid),
            fp@.len() == n,
            parents_in_range(fp@, count as int),
            nb@.len() == count,
            deg@.len() == count,
            forall|q: int, i: int| 0 <= q < count && 0 <= i < deg@[q] ==> #[trigger] nb@[q][i] < count && nb@[q][i] != q,
            forall|q: int| 0 <= q < count ==> #[trigger] deg@[q] <= 3,
            link_faces(grid.faces@, fp@, count as nat, f as int) == Ok::<(Seq<[usize; 3]>, Seq<usize>), Seq<char>>((nb@, deg@)),
        decreases n - f,
    {
        let face = &grid.faces[f];
        proof {
            assert(grid.faces@[f as int] == *face);
        }
        let left = fp[f];
        if face.live && left != usize::MAX {
            let ghost nb0 = nb@;
            let ghost deg0 = deg@;
            let mut j: usize = 0;
            while j < 3
                invariant
                    j <= 3,
                    f < n,
                    n == grid.faces@.len(),
                    grid_indices_ok(*grid),
                    *face == grid.faces@[f as int],
                    face.live,
                    left == fp@[f as int],
                    left < count,
                    fp@.len() == n,
                    parents_in_range(fp@, count as int),
                    nb@.len() == count,
                    deg@.len() == count,
                    forall|q: int, i: int| 0 <= q < count && 0 <= i < deg@[q] ==> #[trigger] nb@[q][i] < count && nb@[q][i] != q,
                    forall|q: int| 0 <= q < count ==> #[trigger] deg@[q] <= 3,
                    link_face(grid.faces@, fp@, nb0, deg0, f as int, j as int) == Ok::<(Seq<[usize; 3]>, Seq<usize>), Seq<char>>((nb@, deg@)),
                    link_faces(grid.faces@, fp@, count as nat, f as int) == Ok::<(Seq<[usize; 3]>, Seq<usize>), Seq<char>>((nb0, deg0)),
                decreases 3 - j,
            {
                let other = face.neighbours[j];
                if other != 0 && grid.faces[other].live {
                    let right = fp[other];
                    if right != usize::MAX && right != left {
                        let d = deg[left];
                        let cur = nb[left];
                        let mut present = false;
                        let mut k: usize = 0;
                        while k < d
                            invariant
                                k <= d,
                                d <= 3,
                                present == exists|i: int| 0 <= i < k && cur[i] == right,
                            decreases d - k,
                        {
                            if cur[k] == right {
                                present = true;
                            }
                            k = k + 1;
                        }
                        proof {
                            assert(present == exists|i: int| 0 <= i < deg@[left as int] && #[trigger] nb@[left as int][i] == right) by {
                                assert(k == d);
                                if exists|i: int| 0 <= i < deg@[left as int] && #[trigger] nb@[left as int][i] == right {
                                    let i = choose|i: int| 0 <= i < deg@[left as int] && #[trigger] nb@[left as int][i] == right;
                                    if i < k {
                                        assert(cur[i] == right);
                                    }
                                }
                            }
                        }
                        if !present {
                            if d == 3 {
                                proof {
                                    lemma_link_face_err(grid.faces@, fp@, nb0, deg0, f as int, j + 1, 3);
                                    assert(link_faces(grid.faces@, fp@, count as nat, f + 1) == link_face(grid.faces@, fp@, nb0, deg0, f as int, 3));
                                    lemma_link_faces_err(grid.faces@, fp@, count as nat, f + 1, n as int);
                                }
                                let mut m = "parent face ".to_string();
                                push_usize(&mut m, left);
                                m.append(" has more than 3 neighbours");
                                return Err(m);
                            }
                            let updated: [usize; 3] = [if d == 0 { right } else { cur[0] }, if d == 1 { right } else { cur[1] },
                                if d == 2 { right } else { cur[2] }];
                            nb.set(left, updated);
                            deg.set(left, d + 1);
                        }
                    }
                }
                j = j + 1;
            }
        }
        f = f + 1;
    }
    Ok((nb, deg))
}

/// The first parent, from `d` on, without exactly three parent neighbours.
pub open spec fn degree_error(deg: Seq<usize>, d: int) -> Option<Seq<char>>
    decreases deg.len() - d,
{
    if d < 0 || d >= deg.len() {
        None
    } else if deg[d] != 3 {
        Some("parent face "@ + decimal(d as nat) + " has "@ + decimal(deg[d] as nat) + " parent neighbours, expected 3"@)
    } else {
        degree_error(deg, d + 1)
    }
}

fn check_degrees(deg: &Vec<usize>) -> (r: Result<(), String>)
    ensures
        match degree_error(deg@, 0) {
            Some(e) => r matches Err(m) && m@ == e,
            None => r is Ok,
        },
{
    let mut d: usize = 0;
    while d < deg.len()
        invariant
            d <= deg@.len(),
            degree_error(deg@, 0) == degree_error(deg@, d as int),
        decreases deg@.len() - d,
    {
        if deg[d] != 3 {
            return Err(parent_message(d, " has ", deg[d], " parent neighbours, expected 3"));
        }
        d = d + 1;
    }
    Ok(())
}

/// `q` is one of the three parent neighbours of `p`.
pub open spec fn linked(nb: Seq<[usize; 3]>, p: int, q: int) -> bool {
    &&& 0 <= p < nb.len()
    &&& (nb[p][0] == q || nb[p][1] == q || nb[p][2] == q)
}

/// Stepping from a member of `s` to an allowed neighbour stays in `s`.
pub open spec fn link_closed(nb: Seq<[usize; 3]>, allowed: Set<int>, s: Set<int>) -> bool {
    forall|a: int, b: int| s.contains(a) && #[trigger] linked(nb, a, b) && allowed.contains(b) ==> s.contains(b)
}

/// The parents reached from `start` by steps onto allowed parents.
pub open spec fn flood(nb: Seq<[usize; 3]>, allowed: Set<int>, start: int) -> Set<int> {
    Set::new(|u: int| forall|s: Set<int>| #[trigger] link_closed(nb, allowed, s) && s.contains(start) ==> s.contains(u))
}

/// Parents whose every child needs at most the coarse level.
pub open spec fn eligible_parents(t: Seq<ParentTally>, level: usize) -> Seq<bool> {
    Seq::new(t.len(), |d: int| t[d].maximum <= level)
}

/// The component labels after the first `upto` seeds, with the number of
/// components: each new seed, an eligible parent with no label, labels the
/// eligible unlabelled parents its flood reaches.
pub open spec fn component_labels(nb: Seq<[usize; 3]>, elig: Seq<bool>, upto: int) -> (Seq<usize>, nat)
    decreases upto,
{
    if upto <= 0 {
        (Seq::new(nb.len(), |i: int| usize::MAX), 0)
    } else {
        let (lab, c) = component_labels(nb, elig, upto - 1);
        let s = upto - 1;
        if !elig[s] || lab[s] != usize::MAX {
            (lab, c)
        } else {
            let allowed = Set::new(|q: int| 0 <= q < nb.len() && elig[q] && lab[q] == usize::MAX);
            let comp = flood(nb, allowed, s);
            (Seq::new(lab.len(), |q: int| if comp.contains(q) { c as usize } else { lab[q] }), c + 1)
        }
    }
}

/// The three neighbours of every parent are parents other than itself.
pub open spec fn links_ok(nb: Seq<[usize; 3]>) -> bool {
    forall|q: int, i: int| 0 <= q < nb.len() && 0 <= i < 3 ==> #[trigger] nb[q][i] < nb.len()
}

/// The flood from `seed` through eligible parents with no label.
fn flood_component(nb: &Vec<[usize; 3]>, elig: &Vec<bool>, lab: &Vec<usize>, seed: usize) -> (inc: Vec<bool>)
    requires
        links_ok(nb@),
        elig@.len() == nb@.len(),
        lab@.len() == nb@.len(),
        seed < nb@.len(),
    ensures
        inc@.len() == nb@.len(),
        forall|q: int| 0 <= q < nb@.len() ==> (#[trigger] inc@[q] <==> flood(nb@,
            Set::new(|x: int| 0 <= x < nb@.len() && elig@[x] && lab@[x] == usize::MAX), seed as int).contains(q)),
{
    let ghost allowed = Set::new(|x: int| 0 <= x < nb@.len() && elig@[x] && lab@[x] == usize::MAX);
    let ghost fl = flood(nb@, allowed, seed as int);
    let n = nb.len();
    let mut inc: Vec<bool> = Vec::new();
    let mut i: usize = 0;
    while i < n
        invariant
            i <= n,
            n == nb@.len(),
            inc@.len() == i,
            forall|q: int| 0 <= q < i ==> !#[trigger] inc@[q],
        decreases n - i,
    {
        inc.push(false);
        i = i + 1;
    }
    inc.set(seed, true);
    let ghost range = vstd::set_lib::set_int_range(0, n as int);
    proof {
        vstd::set_lib::lemma_int_range(0, n as int);
        assert forall|s: Set<int>| #[trigger] link_closed(nb@, allowed, s) && s.contains(seed as int) implies s.contains(seed as int) by {}
        assert(fl.contains(seed as int));
    }
    let mut size: usize = 1;
    proof {
        assert(Set::new(|q: int| 0 <= q < n && inc@[q]) =~= set![seed as int]);
    }
    loop
        invariant
            n == nb@.len(),
            links_ok(nb@),
            elig@.len() == n,
            lab@.len() == n,
            seed < n,
            allowed == Set::new(|x: int| 0 <= x < nb@.len() && elig@[x] && lab@[x] == usize::MAX),
            fl == flood(nb@, allowed, seed as int),
            range == vstd::set_lib::set_int_range(0, n as int),
            range.finite(),
            range.len() == n,
            inc@.len() == n,
            inc@[seed as int],
            forall|q: int| 0 <= q < n && #[trigger] inc@[q] ==> fl.contains(q),
            size == Set::new(|q: int| 0 <= q < n && inc@[q]).len(),
            size <= n,
        ensures
            inc@.len() == n,
            forall|q: int| 0 <= q < n ==> (#[trigger] inc@[q] <==> fl.contains(q)),
        decreases n - size,
    {
        let ghost before = inc@;
        let ghost size0 = size;
        let mut changed = false;
        let mut p: usize = 0;
        while p < n
            invariant
                n == nb@.len(),
                links_ok(nb@),
                elig@.len() == n,
                lab@.len() == n,
                seed < n,
                allowed == Set::new(|x: int| 0 <= x < nb@.len() && elig@[x] && lab@[x] == usize::MAX),
                fl == flood(nb@, allowed, seed as int),
                range == vstd::set_lib::set_int_range(0, n as int),
                range.finite(),
                range.len() == n,
                p <= n,
                inc@.len() == n,
                inc@[seed as int],
                forall|q: int| 0 <= q < n && #[trigger] inc@[q] ==> fl.contains(q),
                size == Set::new(|q: int| 0 <= q < n && inc@[q]).len(),
                size <= n,
                !changed ==> inc@ == before,
                changed ==> size > size0,
                size >= size0,
                !changed ==> forall|a: int, b: int| 0 <= a < p && inc@[a] && #[trigger] linked(nb@, a, b) && allowed.contains(b) ==> inc@[b],
            decreases n - p,
        {
            if inc[p] {
                let mut i: usize = 0;
                while i < 3
                    invariant
                        n == nb@.len(),
                        links_ok(nb@),
                        elig@.len() == n,
                        lab@.len() == n,
                        seed < n,
                        p < n,
                        allowed == Set::new(|x: int| 0 <= x < nb@.len() && elig@[x] && lab@[x] == usize::MAX),
                        fl == flood(nb@, allowed, seed as int),
                        range == vstd::set_lib::set_int_range(0, n as int),
                        range.finite(),
                        range.len() == n,
                        i <= 3,
                        inc@.len() == n,
                        inc@[p as int],
                        inc@[seed as int],
                        forall|q: int| 0 <= q < n && #[trigger] inc@[q] ==> fl.contains(q),
                        size == Set::new(|q: int| 0 <= q < n && inc@[q]).len(),
                        size <= n,
                        !changed ==> inc@ == before,
                        changed ==> size > size0,
                        size >= size0,
                        !changed ==> forall|a: int, b: int| 0 <= a < p && inc@[a] && #[trigger] linked(nb@, a, b) && allowed.contains(b) ==> inc@[b],
                        !changed ==> forall|k: int| 0 <= k < i && allowed.contains(nb@[p as int][k] as int) ==> inc@[nb@[p as int][k] as int],
                    decreases 3 - i,
                {
                    let q = nb[p][i];
                    proof {
                        assert(nb@[p as int][i as int] < n);
                    }
                    if elig[q] && lab[q] == usize::MAX && !inc[q] {
                        let ghost old_set = Set::new(|x: int| 0 <= x < n && inc@[x]);
                        proof {
                            assert(linked(nb@, p as int, q as int));
                            assert(allowed.contains(q as int));
                            assert forall|s: Set<int>| #[trigger] link_closed(nb@, allowed, s) && s.contains(seed as int) implies s.contains(q as int) by {
                                assert(fl.contains(p as int));
                                assert(s.contains(p as int));
                            }
                        }
                        inc.set(q, true);
                        proof {
                            assert(Set::new(|x: int| 0 <= x < n && inc@[x]) =~= old_set.insert(q as int));
                            assert(old_set.subset_of(range));
                            vstd::set_lib::lemma_len_subset(old_set, range);
                            assert(old_set.insert(q as int).subset_of(range));
                            vstd::set_lib::lemma_len_subset(old_set.insert(q as int), range);
                        }
                        size = size + 1;
                        changed = true;
                    }
                    i = i + 1;
                }
                proof {
                    if !changed {
                        assert forall|a: int, b: int| 0 <= a < p + 1 && inc@[a] && #[trigger] linked(nb@, a, b) && allowed.contains(b) implies inc@[b] by {
                            if a == p {
                                if nb@[a][0] == b {
                                    assert(allowed.contains(nb@[p as int][0] as int));
                                } else if nb@[a][1] == b {
                                    assert(allowed.contains(nb@[p as int][1] as int));
                                } else {
                                    assert(allowed.contains(nb@[p as int][2] as int));
                                }
                            }
                        }
                    }
                }
            }
            p = p + 1;
        }
        if !changed {
            proof {
                let s = Set::new(|q: int| 0 <= q < n && inc@[q]);
                assert(link_closed(nb@, allowed, s)) by {
                    assert forall|a: int, b: int| s.contains(a) && #[trigger] linked(nb@, a, b) && allowed.contains(b) implies s.contains(b) by {
                        assert(inc@[a]);
                    }
                }
                assert forall|q: int| 0 <= q < n && fl.contains(q) implies #[trigger] inc@[q] by {
                    assert(s.contains(seed as int));
                    assert(s.contains(q));
                }
                assert forall|q: int| 0 <= q < n implies (#[trigger] inc@[q] <==> fl.contains(q)) by {}
            }
            break;
        }
    }
    inc
}

/// Label the components of the eligible parents, seeds in increasing order.
fn label_components(nb: &Vec<[usize; 3]>, elig: &Vec<bool>) -> (r: (Vec<usize>, usize))
    requires
        links_ok(nb@),
        elig@.len() == nb@.len(),
    ensures
        (r.0@, r.1 as nat) == component_labels(nb@, elig@, nb@.len() as int),
        r.1 <= nb@.len(),
{
    let n = nb.len();
    let mut lab: Vec<usize> = Vec::new();
    let mut i: usize = 0;
    while i < n
        invariant
            i <= n,
            n == nb@.len(),
            lab@ == Seq::new(i as nat, |k: int| usize::MAX),
        decreases n - i,
    {
        lab.push(usize::MAX);
        proof {
            assert(lab@ =~= Seq::new((i + 1) as nat, |k: int| usize::MAX));
        }
        i = i + 1;
    }
    let mut c: usize = 0;
    let mut s: usize = 0;
    while s < n
        invariant
            s <= n,
            n == nb@.len(),
            links_ok(nb@),
            elig@.len() == n,
            c <= s,
            (lab@, c as nat) == component_labels(nb@, elig@, s as int),
        decreases n - s,
    {
        proof {
            assert(lab@.len() == n) by {
                lemma_labels_len(nb@, elig@, s as int);
            }
        }
        if elig[s] && lab[s] == usize::MAX {
            let inc = flood_component(nb, elig, &lab, s);
            let ghost lab0 = lab@;
            let ghost comp = flood(nb@, Set::new(|x: int| 0 <= x < nb@.len() && elig@[x] && lab0[x] == usize::MAX), s as int);
            let mut q: usize = 0;
            while q < n
                invariant
                    q <= n,
                    n == nb@.len(),
                    inc@.len() == n,
                    lab0.len() == n,
                    lab@.len() == n,
                    forall|x: int| 0 <= x < n ==> (#[trigger] inc@[x] <==> comp.contains(x)),
                    forall|x: int| 0 <= x < q ==> #[trigger] lab@[x] == (if comp.contains(x) { c } else { lab0[x] }),
                    forall|x: int| q <= x < n ==> #[trigger] lab@[x] == lab0[x],
                decreases n - q,
            {
                if inc[q] {
                    lab.set(q, c);
                }
                q = q + 1;
            }
            proof {
                assert(lab@ =~= Seq::new(lab0.len(), |x: int| if comp.contains(x) { c as usize } else { lab0[x] }));
            }
            c = c + 1;
        }
        s = s + 1;
    }
    (lab, c)
}

proof fn lemma_labels_len(nb: Seq<[usize; 3]>, elig: Seq<bool>, upto: int)
    ensures
        component_labels(nb, elig, upto).0.len() == nb.len(),
    decreases upto,
{
    if upto > 0 {
        lemma_labels_len(nb, elig, upto - 1);
    }
}

/// An eligible parent with an ineligible neighbour.
pub open spec fn on_boundary(nb: Seq<[usize; 3]>, elig: Seq<bool>, d: int) -> bool {
    &&& 0 <= d < nb.len()
    &&& elig[d]
    &&& (!elig[nb[d][0] as int] || !elig[nb[d][1] as int] || !elig[nb[d][2] as int])
}

/// The eligible parents within `k` steps, through eligible parents, of a
/// boundary parent.
pub open spec fn hops(nb: Seq<[usize; 3]>, elig: Seq<bool>, k: nat) -> Set<int>
    decreases k,
{
    if k == 0 {
        Set::new(|d: int| on_boundary(nb, elig, d))
    } else {
        let prev = hops(nb, elig, (k - 1) as nat);
        prev + Set::new(|q: int| 0 <= q < nb.len() && elig[q] && exists|p: int| prev.contains(p) && #[trigger] linked(nb, p, q))
    }
}

/// Parent `d` lies within `width` steps of the boundary (every parent does
/// when the width is `usize::MAX`).
pub open spec fn in_ring(nb: Seq<[usize; 3]>, elig: Seq<bool>, d: int, width: usize) -> bool {
    width == usize::MAX || exists|k: nat| k <= width && #[trigger] hops(nb, elig, k).contains(d)
}

proof fn lemma_hops_mono(nb: Seq<[usize; 3]>, elig: Seq<bool>, a: nat, b: nat)
    requires
        a <= b,
    ensures
        hops(nb, elig, a).subset_of(hops(nb, elig, b)),
    decreases b,
{
    if a < b {
        lemma_hops_mono(nb, elig, a, (b - 1) as nat);
    }
}

proof fn lemma_hops_fixed(nb: Seq<[usize; 3]>, elig: Seq<bool>, k: nat, j: nat)
    requires
        hops(nb, elig, k + 1) == hops(nb, elig, k),
        k <= j,
    ensures
        hops(nb, elig, j) == hops(nb, elig, k),
    decreases j - k,
{
    if k < j {
        lemma_hops_fixed(nb, elig, k, (j - 1) as nat);
        assert(hops(nb, elig, j) =~= hops(nb, elig, k)) by {
            assert(hops(nb, elig, (j - 1) as nat) == hops(nb, elig, k));
            assert(hops(nb, elig, j) =~= hops(nb, elig, k + 1));
        }
    }
}

/// The distances to the boundary: `d` is first reached after `dist[d]` steps.
pub open spec fn distances_exact(nb: Seq<[usize; 3]>, elig: Seq<bool>, dist: Seq<usize>) -> bool {
    &&& dist.len() == nb.len()
    &&& forall|d: int| 0 <= d < nb.len() ==> (#[trigger] dist[d] == usize::MAX <==> forall|k: nat| !#[trigger] hops(nb, elig, k).contains(d))
    &&& forall|d: int| 0 <= d < nb.len() && #[trigger] dist[d] != usize::MAX ==> hops(nb, elig, dist[d] as nat).contains(d)
        && (dist[d] > 0 ==> !hops(nb, elig, (dist[d] - 1) as nat).contains(d))
}

proof fn lemma_ring_by_distance(nb: Seq<[usize; 3]>, elig: Seq<bool>, dist: Seq<usize>, d: int, width: usize)
    requires
        distances_exact(nb, elig, dist),
        0 <= d < nb.len(),
    ensures
        (dist[d] <= width) == in_ring(nb, elig, d, width),
{
    if dist[d] == usize::MAX {
        if width != usize::MAX && in_ring(nb, elig, d, width) {
            let k = choose|k: nat| k <= width && #[trigger] hops(nb, elig, k).contains(d);
        }
    } else {
        let m = dist[d] as nat;
        if m <= width {
            assert(hops(nb, elig, m).contains(d));
        } else if width != usize::MAX && in_ring(nb, elig, d, width) {
            let k = choose|k: nat| k <= width && #[trigger] hops(nb, elig, k).contains(d);
            lemma_hops_mono(nb, elig, k, (m - 1) as nat);
        }
    }
}

fn boundary_parent(nb: &Vec<[usize; 3]>, elig: &Vec<bool>, d: usize) -> (r: bool)
    requires
        links_ok(nb@),
        elig@.len() == nb@.len(),
        d < nb@.len(),
    ensures
        r == on_boundary(nb@, elig@, d as int),
{
    let a = nb[d];
    proof {
        assert(a[0] < nb@.len() && a[1] < nb@.len() && a[2] < nb@.len());
    }
    elig[d] && (!elig[a[0]] || !elig[a[1]] || !elig[a[2]])
}

/// The distance of every parent to the boundary, through eligible parents.
fn ring_distances(nb: &Vec<[usize; 3]>, elig: &Vec<bool>) -> (dist: Vec<usize>)
    requires
        links_ok(nb@),
        elig@.len() == nb@.len(),
        nb@.len() + 1 < usize::MAX,
    ensures
        distances_exact(nb@, elig@, dist@),
{
    let n = nb.len();
    let ghost range = vstd::set_lib::set_int_range(0, n as int);
    proof {
        vstd::set_lib::lemma_int_range(0, n as int);
    }
    let mut dist: Vec<usize> = Vec::new();
    let mut size: usize = 0;
    let mut d: usize = 0;
    proof {
        assert(Set::new(|x: int| 0 <= x < 0 && dist@[x] != usize::MAX) =~= Set::<int>::empty());
    }
    while d < n
        invariant
            d <= n,
            n == nb@.len(),
            links_ok(nb@),
            elig@.len() == n,
            n + 1 < usize::MAX,
            range == vstd::set_lib::set_int_range(0, n as int),
            range.finite(),
            range.len() == n,
            dist@.len() == d,
            forall|x: int| 0 <= x < d ==> (#[trigger] dist@[x] == 0 <==> on_boundary(nb@, elig@, x)),
            forall|x: int| 0 <= x < d ==> (#[trigger] dist@[x] == 0 || dist@[x] == usize::MAX),
            size == Set::new(|x: int| 0 <= x < d && dist@[x] != usize::MAX).len(),
            size <= d,
        decreases n - d,
    {
        let ghost old_set = Set::new(|x: int| 0 <= x < d && dist@[x] != usize::MAX);
        proof {
            assert(old_set.subset_of(vstd::set_lib::set_int_range(0, d as int)));
            vstd::set_lib::lemma_int_range(0, d as int);
            vstd::set_lib::lemma_len_subset(old_set, vstd::set_lib::set_int_range(0, d as int));
        }
        if boundary_parent(nb, elig, d) {
            dist.push(0);
            proof {
                assert(Set::new(|x: int| 0 <= x < d + 1 && dist@[x] != usize::MAX) =~= old_set.insert(d as int));
            }
            size = size + 1;
        } else {
            dist.push(usize::MAX);
            proof {
                assert(Set::new(|x: int| 0 <= x < d + 1 && dist@[x] != usize::MAX) =~= old_set);
            }
        }
        d = d + 1;
    }
    let mut k: usize = 0;
    proof {
        assert forall|x: int| 0 <= x < n implies (#[trigger] dist@[x] != usize::MAX <==> hops(nb@, elig@, 0).contains(x)) by {}
    }
    loop
        invariant
            n == nb@.len(),
            links_ok(nb@),
            elig@.len() == n,
            n + 1 < usize::MAX,
            range == vstd::set_lib::set_int_range(0, n as int),
            range.finite(),
            range.len() == n,
            dist@.len() == n,
            k <= size,
            size <= n,
            size == Set::new(|x: int| 0 <= x < n && dist@[x] != usize::MAX).len(),
            forall|x: int| 0 <= x < n ==> (#[trigger] dist@[x] != usize::MAX <==> hops(nb@, elig@, k as nat).contains(x)),
            forall|x: int| 0 <= x < n && #[trigger] dist@[x] != usize::MAX ==> dist@[x] <= k
                && hops(nb@, elig@, dist@[x] as nat).contains(x)
                && (dist@[x] > 0 ==> !hops(nb@, elig@, (dist@[x] - 1) as nat).contains(x)),
            forall|x: int| #[trigger] hops(nb@, elig@, k as nat).contains(x) ==> 0 <= x < n,
        ensures
            distances_exact(nb@, elig@, dist@),
        decreases n - k,
    {
        let ghost before = dist@;
        let ghost lk = hops(nb@, elig@, k as nat);
        let ghost size0 = size;
        let mut changed = false;
        let mut p: usize = 0;
        proof {
            assert forall|x: int| 0 <= x < n && #[trigger] dist@[x] == k + 1 && before[x] == usize::MAX
                implies hops(nb@, elig@, (k + 1) as nat).contains(x) by {
                assert(dist@[x] == before[x]);
            }
        }
        while p < n
            invariant
                n == nb@.len(),
                links_ok(nb@),
                elig@.len() == n,
                n + 1 < usize::MAX,
                range == vstd::set_lib::set_int_range(0, n as int),
                range.finite(),
                range.len() == n,
                dist@.len() == n,
                before.len() == n,
                p <= n,
                k <= size0,
                size0 <= n,
                lk == hops(nb@, elig@, k as nat),
                size == Set::new(|x: int| 0 <= x < n && dist@[x] != usize::MAX).len(),
                size <= n,
                size >= size0,
                changed ==> size > size0,
                !changed ==> dist@ == before,
                forall|x: int| 0 <= x < n ==> (#[trigger] before[x] != usize::MAX <==> lk.contains(x)),
                forall|x: int| 0 <= x < n && #[trigger] before[x] != usize::MAX ==> before[x] <= k
                    && hops(nb@, elig@, before[x] as nat).contains(x)
                    && (before[x] > 0 ==> !hops(nb@, elig@, (before[x] - 1) as nat).contains(x)),
                forall|x: int| 0 <= x < n && before[x] != usize::MAX ==> #[trigger] dist@[x] == before[x],
                forall|x: int| 0 <= x < n && before[x] == usize::MAX ==> #[trigger] dist@[x] == usize::MAX || dist@[x] == k + 1,
                forall|x: int| 0 <= x < n && #[trigger] dist@[x] == k + 1 && before[x] == usize::MAX ==> hops(nb@, elig@, (k + 1) as nat).contains(x),
                forall|a: int, b: int| 0 <= a < p && before[a] == k && #[trigger] linked(nb@, a, b) && elig@[b] ==> dist@[b] != usize::MAX,
            decreases n - p,
        {
            if dist[p] == k {
                proof {
                    if before[p as int] == usize::MAX {
                        assert(dist@[p as int] == usize::MAX || dist@[p as int] == k + 1);
                    }
                    assert(before[p as int] == k);
                    assert(lk.contains(p as int));
                }
                let mut i: usize = 0;
                while i < 3
                    invariant
                        n == nb@.len(),
                        links_ok(nb@),
                        elig@.len() == n,
                        n + 1 < usize::MAX,
                        range == vstd::set_lib::set_int_range(0, n as int),
                        range.finite(),
                        range.len() == n,
                        dist@.len() == n,
                        before.len() == n,
                        p < n,
                        i <= 3,
                        k <= size0,
                        size0 <= n,
                        before[p as int] == k,
                        lk == hops(nb@, elig@, k as nat),
                        lk.contains(p as int),
                        size == Set::new(|x: int| 0 <= x < n && dist@[x] != usize::MAX).len(),
                        size <= n,
                        size >= size0,
                        changed ==> size > size0,
                        !changed ==> dist@ == before,
                        forall|x: int| 0 <= x < n ==> (#[trigger] before[x] != usize::MAX <==> lk.contains(x)),
                        forall|x: int| 0 <= x < n && before[x] != usize::MAX ==> #[trigger] dist@[x] == before[x],
                        forall|x: int| 0 <= x < n && before[x] == usize::MAX ==> #[trigger] dist@[x] == usize::MAX || dist@[x] == k + 1,
                        forall|x: int| 0 <= x < n && #[trigger] dist@[x] == k + 1 && before[x] == usize::MAX ==> hops(nb@, elig@, (k + 1) as nat).contains(x),
                        forall|a: int, b: int| 0 <= a < p && before[a] == k && #[trigger] linked(nb@, a, b) && elig@[b] ==> dist@[b] != usize::MAX,
                        forall|j: int| 0 <= j < i && elig@[nb@[p as int][j] as int] ==> dist@[nb@[p as int][j] as int] != usize::MAX,
                    decreases 3 - i,
                {
                    let q = nb[p][i];
                    proof {
                        assert(nb@[p as int][i as int] < n);
                    }
                    if elig[q] && dist[q] == usize::MAX {
                        let ghost old_set = Set::new(|x: int| 0 <= x < n && dist@[x] != usize::MAX);
                        proof {
                            assert(linked(nb@, p as int, q as int));
                            assert(hops(nb@, elig@, (k + 1) as nat).contains(q as int));
                        }
                        let ghost d0 = dist@;
                        dist.set(q, k + 1);
                        proof {
                            assert forall|x: int| 0 <= x < n && x != q implies dist@[x] == d0[x] by {}
                            assert(Set::new(|x: int| 0 <= x < n && dist@[x] != usize::MAX) =~= old_set.insert(q as int)) by {
                                assert forall|x: int| #[trigger] old_set.insert(q as int).contains(x) implies 0 <= x < n && dist@[x] != usize::MAX by {
                                    if x != q {
                                        assert(d0[x] != usize::MAX);
                                    }
                                }
                            }
                            assert(old_set.subset_of(range));
                            vstd::set_lib::lemma_len_subset(old_set, range);
                            assert(!old_set.contains(q as int));
                            assert(old_set.insert(q as int).len() == old_set.len() + 1);
                            assert(old_set.insert(q as int).subset_of(range));
                            vstd::set_lib::lemma_len_subset(old_set.insert(q as int), range);
                        }
                        size = size + 1;
                        changed = true;
                    }
                    i = i + 1;
                }
                proof {
                    assert forall|a: int, b: int| 0 <= a < p + 1 && before[a] == k && #[trigger] linked(nb@, a, b) && elig@[b] implies dist@[b] != usize::MAX by {
                        if a == p {
                            if nb@[a][0] == b {
                            } else if nb@[a][1] == b {
                            } else {
                            }
                        }
                    }
                }
            }
            p = p + 1;
        }
        proof {
            let next = hops(nb@, elig@, (k + 1) as nat);
            assert forall|x: int| 0 <= x < n implies (#[trigger] dist@[x] != usize::MAX <==> next.contains(x)) by {
                lemma_hops_mono(nb@, elig@, k as nat, (k + 1) as nat);
                if next.contains(x) && !lk.contains(x) {
                    let a = choose|a: int| lk.contains(a) && #[trigger] linked(nb@, a, x);
                    if k > 0 && hops(nb@, elig@, (k - 1) as nat).contains(a) {
                        assert(lk.contains(x));
                    }
                    assert(0 <= a < n);
                    assert(before[a] != usize::MAX);
                    if before[a] < k {
                        lemma_hops_mono(nb@, elig@, before[a] as nat, (k - 1) as nat);
                        assert(lk.contains(x));
                    }
                    assert(before[a] == k);
                }
            }
        }
        if !changed {
            proof {
                let next = hops(nb@, elig@, (k + 1) as nat);
                assert(next =~= lk) by {
                    assert forall|x: int| #[trigger] next.contains(x) implies lk.contains(x) by {
                        if !lk.contains(x) {
                            let a = choose|a: int| lk.contains(a) && #[trigger] linked(nb@, a, x);
                            assert(0 <= x < n) by {
                                assert(0 <= a < n);
                                assert(nb@[a][0] < n && nb@[a][1] < n && nb@[a][2] < n);
                            }
                            assert(elig@[x]);
                            assert(before[a] != usize::MAX);
                            if before[a] == k {
                                assert(dist@[x] != usize::MAX);
                                assert(before[x] != usize::MAX);
                            } else {
                                let m = before[a] as nat;
                                assert(hops(nb@, elig@, m).contains(a));
                                assert(hops(nb@, elig@, m + 1).contains(x));
                                lemma_hops_mono(nb@, elig@, m + 1, k as nat);
                            }
                        }
                    }
                    lemma_hops_mono(nb@, elig@, k as nat, (k + 1) as nat);
                }
                assert forall|x: int| 0 <= x < n implies (#[trigger] dist@[x] == usize::MAX <==> forall|j: nat| !#[trigger] hops(nb@, elig@, j).contains(x)) by {
                    if dist@[x] == usize::MAX {
                        assert forall|j: nat| !#[trigger] hops(nb@, elig@, j).contains(x) by {
                            if j <= k {
                                lemma_hops_mono(nb@, elig@, j, k as nat);
                            } else {
                                lemma_hops_fixed(nb@, elig@, k as nat, j);
                            }
                        }
                    } else {
                        assert(hops(nb@, elig@, k as nat).contains(x));
                    }
                }
            }
            break;
        }
        proof {
            assert forall|x: int| 0 <= x < n && #[trigger] dist@[x] != usize::MAX implies dist@[x] <= k + 1
                && hops(nb@, elig@, dist@[x] as nat).contains(x)
                && (dist@[x] > 0 ==> !hops(nb@, elig@, (dist@[x] - 1) as nat).contains(x)) by {
                if before[x] == usize::MAX {
                    assert(dist@[x] == k + 1);
                    assert(!lk.contains(x));
                }
            }
            assert forall|x: int| #[trigger] hops(nb@, elig@, (k + 1) as nat).contains(x) implies 0 <= x < n by {
                if !lk.contains(x) {
                    let a = choose|a: int| lk.contains(a) && #[trigger] linked(nb@, a, x);
                    assert(nb@[a][0] < n && nb@[a][1] < n && nb@[a][2] < n);
                }
            }
        }
        k = k + 1;
    }
    dist
}

/// The address recorded for a parent.
pub open spec fn tally_address(t: ParentTally) -> TriangleAddress {
    match t.address {
        Some(a) => a,
        None => 0,
    }
}

/// The requirement reported for a parent.
pub open spec fn requirement_of(t: ParentTally, level: usize) -> ParentRequirement {
    ParentRequirement { parent: tally_address(t), maximum_required_level: t.maximum, can_coarsen: t.maximum <= level }
}

/// A shared parent edge with the smaller address first.
pub open spec fn edge_key(a: TriangleAddress, b: TriangleAddress) -> (TriangleAddress, TriangleAddress) {
    if a <= b { (a, b) } else { (b, a) }
}

/// The boundary edges of parent `d`: one per ineligible neighbour, in
/// neighbour order.
pub open spec fn boundary_of(t: Seq<ParentTally>, nb: Seq<[usize; 3]>, elig: Seq<bool>, d: int) -> Seq<(TriangleAddress, TriangleAddress)> {
    let e0 = if !elig[nb[d][0] as int] { seq![edge_key(tally_address(t[d]), tally_address(t[nb[d][0] as int]))] } else { Seq::empty() };
    let e1 = if !elig[nb[d][1] as int] { seq![edge_key(tally_address(t[d]), tally_address(t[nb[d][1] as int]))] } else { Seq::empty() };
    let e2 = if !elig[nb[d][2] as int] { seq![edge_key(tally_address(t[d]), tally_address(t[nb[d][2] as int]))] } else { Seq::empty() };
    e0 + e1 + e2
}

/// What component `i` lists among the first `upto` parents: its parents, its
/// boundary edges, and its parents within and beyond the transition ring.
pub open spec fn component_lists(t: Seq<ParentTally>, nb: Seq<[usize; 3]>, elig: Seq<bool>, lab: Seq<usize>, i: usize,
    width: usize, upto: int) -> (Seq<TriangleAddress>, Seq<(TriangleAddress, TriangleAddress)>, Seq<TriangleAddress>, Seq<TriangleAddress>)
    decreases upto,
{
    if upto <= 0 {
        (Seq::empty(), Seq::empty(), Seq::empty(), Seq::empty())
    } else {
        let (ps, bs, cs, ts) = component_lists(t, nb, elig, lab, i, width, upto - 1);
        let d = upto - 1;
        if elig[d] && lab[d] == i {
            let a = tally_address(t[d]);
            if in_ring(nb, elig, d, width) {
                (ps.push(a), bs + boundary_of(t, nb, elig, d), cs, ts.push(a))
            } else {
                (ps.push(a), bs + boundary_of(t, nb, elig, d), cs.push(a), ts)
            }
        } else {
            (ps, bs, cs, ts)
        }
    }
}

/// The first reason the layer cannot be planned, or `None`.
pub open spec fn plan_error(grid: HierarchyGrid, levels: Seq<usize>) -> Option<Seq<char>> {
    let cn = grid.subdivision / 2;
    if levels.len() != grid.vertex_count {
        Some("required level slots must match mesh vertices"@)
    } else if grid.subdivision < 2 {
        None
    } else if grid.subdivision % 2 != 0 {
        Some("hierarchy component planning requires an even subdivision"@)
    } else if 20 * cn * cn > usize::MAX {
        Some("parent face count overflow"@)
    } else {
        match tally_faces(grid.faces@, levels, cn, (20 * cn * cn) as nat, grid.faces@.len() as int) {
            Err(e) => Some(e),
            Ok((t, fp)) => match tally_error(t, 0) {
                Some(e) => Some(e),
                None => match link_faces(grid.faces@, fp, (20 * cn * cn) as nat, grid.faces@.len() as int) {
                    Err(e) => Some(e),
                    Ok((nb, deg)) => degree_error(deg, 0),
                },
            },
        }
    }
}

/// The parent tallies and parent links of a layer that can be planned.
pub open spec fn plan_layer(grid: HierarchyGrid, levels: Seq<usize>) -> (Seq<ParentTally>, Seq<[usize; 3]>) {
    let cn = grid.subdivision / 2;
    match tally_faces(grid.faces@, levels, cn, (20 * cn * cn) as nat, grid.faces@.len() as int) {
        Ok((t, fp)) => match link_faces(grid.faces@, fp, (20 * cn * cn) as nat, grid.faces@.len() as int) {
            Ok((nb, deg)) => (t, nb),
            Err(_) => (t, Seq::empty()),
        },
        Err(_) => (Seq::empty(), Seq::empty()),
    }
}

/// The plan is the one the layer determines: every parent's requirement, and
/// the components of eligible parents in order of their least parent, each
/// with its parents, boundary edges, core and transition ring.
pub open spec fn plan_matches(grid: HierarchyGrid, levels: Seq<usize>, level: usize, width: usize, plan: HierarchyComponentPlan) -> bool {
    if grid.subdivision < 2 {
        plan.parent_requirements@.len() == 0 && plan.components@.len() == 0
    } else {
        let (t, nb) = plan_layer(grid, levels);
        let elig = eligible_parents(t, level);
        let (lab, c) = component_labels(nb, elig, nb.len() as int);
        &&& plan.parent_requirements@ == Seq::new(t.len(), |d: int| requirement_of(t[d], level))
        &&& plan.components@.len() == c
        &&& forall|i: int| 0 <= i < c ==> {
            let (ps, bs, cs, ts) = component_lists(t, nb, elig, lab, i as usize, width, nb.len() as int);
            &&& (#[trigger] plan.components@[i]).id == i
            &&& plan.components@[i].parents@ == ps
            &&& plan.components@[i].boundary_edges@ == bs
            &&& plan.components@[i].core_parents@ == cs
            &&& plan.components@[i].transition_parents@ == ts
        }
    }
}

fn address_of(t: &Vec<ParentTally>, d: usize) -> (a: TriangleAddress)
    requires
        d < t@.len(),
    ensures
        a == tally_address(t@[d as int]),
{
    match t[d].address {
        Some(a) => a,
        None => 0,
    }
}

fn edge_key_exec(a: TriangleAddress, b: TriangleAddress) -> (e: (TriangleAddress, TriangleAddress))
    ensures
        e == edge_key(a, b),
{
    if a <= b { (a, b) } else { (b, a) }
}

/// Component `i` of the labelled eligible parents.
fn build_component(t: &Vec<ParentTally>, nb: &Vec<[usize; 3]>, elig: &Vec<bool>, lab: &Vec<usize>, dist: &Vec<usize>,
    i: usize, width: usize) -> (comp: HierarchyComponent)
    requires
        links_ok(nb@),
        t@.len() == nb@.len(),
        elig@.len() == nb@.len(),
        lab@.len() == nb@.len(),
        distances_exact(nb@, elig@, dist@),
    ensures
        comp.id == i,
        ({
            let (ps, bs, cs, ts) = component_lists(t@, nb@, elig@, lab@, i, width, nb@.len() as int);
            &&& comp.parents@ == ps
            &&& comp.boundary_edges@ == bs
            &&& comp.core_parents@ == cs
            &&& comp.transition_parents@ == ts
        }),
{
    let n = nb.len();
    let mut parents: Vec<TriangleAddress> = Vec::new();
    let mut boundary_edges: Vec<(TriangleAddress, TriangleAddress)> = Vec::new();
    let mut core_parents: Vec<TriangleAddress> = Vec::new();
    let mut transition_parents: Vec<TriangleAddress> = Vec::new();
    let mut d: usize = 0;
    while d < n
        invariant
            d <= n,
            n == nb@.len(),
            links_ok(nb@),
            t@.len() == n,
            elig@.len() == n,
            lab@.len() == n,
            distances_exact(nb@, elig@, dist@),
            (parents@, boundary_edges@, core_parents@, transition_parents@)
                == component_lists(t@, nb@, elig@, lab@, i, width, d as int),
        decreases n - d,
    {
        if elig[d] && lab[d] == i {
            let a = address_of(t, d);
            parents.push(a);
            let ghost b0 = boundary_edges@;
            let row = nb[d];
            proof {
                assert(row[0] < n && row[1] < n && row[2] < n);
            }
            let mut j: usize = 0;
            while j < 3
                invariant
                    j <= 3,
                    d < n,
                    n == nb@.len(),
                    t@.len() == n,
                    elig@.len() == n,
                    row == nb@[d as int],
                    row[0] < n && row[1] < n && row[2] < n,
                    a == tally_address(t@[d as int]),
                    boundary_edges@ == b0 + (
                        (if j > 0 && !elig@[row[0] as int] { seq![edge_key(a, tally_address(t@[row[0] as int]))] } else { Seq::empty() })
                        + (if j > 1 && !elig@[row[1] as int] { seq![edge_key(a, tally_address(t@[row[1] as int]))] } else { Seq::empty() })
                        + (if j > 2 && !elig@[row[2] as int] { seq![edge_key(a, tally_address(t@[row[2] as int]))] } else { Seq::empty() })),
                decreases 3 - j,
            {
                let q = row[j];
                let ghost before = boundary_edges@;
                if !elig[q] {
                    let b = address_of(t, q);
                    boundary_edges.push(edge_key_exec(a, b));
                }
                proof {
                    if j == 0 {
                        assert(boundary_edges@ =~= b0 + ((if !elig@[row[0] as int] { seq![edge_key(a, tally_address(t@[row[0] as int]))] } else { Seq::empty() })
                            + Seq::<(TriangleAddress, TriangleAddress)>::empty() + Seq::<(TriangleAddress, TriangleAddress)>::empty()));
                    } else if j == 1 {
                        assert(boundary_edges@ =~= b0 + (
                            (if !elig@[row[0] as int] { seq![edge_key(a, tally_address(t@[row[0] as int]))] } else { Seq::empty() })
                            + (if !elig@[row[1] as int] { seq![edge_key(a, tally_address(t@[row[1] as int]))] } else { Seq::empty() })
                            + Seq::<(TriangleAddress, TriangleAddress)>::empty()));
                    } else {
                        assert(boundary_edges@ =~= b0 + (
                            (if !elig@[row[0] as int] { seq![edge_key(a, tally_address(t@[row[0] as int]))] } else { Seq::empty() })
                            + (if !elig@[row[1] as int] { seq![edge_key(a, tally_address(t@[row[1] as int]))] } else { Seq::empty() })
                            + (if !elig@[row[2] as int] { seq![edge_key(a, tally_address(t@[row[2] as int]))] } else { Seq::empty() })));
                    }
                }
                j = j + 1;
            }
            proof {
                assert(boundary_edges@ == b0 + boundary_of(t@, nb@, elig@, d as int));
                lemma_ring_by_distance(nb@, elig@, dist@, d as int, width);
            }
            if dist[d] <= width {
                transition_parents.push(a);
            } else {
                core_parents.push(a);
            }
        }
        d = d + 1;
    }
    HierarchyComponent { id: i as u64, parents, boundary_edges, core_parents, transition_parents }
}

/// Plan one exact 2:1 parent layer: a parent's requirement is the highest
/// level at a corner of its four children; eligible parents (requirement at
/// most the coarse level) form components; a component's transition ring is
/// its parents within `transition_ring_width` steps of an ineligible
/// neighbour, and its core is the rest.
pub fn plan_hierarchy_components(grid: &HierarchyGrid, required_levels: &[usize], coarse_level: usize,
    transition_ring_width: usize) -> (r: Result<HierarchyComponentPlan, String>)
    requires
        grid_indices_ok(*grid),
    ensures
        match plan_error(*grid, required_levels@) {
            Some(e) => r matches Err(m) && m@ == e,
            None => r matches Ok(plan) && plan_matches(*grid, required_levels@, coarse_level, transition_ring_width, plan),
        },
        r matches Ok(plan) ==> forall|i: int, j: int| 0 <= i < j < plan.parent_requirements@.len()
            ==> plan.parent_requirements@[i].parent != plan.parent_requirements@[j].parent,
        r matches Ok(plan) ==> forall|f: int, k: int, d: int| 0 <= f < grid.faces@.len() && 0 <= k < 3
            && #[trigger] child_of(grid.faces@[f], grid.subdivision / 2, d) && 0 <= d < plan.parent_requirements@.len()
            ==> #[trigger] corner_level(required_levels@, grid.faces@[f], k) <= plan.parent_requirements@[d].maximum_required_level,
        r matches Ok(plan) ==> forall|d: int| 0 <= d < plan.parent_requirements@.len() ==> level_attained(*grid, required_levels@, d,
            (#[trigger] plan.parent_requirements@[d]).maximum_required_level),
        r matches Ok(plan) ==> forall|d: int| 0 <= d < plan.parent_requirements@.len()
            ==> (#[trigger] plan.parent_requirements@[d]).can_coarsen == (plan.parent_requirements@[d].maximum_required_level <= coarse_level),
        r matches Ok(plan) ==> forall|c: int, k: int| 0 <= c < plan.components@.len() && 0 <= k < plan.components@[c].parents@.len()
            ==> coarsenable_parent(plan, #[trigger] plan.components@[c].parents@[k]),
        r matches Ok(plan) ==> forall|c: int| 0 <= c < plan.components@.len() ==> (#[trigger] plan.components@[c]).core_parents@.len()
            + plan.components@[c].transition_parents@.len() == plan.components@[c].parents@.len(),
{
    proof {
        if plan_error(*grid, required_levels@) is None && grid.subdivision >= 2 {
            lemma_parents_distinct(*grid, required_levels@, coarse_level);
        }
    }
    if required_levels.len() != grid.vertex_count {
        return Err("required level slots must match mesh vertices".to_string());
    }
    if grid.subdivision < 2 {
        return Ok(HierarchyComponentPlan { parent_requirements: Vec::new(), components: Vec::new() });
    }
    if grid.subdivision % 2 != 0 {
        return Err("hierarchy component planning requires an even subdivision".to_string());
    }
    let cn = grid.subdivision / 2;
    let count = match 20usize.checked_mul(cn) {
        Some(x) => match x.checked_mul(cn) {
            Some(y) => y,
            None => {
                proof {
                    assert(20 * cn * cn > usize::MAX) by (nonlinear_arith)
                        requires x == 20 * cn, x * cn > usize::MAX;
                }
                return Err("parent face count overflow".to_string());
            },
        },
        None => {
            proof {
                assert(20 * cn * cn > usize::MAX) by (nonlinear_arith)
                    requires 20 * cn > usize::MAX, cn >= 1;
            }
            return Err("parent face count overflow".to_string());
        },
    };
    let levels: &[usize] = required_levels;
    let (t, fp) = match tally(grid, levels, cn, count) {
        Ok(x) => x,
        Err(e) => {
            return Err(e);
        },
    };
    proof {
        lemma_tally_range(*grid, levels@, cn, count as nat, grid.faces@.len() as int);
    }
    match check_tallies(&t) {
        Ok(()) => {},
        Err(e) => {
            return Err(e);
        },
    }
    let (nb, deg) = match link_parents(grid, &fp, count) {
        Ok(x) => x,
        Err(e) => {
            return Err(e);
        },
    };
    match check_degrees(&deg) {
        Ok(()) => {},
        Err(e) => {
            return Err(e);
        },
    }
    proof {
        lemma_degrees_full(deg@, 0);
        assert(links_ok(nb@)) by {
            assert forall|q: int, i: int| 0 <= q < nb@.len() && 0 <= i < 3 implies #[trigger] nb@[q][i] < nb@.len() by {
                assert(deg@[q] == 3);
            }
        }
        let m: int = 5 * cn * cn;
        assert(count == 4 * m) by (nonlinear_arith)
            requires count == 20 * cn * cn, m == 5 * cn * cn;
        assert(count + 1 < usize::MAX);
    }
    let mut elig: Vec<bool> = Vec::new();
    let mut requirements: Vec<ParentRequirement> = Vec::new();
    let mut d: usize = 0;
    while d < count
        invariant
            d <= count,
            t@.len() == count,
            elig@ == eligible_parents(t@, coarse_level).take(d as int),
            requirements@ == Seq::new(d as nat, |k: int| requirement_of(t@[k], coarse_level)),
        decreases count - d,
    {
        let m = t[d].maximum;
        elig.push(m <= coarse_level);
        let a = address_of(&t, d);
        requirements.push(ParentRequirement { parent: a, maximum_required_level: m, can_coarsen: m <= coarse_level });
        proof {
            assert(elig@ =~= eligible_parents(t@, coarse_level).take(d + 1));
            assert(requirements@ =~= Seq::new((d + 1) as nat, |k: int| requirement_of(t@[k], coarse_level)));
        }
        d = d + 1;
    }
    proof {
        assert(elig@ =~= eligible_parents(t@, coarse_level));
    }
    let (lab, c) = label_components(&nb, &elig);
    let dist = ring_distances(&nb, &elig);
    proof {
        lemma_labels_len(nb@, elig@, nb@.len() as int);
    }
    let mut components: Vec<HierarchyComponent> = Vec::new();
    let mut i: usize = 0;
    while i < c
        invariant
            i <= c,
            links_ok(nb@),
            t@.len() == nb@.len(),
            elig@.len() == nb@.len(),
            lab@.len() == nb@.len(),
            distances_exact(nb@, elig@, dist@),
            components@.len() == i,
            forall|k: int| 0 <= k < i ==> {
                let (ps, bs, cs, ts) = component_lists(t@, nb@, elig@, lab@, k as usize, transition_ring_width, nb@.len() as int);
                &&& (#[trigger] components@[k]).id == k
                &&& components@[k].parents@ == ps
                &&& components@[k].boundary_edges@ == bs
                &&& components@[k].core_parents@ == cs
                &&& components@[k].transition_parents@ == ts
            },
        decreases c - i,
    {
        let comp = build_component(&t, &nb, &elig, &lab, &dist, i, transition_ring_width);
        components.push(comp);
        i = i + 1;
    }
    let component_count = components.len();
    let plan = HierarchyComponentPlan { parent_requirements: requirements, components };
    proof {
        assert(plan_matches(*grid, required_levels@, coarse_level, transition_ring_width, plan));
        parent_requirement_is_highest_child_corner(*grid, required_levels@, coarse_level, transition_ring_width, plan);
        assert(plan.components@.len() == component_count);
        component_parents_can_coarsen(*grid, required_levels@, coarse_level, transition_ring_width, plan);
    }
    Ok(plan)
}

proof fn lemma_tally_range(grid: HierarchyGrid, levels: Seq<usize>, cn: usize, count: nat, upto: int)
    requires
        tally_faces(grid.faces@, levels, cn, count, upto) is Ok,
        upto <= grid.faces@.len(),
        grid_indices_ok(grid),
        cn == grid.subdivision / 2,
        count == 20 * cn * cn,
    ensures
        ({
            let (t, fp) = tally_faces(grid.faces@, levels, cn, count, upto)->Ok_0;
            &&& t.len() == count
            &&& fp.len() == grid.faces@.len()
            &&& parents_in_range(fp, count as int)
        }),
    decreases upto,
{
    if upto > 0 {
        lemma_tally_range(grid, levels, cn, count, upto - 1);
    }
}

proof fn lemma_degrees_full(deg: Seq<usize>, d: int)
    requires
        0 <= d,
        degree_error(deg, d) is None,
    ensures
        forall|q: int| d <= q < deg.len() ==> #[trigger] deg[q] == 3,
    decreases deg.len() - d,
{
    if d < deg.len() {
        lemma_degrees_full(deg, d + 1);
    }
}

/// Every parent link goes both ways.
pub open spec fn links_symmetric(nb: Seq<[usize; 3]>) -> bool {
    forall|a: int, b: int| #[trigger] linked(nb, a, b) ==> linked(nb, b, a)
}

proof fn lemma_flood_closed(nb: Seq<[usize; 3]>, allowed: Set<int>, start: int)
    requires
        allowed.contains(start),
    ensures
        link_closed(nb, allowed, flood(nb, allowed, start)),
        flood(nb, allowed, start).contains(start),
        flood(nb, allowed, start).subset_of(allowed),
{
    let f = flood(nb, allowed, start);
    assert forall|a: int, b: int| f.contains(a) && #[trigger] linked(nb, a, b) && allowed.contains(b) implies f.contains(b) by {
        assert forall|s: Set<int>| #[trigger] link_closed(nb, allowed, s) && s.contains(start) implies s.contains(b) by {
            assert(s.contains(a));
        }
    }
    assert(link_closed(nb, allowed, allowed));
}

proof fn lemma_labels_invariant(nb: Seq<[usize; 3]>, elig: Seq<bool>, upto: int)
    requires
        links_symmetric(nb),
        elig.len() == nb.len(),
        0 <= upto <= nb.len(),
        nb.len() <= usize::MAX,
    ensures
        ({
            let (lab, c) = component_labels(nb, elig, upto);
            &&& lab.len() == nb.len()
            &&& c <= upto
            &&& forall|x: int| 0 <= x < nb.len() && #[trigger] lab[x] != usize::MAX ==> elig[x] && lab[x] < c
            &&& forall|x: int| 0 <= x < upto && elig[x] ==> #[trigger] lab[x] != usize::MAX
            &&& forall|a: int, b: int| 0 <= a < nb.len() && 0 <= b < nb.len() && elig[a] && elig[b]
                && #[trigger] linked(nb, a, b) && (lab[a] != usize::MAX || lab[b] != usize::MAX) ==> lab[a] == lab[b]
        }),
    decreases upto,
{
    lemma_labels_len(nb, elig, upto);
    if upto > 0 {
        lemma_labels_invariant(nb, elig, upto - 1);
        let (lab, c) = component_labels(nb, elig, upto - 1);
        let s = upto - 1;
        if elig[s] && lab[s] == usize::MAX {
            let allowed = Set::new(|q: int| 0 <= q < nb.len() && elig[q] && lab[q] == usize::MAX);
            let comp = flood(nb, allowed, s);
            lemma_flood_closed(nb, allowed, s);
            let (lab2, c2) = component_labels(nb, elig, upto);
            assert(lab2 == Seq::new(lab.len(), |q: int| if comp.contains(q) { c as usize } else { lab[q] }));
            assert(c2 == c + 1);
            assert forall|x: int| 0 <= x < nb.len() && #[trigger] lab2[x] != usize::MAX implies elig[x] && lab2[x] < c2 by {
                if comp.contains(x) {
                    assert(allowed.contains(x));
                }
            }
            assert forall|x: int| 0 <= x < upto && elig[x] implies #[trigger] lab2[x] != usize::MAX by {
                if x == s {
                    assert(comp.contains(s));
                } else if !comp.contains(x) {
                    if x < s {
                        assert(lab[x] != usize::MAX);
                    }
                }
            }
            assert forall|a: int, b: int| 0 <= a < nb.len() && 0 <= b < nb.len() && elig[a] && elig[b]
                && #[trigger] linked(nb, a, b) && (lab2[a] != usize::MAX || lab2[b] != usize::MAX) implies lab2[a] == lab2[b] by {
                assert(linked(nb, b, a));
                if lab[a] != usize::MAX || lab[b] != usize::MAX {
                    assert(lab[a] == lab[b]);
                    assert(!allowed.contains(a) && !allowed.contains(b));
                } else {
                    assert(allowed.contains(a) && allowed.contains(b));
                    if comp.contains(a) {
                        assert(comp.contains(b));
                    }
                    if comp.contains(b) {
                        assert(comp.contains(a));
                    }
                }
            }
        }
    }
}

/// With links that go both ways, the component labels are the connected
/// components of the eligible parents: every eligible parent has a label
/// below the component count, no ineligible parent has one, and linked
/// eligible parents share theirs.
pub proof fn components_are_connected_components(nb: Seq<[usize; 3]>, elig: Seq<bool>)
    requires
        links_symmetric(nb),
        elig.len() == nb.len(),
        nb.len() <= usize::MAX,
    ensures
        ({
            let (lab, c) = component_labels(nb, elig, nb.len() as int);
            &&& forall|x: int| 0 <= x < nb.len() ==> (elig[x] <==> #[trigger] lab[x] != usize::MAX)
            &&& forall|x: int| 0 <= x < nb.len() && elig[x] ==> #[trigger] lab[x] < c
            &&& forall|a: int, b: int| 0 <= a < nb.len() && 0 <= b < nb.len() && elig[a] && elig[b]
                && #[trigger] linked(nb, a, b) ==> lab[a] == lab[b]
        }),
{
    lemma_labels_invariant(nb, elig, nb.len() as int);
}

/// A parent within `narrow` steps of the boundary is within any wider
/// `wide` steps of it.
pub proof fn ring_grows_with_width(nb: Seq<[usize; 3]>, elig: Seq<bool>, d: int, narrow: usize, wide: usize)
    requires
        narrow <= wide,
        in_ring(nb, elig, d, narrow),
    ensures
        in_ring(nb, elig, d, wide),
{
    if wide != usize::MAX {
        let k = choose|k: nat| k <= narrow && #[trigger] hops(nb, elig, k).contains(d);
        assert(k <= wide && hops(nb, elig, k).contains(d));
    }
}

proof fn lemma_core_lists_shrink(t: Seq<ParentTally>, nb: Seq<[usize; 3]>, elig: Seq<bool>, lab: Seq<usize>, i: usize,
    narrow: usize, wide: usize, upto: int)
    requires
        narrow <= wide,
    ensures
        component_lists(t, nb, elig, lab, i, wide, upto).2.to_set()
            .subset_of(component_lists(t, nb, elig, lab, i, narrow, upto).2.to_set()),
        component_lists(t, nb, elig, lab, i, wide, upto).0 == component_lists(t, nb, elig, lab, i, narrow, upto).0,
    decreases upto,
{
    if upto > 0 {
        lemma_core_lists_shrink(t, nb, elig, lab, i, narrow, wide, upto - 1);
        let d = upto - 1;
        let cw = component_lists(t, nb, elig, lab, i, wide, upto - 1).2;
        let cn = component_lists(t, nb, elig, lab, i, narrow, upto - 1).2;
        if elig[d] && lab[d] == i {
            let a = tally_address(t[d]);
            if in_ring(nb, elig, d, narrow) {
                ring_grows_with_width(nb, elig, d, narrow, wide);
            }
            cw.lemma_push_to_set_commute(a);
            cn.lemma_push_to_set_commute(a);
        }
    }
}

/// Widening the transition ring never makes more core parents: with the same
/// layer and level, each component of the wider plan has the same parents
/// as in the narrower plan, and its core parents are among those of the
/// narrower one.
pub proof fn wider_ring_never_adds_core_parents(grid: HierarchyGrid, levels: Seq<usize>, level: usize,
    narrow: usize, wide: usize, narrow_plan: HierarchyComponentPlan, wide_plan: HierarchyComponentPlan)
    requires
        narrow <= wide,
        plan_matches(grid, levels, level, narrow, narrow_plan),
        plan_matches(grid, levels, level, wide, wide_plan),
    ensures
        wide_plan.components@.len() == narrow_plan.components@.len(),
        forall|i: int| 0 <= i < wide_plan.components@.len() ==>
            (#[trigger] wide_plan.components@[i]).parents@ == narrow_plan.components@[i].parents@
            && wide_plan.components@[i].core_parents@.to_set().subset_of(narrow_plan.components@[i].core_parents@.to_set()),
{
    if grid.subdivision >= 2 {
        let (t, nb) = plan_layer(grid, levels);
        let elig = eligible_parents(t, level);
        let (lab, c) = component_labels(nb, elig, nb.len() as int);
        assert forall|i: int| 0 <= i < wide_plan.components@.len() implies
            (#[trigger] wide_plan.components@[i]).parents@ == narrow_plan.components@[i].parents@
            && wide_plan.components@[i].core_parents@.to_set().subset_of(narrow_plan.components@[i].core_parents@.to_set()) by {
            lemma_core_lists_shrink(t, nb, elig, lab, i as usize, narrow, wide, nb.len() as int);
            assert(narrow_plan.components@[i] == narrow_plan.components@[i]);
        }
    }
}

proof fn lemma_parents_distinct(grid: HierarchyGrid, levels: Seq<usize>, level: usize)
    requires
        grid_indices_ok(grid),
        plan_error(grid, levels) is None,
        grid.subdivision >= 2,
    ensures
        ({
            let t = plan_layer(grid, levels).0;
            forall|i: int, j: int| 0 <= i < j < t.len()
                ==> requirement_of(t[i], level).parent != requirement_of(t[j], level).parent
        }),
{
    let cn = grid.subdivision / 2;
    let count = (20 * cn * cn) as nat;
    let faces = grid.faces@;
    assert forall|g: int| 0 <= g < faces.len() implies index_below(#[trigger] dense_of(faces[g], cn), count) by {
        if faces[g].live {
            assert(grid.faces@[g].live);
        }
    }
    lemma_tally_witness(faces, levels, cn, count, faces.len() as int);
    let t = tallies_of(faces, levels, cn, count, faces.len() as int);
    assert(t == plan_layer(grid, levels).0);
    lemma_tally_error_all_addressed(t, 0);
    assert forall|i: int, j: int| 0 <= i < j < t.len()
        implies requirement_of(t[i], level).parent != requirement_of(t[j], level).parent by {
        assert(t[i].address is Some && t[j].address is Some);
        let f = choose|f: int| 0 <= f < faces.len() && dense_of(faces[f], cn) == Some((tally_address(t[i]), i as usize));
        let g = choose|g: int| 0 <= g < faces.len() && dense_of(faces[g], cn) == Some((tally_address(t[j]), j as usize));
        assert(dense_of(faces[f], cn) is Some && dense_of(faces[g], cn) is Some);
    }
}

/// Live face `face` is a child of dense parent `d` in a layer of subdivision `cn`.
pub open spec fn child_of(face: HierarchyFace, cn: usize, d: int) -> bool {
    match dense_of(face, cn) {
        Some((a, dd)) => dd == d,
        None => false,
    }
}

/// Some corner of a live child of dense parent `d` requires level `m`.
pub open spec fn level_attained(grid: HierarchyGrid, levels: Seq<usize>, d: int, m: usize) -> bool {
    exists|f: int, k: int| 0 <= f < grid.faces@.len() && 0 <= k < 3 && child_of(grid.faces@[f], grid.subdivision / 2, d)
        && corner_level(levels, grid.faces@[f], k) == m
}

/// The level required at corner `k` of a face.
pub open spec fn corner_level(levels: Seq<usize>, face: HierarchyFace, k: int) -> usize {
    levels[face.corners[k] as int]
}

proof fn lemma_tally_levels(faces: Seq<HierarchyFace>, levels: Seq<usize>, cn: usize, count: nat, upto: int)
    requires
        tally_faces(faces, levels, cn, count, upto) is Ok,
        upto <= faces.len(),
        forall|g: int| 0 <= g < faces.len() ==> index_below(#[trigger] dense_of(faces[g], cn), count),
    ensures
        ({
            let t = tallies_of(faces, levels, cn, count, upto);
            &&& t.len() == count
            &&& forall|d: int| 0 <= d < t.len() && (#[trigger] t[d]).address is None ==> t[d].maximum == 0
            &&& forall|f: int, k: int, d: int| 0 <= f < upto && 0 <= k < 3 && #[trigger] child_of(faces[f], cn, d)
                && 0 <= d < t.len() ==> #[trigger] corner_level(levels, faces[f], k) <= t[d].maximum
            &&& forall|d: int| 0 <= d < t.len() && (#[trigger] t[d]).address is Some ==>
                exists|f: int, k: int| 0 <= f < upto && 0 <= k < 3 && child_of(faces[f], cn, d)
                    && corner_level(levels, faces[f], k) == t[d].maximum
        }),
    decreases upto,
{
    if upto > 0 {
        lemma_tally_levels(faces, levels, cn, count, upto - 1);
        let t0 = tallies_of(faces, levels, cn, count, upto - 1);
        let t = tallies_of(faces, levels, cn, count, upto);
        let f = upto - 1;
        assert(tally_faces(faces, levels, cn, count, upto - 1) is Ok);
        let (t0x, fp0) = tally_faces(faces, levels, cn, count, upto - 1)->Ok_0;
        assert(t0x == t0);
        if !faces[f].live {
            assert(t == t0);
            assert forall|g: int, k: int, d: int| 0 <= g < upto && 0 <= k < 3 && #[trigger] child_of(faces[g], cn, d)
                && 0 <= d < t.len() implies #[trigger] corner_level(levels, faces[g], k) <= t[d].maximum by {
                if g == f {
                    assert(dense_of(faces[g], cn) is None);
                }
            }
            assert forall|d: int| 0 <= d < t.len() && (#[trigger] t[d]).address is Some implies
                exists|g: int, k: int| 0 <= g < upto && 0 <= k < 3 && child_of(faces[g], cn, d)
                    && corner_level(levels, faces[g], k) == t[d].maximum by {
                assert(t0[d].address is Some);
                let (g, k) = choose|g: int, k: int| 0 <= g < upto - 1 && 0 <= k < 3 && child_of(faces[g], cn, d)
                    && corner_level(levels, faces[g], k) == t0[d].maximum;
            }
        } else {
            match faces[f].parent {
                FaceParent::Parent { address, subdivision, dense } => {
                    match dense {
                        DenseIndex::Index(dd) => {
                            assert(subdivision == cn);
                            assert(dense_of(faces[f], cn) == Some((address, dd)));
                            assert(index_below(dense_of(faces[f], cn), count));
                            let a = t0[dd as int];
                            let m = face_level(levels, faces[f].corners);
                            assert(t == t0.update(dd as int, ParentTally {
                                address: Some(address),
                                children: (a.children + 1) as u8,
                                maximum: if a.maximum >= m { a.maximum } else { m },
                            }));
                            let c0 = corner_level(levels, faces[f], 0);
                            let c1 = corner_level(levels, faces[f], 1);
                            let c2 = corner_level(levels, faces[f], 2);
                            assert(m >= c0 && m >= c1 && m >= c2);
                            assert(m == c0 || m == c1 || m == c2);
                            assert forall|g: int, k: int, d: int| 0 <= g < upto && 0 <= k < 3 && #[trigger] child_of(faces[g], cn, d)
                                && 0 <= d < t.len() implies #[trigger] corner_level(levels, faces[g], k) <= t[d].maximum by {
                                if g == f {
                                    assert(d == dd);
                                } else if d == dd {
                                    assert(corner_level(levels, faces[g], k) <= t0[d].maximum);
                                } else {
                                    assert(t[d] == t0[d]);
                                }
                            }
                            assert forall|d: int| 0 <= d < t.len() && (#[trigger] t[d]).address is Some implies
                                exists|g: int, k: int| 0 <= g < upto && 0 <= k < 3 && child_of(faces[g], cn, d)
                                    && corner_level(levels, faces[g], k) == t[d].maximum by {
                                if d != dd {
                                    assert(t[d] == t0[d]);
                                    let (g, k) = choose|g: int, k: int| 0 <= g < upto - 1 && 0 <= k < 3 && child_of(faces[g], cn, d)
                                        && corner_level(levels, faces[g], k) == t0[d].maximum;
                                } else {
                                    assert(child_of(faces[f], cn, d));
                                    if a.maximum >= m && a.address is Some {
                                        let (g, k) = choose|g: int, k: int| 0 <= g < upto - 1 && 0 <= k < 3 && child_of(faces[g], cn, d)
                                            && corner_level(levels, faces[g], k) == t0[d].maximum;
                                    } else if m == c0 {
                                        assert(corner_level(levels, faces[f], 0) == t[d].maximum);
                                    } else if m == c1 {
                                        assert(corner_level(levels, faces[f], 1) == t[d].maximum);
                                    } else {
                                        assert(corner_level(levels, faces[f], 2) == t[d].maximum);
                                    }
                                }
                            }
                        },
                        DenseIndex::Refused(_) => {},
                    }
                },
                _ => {},
            }
        }
    }
}

/// Each parent's requirement is the highest level required at any corner of
/// any of its live children, and the parent can coarsen exactly when that
/// level is at most the coarse level.
pub proof fn parent_requirement_is_highest_child_corner(grid: HierarchyGrid, levels: Seq<usize>, level: usize,
    width: usize, plan: HierarchyComponentPlan)
    requires
        grid_indices_ok(grid),
        plan_error(grid, levels) is None,
        grid.subdivision >= 2,
        plan_matches(grid, levels, level, width, plan),
    ensures
        forall|f: int, k: int, d: int| 0 <= f < grid.faces@.len() && 0 <= k < 3 && #[trigger] child_of(grid.faces@[f], grid.subdivision / 2, d)
            && 0 <= d < plan.parent_requirements@.len()
            ==> #[trigger] corner_level(levels, grid.faces@[f], k) <= plan.parent_requirements@[d].maximum_required_level,
        forall|d: int| 0 <= d < plan.parent_requirements@.len() ==> level_attained(grid, levels, d,
            (#[trigger] plan.parent_requirements@[d]).maximum_required_level),
        forall|d: int| 0 <= d < plan.parent_requirements@.len() ==> (#[trigger] plan.parent_requirements@[d]).can_coarsen
            == (plan.parent_requirements@[d].maximum_required_level <= level),
{
    let cn = grid.subdivision / 2;
    let count = (20 * cn * cn) as nat;
    let faces = grid.faces@;
    assert forall|g: int| 0 <= g < faces.len() implies index_below(#[trigger] dense_of(faces[g], cn), count) by {
        if faces[g].live {
            assert(grid.faces@[g].live);
        }
    }
    lemma_tally_levels(faces, levels, cn, count, faces.len() as int);
    let t = tallies_of(faces, levels, cn, count, faces.len() as int);
    assert(t == plan_layer(grid, levels).0);
    lemma_tally_error_all_addressed(t, 0);
    assert forall|d: int| 0 <= d < plan.parent_requirements@.len() implies level_attained(grid, levels, d,
        (#[trigger] plan.parent_requirements@[d]).maximum_required_level) by {
        assert(t[d].address is Some);
        assert(plan.parent_requirements@[d] == requirement_of(t[d], level));
        let (f, k) = choose|f: int, k: int| 0 <= f < faces.len() && 0 <= k < 3 && child_of(faces[f], cn, d)
            && corner_level(levels, faces[f], k) == t[d].maximum;
        assert(child_of(grid.faces@[f], grid.subdivision / 2, d)
            && corner_level(levels, grid.faces@[f], k) == plan.parent_requirements@[d].maximum_required_level);
    }
}

proof fn lemma_link_face_len(faces: Seq<HierarchyFace>, fp: Seq<usize>, nb: Seq<[usize; 3]>, deg: Seq<usize>, f: int, j: int)
    requires
        link_face(faces, fp, nb, deg, f, j) is Ok,
        0 <= fp[f] < nb.len(),
    ensures
        (link_face(faces, fp, nb, deg, f, j)->Ok_0).0.len() == nb.len(),
    decreases j,
{
    if j > 0 {
        lemma_link_face_len(faces, fp, nb, deg, f, j - 1);
    }
}

proof fn lemma_link_faces_len(faces: Seq<HierarchyFace>, fp: Seq<usize>, count: nat, upto: int)
    requires
        link_faces(faces, fp, count, upto) is Ok,
        parents_in_range(fp, count as int),
        upto <= fp.len(),
    ensures
        (link_faces(faces, fp, count, upto)->Ok_0).0.len() == count,
    decreases upto,
{
    if upto > 0 {
        lemma_link_faces_len(faces, fp, count, upto - 1);
        let (n1, d1) = link_faces(faces, fp, count, upto - 1)->Ok_0;
        let f = upto - 1;
        if !(!faces[f].live || fp[f] == usize::MAX) {
            assert(fp[f] < count);
            lemma_link_face_len(faces, fp, n1, d1, f, 3);
        }
    }
}

proof fn lemma_component_members(t: Seq<ParentTally>, nb: Seq<[usize; 3]>, elig: Seq<bool>, lab: Seq<usize>, i: usize,
    width: usize, upto: int)
    ensures
        ({
            let (ps, bs, cs, ts) = component_lists(t, nb, elig, lab, i, width, upto);
            &&& forall|k: int| 0 <= k < ps.len() ==> exists|d: int| 0 <= d < upto && elig[d] && lab[d] == i
                && #[trigger] ps[k] == tally_address(t[d])
            &&& forall|k: int| 0 <= k < cs.len() ==> ps.contains(#[trigger] cs[k])
            &&& forall|k: int| 0 <= k < ts.len() ==> ps.contains(#[trigger] ts[k])
            &&& cs.len() + ts.len() == ps.len()
        }),
    decreases upto,
{
    if upto > 0 {
        lemma_component_members(t, nb, elig, lab, i, width, upto - 1);
        let (ps0, bs0, cs0, ts0) = component_lists(t, nb, elig, lab, i, width, upto - 1);
        let (ps, bs, cs, ts) = component_lists(t, nb, elig, lab, i, width, upto);
        let d = upto - 1;
        if elig[d] && lab[d] == i {
            let a = tally_address(t[d]);
            assert(ps == ps0.push(a));
            assert forall|k: int| 0 <= k < ps.len() implies exists|e: int| 0 <= e < upto && elig[e] && lab[e] == i
                && #[trigger] ps[k] == tally_address(t[e]) by {
                if k < ps0.len() {
                    assert(ps[k] == ps0[k]);
                    let e = choose|e: int| 0 <= e < upto - 1 && elig[e] && lab[e] == i && #[trigger] ps0[k] == tally_address(t[e]);
                    assert(0 <= e < upto);
                } else {
                    assert(ps[k] == tally_address(t[d]));
                }
            }
            assert forall|k: int| 0 <= k < cs.len() implies ps.contains(#[trigger] cs[k]) by {
                if k < cs0.len() {
                    assert(cs[k] == cs0[k]);
                    let q = choose|q: int| 0 <= q < ps0.len() && ps0[q] == cs0[k];
                    assert(ps[q] == ps0[q]);
                } else {
                    assert(cs[k] == a);
                    assert(ps[ps0.len() as int] == a);
                }
            }
            assert forall|k: int| 0 <= k < ts.len() implies ps.contains(#[trigger] ts[k]) by {
                if k < ts0.len() {
                    assert(ts[k] == ts0[k]);
                    let q = choose|q: int| 0 <= q < ps0.len() && ps0[q] == ts0[k];
                    assert(ps[q] == ps0[q]);
                } else {
                    assert(ts[k] == a);
                    assert(ps[ps0.len() as int] == a);
                }
            }
        }
    }
}

/// Some parent requirement of the plan names `p` and lets it coarsen.
pub open spec fn coarsenable_parent(plan: HierarchyComponentPlan, p: TriangleAddress) -> bool {
    exists|d: int| 0 <= d < plan.parent_requirements@.len() && plan.parent_requirements@[d].parent == p
        && plan.parent_requirements@[d].can_coarsen
}

/// Every parent of a planned component can coarsen, and its core and
/// transition parents are parents of it that together number as many as its
/// parents.
pub proof fn component_parents_can_coarsen(grid: HierarchyGrid, levels: Seq<usize>, level: usize, width: usize,
    plan: HierarchyComponentPlan)
    requires
        grid_indices_ok(grid),
        plan_error(grid, levels) is None,
        grid.subdivision >= 2,
        plan_matches(grid, levels, level, width, plan),
        plan.components@.len() <= usize::MAX,
    ensures
        forall|c: int, k: int| 0 <= c < plan.components@.len() && 0 <= k < plan.components@[c].parents@.len()
            ==> coarsenable_parent(plan, #[trigger] plan.components@[c].parents@[k]),
        forall|c: int, k: int| 0 <= c < plan.components@.len() && 0 <= k < plan.components@[c].core_parents@.len()
            ==> plan.components@[c].parents@.contains(#[trigger] plan.components@[c].core_parents@[k]),
        forall|c: int, k: int| 0 <= c < plan.components@.len() && 0 <= k < plan.components@[c].transition_parents@.len()
            ==> plan.components@[c].parents@.contains(#[trigger] plan.components@[c].transition_parents@[k]),
        forall|c: int| 0 <= c < plan.components@.len() ==> (#[trigger] plan.components@[c]).core_parents@.len()
            + plan.components@[c].transition_parents@.len() == plan.components@[c].parents@.len(),
{
    let cn = grid.subdivision / 2;
    let count = (20 * cn * cn) as nat;
    let (t, nb) = plan_layer(grid, levels);
    let elig = eligible_parents(t, level);
    let (lab, cc) = component_labels(nb, elig, nb.len() as int);
    let (t1, fp) = tally_faces(grid.faces@, levels, cn, count, grid.faces@.len() as int)->Ok_0;
    assert forall|g: int| 0 <= g < grid.faces@.len() implies index_below(#[trigger] dense_of(grid.faces@[g], cn), count) by {
        if grid.faces@[g].live {
            assert(grid.faces@[g].live);
        }
    }
    lemma_tally_witness(grid.faces@, levels, cn, count, grid.faces@.len() as int);
    lemma_tally_range(grid, levels, cn, count, grid.faces@.len() as int);
    lemma_link_faces_len(grid.faces@, fp, count, grid.faces@.len() as int);
    assert(t.len() == count && nb.len() == count);
    assert forall|c: int, k: int| 0 <= c < plan.components@.len() && 0 <= k < plan.components@[c].parents@.len()
        implies coarsenable_parent(plan, #[trigger] plan.components@[c].parents@[k]) by {
        lemma_component_members(t, nb, elig, lab, c as usize, width, nb.len() as int);
        let (ps, bs, cs, ts) = component_lists(t, nb, elig, lab, c as usize, width, nb.len() as int);
        assert(plan.components@[c].parents@ == ps);
        assert(ps[k] == plan.components@[c].parents@[k]);
        let d = choose|d: int| 0 <= d < nb.len() && elig[d] && lab[d] == c as usize && #[trigger] ps[k] == tally_address(t[d]);
        assert(plan.parent_requirements@[d] == requirement_of(t[d], level));
        assert(plan.parent_requirements@[d].parent == ps[k] && plan.parent_requirements@[d].can_coarsen);
    }
    assert forall|c: int, k: int| 0 <= c < plan.components@.len() && 0 <= k < plan.components@[c].core_parents@.len()
        implies plan.components@[c].parents@.contains(#[trigger] plan.components@[c].core_parents@[k]) by {
        lemma_component_members(t, nb, elig, lab, c as usize, width, nb.len() as int);
        let (ps, bs, cs, ts) = component_lists(t, nb, elig, lab, c as usize, width, nb.len() as int);
        assert(plan.components@[c].parents@ == ps);
        assert(plan.components@[c].core_parents@ == cs);
        assert(ps.contains(cs[k]));
    }
    assert forall|c: int, k: int| 0 <= c < plan.components@.len() && 0 <= k < plan.components@[c].transition_parents@.len()
        implies plan.components@[c].parents@.contains(#[trigger] plan.components@[c].transition_parents@[k]) by {
        lemma_component_members(t, nb, elig, lab, c as usize, width, nb.len() as int);
        let (ps, bs, cs, ts) = component_lists(t, nb, elig, lab, c as usize, width, nb.len() as int);
        assert(plan.components@[c].parents@ == ps);
        assert(plan.components@[c].transition_parents@ == ts);
        assert(ps.contains(ts[k]));
    }
    assert forall|c: int| 0 <= c < plan.components@.len() implies (#[trigger] plan.components@[c]).core_parents@.len()
        + plan.components@[c].transition_parents@.len() == plan.components@[c].parents@.len() by {
        lemma_component_members(t, nb, elig, lab, c as usize, width, nb.len() as int);
    }
}

} // verus!
