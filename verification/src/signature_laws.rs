//! What the incidence signatures of a polygon are: each is the corner count
//! of a triangulation of the polygon that uses no forbidden edge.

use vstd::prelude::*;
use crate::graph::{Edge, Triangle, incidence_spec};
use crate::graph::corners_equal;
use crate::reachability::{sig_sum, strictly_sorted, sig_mentions, combined_total, merge_of, merged_signature,
    is_total_signature, add_entry, pair_fold, rows_fold, interval_entries, mids_fold, span_triangle, span_usable,
    lemma_sig_sum_absent, SectorDegreeSignature, sig_entries, entry_slot, entry_slot_of, lemma_pair_none_acc,
    lemma_mids_none, lemma_rows_none, lemma_pair_none};

verus! {

/// The edge between `x` and `y` is not forbidden.
pub open spec fn side_allowed(forb: Set<Edge>, x: usize, y: usize) -> bool {
    !forb.contains(if x < y { (x, y) } else { (y, x) })
}

/// A triangle with three different corners and no forbidden side.
pub open spec fn allowed_triangle(forb: Set<Edge>, t: Triangle) -> bool {
    &&& t[0] != t[1] && t[1] != t[2] && t[0] != t[2]
    &&& side_allowed(forb, t[0], t[1])
    &&& side_allowed(forb, t[1], t[2])
    &&& side_allowed(forb, t[0], t[2])
}

/// `tris` triangulates the polygon interval `lo..=hi`: empty when the
/// interval is one edge, and otherwise the triangulations of `lo..=mid` and
/// `mid..=hi` for some apex `mid` strictly between, with the triangle on
/// `lo`, `mid`, `hi` last.
pub open spec fn triangulates(poly: Seq<usize>, lo: int, hi: int, tris: Seq<Triangle>) -> bool
    decreases hi - lo,
{
    if hi <= lo + 1 {
        tris.len() == 0
    } else {
        exists|mid: int, left: Seq<Triangle>, right: Seq<Triangle>| lo < mid < hi
            && tris == left + right + seq![[poly[lo], poly[mid], poly[hi]]]
            && triangulates(poly, lo, mid, left) && triangulates(poly, mid, hi, right)
    }
}

/// `s` is the corner count of `tris`: strictly sorted by vertex, and each
/// vertex counted as often as it is a corner of a triangle of `tris`.
pub open spec fn counts_corners(s: Seq<(usize, u8)>, tris: Seq<Triangle>) -> bool {
    &&& strictly_sorted(s)
    &&& forall|i: int| 0 <= i < s.len() ==> (#[trigger] s[i]).1 > 0
    &&& forall|v: usize| #[trigger] sig_sum(s, v) == incidence_spec(tris, v)
}

/// Some triangulation of `lo..=hi` that uses only allowed triangles has the
/// corner count `s`.
pub open spec fn realized(poly: Seq<usize>, forb: Set<Edge>, lo: int, hi: int, s: Seq<(usize, u8)>) -> bool {
    exists|tris: Seq<Triangle>| triangulates(poly, lo, hi, tris)
        && (forall|j: int| 0 <= j < tris.len() ==> allowed_triangle(forb, #[trigger] tris[j]))
        && counts_corners(s, tris)
}

/// Signature `s` is listed among the pairs `v`.
pub open spec fn listed(v: Seq<(Seq<(usize, u8)>, int)>, s: Seq<(usize, u8)>) -> bool {
    exists|q: int| 0 <= q < v.len() && (#[trigger] v[q]).0 == s
}

proof fn lemma_set_max(vs: Set<usize>)
    requires
        vs.finite(),
        vs.len() > 0,
    ensures
        exists|m: usize| vs.contains(m) && forall|x: usize| vs.contains(x) ==> x <= m,
    decreases vs.len(),
{
    let x = vs.choose();
    assert(vs.contains(x));
    let rest = vs.remove(x);
    if rest.len() == 0 {
        assert forall|y: usize| vs.contains(y) implies y <= x by {
            if y != x {
                assert(rest.contains(y));
            }
        }
    } else {
        lemma_set_max(rest);
        let m = choose|m: usize| rest.contains(m) && forall|y: usize| rest.contains(y) ==> y <= m;
        if x > m {
            assert forall|y: usize| vs.contains(y) implies y <= x by {
                if y != x {
                    assert(rest.contains(y));
                }
            }
        } else {
            assert forall|y: usize| vs.contains(y) implies y <= m by {
                if y != x {
                    assert(rest.contains(y));
                }
            }
        }
    }
}

proof fn lemma_sorted_listing(vs: Set<usize>, f: spec_fn(usize) -> nat)
    requires
        vs.finite(),
        forall|v: usize| vs.contains(v) ==> f(v) <= 255,
    ensures
        exists|out: Seq<(usize, u8)>| strictly_sorted(out)
            && (forall|i: int| 0 <= i < out.len() ==> vs.contains((#[trigger] out[i]).0) && out[i].1 as nat == f(out[i].0))
            && (forall|v: usize| vs.contains(v) ==> sig_mentions(out, v)),
    decreases vs.len(),
{
    if vs.len() == 0 {
        let out = Seq::<(usize, u8)>::empty();
        assert forall|v: usize| vs.contains(v) implies sig_mentions(out, v) by {
            vstd::set_lib::lemma_set_empty_equivalency_len(vs);
            assert(vs =~= Set::<usize>::empty());
        }
        assert(strictly_sorted(out)
            && (forall|i: int| 0 <= i < out.len() ==> vs.contains((#[trigger] out[i]).0) && out[i].1 as nat == f(out[i].0))
            && (forall|v: usize| vs.contains(v) ==> sig_mentions(out, v)));
    } else {
        lemma_set_max(vs);
        let m = choose|m: usize| vs.contains(m) && forall|x: usize| vs.contains(x) ==> x <= m;
        let rest = vs.remove(m);
        lemma_sorted_listing(rest, f);
        let o = choose|out: Seq<(usize, u8)>| strictly_sorted(out)
            && (forall|i: int| 0 <= i < out.len() ==> rest.contains((#[trigger] out[i]).0) && out[i].1 as nat == f(out[i].0))
            && (forall|v: usize| rest.contains(v) ==> sig_mentions(out, v));
        let out = o.push((m, f(m) as u8));
        assert(strictly_sorted(out)) by {
            assert forall|i: int, j: int| 0 <= i < j < out.len() implies out[i].0 < out[j].0 by {
                if j == out.len() - 1 {
                    assert(rest.contains(o[i].0));
                    assert(o[i].0 <= m);
                } else {
                    assert(out[i] == o[i] && out[j] == o[j]);
                }
            }
        }
        assert forall|i: int| 0 <= i < out.len() implies vs.contains((#[trigger] out[i]).0) && out[i].1 as nat == f(out[i].0) by {
            if i < o.len() {
                assert(out[i] == o[i]);
                assert(rest.contains(o[i].0));
            }
        }
        assert forall|v: usize| vs.contains(v) implies sig_mentions(out, v) by {
            if v == m {
                assert(out[o.len() as int].0 == v);
            } else {
                assert(rest.contains(v));
                let i = choose|i: int| 0 <= i < o.len() && (#[trigger] o[i]).0 == v;
                assert(out[i] == o[i]);
            }
        }
        assert(strictly_sorted(out)
            && (forall|i: int| 0 <= i < out.len() ==> vs.contains((#[trigger] out[i]).0) && out[i].1 as nat == f(out[i].0))
            && (forall|v: usize| vs.contains(v) ==> sig_mentions(out, v)));
    }
}

proof fn lemma_merge_exists(a: Seq<(usize, u8)>, b: Seq<(usize, u8)>, t: Triangle)
    requires
        !exists|v: usize| #[trigger] combined_total(a, b, t, v) > 255,
    ensures
        merged_signature(a, b, t) matches Some(out) && merge_of(out, a, b, t),
{
    let mentioned = |v: usize| sig_mentions(a, v) || sig_mentions(b, v) || corners_equal(t, v) > 0;
    let total = |v: usize| combined_total(a, b, t, v);
    let vs = Set::new(mentioned);
    let ka = a.map_values(|e: (usize, u8)| e.0).to_set();
    let kb = b.map_values(|e: (usize, u8)| e.0).to_set();
    let whole = ka + kb + set![t[0], t[1], t[2]];
    assert(vs.subset_of(whole)) by {
        assert forall|v: usize| vs.contains(v) implies whole.contains(v) by {
            if sig_mentions(a, v) {
                let i = choose|i: int| 0 <= i < a.len() && (#[trigger] a[i]).0 == v;
                assert(a.map_values(|e: (usize, u8)| e.0)[i] == v);
            } else if sig_mentions(b, v) {
                let i = choose|i: int| 0 <= i < b.len() && (#[trigger] b[i]).0 == v;
                assert(b.map_values(|e: (usize, u8)| e.0)[i] == v);
            }
        }
    }
    vstd::seq_lib::seq_to_set_is_finite(a.map_values(|e: (usize, u8)| e.0));
    vstd::seq_lib::seq_to_set_is_finite(b.map_values(|e: (usize, u8)| e.0));
    vstd::set_lib::lemma_len_subset(vs, whole);
    assert forall|v: usize| vs.contains(v) implies total(v) <= 255 by {
        assert(!(combined_total(a, b, t, v) > 255));
    }
    lemma_sorted_listing(vs, total);
    let out = choose|out: Seq<(usize, u8)>| strictly_sorted(out)
        && (forall|i: int| 0 <= i < out.len() ==> vs.contains((#[trigger] out[i]).0) && out[i].1 as nat == total(out[i].0))
        && (forall|v: usize| vs.contains(v) ==> sig_mentions(out, v));
    assert(merge_of(out, a, b, t));
    crate::reachability::lemma_merged_signature(a, b, t, out);
}

proof fn lemma_sig_sum_sorted_hit(s: Seq<(usize, u8)>, i: int)
    requires
        strictly_sorted(s),
        0 <= i < s.len(),
    ensures
        sig_sum(s, s[i].0) == s[i].1 as nat,
    decreases s.len(),
{
    let v = s[i].0;
    let r = s.drop_last();
    assert(strictly_sorted(r)) by {
        assert forall|x: int, y: int| 0 <= x < y < r.len() implies r[x].0 < r[y].0 by {
            assert(s[x].0 < s[y].0);
        }
    }
    if i == s.len() - 1 {
        assert(!sig_mentions(r, v)) by {
            if sig_mentions(r, v) {
                let k = choose|k: int| 0 <= k < r.len() && (#[trigger] r[k]).0 == v;
                assert(s[k].0 < s[i].0);
            }
        }
        lemma_sig_sum_absent(r, v);
    } else {
        assert(r[i] == s[i]);
        lemma_sig_sum_sorted_hit(r, i);
        assert(s.last().0 != v) by {
            assert(s[i].0 < s[s.len() - 1].0);
        }
    }
}

proof fn lemma_merge_counts(out: Seq<(usize, u8)>, a: Seq<(usize, u8)>, b: Seq<(usize, u8)>, t: Triangle)
    requires
        merge_of(out, a, b, t),
        strictly_sorted(a),
        strictly_sorted(b),
        forall|i: int| 0 <= i < a.len() ==> (#[trigger] a[i]).1 > 0,
        forall|i: int| 0 <= i < b.len() ==> (#[trigger] b[i]).1 > 0,
    ensures
        strictly_sorted(out),
        forall|i: int| 0 <= i < out.len() ==> (#[trigger] out[i]).1 > 0,
        forall|v: usize| #[trigger] sig_sum(out, v) == sig_sum(a, v) + sig_sum(b, v) + corners_equal(t, v),
{
    assert forall|v: usize| #[trigger] sig_sum(out, v) == sig_sum(a, v) + sig_sum(b, v) + corners_equal(t, v) by {
        if sig_mentions(out, v) {
            let i = choose|i: int| 0 <= i < out.len() && (#[trigger] out[i]).0 == v;
            lemma_sig_sum_sorted_hit(out, i);
        } else {
            let mentioned = |w: usize| sig_mentions(a, w) || sig_mentions(b, w) || corners_equal(t, w) > 0;
            assert(mentioned(v) ==> sig_mentions(out, v));
            lemma_sig_sum_absent(out, v);
            lemma_sig_sum_absent(a, v);
            lemma_sig_sum_absent(b, v);
        }
    }
    assert forall|i: int| 0 <= i < out.len() implies (#[trigger] out[i]).1 > 0 by {
        let v = out[i].0;
        let mentioned = |w: usize| sig_mentions(a, w) || sig_mentions(b, w) || corners_equal(t, w) > 0;
        let total = |w: usize| combined_total(a, b, t, w);
        assert(mentioned(v) && out[i].1 as nat == total(v));
        if sig_mentions(a, v) {
            let j = choose|j: int| 0 <= j < a.len() && (#[trigger] a[j]).0 == v;
            lemma_sig_sum_sorted_hit(a, j);
        } else if sig_mentions(b, v) {
            let j = choose|j: int| 0 <= j < b.len() && (#[trigger] b[j]).0 == v;
            lemma_sig_sum_sorted_hit(b, j);
        }
    }
}

proof fn lemma_incidence_concat(x: Seq<Triangle>, y: Seq<Triangle>, v: usize)
    ensures
        incidence_spec(x + y, v) == incidence_spec(x, v) + incidence_spec(y, v),
    decreases y.len(),
{
    if y.len() == 0 {
        assert(x + y =~= x);
    } else {
        lemma_incidence_concat(x, y.drop_last(), v);
        assert((x + y).drop_last() =~= x + y.drop_last());
        assert((x + y).last() == y.last());
    }
}

proof fn lemma_entry_slot_exists(v: Seq<(Seq<(usize, u8)>, int)>, x: Seq<(usize, u8)>)
    ensures
        exists|i: int| entry_slot_of(v, x, i),
    decreases v.len(),
{
    if v.len() == 0 {
        assert(entry_slot_of(v, x, 0));
    } else {
        let r = v.drop_last();
        lemma_entry_slot_exists(r, x);
        let i = choose|i: int| entry_slot_of(r, x, i);
        if i < r.len() {
            assert forall|j: int| 0 <= j < i implies crate::reachability::sig_lt(#[trigger] v[j].0, x) by {
                assert(r[j] == v[j]);
            }
            assert(r[i] == v[i]);
            assert(entry_slot_of(v, x, i));
        } else if crate::reachability::sig_lt(v.last().0, x) {
            assert forall|j: int| 0 <= j < v.len() implies crate::reachability::sig_lt(#[trigger] v[j].0, x) by {
                if j < r.len() {
                    assert(r[j] == v[j]);
                }
            }
            assert(entry_slot_of(v, x, v.len() as int));
        } else {
            assert forall|j: int| 0 <= j < i implies crate::reachability::sig_lt(#[trigger] v[j].0, x) by {
                assert(r[j] == v[j]);
            }
            assert(entry_slot_of(v, x, i));
        }
    }
}

proof fn lemma_add_entry_listed(v: Seq<(Seq<(usize, u8)>, int)>, sg: Seq<(usize, u8)>, c: int, x: Seq<(usize, u8)>)
    requires
        add_entry(v, sg, c) is Some,
        listed(add_entry(v, sg, c)->Some_0, x),
    ensures
        listed(v, x) || x == sg,
{
    lemma_entry_slot_exists(v, sg);
    let i = entry_slot(v, sg);
    assert(entry_slot_of(v, sg, i));
    let w = add_entry(v, sg, c)->Some_0;
    let q = choose|q: int| 0 <= q < w.len() && (#[trigger] w[q]).0 == x;
    if 0 <= i < v.len() && v[i].0 == sg {
        assert(w == v.update(i, (sg, v[i].1 + c)));
        if q != i {
            assert(v[q].0 == x);
        }
    } else {
        assert(w == v.insert(i, (sg, c)));
        if q < i {
            assert(v[q].0 == x);
        } else if q > i {
            assert(v[q - 1].0 == x);
        }
    }
}

proof fn lemma_pair_listed(acc: Seq<(Seq<(usize, u8)>, int)>, l: (Seq<(usize, u8)>, int), right: Seq<(Seq<(usize, u8)>, int)>,
    t: Triangle, b: int, x: Seq<(usize, u8)>)
    requires
        0 <= b <= right.len(),
        pair_fold(Some(acc), l, right, t, b) is Some,
        listed(pair_fold(Some(acc), l, right, t, b)->Some_0, x),
    ensures
        listed(acc, x) || exists|j: int| 0 <= j < b && merged_signature(l.0, (#[trigger] right[j]).0, t) == Some(x),
    decreases b,
{
    if b > 0 {
        let prev = pair_fold(Some(acc), l, right, t, b - 1);
        assert(prev is Some);
        let o = prev->Some_0;
        let r = right[b - 1];
        let res = pair_fold(Some(acc), l, right, t, b)->Some_0;
        if l.0.len() + r.0.len() <= usize::MAX {
            match merged_signature(l.0, r.0, t) {
                None => {
                    lemma_pair_listed(acc, l, right, t, b - 1, x);
                },
                Some(sg) => {
                    lemma_add_entry_listed(o, sg, l.1 * r.1, x);
                    if listed(o, x) {
                        lemma_pair_listed(acc, l, right, t, b - 1, x);
                        if !listed(acc, x) {
                            let j = choose|j: int| 0 <= j < b - 1 && merged_signature(l.0, (#[trigger] right[j]).0, t) == Some(x);
                            assert(0 <= j < b);
                        }
                    } else {
                        assert(merged_signature(l.0, right[b - 1].0, t) == Some(x));
                    }
                },
            }
        }
    }
}

proof fn lemma_rows_listed(acc: Seq<(Seq<(usize, u8)>, int)>, left: Seq<(Seq<(usize, u8)>, int)>, right: Seq<(Seq<(usize, u8)>, int)>,
    t: Triangle, a: int, x: Seq<(usize, u8)>)
    requires
        0 <= a <= left.len(),
        rows_fold(Some(acc), left, right, t, a) is Some,
        listed(rows_fold(Some(acc), left, right, t, a)->Some_0, x),
    ensures
        listed(acc, x) || exists|i: int, j: int| 0 <= i < a && 0 <= j < right.len()
            && merged_signature((#[trigger] left[i]).0, (#[trigger] right[j]).0, t) == Some(x),
    decreases a,
{
    if a > 0 {
        let prev = rows_fold(Some(acc), left, right, t, a - 1);
        if prev is None {
            lemma_pair_none_acc(left[a - 1], right, t, right.len() as int);
        }
        let o = prev->Some_0;
        lemma_pair_listed(o, left[a - 1], right, t, right.len() as int, x);
        if listed(o, x) {
            lemma_rows_listed(acc, left, right, t, a - 1, x);
            if !listed(acc, x) {
                let (i, j) = choose|i: int, j: int| 0 <= i < a - 1 && 0 <= j < right.len()
                    && merged_signature((#[trigger] left[i]).0, (#[trigger] right[j]).0, t) == Some(x);
                assert(0 <= i < a);
            }
        } else {
            let j = choose|j: int| 0 <= j < right.len() && merged_signature(left[a - 1].0, (#[trigger] right[j]).0, t) == Some(x);
            assert(merged_signature(left[a - 1].0, right[j].0, t) == Some(x));
        }
    }
}

proof fn lemma_join_realized(poly: Seq<usize>, forb: Set<Edge>, lo: int, mid: int, hi: int,
    a: Seq<(usize, u8)>, b: Seq<(usize, u8)>, x: Seq<(usize, u8)>)
    requires
        0 <= lo < mid < hi < poly.len(),
        realized(poly, forb, lo, mid, a),
        realized(poly, forb, mid, hi, b),
        span_usable(forb, span_triangle(poly, lo, mid, hi)),
        merged_signature(a, b, span_triangle(poly, lo, mid, hi)) == Some(x),
    ensures
        realized(poly, forb, lo, hi, x),
{
    let t = span_triangle(poly, lo, mid, hi);
    let tl = choose|tris: Seq<Triangle>| triangulates(poly, lo, mid, tris)
        && (forall|j: int| 0 <= j < tris.len() ==> allowed_triangle(forb, #[trigger] tris[j]))
        && counts_corners(a, tris);
    let tr = choose|tris: Seq<Triangle>| triangulates(poly, mid, hi, tris)
        && (forall|j: int| 0 <= j < tris.len() ==> allowed_triangle(forb, #[trigger] tris[j]))
        && counts_corners(b, tris);
    lemma_merge_exists(a, b, t);
    lemma_merge_counts(x, a, b, t);
    let tris = tl + tr + seq![t];
    assert(t == [poly[lo], poly[mid], poly[hi]]);
    assert(triangulates(poly, lo, hi, tris));
    assert(allowed_triangle(forb, t));
    assert forall|j: int| 0 <= j < tris.len() implies allowed_triangle(forb, #[trigger] tris[j]) by {
        if j < tl.len() {
            assert(tris[j] == tl[j]);
        } else if j < tl.len() + tr.len() {
            assert(tris[j] == tr[j - tl.len()]);
        } else {
            assert(tris[j] == t);
        }
    }
    assert forall|v: usize| #[trigger] sig_sum(x, v) == incidence_spec(tris, v) by {
        lemma_incidence_concat(tl, tr, v);
        assert(tris.drop_last() =~= tl + tr);
        assert(tris.last() == t);
        assert(sig_sum(a, v) == incidence_spec(tl, v));
        assert(sig_sum(b, v) == incidence_spec(tr, v));
    }
    assert(counts_corners(x, tris));
}

proof fn lemma_entries_realized(poly: Seq<usize>, forb: Set<Edge>, lo: int, hi: int)
    requires
        0 <= lo <= hi < poly.len(),
        interval_entries(poly, forb, lo, hi) is Some,
    ensures
        forall|x: Seq<(usize, u8)>| listed(interval_entries(poly, forb, lo, hi)->Some_0, x) ==> #[trigger] realized(poly, forb, lo, hi, x),
    decreases hi - lo, 1int, 0int,
{
    if hi <= lo + 1 {
        assert forall|x: Seq<(usize, u8)>| listed(interval_entries(poly, forb, lo, hi)->Some_0, x)
            implies #[trigger] realized(poly, forb, lo, hi, x) by {
            let e = interval_entries(poly, forb, lo, hi)->Some_0;
            let q = choose|q: int| 0 <= q < e.len() && (#[trigger] e[q]).0 == x;
            assert(x == Seq::<(usize, u8)>::empty());
            let tris = Seq::<Triangle>::empty();
            assert(triangulates(poly, lo, hi, tris));
            assert(counts_corners(x, tris));
        }
    } else {
        lemma_mids_realized(poly, forb, lo, hi, hi);
    }
}

proof fn lemma_mids_realized(poly: Seq<usize>, forb: Set<Edge>, lo: int, hi: int, m: int)
    requires
        0 <= lo,
        lo + 1 < hi < poly.len(),
        m <= hi,
        mids_fold(poly, forb, lo, hi, m) is Some,
    ensures
        forall|x: Seq<(usize, u8)>| listed(mids_fold(poly, forb, lo, hi, m)->Some_0, x) ==> #[trigger] realized(poly, forb, lo, hi, x),
    decreases hi - lo, 0int, m,
{
    if m > lo + 1 {
        let mid = m - 1;
        let prev = mids_fold(poly, forb, lo, hi, m - 1);
        assert(prev is Some);
        lemma_mids_realized(poly, forb, lo, hi, m - 1);
        let acc = prev->Some_0;
        let t = span_triangle(poly, lo, mid, hi);
        if span_usable(forb, t) {
            let left = interval_entries(poly, forb, lo, mid)->Some_0;
            let right = interval_entries(poly, forb, mid, hi)->Some_0;
            lemma_entries_realized(poly, forb, lo, mid);
            lemma_entries_realized(poly, forb, mid, hi);
            assert forall|x: Seq<(usize, u8)>| listed(mids_fold(poly, forb, lo, hi, m)->Some_0, x)
                implies #[trigger] realized(poly, forb, lo, hi, x) by {
                lemma_rows_listed(acc, left, right, t, left.len() as int, x);
                if !listed(acc, x) {
                    let (i, j) = choose|i: int, j: int| 0 <= i < left.len() && 0 <= j < right.len()
                        && merged_signature((#[trigger] left[i]).0, (#[trigger] right[j]).0, t) == Some(x);
                    assert(listed(left, left[i].0));
                    assert(listed(right, right[j].0));
                    assert(realized(poly, forb, lo, mid, left[i].0));
                    assert(realized(poly, forb, mid, hi, right[j].0));
                    lemma_join_realized(poly, forb, lo, mid, hi, left[i].0, right[j].0, x);
                }
            }
        }
    }
}

/// Every incidence signature of a polygon is the corner count of some
/// triangulation of it whose triangles have three different corners and no
/// forbidden side.
pub proof fn signatures_come_from_allowed_triangulations(polygon: Seq<usize>, forb: Set<Edge>,
    sigs: Seq<SectorDegreeSignature>)
    requires
        polygon.len() >= 1,
        interval_entries(polygon, forb, 0, polygon.len() - 1) == Some(sig_entries(sigs)),
    ensures
        forall|k: int| 0 <= k < sigs.len() ==> realized(polygon, forb, 0, polygon.len() - 1, (#[trigger] sigs[k]).contributions@),
{
    lemma_entries_realized(polygon, forb, 0, polygon.len() - 1);
    assert forall|k: int| 0 <= k < sigs.len() implies realized(polygon, forb, 0, polygon.len() - 1, (#[trigger] sigs[k]).contributions@) by {
        assert(sig_entries(sigs)[k].0 == sigs[k].contributions@);
        assert(listed(sig_entries(sigs), sigs[k].contributions@));
    }
}

proof fn lemma_add_entry_keeps(v: Seq<(Seq<(usize, u8)>, int)>, sg: Seq<(usize, u8)>, c: int, x: Seq<(usize, u8)>)
    requires
        add_entry(v, sg, c) is Some,
    ensures
        listed(v, x) ==> listed(add_entry(v, sg, c)->Some_0, x),
        listed(add_entry(v, sg, c)->Some_0, sg),
{
    lemma_entry_slot_exists(v, sg);
    let i = entry_slot(v, sg);
    assert(entry_slot_of(v, sg, i));
    let w = add_entry(v, sg, c)->Some_0;
    if 0 <= i < v.len() && v[i].0 == sg {
        assert(w == v.update(i, (sg, v[i].1 + c)));
        assert(w[i].0 == sg);
        if listed(v, x) {
            let q = choose|q: int| 0 <= q < v.len() && (#[trigger] v[q]).0 == x;
            assert(w[q].0 == x);
        }
    } else {
        assert(w == v.insert(i, (sg, c)));
        assert(w[i].0 == sg);
        if listed(v, x) {
            let q = choose|q: int| 0 <= q < v.len() && (#[trigger] v[q]).0 == x;
            if q < i {
                assert(w[q].0 == x);
            } else {
                assert(w[q + 1].0 == x);
            }
        }
    }
}

proof fn lemma_pair_keeps(acc: Seq<(Seq<(usize, u8)>, int)>, l: (Seq<(usize, u8)>, int), right: Seq<(Seq<(usize, u8)>, int)>,
    t: Triangle, b: int, x: Seq<(usize, u8)>)
    requires
        0 <= b <= right.len(),
        pair_fold(Some(acc), l, right, t, b) is Some,
    ensures
        listed(acc, x) ==> listed(pair_fold(Some(acc), l, right, t, b)->Some_0, x),
        forall|j: int| 0 <= j < b && l.0.len() + (#[trigger] right[j]).0.len() <= usize::MAX
            && merged_signature(l.0, right[j].0, t) == Some(x) ==> listed(pair_fold(Some(acc), l, right, t, b)->Some_0, x),
    decreases b,
{
    if b > 0 {
        let prev = pair_fold(Some(acc), l, right, t, b - 1);
        assert(prev is Some);
        let o = prev->Some_0;
        let r = right[b - 1];
        lemma_pair_keeps(acc, l, right, t, b - 1, x);
        if l.0.len() + r.0.len() <= usize::MAX {
            match merged_signature(l.0, r.0, t) {
                None => {},
                Some(sg) => {
                    lemma_add_entry_keeps(o, sg, l.1 * r.1, x);
                },
            }
        }
    }
}

proof fn lemma_rows_keeps(acc: Seq<(Seq<(usize, u8)>, int)>, left: Seq<(Seq<(usize, u8)>, int)>, right: Seq<(Seq<(usize, u8)>, int)>,
    t: Triangle, a: int, x: Seq<(usize, u8)>)
    requires
        0 <= a <= left.len(),
        rows_fold(Some(acc), left, right, t, a) is Some,
    ensures
        listed(acc, x) ==> listed(rows_fold(Some(acc), left, right, t, a)->Some_0, x),
        forall|i: int, j: int| 0 <= i < a && 0 <= j < right.len() && (#[trigger] left[i]).0.len() + (#[trigger] right[j]).0.len() <= usize::MAX
            && merged_signature(left[i].0, right[j].0, t) == Some(x) ==> listed(rows_fold(Some(acc), left, right, t, a)->Some_0, x),
    decreases a,
{
    if a > 0 {
        let prev = rows_fold(Some(acc), left, right, t, a - 1);
        if prev is None {
            lemma_pair_none_acc(left[a - 1], right, t, right.len() as int);
        }
        let o = prev->Some_0;
        lemma_rows_keeps(acc, left, right, t, a - 1, x);
        lemma_pair_keeps(o, left[a - 1], right, t, right.len() as int, x);
    }
}

proof fn lemma_mids_keeps(poly: Seq<usize>, forb: Set<Edge>, lo: int, hi: int, m1: int, m2: int, x: Seq<(usize, u8)>)
    requires
        m1 <= m2 <= hi,
        mids_fold(poly, forb, lo, hi, m2) is Some,
    ensures
        mids_fold(poly, forb, lo, hi, m1) is Some,
        listed(mids_fold(poly, forb, lo, hi, m1)->Some_0, x) ==> listed(mids_fold(poly, forb, lo, hi, m2)->Some_0, x),
    decreases m2 - m1,
{
    if mids_fold(poly, forb, lo, hi, m1) is None {
        lemma_mids_none(poly, forb, lo, hi, m1, m2);
    }
    if m1 < m2 {
        lemma_mids_keeps(poly, forb, lo, hi, m1, m2 - 1, x);
        if m2 > lo + 1 {
            let mid = m2 - 1;
            let acc = mids_fold(poly, forb, lo, hi, m2 - 1)->Some_0;
            let t = span_triangle(poly, lo, mid, hi);
            if span_usable(forb, t) {
                let left = interval_entries(poly, forb, lo, mid)->Some_0;
                let right = interval_entries(poly, forb, mid, hi)->Some_0;
                lemma_rows_keeps(acc, left, right, t, left.len() as int, x);
            }
        }
    }
}

proof fn lemma_corners_in_polygon(poly: Seq<usize>, lo: int, hi: int, tris: Seq<Triangle>)
    requires
        0 <= lo <= hi < poly.len(),
        triangulates(poly, lo, hi, tris),
    ensures
        forall|j: int, k: int| 0 <= j < tris.len() && 0 <= k < 3 ==> poly.contains(#[trigger] tris[j][k]),
    decreases hi - lo,
{
    if hi > lo + 1 {
        let (mid, tl, tr) = choose|mid: int, left: Seq<Triangle>, right: Seq<Triangle>| lo < mid < hi
            && tris == left + right + seq![[poly[lo], poly[mid], poly[hi]]]
            && triangulates(poly, lo, mid, left) && triangulates(poly, mid, hi, right);
        lemma_corners_in_polygon(poly, lo, mid, tl);
        lemma_corners_in_polygon(poly, mid, hi, tr);
        assert forall|j: int, k: int| 0 <= j < tris.len() && 0 <= k < 3 implies poly.contains(#[trigger] tris[j][k]) by {
            if j < tl.len() {
                assert(tris[j] == tl[j]);
            } else if j < tl.len() + tr.len() {
                assert(tris[j] == tr[j - tl.len()]);
            } else {
                assert(tris[j] == [poly[lo], poly[mid], poly[hi]]);
                assert(poly[lo] == poly[lo] && poly.contains(poly[lo]) && poly.contains(poly[mid]) && poly.contains(poly[hi]));
            }
        }
    }
}

proof fn lemma_incidence_corner(tris: Seq<Triangle>, v: usize)
    requires
        incidence_spec(tris, v) > 0,
    ensures
        exists|j: int, k: int| 0 <= j < tris.len() && 0 <= k < 3 && #[trigger] tris[j][k] == v,
    decreases tris.len(),
{
    let r = tris.drop_last();
    if incidence_spec(r, v) > 0 {
        lemma_incidence_corner(r, v);
        let (j, k) = choose|j: int, k: int| 0 <= j < r.len() && 0 <= k < 3 && #[trigger] r[j][k] == v;
        assert(tris[j] == r[j]);
    } else {
        let j = tris.len() - 1;
        if tris[j][0] == v {
            assert(tris[j][0] == v);
        } else if tris[j][1] == v {
            assert(tris[j][1] == v);
        } else {
            assert(tris[j][2] == v);
        }
    }
}

proof fn lemma_signature_short(poly: Seq<usize>, lo: int, hi: int, s: Seq<(usize, u8)>, tris: Seq<Triangle>)
    requires
        0 <= lo <= hi < poly.len(),
        triangulates(poly, lo, hi, tris),
        counts_corners(s, tris),
    ensures
        s.len() <= poly.len(),
{
    lemma_corners_in_polygon(poly, lo, hi, tris);
    let keys = s.map_values(|e: (usize, u8)| e.0);
    assert(keys.no_duplicates()) by {
        assert forall|x: int, y: int| 0 <= x < y < keys.len() implies keys[x] != keys[y] by {
            assert(s[x].0 < s[y].0);
        }
    }
    keys.unique_seq_to_set();
    assert(keys.to_set().subset_of(poly.to_set())) by {
        assert forall|v: usize| keys.to_set().contains(v) implies poly.to_set().contains(v) by {
            let i = choose|i: int| 0 <= i < keys.len() && keys[i] == v;
            lemma_sig_sum_sorted_hit(s, i);
            assert(incidence_spec(tris, v) > 0);
            lemma_incidence_corner(tris, v);
            let (j, k) = choose|j: int, k: int| 0 <= j < tris.len() && 0 <= k < 3 && #[trigger] tris[j][k] == v;
            assert(poly.contains(tris[j][k]));
        }
    }
    vstd::seq_lib::seq_to_set_is_finite(poly);
    vstd::set_lib::lemma_len_subset(keys.to_set(), poly.to_set());
    poly.lemma_cardinality_of_set();
}

proof fn lemma_allowed_usable(forb: Set<Edge>, t: Triangle)
    requires
        allowed_triangle(forb, t),
    ensures
        span_usable(forb, t),
{
    assert(crate::graph::tri_edges_spec(t)[0] == (if t[0] < t[1] { (t[0], t[1]) } else { (t[1], t[0]) }));
    assert(crate::graph::tri_edges_spec(t)[1] == (if t[1] < t[2] { (t[1], t[2]) } else { (t[2], t[1]) }));
    assert(crate::graph::tri_edges_spec(t)[2] == (if t[0] < t[2] { (t[0], t[2]) } else { (t[2], t[0]) }));
}

proof fn lemma_triangulation_size(poly: Seq<usize>, lo: int, hi: int, tris: Seq<Triangle>)
    requires
        lo <= hi,
        triangulates(poly, lo, hi, tris),
    ensures
        hi > lo ==> tris.len() == hi - lo - 1,
        hi == lo ==> tris.len() == 0,
    decreases hi - lo,
{
    if hi > lo + 1 {
        let (mid, tl, tr) = choose|mid: int, left: Seq<Triangle>, right: Seq<Triangle>| lo < mid < hi
            && tris == left + right + seq![[poly[lo], poly[mid], poly[hi]]]
            && triangulates(poly, lo, mid, left) && triangulates(poly, mid, hi, right);
        lemma_triangulation_size(poly, lo, mid, tl);
        lemma_triangulation_size(poly, mid, hi, tr);
    }
}

proof fn lemma_incidence_at_most_size(forb: Set<Edge>, tris: Seq<Triangle>, v: usize)
    requires
        forall|j: int| 0 <= j < tris.len() ==> allowed_triangle(forb, #[trigger] tris[j]),
    ensures
        incidence_spec(tris, v) <= tris.len(),
    decreases tris.len(),
{
    if tris.len() > 0 {
        let r = tris.drop_last();
        assert forall|j: int| 0 <= j < r.len() implies allowed_triangle(forb, #[trigger] r[j]) by {
            assert(r[j] == tris[j]);
        }
        lemma_incidence_at_most_size(forb, r, v);
        assert(allowed_triangle(forb, tris[tris.len() - 1]));
    }
}

proof fn lemma_entries_complete(poly: Seq<usize>, forb: Set<Edge>, lo: int, hi: int, tris: Seq<Triangle>)
    requires
        0 <= lo <= hi < poly.len(),
        poly.len() <= 255,
        interval_entries(poly, forb, lo, hi) is Some,
        triangulates(poly, lo, hi, tris),
        forall|j: int| 0 <= j < tris.len() ==> allowed_triangle(forb, #[trigger] tris[j]),
    ensures
        exists|x: Seq<(usize, u8)>| listed(interval_entries(poly, forb, lo, hi)->Some_0, x) && counts_corners(x, tris),
    decreases hi - lo,
{
    let entries = interval_entries(poly, forb, lo, hi)->Some_0;
    if hi <= lo + 1 {
        let x = Seq::<(usize, u8)>::empty();
        assert(entries[0].0 == x);
        assert(listed(entries, x));
        assert(counts_corners(x, tris));
    } else {
        let (mid, tl, tr) = choose|mid: int, left: Seq<Triangle>, right: Seq<Triangle>| lo < mid < hi
            && tris == left + right + seq![[poly[lo], poly[mid], poly[hi]]]
            && triangulates(poly, lo, mid, left) && triangulates(poly, mid, hi, right);
        let t = span_triangle(poly, lo, mid, hi);
        assert(tris[tris.len() - 1] == t);
        lemma_allowed_usable(forb, t);
        assert forall|j: int| 0 <= j < tl.len() implies allowed_triangle(forb, #[trigger] tl[j]) by {
            assert(tris[j] == tl[j]);
        }
        assert forall|j: int| 0 <= j < tr.len() implies allowed_triangle(forb, #[trigger] tr[j]) by {
            assert(tris[tl.len() + j] == tr[j]);
        }
        lemma_mids_keeps(poly, forb, lo, hi, mid + 1, hi, Seq::empty());
        let acc = mids_fold(poly, forb, lo, hi, mid)->Some_0;
        assert(mids_fold(poly, forb, lo, hi, mid) is Some);
        let left = interval_entries(poly, forb, lo, mid)->Some_0;
        let right = interval_entries(poly, forb, mid, hi)->Some_0;
        assert(interval_entries(poly, forb, lo, mid) is Some);
        assert(interval_entries(poly, forb, mid, hi) is Some);
        lemma_entries_complete(poly, forb, lo, mid, tl);
        lemma_entries_complete(poly, forb, mid, hi, tr);
        let l = choose|x: Seq<(usize, u8)>| listed(left, x) && counts_corners(x, tl);
        let r = choose|x: Seq<(usize, u8)>| listed(right, x) && counts_corners(x, tr);
        let i = choose|q: int| 0 <= q < left.len() && (#[trigger] left[q]).0 == l;
        let j = choose|q: int| 0 <= q < right.len() && (#[trigger] right[q]).0 == r;
        lemma_signature_short(poly, lo, mid, l, tl);
        lemma_signature_short(poly, mid, hi, r, tr);
        lemma_triangulation_size(poly, lo, hi, tris);
        assert forall|v: usize| #[trigger] combined_total(l, r, t, v) == incidence_spec(tris, v) by {
            lemma_incidence_concat(tl, tr, v);
            assert(tris.drop_last() =~= tl + tr);
        }
        assert(!exists|v: usize| #[trigger] combined_total(l, r, t, v) > 255) by {
            assert forall|v: usize| !(#[trigger] combined_total(l, r, t, v) > 255) by {
                lemma_incidence_at_most_size(forb, tris, v);
            }
        }
        lemma_merge_exists(l, r, t);
        let x = merged_signature(l, r, t)->Some_0;
        lemma_merge_counts(x, l, r, t);
        assert forall|v: usize| #[trigger] sig_sum(x, v) == incidence_spec(tris, v) by {
            assert(combined_total(l, r, t, v) == incidence_spec(tris, v));
        }
        assert(counts_corners(x, tris));
        lemma_rows_keeps(acc, left, right, t, left.len() as int, x);
        assert(listed(mids_fold(poly, forb, lo, hi, mid + 1)->Some_0, x));
        lemma_mids_keeps(poly, forb, lo, hi, mid + 1, hi, x);
        assert(listed(entries, x));
    }
}

/// Every triangulation of a polygon of at most 255 vertices whose triangles
/// have three different corners and no forbidden side has its corner count
/// among the incidence signatures.
pub proof fn every_allowed_triangulation_is_counted(polygon: Seq<usize>, forb: Set<Edge>,
    sigs: Seq<SectorDegreeSignature>, tris: Seq<Triangle>)
    requires
        1 <= polygon.len() <= 255,
        interval_entries(polygon, forb, 0, polygon.len() - 1) == Some(sig_entries(sigs)),
        triangulates(polygon, 0, polygon.len() - 1, tris),
        forall|j: int| 0 <= j < tris.len() ==> allowed_triangle(forb, #[trigger] tris[j]),
    ensures
        exists|k: int| 0 <= k < sigs.len() && counts_corners((#[trigger] sigs[k]).contributions@, tris),
{
    lemma_entries_complete(polygon, forb, 0, polygon.len() - 1, tris);
    let x = choose|x: Seq<(usize, u8)>| listed(sig_entries(sigs), x) && counts_corners(x, tris);
    let k = choose|q: int| 0 <= q < sig_entries(sigs).len() && (#[trigger] sig_entries(sigs)[q]).0 == x;
    assert(sigs[k].contributions@ == x);
}

} // verus!
