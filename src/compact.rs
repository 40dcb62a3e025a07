use vstd::prelude::*;

use std::collections::HashSet;

use crate::array::{all_some, non_null, CellIndexArray};
use crate::error::Error;
use crate::index::{
    all_at_resolution, all_cells, ancestor_free, maximal_in, minimal_cover, same_leaves_from, cell_parent, cells_compact, cells_uncompact, compact_of, covers,
    children_ok, is_ancestor, is_cell, leaves, lemma_covers_transitive, lemma_parent_resolution, parent_of,
    res_of, uncompacted, CellIndex, CompactionFailure, H3IndexArrayValue, Resolution,
};
use crate::list::valid_array_of;

verus! {

broadcast use vstd::std_specs::hash::group_hash_axioms;

/// The number of resolutions, and so of buckets.
pub const RESOLUTION_COUNT: usize = 16;

pub open spec fn strictly_sorted(s: Seq<u64>) -> bool {
    forall|i: int, j: int| 0 <= i < j < s.len() ==> s[i] < s[j]
}

/// Buckets by resolution: sixteen of them, bucket `r` holding cells of resolution `r` only.
pub open spec fn buckets_wf(b: Seq<Seq<u64>>) -> bool {
    &&& b.len() == RESOLUTION_COUNT
    &&& forall|r: int, i: int|
        0 <= r < RESOLUTION_COUNT && 0 <= i < b[r].len() ==> is_cell(#[trigger] b[r][i]) && res_of(
            b[r][i],
        ) == r
}

/// Every cell of buckets `0 .. r`.
pub open spec fn kept_union(k: Seq<Seq<u64>>, r: int) -> Set<u64>
    decreases r,
{
    if r <= 0 {
        Set::empty()
    } else {
        kept_union(k, r - 1).union(k[r - 1].to_set())
    }
}

/// Whether the cell or one of its ancestors is in `seen`.
pub open spec fn covered_by(c: u64, seen: Set<u64>) -> bool {
    exists|q: u8| q <= res_of(c) && #[trigger] seen.contains(parent_of(c, q))
}

/// `k` is `b` with every cell dropped that is covered by a cell kept in a coarser bucket.
pub open spec fn eliminated(b: Seq<Seq<u64>>, k: Seq<Seq<u64>>) -> bool {
    &&& k.len() == b.len()
    &&& forall|r: int|
        0 <= r < b.len() ==> #[trigger] k[r] == b[r].filter(|c: u64| !covered_by(c, kept_union(k, r)))
}

/// The descendants at `r` of the cells of buckets `0 .. n`, bucket by bucket.
pub open spec fn uncompacted_buckets(b: Seq<Seq<u64>>, r: u8, n: int) -> Seq<u64>
    decreases n,
{
    if n <= 0 {
        Seq::empty()
    } else {
        uncompacted_buckets(b, r, n - 1) + uncompacted(b[n - 1], r)
    }
}

/// The buckets `0 .. n` concatenated in order.
pub open spec fn concat_buckets(k: Seq<Seq<u64>>, n: int) -> Seq<u64>
    decreases n,
{
    if n <= 0 {
        Seq::empty()
    } else {
        concat_buckets(k, n - 1) + k[n - 1]
    }
}


proof fn lemma_kept_union_contains(k: Seq<Seq<u64>>, r: int, x: u64)
    requires
        0 <= r <= k.len(),
    ensures
        kept_union(k, r).contains(x) <==> exists|q: int| 0 <= q < r && (#[trigger] k[q]).contains(x),
    decreases r,
{
    if r > 0 {
        lemma_kept_union_contains(k, r - 1, x);
        if kept_union(k, r).contains(x) {
            if !kept_union(k, r - 1).contains(x) {
                assert(k[r - 1].to_set().contains(x));
                assert(k[r - 1].contains(x));
            }
        }
        if exists|q: int| 0 <= q < r && (#[trigger] k[q]).contains(x) {
            let q = choose|q: int| 0 <= q < r && (#[trigger] k[q]).contains(x);
            if q == r - 1 {
                assert(k[r - 1].to_set().contains(x));
            }
        }
    }
}

proof fn lemma_kept_union_prefix(k1: Seq<Seq<u64>>, k2: Seq<Seq<u64>>, r: int)
    requires
        0 <= r <= k1.len(),
        r <= k2.len(),
        forall|q: int| 0 <= q < r ==> k1[q] == k2[q],
    ensures
        kept_union(k1, r) == kept_union(k2, r),
    decreases r,
{
    if r > 0 {
        lemma_kept_union_prefix(k1, k2, r - 1);
    }
}

proof fn lemma_concat_contains(k: Seq<Seq<u64>>, n: int, x: u64)
    requires
        0 <= n <= k.len(),
    ensures
        concat_buckets(k, n).contains(x) <==> exists|q: int| 0 <= q < n && (#[trigger] k[q]).contains(x),
    decreases n,
{
    if n > 0 {
        lemma_concat_contains(k, n - 1, x);
        let a = concat_buckets(k, n - 1);
        let s = concat_buckets(k, n);
        if s.contains(x) {
            let i = choose|i: int| 0 <= i < s.len() && s[i] == x;
            if i >= a.len() {
                assert(k[n - 1][i - a.len()] == x);
            } else {
                assert(a[i] == x);
            }
        }
        if exists|q: int| 0 <= q < n && (#[trigger] k[q]).contains(x) {
            let q = choose|q: int| 0 <= q < n && (#[trigger] k[q]).contains(x);
            if q == n - 1 {
                let j = choose|j: int| 0 <= j < k[q].len() && k[q][j] == x;
                assert(s[a.len() + j] == x);
            } else {
                let j = choose|j: int| 0 <= j < a.len() && a[j] == x;
                assert(s[j] == x);
            }
        }
    }
}

proof fn lemma_filter_no_dup(s: Seq<u64>, p: spec_fn(u64) -> bool)
    requires
        s.no_duplicates(),
    ensures
        s.filter(p).no_duplicates(),
    decreases s.len(),
{
    reveal(Seq::filter);
    if s.len() > 0 {
        let d = s.drop_last();
        assert(d.no_duplicates());
        lemma_filter_no_dup(d, p);
        if p(s.last()) {
            let f = d.filter(p);
            if f.contains(s.last()) {
                d.lemma_filter_contains_rev(p, s.last());
                let j = choose|j: int| 0 <= j < d.len() && d[j] == s.last();
                assert(s[j] == s[s.len() - 1]);
            }
            assert(f.push(s.last()).no_duplicates()) by {
                assert forall|i: int, j: int| 0 <= i < j < f.len() + 1 implies f.push(s.last())[i] != f.push(
                    s.last(),
                )[j] by {
                    if j == f.len() {
                        assert(f.contains(f[i]));
                    }
                }
            }
        }
    }
}

pub(crate) proof fn lemma_push_contains(s: Seq<u64>, x: u64, y: u64)
    ensures
        s.push(x).contains(y) <==> (s.contains(y) || y == x),
{
    if s.push(x).contains(y) {
        let i = choose|i: int| 0 <= i < s.len() + 1 && #[trigger] s.push(x)[i] == y;
        if i < s.len() {
            assert(s[i] == y);
        }
    }
    if s.contains(y) {
        let i = choose|i: int| 0 <= i < s.len() && #[trigger] s[i] == y;
        assert(s.push(x)[i] == y);
    }
    if y == x {
        assert(s.push(x)[s.len() as int] == y);
    }
}

/// The concatenation of buckets that each hold distinct cells of their own resolution has
/// no duplicates.
proof fn lemma_concat_no_dup(k: Seq<Seq<u64>>, n: int)
    requires
        buckets_wf(k),
        0 <= n <= RESOLUTION_COUNT,
        forall|q: int| 0 <= q < RESOLUTION_COUNT ==> (#[trigger] k[q]).no_duplicates(),
    ensures
        concat_buckets(k, n).no_duplicates(),
        forall|i: int| 0 <= i < concat_buckets(k, n).len() ==> res_of(#[trigger] concat_buckets(k, n)[i]) < n,
        all_cells(concat_buckets(k, n)),
    decreases n,
{
    if n > 0 {
        lemma_concat_no_dup(k, n - 1);
        let a = concat_buckets(k, n - 1);
        let b = k[n - 1];
        let s = concat_buckets(k, n);
        assert(s == a + b);
        assert forall|i: int| 0 <= i < s.len() implies res_of(#[trigger] s[i]) < n && is_cell(s[i]) by {
            if i >= a.len() {
                assert(s[i] == b[i - a.len()]);
            }
        }
        assert forall|i: int, j: int| 0 <= i < j < s.len() implies s[i] != s[j] by {
            if j >= a.len() {
                assert(s[j] == b[j - a.len()]);
                if i >= a.len() {
                    assert(s[i] == b[i - a.len()]);
                } else {
                    assert(res_of(s[i]) < n - 1);
                }
            }
        }
    }
}

/// No kept cell has a strict ancestor among the kept cells.
proof fn lemma_eliminated_ancestor_free(b: Seq<Seq<u64>>, k: Seq<Seq<u64>>)
    requires
        buckets_wf(b),
        eliminated(b, k),
    ensures
        buckets_wf(k),
        ancestor_free(concat_buckets(k, RESOLUTION_COUNT as int)),
{
    assert forall|r: int, i: int| 0 <= r < RESOLUTION_COUNT && 0 <= i < k[r].len() implies is_cell(
        #[trigger] k[r][i],
    ) && res_of(k[r][i]) == r by {
        let p = |c: u64| !covered_by(c, kept_union(k, r));
        assert(k[r] == b[r].filter(p));
        b[r].lemma_filter_contains_rev(p, k[r][i]);
        assert(k[r].contains(k[r][i]));
    }
    let s = concat_buckets(k, RESOLUTION_COUNT as int);
    assert forall|i: int, j: int| 0 <= i < s.len() && 0 <= j < s.len() implies !is_ancestor(
        #[trigger] s[i],
        #[trigger] s[j],
    ) by {
        let a = s[i];
        let c = s[j];
        assert(s.contains(a));
        assert(s.contains(c));
        lemma_concat_contains(k, RESOLUTION_COUNT as int, a);
        lemma_concat_contains(k, RESOLUTION_COUNT as int, c);
        let qa = choose|q: int| 0 <= q < RESOLUTION_COUNT && (#[trigger] k[q]).contains(a);
        let qc = choose|q: int| 0 <= q < RESOLUTION_COUNT && (#[trigger] k[q]).contains(c);
        let ia = choose|x: int| 0 <= x < k[qa].len() && k[qa][x] == a;
        let ic = choose|x: int| 0 <= x < k[qc].len() && k[qc][x] == c;
        assert(res_of(k[qa][ia]) == qa);
        assert(res_of(k[qc][ic]) == qc);
        if is_ancestor(a, c) {
            lemma_kept_union_contains(k, qc, a);
            assert(kept_union(k, qc).contains(parent_of(c, res_of(a))));
            assert(covered_by(c, kept_union(k, qc)));
            let p = |x: u64| !covered_by(x, kept_union(k, qc));
            assert(k[qc] == b[qc].filter(p));
            b[qc].lemma_filter_pred(p, ic);
        }
    }
}

/// Whether some bucket holds `x`.
pub open spec fn in_buckets(b: Seq<Seq<u64>>, x: u64) -> bool {
    exists|q: int| 0 <= q < b.len() && (#[trigger] b[q]).contains(x)
}

/// Whether a cell of `b` covers `c`.
#[verifier::opaque]
pub open spec fn covered_in(b: Seq<Seq<u64>>, c: u64) -> bool {
    exists|x: u64| in_buckets(b, x) && covers(x, c)
}

/// Whether `x` covers a cell of `a`.
#[verifier::opaque]
pub open spec fn derived_in(a: Seq<Seq<u64>>, x: u64) -> bool {
    exists|c: u64| in_buckets(a, c) && covers(x, c)
}

/// Every cell of `a` is covered by a cell of `b`, and every cell of `b` covers a cell of `a`.
pub open spec fn refines(a: Seq<Seq<u64>>, b: Seq<Seq<u64>>) -> bool {
    &&& forall|c: u64| #[trigger] in_buckets(a, c) ==> covered_in(b, c)
    &&& forall|x: u64| #[trigger] in_buckets(b, x) ==> derived_in(a, x)
}

proof fn lemma_covered_in(b: Seq<Seq<u64>>, x: u64, c: u64)
    requires
        in_buckets(b, x),
        covers(x, c),
    ensures
        covered_in(b, c),
{
    reveal(covered_in);
}

proof fn lemma_derived_in(a: Seq<Seq<u64>>, x: u64, c: u64)
    requires
        in_buckets(a, c),
        covers(x, c),
    ensures
        derived_in(a, x),
{
    reveal(derived_in);
}

proof fn lemma_refines_trans(a: Seq<Seq<u64>>, b: Seq<Seq<u64>>, c: Seq<Seq<u64>>)
    requires
        refines(a, b),
        refines(b, c),
    ensures
        refines(a, c),
{
    assert forall|x: u64| #[trigger] in_buckets(a, x) implies covered_in(c, x) by {
        assert(covered_in(b, x));
        reveal(covered_in);
        let y = choose|y: u64| in_buckets(b, y) && covers(y, x);
        assert(covered_in(c, y));
        let z = choose|z: u64| in_buckets(c, z) && covers(z, y);
        lemma_covers_transitive(z, y, x);
    }
    assert forall|z: u64| #[trigger] in_buckets(c, z) implies derived_in(a, z) by {
        assert(derived_in(b, z));
        reveal(derived_in);
        let y = choose|y: u64| in_buckets(b, y) && covers(z, y);
        assert(derived_in(a, y));
        let x = choose|x: u64| in_buckets(a, x) && covers(y, x);
        lemma_covers_transitive(z, y, x);
    }
}

proof fn lemma_same_contents_refines(a: Seq<Seq<u64>>, b: Seq<Seq<u64>>)
    requires
        a.len() == b.len(),
        forall|q: int, x: u64| 0 <= q < a.len() ==> (#[trigger] b[q].contains(x) <==> a[q].contains(x)),
    ensures
        refines(a, b),
{
    assert forall|c: u64| #[trigger] in_buckets(a, c) implies covered_in(b, c) by {
        let q = choose|q: int| 0 <= q < a.len() && (#[trigger] a[q]).contains(c);
        assert(b[q].contains(c));
        lemma_covered_in(b, c, c);
    }
    assert forall|x: u64| #[trigger] in_buckets(b, x) implies derived_in(a, x) by {
        let q = choose|q: int| 0 <= q < b.len() && (#[trigger] b[q]).contains(x);
        assert(a[q].contains(x));
        lemma_derived_in(a, x, x);
    }
}

/// Dropping covered cells keeps the covered ground: what is dropped has a kept ancestor.
proof fn lemma_eliminated_refines(b: Seq<Seq<u64>>, k: Seq<Seq<u64>>)
    requires
        buckets_wf(b),
        eliminated(b, k),
    ensures
        refines(b, k),
{
    lemma_eliminated_ancestor_free(b, k);
    assert forall|x: u64| #[trigger] in_buckets(k, x) implies derived_in(b, x) by {
        let q = choose|q: int| 0 <= q < k.len() && (#[trigger] k[q]).contains(x);
        let p = |c: u64| !covered_by(c, kept_union(k, q));
        assert(k[q] == b[q].filter(p));
        b[q].lemma_filter_contains_rev(p, x);
        lemma_derived_in(b, x, x);
    }
    assert forall|c: u64| #[trigger] in_buckets(b, c) implies covered_in(k, c) by {
        let q = choose|q: int| 0 <= q < b.len() && (#[trigger] b[q]).contains(c);
        let p = |y: u64| !covered_by(y, kept_union(k, q));
        assert(k[q] == b[q].filter(p));
        let i = choose|i: int| 0 <= i < b[q].len() && b[q][i] == c;
        assert(res_of(b[q][i]) == q);
        if p(c) {
            b[q].lemma_filter_contains(p, i);
            assert(k[q].contains(c));
            lemma_covered_in(k, c, c);
        } else {
            let r = choose|r: u8| r <= res_of(c) && #[trigger] kept_union(k, q).contains(parent_of(c, r));
            let x = parent_of(c, r);
            lemma_kept_union_contains(k, q, x);
            let q2 = choose|q2: int| 0 <= q2 < q && (#[trigger] k[q2]).contains(x);
            let j = choose|j: int| 0 <= j < k[q2].len() && k[q2][j] == x;
            assert(res_of(k[q2][j]) == q2);
            lemma_parent_resolution(c, r);
            assert(is_ancestor(x, c));
            lemma_covered_in(k, x, c);
        }
    }
}

proof fn lemma_insert_in_buckets(b: Seq<Seq<u64>>, q: int, cell: u64, x: u64)
    requires
        0 <= q < b.len(),
    ensures
        in_buckets(b.update(q, b[q].push(cell)), x) <==> (in_buckets(b, x) || x == cell),
{
    let n = b.update(q, b[q].push(cell));
    crate::compact::lemma_push_contains(b[q], cell, x);
    if in_buckets(n, x) {
        let t = choose|t: int| 0 <= t < n.len() && (#[trigger] n[t]).contains(x);
        if t != q {
            assert(b[t].contains(x));
        }
    }
    if in_buckets(b, x) {
        let t = choose|t: int| 0 <= t < b.len() && (#[trigger] b[t]).contains(x);
        if t != q {
            assert(n[t].contains(x));
        } else {
            assert(n[q].contains(x));
        }
    }
    if x == cell {
        assert(n[q].contains(x));
    }
}

proof fn lemma_filter_sorted(s: Seq<u64>, p: spec_fn(u64) -> bool)
    requires
        strictly_sorted(s),
    ensures
        strictly_sorted(s.filter(p)),
    decreases s.len(),
{
    reveal(Seq::filter);
    if s.len() > 0 {
        let d = s.drop_last();
        lemma_filter_sorted(d, p);
        if p(s.last()) {
            let f = d.filter(p);
            assert forall|i: int, j: int| 0 <= i < j < f.len() + 1 implies f.push(s.last())[i] < f.push(s.last())[j] by {
                if j == f.len() {
                    assert(f.contains(f[i]));
                    d.lemma_filter_contains_rev(p, f[i]);
                    let t = choose|t: int| 0 <= t < d.len() && d[t] == f[i];
                    assert(s[t] == d[t]);
                }
            }
        }
    }
}

/// Whether some cell of the buckets is a strict ancestor of `x`.
pub open spec fn has_strict_ancestor(b: Seq<Seq<u64>>, x: u64) -> bool {
    exists|y: u64| in_buckets(b, y) && #[trigger] is_ancestor(y, x)
}

/// Dropping covered cells drops exactly the cells that have a strict ancestor present.
proof fn lemma_eliminated_exact(b: Seq<Seq<u64>>, k: Seq<Seq<u64>>, q: int, x: u64)
    requires
        buckets_wf(b),
        eliminated(b, k),
        0 <= q < RESOLUTION_COUNT,
    ensures
        k[q].contains(x) <==> (b[q].contains(x) && !has_strict_ancestor(b, x)),
{
    lemma_eliminated_refines(b, k);
    lemma_eliminated_ancestor_free(b, k);
    let p = |c: u64| !covered_by(c, kept_union(k, q));
    assert(k[q] == b[q].filter(p));
    if k[q].contains(x) {
        b[q].lemma_filter_contains_rev(p, x);
        let i = choose|i: int| 0 <= i < k[q].len() && k[q][i] == x;
        assert(res_of(k[q][i]) == q);
        if has_strict_ancestor(b, x) {
            let y = choose|y: u64| in_buckets(b, y) && #[trigger] is_ancestor(y, x);
            assert(covered_in(k, y));
            reveal(covered_in);
            let z = choose|z: u64| in_buckets(k, z) && covers(z, y);
            lemma_covers_transitive(z, y, x);
            let qz = choose|qz: int| 0 <= qz < k.len() && (#[trigger] k[qz]).contains(z);
            let iz = choose|iz: int| 0 <= iz < k[qz].len() && k[qz][iz] == z;
            assert(res_of(k[qz][iz]) == qz);
            lemma_kept_union_contains(k, q, z);
            assert(kept_union(k, q).contains(parent_of(x, res_of(z))));
            assert(covered_by(x, kept_union(k, q)));
        }
    }
    if b[q].contains(x) && !has_strict_ancestor(b, x) {
        let i = choose|i: int| 0 <= i < b[q].len() && b[q][i] == x;
        assert(res_of(b[q][i]) == q);
        if !p(x) {
            let r = choose|r: u8| r <= res_of(x) && #[trigger] kept_union(k, q).contains(parent_of(x, r));
            let y = parent_of(x, r);
            lemma_kept_union_contains(k, q, y);
            let q2 = choose|q2: int| 0 <= q2 < q && (#[trigger] k[q2]).contains(y);
            let j = choose|j: int| 0 <= j < k[q2].len() && k[q2][j] == y;
            assert(res_of(k[q2][j]) == q2);
            lemma_parent_resolution(x, r);
            assert(is_ancestor(y, x));
            let p2 = |c: u64| !covered_by(c, kept_union(k, q2));
            assert(k[q2] == b[q2].filter(p2));
            assert(k[q2].contains(y));
            b[q2].lemma_filter_contains_rev(p2, y);
            assert(b[q2].contains(y));
            assert(in_buckets(b, y));
        }
        b[q].lemma_filter_contains(p, i);
    }
}

/// The cells at resolution `q` that a cell of some bucket covers.
pub open spec fn bucket_leaves(b: Seq<Seq<u64>>, q: u8) -> Set<u64> {
    Set::new(|x: u64| is_cell(x) && res_of(x) == q && exists|y: u64| in_buckets(b, y) && #[trigger] covers(y, x))
}

/// Whether every cell of the buckets has resolution at most `m`.
pub open spec fn buckets_at_most(b: Seq<Seq<u64>>, m: u8) -> bool {
    forall|y: u64| #[trigger] in_buckets(b, y) ==> res_of(y) <= m
}

/// A refinement that only drops cells covers the same leaves.
proof fn lemma_subset_refines_leaves(a: Seq<Seq<u64>>, b: Seq<Seq<u64>>, q: u8)
    requires
        refines(a, b),
        forall|y: u64| #[trigger] in_buckets(b, y) ==> in_buckets(a, y),
    ensures
        bucket_leaves(a, q) == bucket_leaves(b, q),
{
    assert forall|x: u64| bucket_leaves(a, q).contains(x) implies bucket_leaves(b, q).contains(x) by {
        let y = choose|y: u64| in_buckets(a, y) && #[trigger] covers(y, x);
        assert(covered_in(b, y));
        reveal(covered_in);
        let z = choose|z: u64| in_buckets(b, z) && covers(z, y);
        lemma_covers_transitive(z, y, x);
    }
    assert forall|x: u64| bucket_leaves(b, q).contains(x) implies bucket_leaves(a, q).contains(x) by {
        let y = choose|y: u64| in_buckets(b, y) && #[trigger] covers(y, x);
        assert(in_buckets(a, y));
    }
    assert(bucket_leaves(a, q) =~= bucket_leaves(b, q));
}

/// `b` has no cell finer than `m`, and covers the same cells as `a` at `m` and finer.
pub open spec fn leaves_kept_from(a: Seq<Seq<u64>>, b: Seq<Seq<u64>>, m: u8) -> bool {
    &&& buckets_at_most(b, m)
    &&& forall|q: u8| m <= q <= 15 ==> #[trigger] bucket_leaves(b, q) == bucket_leaves(a, q)
}

/// At every `m` no finer than any cell of `a`: `b` has no cell finer than `m` and covers the
/// same cells as `a` at `m` and finer.
#[verifier::opaque]
pub open spec fn keeps_leaves(a: Seq<Seq<u64>>, b: Seq<Seq<u64>>) -> bool {
    forall|m: u8| #[trigger] buckets_at_most(a, m) ==> leaves_kept_from(a, b, m)
}

proof fn lemma_keeps_leaves_refl(a: Seq<Seq<u64>>)
    ensures
        keeps_leaves(a, a),
{
    reveal(keeps_leaves);
}

proof fn lemma_keeps_leaves_trans(a: Seq<Seq<u64>>, b: Seq<Seq<u64>>, c: Seq<Seq<u64>>)
    requires
        keeps_leaves(a, b),
        keeps_leaves(b, c),
    ensures
        keeps_leaves(a, c),
{
    reveal(keeps_leaves);
    assert forall|m: u8| #[trigger] buckets_at_most(a, m) implies leaves_kept_from(a, c, m) by {
        assert(leaves_kept_from(a, b, m));
        assert(buckets_at_most(b, m));
        assert(leaves_kept_from(b, c, m));
        assert forall|q: u8| m <= q <= 15 implies #[trigger] bucket_leaves(c, q) == bucket_leaves(a, q) by {
            assert(bucket_leaves(c, q) == bucket_leaves(b, q));
        }
    }
}

/// Replacing the bucket of resolution `res` by its compaction keeps the covered cells at
/// `res` and finer, and makes no cell finer.
proof fn lemma_promotion_step(
    a: Seq<Seq<u64>>,
    before: Seq<Seq<u64>>,
    cur: Seq<Seq<u64>>,
    cells: Seq<u64>,
    out: Seq<u64>,
    res: int,
    m: u8,
)
    requires
        buckets_wf(before),
        0 <= res < RESOLUTION_COUNT,
        leaves_kept_from(a, before, m),
        forall|x: u64| cells.contains(x) <==> before[res].contains(x),
        forall|i: int| 0 <= i < cells.len() ==> res_of(#[trigger] cells[i]) == res,
        cells.len() > 0 ==> same_leaves_from(cells, out, res as u8),
        within_input(cells, out),
        forall|y: u64| #[trigger] in_buckets(cur, y) <==> (in_buckets(before.update(res, Seq::<u64>::empty()), y) || out.contains(y)),
    ensures
        leaves_kept_from(a, cur, m),
{
    let b0 = before.update(res, Seq::<u64>::empty());
    reveal(same_leaves_from);
    assert forall|y: u64| in_buckets(b0, y) implies in_buckets(before, y) by {
        let q = choose|q: int| 0 <= q < b0.len() && (#[trigger] b0[q]).contains(y);
        assert(before[q].contains(y));
    }
    assert forall|y: u64| #[trigger] in_buckets(cur, y) implies res_of(y) <= m by {
        if !in_buckets(b0, y) {
            let j = choose|j: int| 0 <= j < out.len() && out[j] == y;
            assert(has_origin(cells, out[j]));
            let i = choose|i: int| 0 <= i < cells.len() && covers(out[j], #[trigger] cells[i]);
            assert(cells.contains(cells[i]));
            assert(before[res].contains(cells[i]));
            assert(in_buckets(before, cells[i]));
        }
    }
    if cells.len() == 0 {
        assert(out.len() == 0) by {
            if out.len() > 0 {
                assert(has_origin(cells, out[0]));
            }
        }
        assert forall|y: u64| in_buckets(before, y) implies in_buckets(b0, y) by {
            let q = choose|q: int| 0 <= q < before.len() && (#[trigger] before[q]).contains(y);
            if q == res {
                assert(cells.contains(y));
            }
            assert(b0[q].contains(y));
        }
        assert forall|q: u8| m <= q <= 15 implies #[trigger] bucket_leaves(cur, q) == bucket_leaves(a, q) by {
            assert(bucket_leaves(cur, q) =~= bucket_leaves(before, q));
        }
    } else {
        assert(cells.contains(cells[0]));
        assert(before[res].contains(cells[0]));
        assert(in_buckets(before, cells[0]));
        assert(res <= m);
        assert forall|q: u8| m <= q <= 15 implies #[trigger] bucket_leaves(cur, q) == bucket_leaves(a, q) by {
            assert(leaves(out, q) == leaves(cells, q));
            assert forall|x: u64| bucket_leaves(cur, q).contains(x) implies bucket_leaves(before, q).contains(x) by {
                let y = choose|y: u64| in_buckets(cur, y) && #[trigger] covers(y, x);
                if !in_buckets(b0, y) {
                    let j = choose|j: int| 0 <= j < out.len() && out[j] == y;
                    assert(leaves(out, q).contains(x));
                    let i = choose|i: int| 0 <= i < cells.len() && covers(#[trigger] cells[i], x);
                    assert(cells.contains(cells[i]));
                    assert(before[res].contains(cells[i]));
                    assert(in_buckets(before, cells[i]));
                }
            }
            assert forall|x: u64| bucket_leaves(before, q).contains(x) implies bucket_leaves(cur, q).contains(x) by {
                let y = choose|y: u64| in_buckets(before, y) && #[trigger] covers(y, x);
                let qy = choose|qy: int| 0 <= qy < before.len() && (#[trigger] before[qy]).contains(y);
                if qy == res {
                    assert(cells.contains(y));
                    let i = choose|i: int| 0 <= i < cells.len() && cells[i] == y;
                    assert(leaves(cells, q).contains(x));
                    let j = choose|j: int| 0 <= j < out.len() && covers(#[trigger] out[j], x);
                    assert(out.contains(out[j]));
                    assert(in_buckets(cur, out[j]));
                } else {
                    assert(b0[qy].contains(y));
                    assert(in_buckets(b0, y));
                }
            }
            assert(bucket_leaves(cur, q) =~= bucket_leaves(before, q));
        }
    }
}

/// After the bucket of resolution `res` is replaced by its compaction, the buckets still
/// refine the starting ones and cover the same cells at every fine enough resolution.
proof fn lemma_after_promotion(
    a: Seq<Seq<u64>>,
    before: Seq<Seq<u64>>,
    cur: Seq<Seq<u64>>,
    cells: Seq<u64>,
    out: Seq<u64>,
    res: int,
)
    requires
        buckets_wf(before),
        0 <= res < RESOLUTION_COUNT,
        refines(a, before),
        keeps_leaves(a, before),
        forall|x: u64| #[trigger] in_buckets(before.update(res, Seq::<u64>::empty()), x) ==> in_buckets(cur, x),
        forall|x: u64| #[trigger] in_buckets(cur, x) ==> in_buckets(before.update(res, Seq::<u64>::empty()), x) || out.contains(x),
        forall|j: int| 0 <= j < out.len() ==> in_buckets(cur, #[trigger] out[j]),
        forall|x: u64| cells.contains(x) <==> before[res].contains(x),
        forall|i: int| 0 <= i < cells.len() ==> res_of(#[trigger] cells[i]) == res,
        cells.len() > 0 ==> same_leaves_from(cells, out, res_of(cells[0])),
        within_input(cells, out),
        covers_input(cells, out),
    ensures
        refines(a, cur),
        keeps_leaves(a, cur),
{
    reveal(keeps_leaves);
    let b0 = before.update(res, Seq::<u64>::empty());
    assert forall|c: u64| #[trigger] in_buckets(before, c) implies covered_in(cur, c) by {
        let q = choose|q: int| 0 <= q < before.len() && (#[trigger] before[q]).contains(c);
        if q != res {
            assert(b0[q].contains(c));
            assert(in_buckets(b0, c));
            lemma_covered_in(cur, c, c);
        } else {
            assert(cells.contains(c));
            let t = choose|t: int| 0 <= t < cells.len() && cells[t] == c;
            assert(has_cover(out, cells[t]));
            let j = choose|j: int| 0 <= j < out.len() && covers(#[trigger] out[j], cells[t]);
            assert(in_buckets(cur, out[j]));
            lemma_covered_in(cur, out[j], c);
        }
    }
    assert forall|x: u64| #[trigger] in_buckets(cur, x) implies derived_in(before, x) by {
        if in_buckets(b0, x) {
            let q = choose|q: int| 0 <= q < b0.len() && (#[trigger] b0[q]).contains(x);
            assert(before[q].contains(x));
            assert(in_buckets(before, x));
            lemma_derived_in(before, x, x);
        } else {
            assert(out.contains(x));
            let j = choose|j: int| 0 <= j < out.len() && out[j] == x;
            assert(has_origin(cells, out[j]));
            let t = choose|t: int| 0 <= t < cells.len() && covers(out[j], #[trigger] cells[t]);
            assert(cells.contains(cells[t]));
            assert(before[res].contains(cells[t]));
            assert(in_buckets(before, cells[t]));
            lemma_derived_in(before, x, cells[t]);
        }
    }
    lemma_refines_trans(a, before, cur);
    assert forall|y: u64| #[trigger] in_buckets(cur, y) <==> (in_buckets(b0, y) || out.contains(y)) by {
        if out.contains(y) {
            let j = choose|j: int| 0 <= j < out.len() && out[j] == y;
        }
    }
    if cells.len() > 0 {
        assert(res_of(cells[0]) == res);
    }
    assert forall|m: u8| #[trigger] buckets_at_most(a, m) implies leaves_kept_from(a, cur, m) by {
        lemma_promotion_step(a, before, cur, cells, out, res, m);
    }
}

/// Whether no cell of `s` has resolution `q`.
#[verifier::opaque]
pub open spec fn no_cell_at(s: Seq<u64>, q: int) -> bool {
    forall|j: int| 0 <= j < s.len() ==> res_of(#[trigger] s[j]) != q
}

/// Whether every cell at resolution `q` that `p` covers is in `s`.
pub open spec fn all_children_in(p: u64, q: u8, s: Set<u64>) -> bool {
    leaves(seq![p], q).subset_of(s)
}

/// No cell of `b`, the bucket of resolution `q`, has all of its siblings in `b`.
pub open spec fn no_full_siblings(b: Seq<u64>, q: u8) -> bool {
    q > 0 ==> forall|i: int| 0 <= i < b.len() ==> !all_children_in(parent_of(#[trigger] b[i], (q - 1) as u8), q, b.to_set())
}

/// After a level is compacted, its bucket holds the unmerged cells only, and none of them
/// has all its siblings beside it.
proof fn lemma_level_no_full_siblings(b0: Seq<Seq<u64>>, cur: Seq<Seq<u64>>, cells: Seq<u64>, out: Seq<u64>, res: int)
    requires
        0 <= res < RESOLUTION_COUNT,
        buckets_wf(b0),
        buckets_wf(cur),
        b0[res] == Seq::<u64>::empty(),
        forall|x: u64| #[trigger] in_buckets(cur, x) ==> in_buckets(b0, x) || out.contains(x),
        forall|i: int| 0 <= i < cells.len() ==> res_of(#[trigger] cells[i]) == res,
        within_input(cells, out),
        cells.len() > 0 ==> minimal_cover(cells, out, res_of(cells[0])),
    ensures
        no_full_siblings(cur[res], res as u8),
{
    reveal(minimal_cover);
    let b = cur[res];
    assert forall|x: u64| b.contains(x) implies cells.contains(x) && out.contains(x) by {
        let i = choose|i: int| 0 <= i < b.len() && b[i] == x;
        assert(res_of(b[i]) == res);
        assert(in_buckets(cur, x));
        if in_buckets(b0, x) {
            let q = choose|q: int| 0 <= q < b0.len() && (#[trigger] b0[q]).contains(x);
            let t = choose|t: int| 0 <= t < b0[q].len() && b0[q][t] == x;
            assert(res_of(b0[q][t]) == q);
        }
        let j = choose|j: int| 0 <= j < out.len() && out[j] == x;
        assert(has_origin(cells, out[j]));
        let t = choose|t: int| 0 <= t < cells.len() && covers(out[j], #[trigger] cells[t]);
        assert(res_of(cells[t]) == res);
    }
    if res > 0 {
        assert forall|i: int| 0 <= i < b.len() implies !all_children_in(parent_of(#[trigger] b[i], (res - 1) as u8), res as u8, b.to_set()) by {
            let o = b[i];
            assert(b.contains(o));
            assert(out.contains(o));
            let j = choose|j: int| 0 <= j < out.len() && out[j] == o;
            assert(cells.len() > 0);
            assert(res_of(cells[0]) == res);
            assert(maximal_in(out[j], cells, res as u8));
            assert(res_of(o) == res) by {
                assert(res_of(b[i]) == res);
            }
            let pp = parent_of(o, (res - 1) as u8);
            if all_children_in(pp, res as u8, b.to_set()) {
                assert forall|x: u64| #[trigger] leaves(seq![pp], res as u8).contains(x) implies leaves(cells, res as u8).contains(x) by {
                    assert(b.to_set().contains(x));
                    assert(b.contains(x));
                    assert(cells.contains(x));
                    let t = choose|t: int| 0 <= t < cells.len() && cells[t] == x;
                    assert(covers(cells[t], x));
                }
                assert(crate::index::fully_covered(pp, cells, res as u8));
            }
        }
    }
}

/// What compacting one level achieves: the buckets refine the previous ones, cover the same
/// cells at fine enough resolutions, leave no full group of siblings at that level, and do
/// not change finer levels.
proof fn lemma_level_done(before: Seq<Seq<u64>>, b0: Seq<Seq<u64>>, cur: Seq<Seq<u64>>, cells: Seq<u64>, out: Seq<u64>, res: int)
    requires
        0 <= res < RESOLUTION_COUNT,
        buckets_wf(before),
        buckets_wf(cur),
        b0 == before.update(res, Seq::<u64>::empty()),
        forall|x: u64| #[trigger] in_buckets(b0, x) ==> in_buckets(cur, x),
        forall|x: u64| #[trigger] in_buckets(cur, x) ==> in_buckets(b0, x) || out.contains(x),
        forall|j: int| 0 <= j < out.len() ==> in_buckets(cur, #[trigger] out[j]),
        forall|q: int| 0 <= q < RESOLUTION_COUNT && #[trigger] no_cell_at(out, q) ==> cur[q] == b0[q],
        forall|x: u64| cells.contains(x) <==> before[res].contains(x),
        forall|i: int| 0 <= i < cells.len() ==> res_of(#[trigger] cells[i]) == res,
        cells.len() > 0 ==> same_leaves_from(cells, out, res_of(cells[0])),
        cells.len() > 0 ==> minimal_cover(cells, out, res_of(cells[0])),
        within_input(cells, out),
        covers_input(cells, out),
    ensures
        refines(before, cur),
        keeps_leaves(before, cur),
        no_full_siblings(cur[res], res as u8),
        forall|q: int| res < q < RESOLUTION_COUNT ==> #[trigger] cur[q] == before[q],
{
    assert(buckets_wf(b0)) by {
        assert forall|r: int, i: int| 0 <= r < RESOLUTION_COUNT && 0 <= i < b0[r].len() implies is_cell(#[trigger] b0[r][i]) && res_of(b0[r][i]) == r by {
            assert(b0[r][i] == before[r][i]);
        }
    }
    lemma_same_contents_refines(before, before);
    lemma_keeps_leaves_refl(before);
    lemma_after_promotion(before, before, cur, cells, out, res);
    lemma_level_no_full_siblings(b0, cur, cells, out, res);
    assert forall|q: int| res < q < RESOLUTION_COUNT implies #[trigger] cur[q] == before[q] by {
        reveal(no_cell_at);
        assert forall|j: int| 0 <= j < out.len() implies res_of(#[trigger] out[j]) != q by {
            assert(has_origin(cells, out[j]));
            let t = choose|t: int| 0 <= t < cells.len() && covers(out[j], #[trigger] cells[t]);
            assert(res_of(cells[t]) == res);
        }
        assert(no_cell_at(out, q));
    }
}

/// Whether some resolution from `q` on is marked as modified.
pub open spec fn touched(modified: Seq<bool>, q: int) -> bool {
    exists|t: int| q <= t < modified.len() && #[trigger] modified[t]
}

proof fn lemma_no_full_siblings_subset(a: Seq<u64>, b: Seq<u64>, q: u8)
    requires
        no_full_siblings(a, q),
        forall|x: u64| b.contains(x) ==> a.contains(x),
    ensures
        no_full_siblings(b, q),
{
    if q > 0 {
        assert forall|i: int| 0 <= i < b.len() implies !all_children_in(parent_of(#[trigger] b[i], (q - 1) as u8), q, b.to_set()) by {
            assert(b.contains(b[i]));
            let k = choose|k: int| 0 <= k < a.len() && a[k] == b[i];
            let pp = parent_of(b[i], (q - 1) as u8);
            if all_children_in(pp, q, b.to_set()) {
                assert forall|x: u64| #[trigger] leaves(seq![pp], q).contains(x) implies a.to_set().contains(x) by {
                    assert(b.to_set().contains(x));
                    assert(b.contains(x));
                }
                assert(all_children_in(parent_of(a[k], (q - 1) as u8), q, a.to_set()));
            }
        }
    }
}

proof fn lemma_concat_ordered(k: Seq<Seq<u64>>, n: int)
    requires
        buckets_wf(k),
        0 <= n <= RESOLUTION_COUNT,
        forall|q: int| 0 <= q < RESOLUTION_COUNT ==> strictly_sorted(#[trigger] k[q]),
    ensures
        ordered_by_resolution(concat_buckets(k, n)),
        forall|i: int| 0 <= i < concat_buckets(k, n).len() ==> res_of(#[trigger] concat_buckets(k, n)[i]) < n,
    decreases n,
{
    reveal(ordered_by_resolution);
    if n > 0 {
        lemma_concat_ordered(k, n - 1);
        let a = concat_buckets(k, n - 1);
        let b = k[n - 1];
        let s = concat_buckets(k, n);
        assert(s == a + b);
        assert(strictly_sorted(b));
        assert forall|i: int| 0 <= i < s.len() implies res_of(#[trigger] s[i]) < n by {
            if i >= a.len() {
                assert(s[i] == b[i - a.len()]);
            }
        }
        assert forall|i: int, j: int| 0 <= i < j < s.len() implies res_of(#[trigger] s[i]) < res_of(#[trigger] s[j]) || (res_of(s[i])
            == res_of(s[j]) && s[i] < s[j]) by {
            if j >= a.len() {
                assert(s[j] == b[j - a.len()]);
                assert(res_of(b[j - a.len()]) == n - 1);
                if i >= a.len() {
                    assert(s[i] == b[i - a.len()]);
                    assert(res_of(b[i - a.len()]) == n - 1);
                } else {
                    assert(s[i] == a[i]);
                }
            } else {
                assert(s[i] == a[i]);
                assert(s[j] == a[j]);
            }
        }
    }
}

/// Every cell of an uncompaction has the target resolution.
proof fn lemma_uncompacted_res(s: Seq<u64>, r: u8)
    requires
        forall|i: int| 0 <= i < s.len() ==> children_ok(#[trigger] s[i], r),
    ensures
        forall|j: int| 0 <= j < uncompacted(s, r).len() ==> res_of(#[trigger] uncompacted(s, r)[j]) == r,
    decreases s.len(),
{
    if s.len() > 0 {
        let d = s.drop_last();
        assert forall|i: int| 0 <= i < d.len() implies children_ok(#[trigger] d[i], r) by {
            assert(d[i] == s[i]);
        }
        lemma_uncompacted_res(d, r);
        assert(children_ok(s[s.len() - 1], r));
        let a = uncompacted(d, r);
        let c = crate::index::children_of(s.last(), r);
        assert forall|j: int| 0 <= j < uncompacted(s, r).len() implies res_of(#[trigger] uncompacted(s, r)[j]) == r by {
            if j >= a.len() {
                assert(uncompacted(s, r)[j] == c[j - a.len()]);
            } else {
                assert(uncompacted(s, r)[j] == a[j]);
            }
        }
    }
}

/// Relies on `slice::sort_unstable`: the same values, in ascending order.
#[verifier::external_body]
fn sort_cells(v: &mut Vec<u64>)
    ensures
        final(v)@.len() == old(v)@.len(),
        forall|x: u64| final(v)@.contains(x) <==> old(v)@.contains(x),
        forall|i: int, j: int| 0 <= i <= j < final(v)@.len() ==> final(v)@[i] <= final(v)@[j],
{
    v.sort_unstable();
}

/// Relies on `Vec::shrink_to_fit`: only the capacity changes, never the contents.
#[verifier::external_body]
fn shrink_cells(v: &mut Vec<u64>)
    ensures
        final(v)@ == old(v)@,
{
    v.shrink_to_fit();
}

/// The values of `v` sorted, each once.
fn sorted_dedup(v: Vec<u64>) -> (r: Vec<u64>)
    ensures
        strictly_sorted(r@),
        forall|x: u64| r@.contains(x) <==> v@.contains(x),
{
    let mut v = v;
    sort_cells(&mut v);
    let mut out: Vec<u64> = Vec::new();
    let mut i: usize = 0;
    while i < v.len()
        invariant
            i <= v@.len(),
            forall|a: int, b: int| 0 <= a <= b < v@.len() ==> v@[a] <= v@[b],
            strictly_sorted(out@),
            forall|x: u64| out@.contains(x) <==> v@.take(i as int).contains(x),
            i > 0 ==> out@.len() > 0 && out@.last() == v@[i - 1],
            i == 0 ==> out@.len() == 0,
        decreases v@.len() - i,
    {
        let x = v[i];
        let ghost prev = v@.take(i as int);
        let ghost old_out = out@;
        if out.len() == 0 || out[out.len() - 1] != x {
            proof {
                if out@.len() > 0 {
                    assert(v@[i - 1] <= v@[i as int]);
                }
            }
            out.push(x);
        }
        proof {
            assert(v@.take(i + 1) =~= prev.push(x));
            assert forall|y: u64| out@.contains(y) <==> v@.take(i + 1).contains(y) by {
                lemma_push_contains(prev, x, y);
                if out@ != old_out {
                    lemma_push_contains(old_out, x, y);
                } else {
                    assert(old_out[old_out.len() - 1] == x);
                }
            }
        }
        i = i + 1;
    }
    assert(v@.take(i as int) =~= v@);
    out
}

/// The resolution field of a bit pattern.
pub(crate) fn resolution_bits(v: u64) -> (r: usize)
    ensures
        r == res_of(v),
        r < RESOLUTION_COUNT,
{
    let x: u64 = (v >> 52u64) & 15u64;
    assert(x <= 15u64) by (bit_vector)
        requires
            x == (v >> 52u64) & 15u64,
    ;
    x as usize
}

/// Whether the cell, or one of its ancestors, is in `seen`.
fn is_covered(c: u64, seen: &HashSet<u64>) -> (r: bool)
    requires
        is_cell(c),
    ensures
        r == covered_by(c, seen@),
{
    let res = resolution_bits(c) as u8;
    let mut q: u8 = res;
    loop
        invariant
            q <= res,
            res <= 15,
            res == res_of(c),
            is_cell(c),
            forall|x: u8| q < x <= res ==> !(#[trigger] seen@.contains(parent_of(c, x))),
        decreases q,
    {
        let p = cell_parent(c, q);
        match p {
            Some(p) => {
                if seen.contains(&p) {
                    return true;
                }
            },
            None => {},
        }
        if q == 0 {
            assert forall|x: u8| x <= res_of(c) implies !(#[trigger] seen@.contains(parent_of(c, x))) by {
            }
            return false;
        }
        q = q - 1;
    }
}

/// Cells grouped by resolution, for compaction across resolutions.
pub struct CellSet {
    modified_resolutions: Vec<bool>,
    /// cells by their resolution: bucket `r` holds the cells of resolution `r`
    cells_by_resolution: Vec<Vec<u64>>,
}

pub open spec fn buckets_view(b: Seq<Vec<u64>>) -> Seq<Seq<u64>> {
    Seq::new(b.len(), |r: int| b[r]@)
}

impl CellSet {
    pub closed spec fn wf(&self) -> bool {
        &&& self.modified_resolutions@.len() == RESOLUTION_COUNT
        &&& buckets_wf(self.buckets())
    }

    /// Which resolutions received cells since the last compaction.
    pub closed spec fn modified(&self) -> Seq<bool> {
        self.modified_resolutions@
    }

    /// The cells of each resolution.
    pub closed spec fn buckets(&self) -> Seq<Seq<u64>> {
        buckets_view(self.cells_by_resolution@)
    }

    /// Sixteen empty buckets.
    pub fn new() -> (s: Self)
        ensures
            s.wf(),
            forall|r: int| 0 <= r < RESOLUTION_COUNT ==> #[trigger] s.buckets()[r] == Seq::<u64>::empty(),
    {
        let mut modified_resolutions: Vec<bool> = Vec::new();
        let mut cells_by_resolution: Vec<Vec<u64>> = Vec::new();
        let mut i: usize = 0;
        while i < RESOLUTION_COUNT
            invariant
                i <= RESOLUTION_COUNT,
                modified_resolutions@.len() == i,
                cells_by_resolution@.len() == i,
                forall|r: int| 0 <= r < i ==> (#[trigger] cells_by_resolution@[r])@ == Seq::<u64>::empty(),
            decreases RESOLUTION_COUNT - i,
        {
            modified_resolutions.push(false);
            cells_by_resolution.push(Vec::new());
            i = i + 1;
        }
        CellSet { modified_resolutions, cells_by_resolution }
    }

    /// Adds a cell to the bucket of its resolution.
    pub fn insert(&mut self, cell: CellIndex)
        requires
            old(self).wf(),
        ensures
            final(self).wf(),
            final(self).buckets() == old(self).buckets().update(
                res_of(cell@) as int,
                old(self).buckets()[res_of(cell@) as int].push(cell@),
            ),
            final(self).modified() == old(self).modified().update(res_of(cell@) as int, true),
    {
        let v = cell.to_u64();
        self.insert_raw(v);
    }

    /// Adds a cell to the bucket of its resolution.
    fn insert_raw(&mut self, cell: u64)
        requires
            old(self).wf(),
            is_cell(cell),
        ensures
            final(self).wf(),
            final(self).buckets() == old(self).buckets().update(
                res_of(cell) as int,
                old(self).buckets()[res_of(cell) as int].push(cell),
            ),
            final(self).modified() == old(self).modified().update(res_of(cell) as int, true),
    {
        let idx = resolution_bits(cell);
        self.cells_by_resolution[idx].push(cell);
        self.modified_resolutions.set(idx, true);
        proof {
            assert(self.buckets() =~= old(self).buckets().update(
                res_of(cell) as int,
                old(self).buckets()[res_of(cell) as int].push(cell),
            ));
            let b = self.buckets();
            assert forall|r: int, i: int| 0 <= r < RESOLUTION_COUNT && 0 <= i < b[r].len() implies is_cell(
                #[trigger] b[r][i],
            ) && res_of(b[r][i]) == r by {
                if r == idx && i == b[r].len() - 1 {
                } else {
                    assert(b[r][i] == old(self).buckets()[r][i]);
                }
            }
        }
    }

    /// Sorts every bucket and keeps each cell once; with `shrink`, frees unused capacity.
    fn dedup_buckets(&mut self, shrink: bool)
        requires
            old(self).wf(),
        ensures
            final(self).wf(),
            final(self).modified() == old(self).modified(),
            forall|r: int| 0 <= r < RESOLUTION_COUNT ==> strictly_sorted(#[trigger] final(self).buckets()[r]),
            forall|r: int, x: u64|
                0 <= r < RESOLUTION_COUNT ==> (#[trigger] final(self).buckets()[r].contains(x) <==> old(
                    self,
                ).buckets()[r].contains(x)),
    {
        let mut r: usize = 0;
        while r < RESOLUTION_COUNT
            invariant
                r <= RESOLUTION_COUNT,
                self.wf(),
                self.modified() == old(self).modified(),
                forall|q: int| 0 <= q < r ==> strictly_sorted(#[trigger] self.buckets()[q]),
                forall|q: int, x: u64|
                    0 <= q < RESOLUTION_COUNT ==> (#[trigger] self.buckets()[q].contains(x) <==> old(
                        self,
                    ).buckets()[q].contains(x)),
            decreases RESOLUTION_COUNT - r,
        {
            let ghost before = self.buckets();
            let mut bucket: Vec<u64> = Vec::new();
            std::mem::swap(&mut bucket, &mut self.cells_by_resolution[r]);
            assert(bucket@ == before[r as int]);
            let mut deduped = sorted_dedup(bucket);
            if shrink {
                shrink_cells(&mut deduped);
            }
            self.cells_by_resolution.set(r, deduped);
            proof {
                let b = self.buckets();
                assert(b =~= before.update(r as int, deduped@));
                assert forall|q: int| 0 <= q < r + 1 implies strictly_sorted(#[trigger] b[q]) by {
                    if q < r {
                        assert(b[q] == before[q]);
                    }
                }
                assert forall|q: int, x: u64| 0 <= q < RESOLUTION_COUNT implies (#[trigger] b[q].contains(x) <==> old(
                    self,
                ).buckets()[q].contains(x)) by {
                    if q != r {
                        assert(b[q] == before[q]);
                    }
                }
                assert forall|q: int, i: int| 0 <= q < RESOLUTION_COUNT && 0 <= i < b[q].len() implies is_cell(
                    #[trigger] b[q][i],
                ) && res_of(b[q][i]) == q by {
                    if q == r {
                        assert(deduped@.contains(b[q][i]));
                        assert(bucket@.contains(b[q][i]));
                    } else {
                        assert(b[q][i] == before[q][i]);
                    }
                }
            }
            r = r + 1;
        }
    }

    /// Drops every cell that a cell kept in a coarser bucket covers, coarsest bucket first.
    fn eliminate_covered(&mut self)
        requires
            old(self).wf(),
        ensures
            final(self).wf(),
            final(self).modified() == old(self).modified(),
            eliminated(old(self).buckets(), final(self).buckets()),
    {
        let ghost orig = self.buckets();
        let mut seen: HashSet<u64> = HashSet::new();
        let mut r: usize = 0;
        while r < RESOLUTION_COUNT
            invariant
                r <= RESOLUTION_COUNT,
                self.wf(),
                self.modified() == old(self).modified(),
                orig.len() == RESOLUTION_COUNT,
                buckets_wf(orig),
                forall|q: int| r <= q < RESOLUTION_COUNT ==> #[trigger] self.buckets()[q] == orig[q],
                forall|q: int|
                    0 <= q < r ==> #[trigger] self.buckets()[q] == orig[q].filter(
                        |c: u64| !covered_by(c, kept_union(self.buckets(), q)),
                    ),
                seen@ == kept_union(self.buckets(), r as int),
            decreases RESOLUTION_COUNT - r,
        {
            let ghost before = self.buckets();
            let mut bucket: Vec<u64> = Vec::new();
            std::mem::swap(&mut bucket, &mut self.cells_by_resolution[r]);
            assert(bucket@ == before[r as int]);
            assert(bucket@ == orig[r as int]);
            let ghost p = |c: u64| !covered_by(c, seen@);
            let mut kept: Vec<u64> = Vec::new();
            let mut i: usize = 0;
            while i < bucket.len()
                invariant
                    i <= bucket@.len(),
                    bucket@ == orig[r as int],
                    buckets_wf(orig),
                    r < RESOLUTION_COUNT,
                    orig.len() == RESOLUTION_COUNT,
                    p == (|c: u64| !covered_by(c, seen@)),
                    kept@ == bucket@.take(i as int).filter(p),
                decreases bucket@.len() - i,
            {
                let c = bucket[i];
                assert(is_cell(orig[r as int][i as int]));
                let cov = is_covered(c, &seen);
                proof {
                    reveal(Seq::filter);
                    assert(bucket@.take(i + 1).drop_last() =~= bucket@.take(i as int));
                }
                if !cov {
                    kept.push(c);
                }
                i = i + 1;
            }
            assert(bucket@.take(i as int) =~= bucket@);
            let mut j: usize = 0;
            let ghost seen0 = seen@;
            while j < kept.len()
                invariant
                    j <= kept@.len(),
                    seen@ == seen0.union(kept@.take(j as int).to_set()),
                decreases kept@.len() - j,
            {
                seen.insert(kept[j]);
                j = j + 1;
                assert(seen@ =~= seen0.union(kept@.take(j as int).to_set())) by {
                    assert(kept@.take(j as int) =~= kept@.take(j - 1).push(kept@[j - 1]));
                    assert forall|x: u64| kept@.take(j as int).contains(x) <==> (kept@.take(j - 1).contains(x) || x == kept@[j - 1]) by {
                        lemma_push_contains(kept@.take(j - 1), kept@[j - 1], x);
                    }
                }
            }
            assert(kept@.take(j as int) =~= kept@);
            let ghost kept_v = kept@;
            self.cells_by_resolution.set(r, kept);
            proof {
                let b = self.buckets();
                assert(b =~= before.update(r as int, kept_v));
                assert forall|q: int| 0 <= q <= r implies kept_union(b, q) == kept_union(before, q) by {
                    lemma_kept_union_prefix(b, before, q);
                }
                assert(kept_union(b, r + 1) =~= kept_union(b, r as int).union(kept_v.to_set()));
                assert forall|q: int| 0 <= q < r + 1 implies #[trigger] b[q] == orig[q].filter(
                    |c: u64| !covered_by(c, kept_union(b, q)),
                ) by {
                    assert(kept_union(b, q) == kept_union(before, q));
                    if q < r {
                        assert(b[q] == before[q]);
                        assert(before[q] == orig[q].filter(|c: u64| !covered_by(c, kept_union(before, q))));
                    } else {
                        assert(seen0 == kept_union(before, r as int));
                        assert(p =~= (|c: u64| !covered_by(c, kept_union(b, q))));
                    }
                }
                assert forall|q: int, i: int| 0 <= q < RESOLUTION_COUNT && 0 <= i < b[q].len() implies is_cell(
                    #[trigger] b[q][i],
                ) && res_of(b[q][i]) == q by {
                    if q == r {
                        orig[q].lemma_filter_contains_rev(p, b[q][i]);
                        assert(kept_v.contains(b[q][i]));
                        let t = choose|t: int| 0 <= t < orig[q].len() && #[trigger] orig[q][t] == b[q][i];
                    } else {
                        assert(b[q][i] == before[q][i]);
                    }
                }
            }
            r = r + 1;
        }
    }
}

impl CellSet {
    /// Files each of the cells in the bucket of its resolution.
    fn insert_all(&mut self, out: &Vec<u64>)
        requires
            old(self).wf(),
            all_cells(out@),
        ensures
            final(self).wf(),
            forall|x: u64| #[trigger] in_buckets(old(self).buckets(), x) ==> in_buckets(final(self).buckets(), x),
            forall|x: u64| #[trigger] in_buckets(final(self).buckets(), x) ==> in_buckets(old(self).buckets(), x) || out@.contains(x),
            forall|j: int| 0 <= j < out@.len() ==> in_buckets(final(self).buckets(), #[trigger] out@[j]),
            forall|q: int| 0 <= q < RESOLUTION_COUNT && #[trigger] no_cell_at(out@, q) ==> final(self).buckets()[q] == old(self).buckets()[q],
    {
        let ghost b0 = self.buckets();
        let mut i: usize = 0;
        proof {
            reveal(no_cell_at);
        }
        while i < out.len()
            invariant
                i <= out@.len(),
                all_cells(out@),
                self.wf(),
                forall|x: u64| #[trigger] in_buckets(b0, x) ==> in_buckets(self.buckets(), x),
                forall|x: u64| #[trigger] in_buckets(self.buckets(), x) ==> in_buckets(b0, x) || out@.take(i as int).contains(x),
                forall|j: int| 0 <= j < i ==> in_buckets(self.buckets(), #[trigger] out@[j]),
                forall|q: int| 0 <= q < RESOLUTION_COUNT && #[trigger] no_cell_at(out@.take(i as int), q) ==> self.buckets()[q] == b0[q],
            decreases out@.len() - i,
        {
            let ghost pre = self.buckets();
            let c = out[i];
            self.insert_raw(c);
            proof {
                let q = res_of(c) as int;
                crate::index::lemma_res_of_bounded(c);
                assert forall|x: u64| #[trigger] in_buckets(self.buckets(), x) <==> (in_buckets(pre, x) || x == c) by {
                    lemma_insert_in_buckets(pre, q, c, x);
                }
                assert forall|x: u64| #[trigger] in_buckets(self.buckets(), x) implies in_buckets(b0, x) || out@.take(i + 1).contains(x) by {
                    if x == c {
                        assert(out@.take(i + 1)[i as int] == x);
                    } else if !in_buckets(b0, x) {
                        assert(out@.take(i as int).contains(x));
                        let t = choose|t: int| 0 <= t < i && out@.take(i as int)[t] == x;
                        assert(out@.take(i + 1)[t] == x);
                    }
                }
                assert forall|r: int| 0 <= r < RESOLUTION_COUNT && #[trigger] no_cell_at(out@.take(i + 1), r) implies self.buckets()[r] == b0[r] by {
                    reveal(no_cell_at);
                    assert(out@.take(i + 1)[i as int] == c);
                    assert forall|j: int| 0 <= j < i implies res_of(#[trigger] out@.take(i as int)[j]) != r by {
                        assert(out@.take(i as int)[j] == out@.take(i + 1)[j]);
                    }
                    assert(no_cell_at(out@.take(i as int), r));
                }
            }
            i = i + 1;
        }
        assert(out@.take(i as int) =~= out@);
    }

    /// Empties the bucket of resolution `res` and hands out its cells, sorted, each once.
    fn take_bucket(&mut self, res: usize) -> (cells: Vec<u64>)
        requires
            old(self).wf(),
            res < RESOLUTION_COUNT,
        ensures
            final(self).wf(),
            final(self).buckets() == old(self).buckets().update(res as int, Seq::<u64>::empty()),
            strictly_sorted(cells@),
            cells@.no_duplicates(),
            forall|x: u64| cells@.contains(x) <==> old(self).buckets()[res as int].contains(x),
            all_cells(cells@),
            all_at_resolution(cells@, res as u8),
            forall|i: int| 0 <= i < cells@.len() ==> res_of(#[trigger] cells@[i]) == res,
    {
        let ghost before = self.buckets();
        let mut bucket: Vec<u64> = Vec::new();
        std::mem::swap(&mut bucket, &mut self.cells_by_resolution[res]);
        assert(bucket@ == before[res as int]);
        let cells = sorted_dedup(bucket);
        proof {
            assert(self.buckets() =~= before.update(res as int, Seq::<u64>::empty()));
            assert forall|i: int| 0 <= i < cells@.len() implies is_cell(#[trigger] cells@[i]) && res_of(cells@[i]) == res by {
                assert(cells@.contains(cells@[i]));
                assert(bucket@.contains(cells@[i]));
            }
            assert(all_at_resolution(cells@, res as u8));
            assert(cells@.no_duplicates());
            let b = self.buckets();
            assert forall|r: int, i: int| 0 <= r < RESOLUTION_COUNT && 0 <= i < b[r].len() implies is_cell(#[trigger] b[r][i]) && res_of(b[r][i]) == r by {
                assert(b[r][i] == before[r][i]);
            }
        }
        cells
    }

    /// Compacts the bucket of resolution `res` and files the result by resolution again.
    fn promote_level(&mut self, res: usize) -> (r: Result<(), Error>)
        requires
            old(self).wf(),
            res < RESOLUTION_COUNT,
        ensures
            r is Ok,
            final(self).wf(),
            refines(old(self).buckets(), final(self).buckets()),
            keeps_leaves(old(self).buckets(), final(self).buckets()),
            no_full_siblings(final(self).buckets()[res as int], res as u8),
            forall|q: int| res < q < RESOLUTION_COUNT ==> #[trigger] final(self).buckets()[q] == old(self).buckets()[q],
            final(self).modified().len() == RESOLUTION_COUNT,
    {
        let ghost before = self.buckets();
        let cells = self.take_bucket(res);
        proof {
            if cells@.len() > 0 {
                assert(res_of(cells@[0]) == res);
            }
        }
        let ghost b0 = self.buckets();
        match cells_compact(&cells) {
            Ok(out) => {
                self.insert_all(&out);
                proof {
                    assert forall|j: int| 0 <= j < out@.len() implies has_origin(cells@, #[trigger] out@[j]) by {
                        let x = out@[j];
                    }
                    assert forall|t: int| 0 <= t < cells@.len() implies has_cover(out@, #[trigger] cells@[t]) by {
                        let x = cells@[t];
                    }
                    lemma_level_done(before, b0, self.buckets(), cells@, out@, res as int);
                }
            },
            Err(e) => {
                return Err(Error::CompactionError(e));
            },
        }
        Ok(())
    }

    /// Compacts bottom-up: from the finest modified resolution to the coarsest, every bucket
    /// is compacted and the result filed by resolution again, so that promoted parents take
    /// part in the compaction of their own level; then covered cells are dropped.
    pub fn compact(&mut self) -> (r: Result<(), Error>)
        requires
            old(self).wf(),
        ensures
            r is Ok,
            final(self).wf(),
            forall|q: int| 0 <= q < RESOLUTION_COUNT ==> (#[trigger] final(self).buckets()[q]).no_duplicates(),
            ancestor_free(concat_buckets(final(self).buckets(), RESOLUTION_COUNT as int)),
            refines(old(self).buckets(), final(self).buckets()),
            forall|q: int| 0 <= q < RESOLUTION_COUNT ==> strictly_sorted(#[trigger] final(self).buckets()[q]),
            forall|q: int| 0 <= q < RESOLUTION_COUNT ==> !(#[trigger] final(self).modified()[q]),
            forall|m: u8| #[trigger] buckets_at_most(old(self).buckets(), m) ==> leaves_kept_from(
                old(self).buckets(),
                final(self).buckets(),
                m,
            ),
            forall|q: int| 0 <= q < RESOLUTION_COUNT && #[trigger] touched(old(self).modified(), q) ==> no_full_siblings(
                final(self).buckets()[q],
                q as u8,
            ),
    {
        self.dedup_buckets(false);
        proof {
            reveal(keeps_leaves);
            lemma_same_contents_refines(old(self).buckets(), self.buckets());
            lemma_same_contents_refines(self.buckets(), old(self).buckets());
            assert forall|y: u64| #[trigger] in_buckets(self.buckets(), y) <==> in_buckets(old(self).buckets(), y) by {
                if in_buckets(self.buckets(), y) {
                    let q = choose|q: int| 0 <= q < self.buckets().len() && (#[trigger] self.buckets()[q]).contains(y);
                    assert(old(self).buckets()[q].contains(y));
                }
                if in_buckets(old(self).buckets(), y) {
                    let q = choose|q: int| 0 <= q < old(self).buckets().len() && (#[trigger] old(self).buckets()[q]).contains(y);
                    assert(self.buckets()[q].contains(y));
                }
            }
            assert forall|m: u8| #[trigger] buckets_at_most(old(self).buckets(), m) implies leaves_kept_from(
                old(self).buckets(),
                self.buckets(),
                m,
            ) by {
                assert forall|q: u8| m <= q <= 15 implies #[trigger] bucket_leaves(self.buckets(), q) == bucket_leaves(old(self).buckets(), q) by {
                    lemma_subset_refines_leaves(old(self).buckets(), self.buckets(), q);
                }
            }
        }
        let mut start: usize = RESOLUTION_COUNT;
        let mut found = false;
        while start > 0 && !found
            invariant
                start <= RESOLUTION_COUNT,
                self.wf(),
                found ==> start < RESOLUTION_COUNT,
                !found ==> forall|t: int| start <= t < RESOLUTION_COUNT ==> !(#[trigger] self.modified()[t]),
                forall|t: int| start < t < RESOLUTION_COUNT ==> !(#[trigger] self.modified()[t]),
                self.modified() == old(self).modified(),
                refines(old(self).buckets(), self.buckets()),
                keeps_leaves(old(self).buckets(), self.buckets()),
            decreases start,
        {
            start = start - 1;
            if self.modified_resolutions[start] {
                found = true;
            }
        }
        if found {
            let mut level: usize = start + 1;
            while level > 0
                invariant
                    level <= start + 1,
                    start < RESOLUTION_COUNT,
                    forall|q: int| level <= q <= start ==> no_full_siblings(#[trigger] self.buckets()[q], q as u8),
                    self.wf(),
                    refines(old(self).buckets(), self.buckets()),
                    keeps_leaves(old(self).buckets(), self.buckets()),
                decreases level,
            {
                let res = level - 1;
                let ghost before = self.buckets();
                match self.promote_level(res) {
                    Ok(()) => {},
                    Err(e) => {
                        return Err(e);
                    },
                }
                proof {
                    lemma_refines_trans(old(self).buckets(), before, self.buckets());
                    lemma_keeps_leaves_trans(old(self).buckets(), before, self.buckets());
                    assert forall|q: int| res <= q <= start implies no_full_siblings(#[trigger] self.buckets()[q], q as u8) by {
                        if q > res {
                            assert(self.buckets()[q] == before[q]);
                        }
                    }
                }
                level = res;
            }
            let ghost promoted = self.buckets();
            let mut q: usize = 0;
            while q < RESOLUTION_COUNT
                invariant
                    q <= RESOLUTION_COUNT,
                    self.buckets() == promoted,
                    self.wf(),
                    refines(old(self).buckets(), self.buckets()),
                    forall|t: int| 0 <= t < q ==> !(#[trigger] self.modified()[t]),
                    keeps_leaves(old(self).buckets(), self.buckets()),
                decreases RESOLUTION_COUNT - q,
            {
                let ghost m0 = self.modified();
                self.modified_resolutions.set(q, false);
                assert(self.modified() =~= m0.update(q as int, false));
                q = q + 1;
            }
            proof {
                assert forall|q: int| 0 <= q < RESOLUTION_COUNT && #[trigger] touched(old(self).modified(), q) implies no_full_siblings(
                    self.buckets()[q],
                    q as u8,
                ) by {
                    let t = choose|t: int| q <= t < old(self).modified().len() && #[trigger] old(self).modified()[t];
                    assert(t <= start);
                    assert(promoted[q] == self.buckets()[q]);
                }
            }
        }
        proof {
            assert forall|q: int| 0 <= q < RESOLUTION_COUNT && #[trigger] touched(old(self).modified(), q) implies no_full_siblings(
                self.buckets()[q],
                q as u8,
            ) by {
                let t = choose|t: int| q <= t < old(self).modified().len() && #[trigger] old(self).modified()[t];
                if !found {
                    assert(start == 0);
                    assert(!old(self).modified()[t]);
                }
            }
        }
        let ghost mid = self.buckets();
        self.dedup(true, true);
        proof {
            lemma_refines_trans(old(self).buckets(), mid, self.buckets());
            reveal(keeps_leaves);
            let k = self.buckets();
            assert forall|q: int| 0 <= q < RESOLUTION_COUNT && #[trigger] touched(old(self).modified(), q) implies no_full_siblings(
                k[q],
                q as u8,
            ) by {
                assert forall|x: u64| k[q].contains(x) implies mid[q].contains(x) by {
                }
                lemma_no_full_siblings_subset(mid[q], k[q], q as u8);
            }
            assert forall|y: u64| #[trigger] in_buckets(k, y) implies in_buckets(mid, y) by {
                let q = choose|q: int| 0 <= q < k.len() && (#[trigger] k[q]).contains(y);
                assert(mid[q].contains(y));
            }
            assert forall|m: u8| #[trigger] buckets_at_most(old(self).buckets(), m) implies leaves_kept_from(
                old(self).buckets(),
                k,
                m,
            ) by {
                assert(leaves_kept_from(old(self).buckets(), mid, m));
                assert forall|q: u8| m <= q <= 15 implies #[trigger] bucket_leaves(k, q) == bucket_leaves(old(self).buckets(), q) by {
                    assert(bucket_leaves(k, q) == bucket_leaves(mid, q));
                }
                assert forall|y: u64| #[trigger] in_buckets(k, y) implies res_of(y) <= m by {
                    assert(in_buckets(mid, y));
                }
            }
        }
        Ok(())
    }

    /// Sorts every bucket and keeps each cell once; with `parents`, also drops every cell
    /// that a cell of a coarser bucket covers.
    pub fn dedup(&mut self, shrink: bool, parents: bool)
        requires
            old(self).wf(),
        ensures
            final(self).wf(),
            forall|q: int| 0 <= q < RESOLUTION_COUNT ==> (#[trigger] final(self).buckets()[q]).no_duplicates(),
            parents ==> ancestor_free(concat_buckets(final(self).buckets(), RESOLUTION_COUNT as int)),
            refines(old(self).buckets(), final(self).buckets()),
            final(self).modified() == old(self).modified(),
            forall|q: int| 0 <= q < RESOLUTION_COUNT ==> strictly_sorted(#[trigger] final(self).buckets()[q]),
            !parents ==> forall|q: int, x: u64|
                0 <= q < RESOLUTION_COUNT ==> (#[trigger] final(self).buckets()[q].contains(x) <==> old(self).buckets()[q].contains(x)),
            parents ==> forall|q: int, x: u64|
                0 <= q < RESOLUTION_COUNT ==> (#[trigger] final(self).buckets()[q].contains(x) <==> (old(self).buckets()[q].contains(x)
                    && !has_strict_ancestor(old(self).buckets(), x))),
            forall|q: u8| #[trigger] bucket_leaves(final(self).buckets(), q) == bucket_leaves(old(self).buckets(), q),
    {
        self.dedup_buckets(shrink);
        proof {
            lemma_same_contents_refines(old(self).buckets(), self.buckets());
            lemma_same_contents_refines(self.buckets(), old(self).buckets());
            assert forall|y: u64| #[trigger] in_buckets(self.buckets(), y) <==> in_buckets(old(self).buckets(), y) by {
                if in_buckets(self.buckets(), y) {
                    let q = choose|q: int| 0 <= q < self.buckets().len() && (#[trigger] self.buckets()[q]).contains(y);
                    assert(old(self).buckets()[q].contains(y));
                }
                if in_buckets(old(self).buckets(), y) {
                    let q = choose|q: int| 0 <= q < old(self).buckets().len() && (#[trigger] old(self).buckets()[q]).contains(y);
                    assert(self.buckets()[q].contains(y));
                }
            }
            assert forall|q: u8| #[trigger] bucket_leaves(self.buckets(), q) == bucket_leaves(old(self).buckets(), q) by {
                lemma_subset_refines_leaves(old(self).buckets(), self.buckets(), q);
            }
        }
        if parents {
            let ghost b = self.buckets();
            self.eliminate_covered();
            proof {
                let k = self.buckets();
                lemma_eliminated_refines(b, k);
                lemma_refines_trans(old(self).buckets(), b, k);
                lemma_eliminated_ancestor_free(b, k);
                assert forall|q: int| 0 <= q < RESOLUTION_COUNT implies (#[trigger] k[q]).no_duplicates() && strictly_sorted(k[q]) by {
                    assert(strictly_sorted(b[q]));
                    lemma_filter_no_dup(b[q], |c: u64| !covered_by(c, kept_union(k, q)));
                    lemma_filter_sorted(b[q], |c: u64| !covered_by(c, kept_union(k, q)));
                }
                assert forall|x: u64| has_strict_ancestor(b, x) <==> has_strict_ancestor(old(self).buckets(), x) by {
                    if has_strict_ancestor(b, x) {
                        let y = choose|y: u64| in_buckets(b, y) && #[trigger] is_ancestor(y, x);
                        assert(in_buckets(old(self).buckets(), y));
                    }
                    if has_strict_ancestor(old(self).buckets(), x) {
                        let y = choose|y: u64| in_buckets(old(self).buckets(), y) && #[trigger] is_ancestor(y, x);
                        assert(in_buckets(b, y));
                    }
                }
                assert forall|q: int, x: u64| 0 <= q < RESOLUTION_COUNT implies (#[trigger] k[q].contains(x) <==> (old(self).buckets()[q].contains(x)
                    && !has_strict_ancestor(old(self).buckets(), x))) by {
                    lemma_eliminated_exact(b, k, q, x);
                }
                assert forall|y: u64| #[trigger] in_buckets(k, y) implies in_buckets(b, y) by {
                    let q = choose|q: int| 0 <= q < k.len() && (#[trigger] k[q]).contains(y);
                    lemma_eliminated_exact(b, k, q, y);
                }
                assert forall|q: u8| #[trigger] bucket_leaves(k, q) == bucket_leaves(old(self).buckets(), q) by {
                    lemma_subset_refines_leaves(b, k, q);
                }
            }
        }
    }

    /// Compacts if `compact`, else only dedups and drops covered cells.
    pub fn finalize(&mut self, compact: bool) -> (r: Result<(), Error>)
        requires
            old(self).wf(),
        ensures
            r is Ok,
            final(self).wf(),
            forall|q: int| 0 <= q < RESOLUTION_COUNT ==> (#[trigger] final(self).buckets()[q]).no_duplicates(),
            ancestor_free(concat_buckets(final(self).buckets(), RESOLUTION_COUNT as int)),
            refines(old(self).buckets(), final(self).buckets()),
            forall|q: int| 0 <= q < RESOLUTION_COUNT ==> strictly_sorted(#[trigger] final(self).buckets()[q]),
            compact ==> forall|m: u8| #[trigger] buckets_at_most(old(self).buckets(), m) ==> leaves_kept_from(
                old(self).buckets(),
                final(self).buckets(),
                m,
            ),
            compact ==> forall|q: int| 0 <= q < RESOLUTION_COUNT && #[trigger] touched(old(self).modified(), q)
                ==> no_full_siblings(final(self).buckets()[q], q as u8),
            compact ==> forall|q: int| 0 <= q < RESOLUTION_COUNT ==> !(#[trigger] final(self).modified()[q]),
    {
        if compact {
            self.compact()
        } else {
            self.dedup(true, true);
            Ok(())
        }
    }

    /// Whether no bucket holds a cell.
    pub fn is_empty(&self) -> (r: bool)
        requires
            self.wf(),
        ensures
            r == forall|q: int| 0 <= q < RESOLUTION_COUNT ==> (#[trigger] self.buckets()[q]).len() == 0,
    {
        let mut q: usize = 0;
        while q < RESOLUTION_COUNT
            invariant
                q <= RESOLUTION_COUNT,
                self.wf(),
                forall|t: int| 0 <= t < q ==> (#[trigger] self.buckets()[t]).len() == 0,
            decreases RESOLUTION_COUNT - q,
        {
            if self.cells_by_resolution[q].len() > 0 {
                assert(self.buckets()[q as int].len() > 0);
                return false;
            }
            q = q + 1;
        }
        true
    }

    /// The descendants at `r` of the cells of every bucket no finer than `r`, bucket by
    /// bucket from the coarsest.
    pub fn iter_uncompacted(&self, r: Resolution) -> (out: Vec<u64>)
        requires
            self.wf(),
        ensures
            out@ == uncompacted_buckets(self.buckets(), r@, r@ + 1),
    {
        let target = r.value();
        let mut out: Vec<u64> = Vec::new();
        let mut q: usize = 0;
        while q <= target as usize
            invariant
                q <= target + 1,
                target == r@,
                target <= 15,
                self.wf(),
                out@ == uncompacted_buckets(self.buckets(), target, q as int),
            decreases target + 1 - q,
        {
            let bucket = &self.cells_by_resolution[q];
            assert(bucket@ == self.buckets()[q as int]);
            let children = cells_uncompact(bucket, target);
            let ghost start = out@;
            let mut i: usize = 0;
            while i < children.len()
                invariant
                    i <= children@.len(),
                    out@ =~= start + children@.take(i as int),
                decreases children@.len() - i,
            {
                out.push(children[i]);
                i = i + 1;
                assert(out@ =~= start + children@.take(i as int));
            }
            assert(children@.take(i as int) =~= children@);
            q = q + 1;
        }
        out
    }

    /// All cells, bucket by bucket from the coarsest resolution.
    pub fn iter_compacted(&self) -> (r: Vec<u64>)
        requires
            self.wf(),
        ensures
            r@ == concat_buckets(self.buckets(), RESOLUTION_COUNT as int),
    {
        let mut out: Vec<u64> = Vec::new();
        let mut q: usize = 0;
        while q < RESOLUTION_COUNT
            invariant
                q <= RESOLUTION_COUNT,
                self.wf(),
                out@ == concat_buckets(self.buckets(), q as int),
            decreases RESOLUTION_COUNT - q,
        {
            let bucket = &self.cells_by_resolution[q];
            let ghost start = out@;
            let mut i: usize = 0;
            while i < bucket.len()
                invariant
                    i <= bucket@.len(),
                    out@ =~= start + bucket@.take(i as int),
                decreases bucket@.len() - i,
            {
                out.push(bucket[i]);
                i = i + 1;
                assert(out@ =~= start + bucket@.take(i as int));
            }
            assert(bucket@.take(i as int) =~= bucket@);
            assert(self.buckets()[q as int] == bucket@);
            q = q + 1;
        }
        out
    }
}

/// Compaction keeps the ground: every cell at resolution `r` that an input cell covers is
/// also covered by a cell of the compaction, and where `r` is at least as fine as every
/// input cell the two cover exactly the same cells, so uncompacting either to `r` gives the
/// same set of cells.
pub proof fn lemma_compaction_keeps_leaves(input: Seq<u64>, out: Seq<Option<u64>>, r: u8)
    requires
        compacted_from(input, out),
        r <= 15,
    ensures
        leaves(input, r).subset_of(leaves(non_null(out), r)),
        inputs_at_most(input, r) ==> leaves(non_null(out), r) == leaves(input, r),
{
    let c = choose|c: Seq<u64>| #![trigger all_some(c)] out == all_some(c) && all_cells(c) && c.no_duplicates() && ancestor_free(c)
        && covers_input(input, c) && within_input(input, c) && same_ground(input, c) && no_full_group(c)
        && ordered_by_resolution(c);
    lemma_non_null_all_some(c);
    if inputs_at_most(input, r) {
        assert(leaves(c, r) == leaves(input, r));
    }
    assert forall|x: u64| leaves(input, r).contains(x) implies leaves(non_null(out), r).contains(x) by {
        let i = choose|i: int| 0 <= i < input.len() && covers(#[trigger] input[i], x);
        assert(has_cover(c, input[i]));
        let j = choose|j: int| 0 <= j < c.len() && covers(#[trigger] c[j], input[i]);
        lemma_covers_transitive(c[j], input[i], x);
        assert(non_null(out)[j] == c[j]);
    }
}

proof fn lemma_non_null_all_some(c: Seq<u64>)
    ensures
        non_null(all_some(c)) == c,
    decreases c.len(),
{
    if c.len() > 0 {
        lemma_non_null_all_some(c.drop_last());
        assert(all_some(c).drop_last() =~= all_some(c.drop_last()));
    } else {
        assert(all_some(c) =~= Seq::<Option<u64>>::empty());
    }
}

/// The concatenated buckets of a refinement of the input's buckets are a compaction of it.
proof fn lemma_output_compacted(input: Seq<u64>, filled: Seq<Seq<u64>>, modified: Seq<bool>, k: Seq<Seq<u64>>, out: Seq<u64>)
    requires
        forall|x: u64| #[trigger] in_buckets(filled, x) <==> input.contains(x),
        refines(filled, k),
        buckets_wf(k),
        forall|q: int| 0 <= q < RESOLUTION_COUNT ==> (#[trigger] k[q]).no_duplicates(),
        ancestor_free(concat_buckets(k, RESOLUTION_COUNT as int)),
        out == concat_buckets(k, RESOLUTION_COUNT as int),
        forall|m: u8| #[trigger] buckets_at_most(filled, m) ==> leaves_kept_from(filled, k, m),
        buckets_wf(filled),
        modified.len() == RESOLUTION_COUNT,
        forall|q: int| 0 <= q < RESOLUTION_COUNT && filled[q].len() > 0 ==> #[trigger] modified[q],
        forall|q: int| 0 <= q < RESOLUTION_COUNT && #[trigger] touched(modified, q) ==> no_full_siblings(k[q], q as u8),
        forall|q: int| 0 <= q < RESOLUTION_COUNT ==> strictly_sorted(#[trigger] k[q]),
    ensures
        compacted_from(input, all_some(out)),
        all_cells(out),
{
    lemma_concat_no_dup(k, RESOLUTION_COUNT as int);
    lemma_concat_ordered(k, RESOLUTION_COUNT as int);
    assert(no_full_group(out)) by {
        reveal(no_full_group);
        assert forall|j: int| 0 <= j < out.len() && res_of(out[j]) > 0 implies !all_children_in(
            parent_of(#[trigger] out[j], (res_of(out[j]) - 1) as u8),
            res_of(out[j]),
            out.to_set(),
        ) by {
            let o = out[j];
            assert(out.contains(o));
            lemma_concat_contains(k, RESOLUTION_COUNT as int, o);
            let q = choose|q: int| 0 <= q < RESOLUTION_COUNT && (#[trigger] k[q]).contains(o);
            let io = choose|io: int| 0 <= io < k[q].len() && k[q][io] == o;
            assert(res_of(k[q][io]) == q);
            assert(in_buckets(k, o));
            assert(derived_in(filled, o));
            reveal(derived_in);
            let c = choose|c: u64| in_buckets(filled, c) && covers(o, c);
            let qc = choose|qc: int| 0 <= qc < filled.len() && (#[trigger] filled[qc]).contains(c);
            let ic = choose|ic: int| 0 <= ic < filled[qc].len() && filled[qc][ic] == c;
            assert(res_of(filled[qc][ic]) == qc);
            assert(modified[qc]);
            assert(touched(modified, q));
            assert(no_full_siblings(k[q], q as u8));
            let pp = parent_of(o, (q - 1) as u8);
            if all_children_in(pp, q as u8, out.to_set()) {
                assert forall|x: u64| #[trigger] leaves(seq![pp], q as u8).contains(x) implies k[q].to_set().contains(x) by {
                    assert(out.to_set().contains(x));
                    assert(out.contains(x));
                    lemma_concat_contains(k, RESOLUTION_COUNT as int, x);
                    let qx = choose|qx: int| 0 <= qx < RESOLUTION_COUNT && (#[trigger] k[qx]).contains(x);
                    let ix = choose|ix: int| 0 <= ix < k[qx].len() && k[qx][ix] == x;
                    assert(res_of(k[qx][ix]) == qx);
                }
                assert(!all_children_in(parent_of(k[q][io], (q - 1) as u8), q as u8, k[q].to_set()));
            }
        }
    }
    assert(same_ground(input, out)) by {
        assert forall|q: u8| q <= 15 && #[trigger] inputs_at_most(input, q) implies leaves(out, q) == leaves(input, q) by {
            assert forall|y: u64| #[trigger] in_buckets(filled, y) implies res_of(y) <= q by {
                assert(input.contains(y));
                let i = choose|i: int| 0 <= i < input.len() && input[i] == y;
            }
            assert(buckets_at_most(filled, q));
            assert(bucket_leaves(k, q) == bucket_leaves(filled, q));
            assert forall|x: u64| leaves(out, q).contains(x) implies leaves(input, q).contains(x) by {
                let j = choose|j: int| 0 <= j < out.len() && covers(#[trigger] out[j], x);
                assert(out.contains(out[j]));
                lemma_concat_contains(k, RESOLUTION_COUNT as int, out[j]);
                assert(in_buckets(k, out[j]));
                assert(bucket_leaves(k, q).contains(x));
                assert(bucket_leaves(filled, q).contains(x));
                let y = choose|y: u64| in_buckets(filled, y) && #[trigger] covers(y, x);
                assert(input.contains(y));
                let i = choose|i: int| 0 <= i < input.len() && input[i] == y;
            }
            assert forall|x: u64| leaves(input, q).contains(x) implies leaves(out, q).contains(x) by {
                let i = choose|i: int| 0 <= i < input.len() && covers(#[trigger] input[i], x);
                assert(input.contains(input[i]));
                assert(in_buckets(filled, input[i]));
                assert(bucket_leaves(filled, q).contains(x));
                assert(bucket_leaves(k, q).contains(x));
                let y = choose|y: u64| in_buckets(k, y) && #[trigger] covers(y, x);
                lemma_concat_contains(k, RESOLUTION_COUNT as int, y);
                let j = choose|j: int| 0 <= j < out.len() && out[j] == y;
            }
            assert(leaves(out, q) =~= leaves(input, q));
        }
    }
    assert(covers_input(input, out)) by {
        assert forall|i: int| 0 <= i < input.len() implies has_cover(out, #[trigger] input[i]) by {
            assert(input.contains(input[i]));
            assert(in_buckets(filled, input[i]));
            assert(covered_in(k, input[i]));
            reveal(covered_in);
            let x = choose|x: u64| in_buckets(k, x) && covers(x, input[i]);
            let q = choose|q: int| 0 <= q < k.len() && (#[trigger] k[q]).contains(x);
            lemma_concat_contains(k, RESOLUTION_COUNT as int, x);
            let j = choose|j: int| 0 <= j < out.len() && out[j] == x;
        }
    }
    assert(within_input(input, out)) by {
        assert forall|j: int| 0 <= j < out.len() implies has_origin(input, #[trigger] out[j]) by {
            let x = out[j];
            assert(out.contains(x));
            lemma_concat_contains(k, RESOLUTION_COUNT as int, x);
            assert(in_buckets(k, x));
            assert(derived_in(filled, x));
            reveal(derived_in);
            let c = choose|c: u64| in_buckets(filled, c) && covers(x, c);
            assert(input.contains(c));
            let t = choose|t: int| 0 <= t < input.len() && input[t] == c;
        }
    }
    assert(all_cells(out));
    assert(out.no_duplicates());
    assert(ancestor_free(out));
}

impl CellIndexArray {
    /// Compacts cells that all have one resolution, through the grid library.
    pub fn compact(&self) -> (r: Result<Self, Error>)
        ensures
            r is Ok <==> (all_at_resolution(non_null(self@), res_of(non_null(self@)[0]))
                && non_null(self@).no_duplicates()),
            r matches Ok(a) ==> a@ == all_some(compact_of(non_null(self@))),
            r is Ok ==> covers_input(non_null(self@), compact_of(non_null(self@))) && within_input(
                non_null(self@),
                compact_of(non_null(self@)),
            ),
            r is Ok ==> compact_of(non_null(self@)).no_duplicates() && ancestor_free(compact_of(non_null(self@))),
            r is Ok ==> forall|q: u8|
                res_of(non_null(self@)[0]) <= q <= 15 ==> #[trigger] leaves(compact_of(non_null(self@)), q)
                    == leaves(non_null(self@), q),
            r is Ok ==> forall|j: int|
                0 <= j < compact_of(non_null(self@)).len() ==> maximal_in(
                    #[trigger] compact_of(non_null(self@))[j],
                    non_null(self@),
                    res_of(non_null(self@)[0]),
                ),
            r matches Err(e) ==> e == Error::CompactionError(
                if all_at_resolution(non_null(self@), res_of(non_null(self@)[0])) {
                    CompactionFailure::DuplicateInput
                } else {
                    CompactionFailure::HeterogeneousResolution
                },
            ),
    {
        let cells = self.to_valid_u64s();
        match cells_compact(&cells) {
            Ok(v) => {
                proof {
                    reveal(same_leaves_from);
                    reveal(minimal_cover);
                    assert forall|i: int| 0 <= i < cells@.len() implies has_cover(v@, #[trigger] cells@[i]) by {
                        let x = cells@[i];
                    }
                    assert forall|j: int| 0 <= j < v@.len() implies has_origin(cells@, #[trigger] v@[j]) by {
                        let x = v@[j];
                    }
                }
                Ok(valid_array_of(&v))
            },
            Err(e) => Err(Error::CompactionError(e)),
        }
    }

    /// Compacts cells of any resolutions (see `compacted_from`): same ground, each cell once,
    /// no cell beside one of its ancestors, no complete group of siblings left, ordered by
    /// resolution then value, no nulls. It never fails.
    pub fn compact_mixed_resolutions(&self) -> (r: Result<Self, Error>)
        ensures
            r matches Ok(a) && compacted_from(non_null(self@), a@),
    {
        let mut cellset = CellSet::new();
        let cells = self.to_valid_u64s();
        proof {
            assert forall|x: u64| !(#[trigger] in_buckets(cellset.buckets(), x)) by {
                if in_buckets(cellset.buckets(), x) {
                    let q = choose|q: int| 0 <= q < cellset.buckets().len() && (#[trigger] cellset.buckets()[q]).contains(x);
                    assert(cellset.buckets()[q] == Seq::<u64>::empty());
                }
            }
        }
        let mut i: usize = 0;
        while i < cells.len()
            invariant
                i <= cells@.len(),
                all_cells(cells@),
                cellset.wf(),
                forall|x: u64| #[trigger] in_buckets(cellset.buckets(), x) <==> cells@.take(i as int).contains(x),
                forall|q: int| 0 <= q < RESOLUTION_COUNT && cellset.buckets()[q].len() > 0 ==> #[trigger] cellset.modified()[q],
            decreases cells@.len() - i,
        {
            let ghost pre = cellset.buckets();
            cellset.insert_raw(cells[i]);
            proof {
                crate::index::lemma_res_of_bounded(cells@[i as int]);
                assert(cells@.take(i + 1) =~= cells@.take(i as int).push(cells@[i as int]));
                assert forall|x: u64| #[trigger] in_buckets(cellset.buckets(), x) <==> cells@.take(i + 1).contains(x) by {
                    lemma_insert_in_buckets(pre, res_of(cells@[i as int]) as int, cells@[i as int], x);
                    lemma_push_contains(cells@.take(i as int), cells@[i as int], x);
                }
            }
            i = i + 1;
        }
        assert(cells@.take(i as int) =~= cells@);
        let ghost filled = cellset.buckets();
        let ghost filled_modified = cellset.modified();
        let res = cellset.finalize(true);
        match res {
            Ok(()) => {},
            Err(e) => {
                return Err(e);
            },
        }
        let out = cellset.iter_compacted();
        proof {
            lemma_output_compacted(cells@, filled, filled_modified, cellset.buckets(), out@);
        }
        let a = valid_array_of(&out);
        Ok(a)
    }

    /// Expands every cell to its descendants at `resolution`, in order; nulls are skipped.
    pub fn uncompact(&self, resolution: Resolution) -> (r: Self)
        ensures
            r@ == all_some(uncompacted(non_null(self@), resolution@)),
            uncompacted(non_null(self@), resolution@).to_set() == leaves(non_null(self@), resolution@),
            forall|i: int| 0 <= i < non_null(self@).len() ==> children_ok(#[trigger] non_null(self@)[i], resolution@),
            forall|i: int| 0 <= i < uncompacted(non_null(self@), resolution@).len() ==> res_of(
                #[trigger] uncompacted(non_null(self@), resolution@)[i],
            ) == resolution@,
    {
        let cells = self.to_valid_u64s();
        let out = cells_uncompact(&cells, resolution.value());
        proof {
            lemma_uncompacted_res(cells@, resolution@);
        }
        let a = valid_array_of(&out);
        a
    }
}

/// What a mixed-resolution compaction of `input` hands out: cells only, each once, none an
/// ancestor of another, ordered by resolution and then by value; each input cell is among
/// them or has an ancestor among them, and each of them is an input cell or an ancestor of
/// one; at every resolution at least as fine as the input they cover exactly the cells the
/// input covers; and no complete group of siblings is left unmerged.
pub open spec fn compacted_from(input: Seq<u64>, s: Seq<Option<u64>>) -> bool {
    exists|c: Seq<u64>|
        #![trigger all_some(c)]
        s == all_some(c) && all_cells(c) && c.no_duplicates() && ancestor_free(c) && covers_input(input, c)
            && within_input(input, c) && same_ground(input, c) && no_full_group(c) && ordered_by_resolution(c)
}

/// Whether `c` runs from the coarsest resolution to the finest, and by value within one.
#[verifier::opaque]
pub open spec fn ordered_by_resolution(c: Seq<u64>) -> bool {
    forall|i: int, j: int|
        0 <= i < j < c.len() ==> res_of(#[trigger] c[i]) < res_of(#[trigger] c[j]) || (res_of(c[i]) == res_of(c[j])
            && c[i] < c[j])
}

/// No cell of `c` has all of its siblings (the children of its parent) in `c`.
#[verifier::opaque]
pub open spec fn no_full_group(c: Seq<u64>) -> bool {
    forall|j: int|
        0 <= j < c.len() && res_of(c[j]) > 0 ==> !all_children_in(
            parent_of(#[trigger] c[j], (res_of(c[j]) - 1) as u8),
            res_of(c[j]),
            c.to_set(),
        )
}

/// Whether no cell of `input` is finer than resolution `q`.
pub open spec fn inputs_at_most(input: Seq<u64>, q: u8) -> bool {
    forall|i: int| 0 <= i < input.len() ==> res_of(#[trigger] input[i]) <= q
}

/// At every resolution at least as fine as every cell of `input`, `c` covers exactly the
/// cells that `input` covers.
pub open spec fn same_ground(input: Seq<u64>, c: Seq<u64>) -> bool {
    forall|q: u8| q <= 15 && #[trigger] inputs_at_most(input, q) ==> leaves(c, q) == leaves(input, q)
}

/// Whether `x` is a cell of `c` or has an ancestor in `c`.
pub open spec fn has_cover(c: Seq<u64>, x: u64) -> bool {
    exists|j: int| 0 <= j < c.len() && covers(#[trigger] c[j], x)
}

/// Whether `x` is a cell of `input` or an ancestor of one.
pub open spec fn has_origin(input: Seq<u64>, x: u64) -> bool {
    exists|i: int| 0 <= i < input.len() && covers(x, #[trigger] input[i])
}

/// Each cell of `input` is a cell of `c` or has an ancestor in `c`.
pub open spec fn covers_input(input: Seq<u64>, c: Seq<u64>) -> bool {
    forall|i: int| 0 <= i < input.len() ==> has_cover(c, #[trigger] input[i])
}

/// Each cell of `c` is a cell of `input` or an ancestor of one.
pub open spec fn within_input(input: Seq<u64>, c: Seq<u64>) -> bool {
    forall|j: int| 0 <= j < c.len() ==> has_origin(input, #[trigger] c[j])
}

} // verus!
