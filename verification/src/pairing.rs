//! The persistence pairing is well defined: every reduction of a boundary matrix has
//! the same lowest entries, and the filtration order is unique, so a complex and its
//! distances determine their persistence diagram.
use vstd::prelude::*;
use crate::persistence::{
    symdiff, column_sum, column_sets, low_of, is_increasing, is_reduction, reduced_from, lemma_low_is_max,
    is_filtration_order, filtration_less, is_persistence_of, all_simplices, boundary_sets, reorder, pairs_of,
    PersistencePair, last_match, boundary_column, finite_pairs, essential_pairs, is_paired, filtration,
};
use crate::witness::SimplicialComplex;
use crate::faces::same_vertex_set;

verus! {

/// Every entry of `combo` names a column below `bound`.
pub open spec fn combo_below(combo: Seq<int>, bound: int) -> bool {
    forall|t: int| 0 <= t < combo.len() ==> 0 <= #[trigger] combo[t] < bound
}

/// `v` is a sum of columns of `cols` below `bound`.
pub open spec fn in_span(cols: Seq<Set<usize>>, bound: int, v: Set<usize>) -> bool {
    exists|combo: Seq<int>| combo_below(combo, bound) && #[trigger] column_sum(cols, combo) == v
}

/// `m` is the largest element of `s`.
pub open spec fn is_max(s: Set<usize>, m: usize) -> bool {
    s.contains(m) && forall|x: usize| #[trigger] s.contains(x) ==> x <= m
}

/// Summing the columns of two lists is summing the two sums.
proof fn lemma_sum_concat(cols: Seq<Set<usize>>, c1: Seq<int>, c2: Seq<int>)
    ensures
        column_sum(cols, c1 + c2) == symdiff(column_sum(cols, c1), column_sum(cols, c2)),
    decreases c2.len(),
{
    if c2.len() == 0 {
        assert(c1 + c2 =~= c1);
        assert(symdiff(column_sum(cols, c1), Set::<usize>::empty()) =~= column_sum(cols, c1));
    } else {
        let c2p = c2.drop_last();
        let x = c2.last();
        assert((c1 + c2).drop_last() =~= c1 + c2p);
        assert((c1 + c2).last() == x);
        lemma_sum_concat(cols, c1, c2p);
        assert(symdiff(symdiff(column_sum(cols, c1), column_sum(cols, c2p)), cols[x])
            =~= symdiff(column_sum(cols, c1), symdiff(column_sum(cols, c2p), cols[x])));
    }
}

/// The empty set is in every span.
proof fn lemma_span_empty(cols: Seq<Set<usize>>, bound: int)
    ensures
        in_span(cols, bound, Set::empty()),
{
    let e = Seq::<int>::empty();
    assert(combo_below(e, bound));
    assert(column_sum(cols, e) == Set::<usize>::empty());
}

/// A column is in the span of the columns up to and including it.
proof fn lemma_span_column(cols: Seq<Set<usize>>, bound: int, j: int)
    requires
        0 <= j < bound,
    ensures
        in_span(cols, bound, cols[j]),
{
    let c = seq![j];
    assert(combo_below(c, bound));
    assert(c.drop_last() =~= Seq::<int>::empty());
    assert(c.last() == j);
    assert(column_sum(cols, c.drop_last()) == Set::<usize>::empty());
    assert(column_sum(cols, c) =~= cols[j]);
}

/// A span grows with its bound.
proof fn lemma_span_mono(cols: Seq<Set<usize>>, b1: int, b2: int, v: Set<usize>)
    requires
        in_span(cols, b1, v),
        b1 <= b2,
    ensures
        in_span(cols, b2, v),
{
    let c = choose|combo: Seq<int>| combo_below(combo, b1) && #[trigger] column_sum(cols, combo) == v;
    assert(combo_below(c, b2));
}

/// A span is closed under sums.
proof fn lemma_span_symdiff(cols: Seq<Set<usize>>, bound: int, u: Set<usize>, v: Set<usize>)
    requires
        in_span(cols, bound, u),
        in_span(cols, bound, v),
    ensures
        in_span(cols, bound, symdiff(u, v)),
{
    let cu = choose|combo: Seq<int>| combo_below(combo, bound) && #[trigger] column_sum(cols, combo) == u;
    let cv = choose|combo: Seq<int>| combo_below(combo, bound) && #[trigger] column_sum(cols, combo) == v;
    lemma_sum_concat(cols, cu, cv);
    assert(combo_below(cu + cv, bound)) by {
        assert forall|t: int| 0 <= t < (cu + cv).len() implies 0 <= #[trigger] (cu + cv)[t] < bound by {
            if t < cu.len() {
                assert((cu + cv)[t] == cu[t]);
            } else {
                assert((cu + cv)[t] == cv[t - cu.len()]);
            }
        }
    }
}

/// When each column of `a` below `bound` is in the span of `b` below `bound`, so is
/// every sum of them.
proof fn lemma_span_transfer(a: Seq<Set<usize>>, b: Seq<Set<usize>>, bound: int, combo: Seq<int>)
    requires
        combo_below(combo, bound),
        forall|j: int| 0 <= j < bound ==> in_span(b, bound, #[trigger] a[j]),
    ensures
        in_span(b, bound, column_sum(a, combo)),
    decreases combo.len(),
{
    if combo.len() == 0 {
        lemma_span_empty(b, bound);
    } else {
        let rest = combo.drop_last();
        let x = combo.last();
        assert(combo_below(rest, bound)) by {
            assert forall|t: int| 0 <= t < rest.len() implies 0 <= #[trigger] rest[t] < bound by {
                assert(rest[t] == combo[t]);
            }
        }
        assert(0 <= combo[combo.len() - 1] < bound);
        lemma_span_transfer(a, b, bound, rest);
        assert(in_span(b, bound, a[x]));
        lemma_span_symdiff(b, bound, column_sum(a, rest), a[x]);
    }
}

/// A sum of columns below `i + 1` is a sum of columns below `i`, with or without column `i`.
proof fn lemma_split(cols: Seq<Set<usize>>, i: int, combo: Seq<int>) -> (res: (Seq<int>, bool))
    requires
        combo_below(combo, i + 1),
    ensures
        combo_below(res.0, i),
        column_sum(cols, combo) == (if res.1 { symdiff(column_sum(cols, res.0), cols[i]) } else { column_sum(cols, res.0) }),
    decreases combo.len(),
{
    if combo.len() == 0 {
        (Seq::<int>::empty(), false)
    } else {
        let rest = combo.drop_last();
        let x = combo.last();
        assert(combo_below(rest, i + 1)) by {
            assert forall|t: int| 0 <= t < rest.len() implies 0 <= #[trigger] rest[t] < i + 1 by {
                assert(rest[t] == combo[t]);
            }
        }
        assert(0 <= combo[combo.len() - 1] < i + 1);
        let (c2, b) = lemma_split(cols, i, rest);
        let u = column_sum(cols, c2);
        if x == i {
            if b {
                assert(symdiff(symdiff(u, cols[i]), cols[i]) =~= u);
            }
            (c2, !b)
        } else {
            let c3 = c2.push(x);
            assert(c3.drop_last() =~= c2);
            assert(combo_below(c3, i)) by {
                assert forall|t: int| 0 <= t < c3.len() implies 0 <= #[trigger] c3[t] < i by {
                    if t < c2.len() { assert(c3[t] == c2[t]); }
                }
            }
            if b {
                assert(symdiff(symdiff(u, cols[i]), cols[x]) =~= symdiff(symdiff(u, cols[x]), cols[i]));
            }
            (c3, b)
        }
    }
}

/// Each boundary column is a sum of reduced columns up to and including its own.
proof fn lemma_boundary_in_reduced_span(d: Seq<Set<usize>>, r: Seq<Seq<usize>>, low: Seq<Option<usize>>, j: int)
    requires
        is_reduction(d, r, low),
        0 <= j < r.len(),
    ensures
        in_span(column_sets(r), j + 1, d[j]),
{
    let rs = column_sets(r);
    assert(reduced_from(d, r, j));
    let combo = choose|combo: Seq<int>|
        (forall|t: int| 0 <= t < combo.len() ==> 0 <= #[trigger] combo[t] < j)
            && r[j].to_set() == symdiff(d[j], #[trigger] column_sum(column_sets(r), combo));
    let c2 = combo.push(j);
    assert(c2.drop_last() =~= combo);
    assert(rs[j] == r[j].to_set());
    assert(column_sum(rs, c2) =~= d[j]);
    assert(combo_below(c2, j + 1)) by {
        assert forall|t: int| 0 <= t < c2.len() implies 0 <= #[trigger] c2[t] < j + 1 by {
            if t < combo.len() { assert(c2[t] == combo[t]); }
        }
    }
}

/// Each reduced column is a sum of boundary columns up to and including its own.
proof fn lemma_reduced_in_boundary_span(d: Seq<Set<usize>>, r: Seq<Seq<usize>>, low: Seq<Option<usize>>, j: int)
    requires
        is_reduction(d, r, low),
        0 <= j < r.len(),
    ensures
        in_span(d, j + 1, column_sets(r)[j]),
    decreases j,
{
    let rs = column_sets(r);
    assert(reduced_from(d, r, j));
    let combo = choose|combo: Seq<int>|
        (forall|t: int| 0 <= t < combo.len() ==> 0 <= #[trigger] combo[t] < j)
            && r[j].to_set() == symdiff(d[j], #[trigger] column_sum(column_sets(r), combo));
    assert forall|i: int| 0 <= i < j implies in_span(d, j, #[trigger] rs[i]) by {
        lemma_reduced_in_boundary_span(d, r, low, i);
        lemma_span_mono(d, i + 1, j, rs[i]);
    }
    assert(combo_below(combo, j));
    lemma_span_transfer(rs, d, j, combo);
    lemma_span_mono(d, j, j + 1, column_sum(rs, combo));
    lemma_span_column(d, j + 1, j);
    lemma_span_symdiff(d, j + 1, d[j], column_sum(rs, combo));
    assert(rs[j] == r[j].to_set());
}

/// A column of a reduction has its lowest entry as its largest element.
proof fn lemma_low_of_column(r: Seq<Seq<usize>>, low: Seq<Option<usize>>, i: int)
    requires
        0 <= i < r.len(),
        is_increasing(r[i]),
        low[i] == low_of(r[i]),
    ensures
        low[i] is None ==> column_sets(r)[i] =~= Set::<usize>::empty(),
        low[i] is Some ==> is_max(column_sets(r)[i], low[i]->0),
{
    let c = r[i];
    assert(column_sets(r)[i] == c.to_set());
    if c.len() > 0 {
        assert(c.to_set().contains(c.last()));
        assert forall|x: usize| #[trigger] c.to_set().contains(x) implies x <= c.last() by {
            lemma_low_is_max(c, x);
        }
    } else {
        assert(c.to_set() =~= Set::<usize>::empty());
    }
}

/// A nonzero sum of columns of a reduction, all below `bound`, has for its largest
/// element the lowest entry of one of those columns.
proof fn lemma_span_max(d: Seq<Set<usize>>, r: Seq<Seq<usize>>, low: Seq<Option<usize>>, bound: int, combo: Seq<int>)
    requires
        is_reduction(d, r, low),
        0 <= bound <= r.len(),
        combo_below(combo, bound),
    ensures
        column_sum(column_sets(r), combo) =~= Set::<usize>::empty()
            || exists|j: int| 0 <= j < bound && #[trigger] low[j] is Some && is_max(column_sum(column_sets(r), combo), low[j]->0),
    decreases bound,
{
    let rs = column_sets(r);
    if bound == 0 {
        if combo.len() > 0 {
            assert(0 <= combo[0] < bound);
        }
    } else {
        let i = bound - 1;
        let (c2, b) = lemma_split(rs, i, combo);
        lemma_span_max(d, r, low, i, c2);
        let u = column_sum(rs, c2);
        let v = column_sum(rs, combo);
        if b {
            lemma_low_of_column(r, low, i);
            if low[i] is None {
                assert(v =~= u);
                if !(u =~= Set::<usize>::empty()) {
                    let j = choose|j: int| 0 <= j < i && #[trigger] low[j] is Some && is_max(u, low[j]->0);
                    assert(0 <= j < bound && low[j] is Some && is_max(v, low[j]->0));
                }
            } else {
                let l = low[i]->0;
                if u =~= Set::<usize>::empty() {
                    assert(v =~= rs[i]);
                    assert(low[i] is Some && is_max(v, low[i]->0));
                } else {
                    let j = choose|j: int| 0 <= j < i && #[trigger] low[j] is Some && is_max(u, low[j]->0);
                    let m = low[j]->0;
                    assert(low[j] != low[i]);
                    if m > l {
                        assert(!rs[i].contains(m));
                        assert(is_max(v, m));
                    } else {
                        assert(!u.contains(l));
                        assert(is_max(v, l));
                        assert(low[i] is Some && is_max(v, low[i]->0));
                    }
                }
            }
        } else {
            if !(u =~= Set::<usize>::empty()) {
                let j = choose|j: int| 0 <= j < i && #[trigger] low[j] is Some && is_max(u, low[j]->0);
                assert(0 <= j < bound && low[j] is Some && is_max(v, low[j]->0));
            }
        }
    }
}

/// Two reductions of the same boundary matrix agree on the lowest entries of their
/// first `i` columns.
proof fn lemma_lows_agree_below(
    d: Seq<Set<usize>>,
    r1: Seq<Seq<usize>>,
    low1: Seq<Option<usize>>,
    r2: Seq<Seq<usize>>,
    low2: Seq<Option<usize>>,
    i: int,
)
    requires
        is_reduction(d, r1, low1),
        is_reduction(d, r2, low2),
        0 <= i <= d.len(),
    ensures
        forall|j: int| 0 <= j < i ==> #[trigger] low1[j] == low2[j],
    decreases i,
{
    if i > 0 {
        let k = i - 1;
        lemma_lows_agree_below(d, r1, low1, r2, low2, k);
        let rs1 = column_sets(r1);
        let rs2 = column_sets(r2);
        assert(reduced_from(d, r1, k));
        assert(reduced_from(d, r2, k));
        let c1 = choose|combo: Seq<int>|
            (forall|t: int| 0 <= t < combo.len() ==> 0 <= #[trigger] combo[t] < k)
                && r1[k].to_set() == symdiff(d[k], #[trigger] column_sum(column_sets(r1), combo));
        let c2 = choose|combo: Seq<int>|
            (forall|t: int| 0 <= t < combo.len() ==> 0 <= #[trigger] combo[t] < k)
                && r2[k].to_set() == symdiff(d[k], #[trigger] column_sum(column_sets(r2), combo));
        let s1 = column_sum(rs1, c1);
        let s2 = column_sum(rs2, c2);
        // the difference of the two reduced columns is a sum of earlier reduced columns
        assert forall|j: int| 0 <= j < k implies in_span(d, k, #[trigger] rs2[j]) by {
            lemma_reduced_in_boundary_span(d, r2, low2, j);
            lemma_span_mono(d, j + 1, k, rs2[j]);
        }
        assert(combo_below(c2, k));
        lemma_span_transfer(rs2, d, k, c2);
        assert forall|j: int| 0 <= j < k implies in_span(rs1, k, #[trigger] d[j]) by {
            lemma_boundary_in_reduced_span(d, r1, low1, j);
            lemma_span_mono(rs1, j + 1, k, d[j]);
        }
        let c2d = choose|combo: Seq<int>| combo_below(combo, k) && #[trigger] column_sum(d, combo) == s2;
        lemma_span_transfer(d, rs1, k, c2d);
        assert(combo_below(c1, k));
        assert(in_span(rs1, k, s1));
        lemma_span_symdiff(rs1, k, s1, s2);
        let w = symdiff(s1, s2);
        assert(rs1[k] == r1[k].to_set());
        assert(rs2[k] == r2[k].to_set());
        assert(symdiff(rs1[k], rs2[k]) =~= w) by {
            let a = symdiff(d[k], s1);
            let b = symdiff(d[k], s2);
            assert(rs1[k] == a);
            assert(rs2[k] == b);
            assert forall|x: usize| #[trigger] symdiff(a, b).contains(x) == w.contains(x) by {
                if d[k].contains(x) {
                    assert(a.contains(x) == !s1.contains(x));
                    assert(b.contains(x) == !s2.contains(x));
                } else {
                    assert(a.contains(x) == s1.contains(x));
                    assert(b.contains(x) == s2.contains(x));
                }
            }
            assert(symdiff(a, b) =~= w);
        }
        let cw = choose|combo: Seq<int>| combo_below(combo, k) && #[trigger] column_sum(rs1, combo) == w;
        lemma_span_max(d, r1, low1, k, cw);
        lemma_low_of_column(r1, low1, k);
        lemma_low_of_column(r2, low2, k);
        if low1[k] != low2[k] {
            if low1[k] is Some && (low2[k] is None || low2[k]->0 < low1[k]->0) {
                let a = low1[k]->0;
                assert(!rs2[k].contains(a));
                assert(is_max(w, a));
                let j = choose|j: int| 0 <= j < k && #[trigger] low1[j] is Some && is_max(w, low1[j]->0);
                assert(low1[j]->0 == a);
                assert(low1[j] != low1[k]);
            } else {
                let b = low2[k]->0;
                assert(low2[k] is Some);
                assert(!rs1[k].contains(b));
                assert(is_max(w, b));
                let j = choose|j: int| 0 <= j < k && #[trigger] low1[j] is Some && is_max(w, low1[j]->0);
                assert(low1[j]->0 == b);
                assert(low1[j] == low2[j]);
                assert(low2[j] != low2[k]);
            }
        }
    }
}

/// Every reduction of a boundary matrix has the same lowest entries: which simplex each
/// column pairs with does not depend on the column additions that reduced it.
pub proof fn lemma_reduction_lows_unique(
    d: Seq<Set<usize>>,
    r1: Seq<Seq<usize>>,
    low1: Seq<Option<usize>>,
    r2: Seq<Seq<usize>>,
    low2: Seq<Option<usize>>,
)
    requires
        is_reduction(d, r1, low1),
        is_reduction(d, r2, low2),
    ensures
        low1 == low2,
{
    lemma_lows_agree_below(d, r1, low1, r2, low2, d.len() as int);
    assert(low1 =~= low2);
}

/// Two filtration orders of the same simplices agree on their first `k` positions.
proof fn lemma_orders_agree_below(a: Seq<Seq<usize>>, dist: Seq<Seq<u64>>, o1: Seq<usize>, o2: Seq<usize>, k: int)
    requires
        is_filtration_order(a, dist, o1),
        is_filtration_order(a, dist, o2),
        0 <= k <= o1.len(),
    ensures
        forall|t: int| 0 <= t < k ==> #[trigger] o1[t] == o2[t],
    decreases k,
{
    if k > 0 {
        let i = k - 1;
        lemma_orders_agree_below(a, dist, o1, o2, i);
        let x = o1[i];
        let y = o2[i];
        assert(x < a.len() && y < a.len());
        assert(o2.contains(x));
        assert(o1.contains(y));
        let p = choose|p: int| 0 <= p < o2.len() && o2[p] == x;
        let q = choose|q: int| 0 <= q < o1.len() && o1[q] == y;
        if p < i {
            assert(o1[p] == o2[p]);
            assert(filtration_less(a, dist, o1[p] as int, o1[i] as int));
        }
        if q < i {
            assert(o1[q] == o2[q]);
            assert(filtration_less(a, dist, o2[q] as int, o2[i] as int));
        }
        if x != y {
            assert(p != i);
            assert(q != i);
            assert(filtration_less(a, dist, o2[i] as int, o2[p] as int));
            assert(filtration_less(a, dist, o1[i] as int, o1[q] as int));
        }
    }
}

/// The filtration order of a list of simplices is unique.
pub proof fn lemma_filtration_order_unique(a: Seq<Seq<usize>>, dist: Seq<Seq<u64>>, o1: Seq<usize>, o2: Seq<usize>)
    requires
        is_filtration_order(a, dist, o1),
        is_filtration_order(a, dist, o2),
    ensures
        o1 == o2,
{
    lemma_orders_agree_below(a, dist, o1, o2, o1.len() as int);
    assert(o1 =~= o2);
}

/// The persistence diagram of a complex filtered by the diameter keys in `dist` is
/// unique: any two diagrams that meet its definition are the same list of pairs.
pub proof fn lemma_persistence_unique(c: SimplicialComplex, dist: Seq<Seq<u64>>, p1: Seq<PersistencePair>, p2: Seq<PersistencePair>)
    requires
        is_persistence_of(c, dist, p1),
        is_persistence_of(c, dist, p2),
    ensures
        p1 == p2,
{
    let a = all_simplices(c);
    let (o1, r1, l1) = choose|order: Seq<usize>, r: Seq<Seq<usize>>, low: Seq<Option<usize>>|
        #[trigger] is_filtration_order(a, dist, order)
            && #[trigger] is_reduction(boundary_sets(reorder(a, order)), r, low)
            && p1 == pairs_of(reorder(a, order), dist, low);
    let (o2, r2, l2) = choose|order: Seq<usize>, r: Seq<Seq<usize>>, low: Seq<Option<usize>>|
        #[trigger] is_filtration_order(a, dist, order)
            && #[trigger] is_reduction(boundary_sets(reorder(a, order)), r, low)
            && p2 == pairs_of(reorder(a, order), dist, low);
    lemma_filtration_order_unique(a, dist, o1, o2);
    lemma_reduction_lows_unique(boundary_sets(reorder(a, o1)), r1, l1, r2, l2);
}

/// Each column of `d` has rows below `n`, each of weight one less than the column's.
pub open spec fn is_graded(d: Seq<Set<usize>>, w: spec_fn(int) -> int) -> bool {
    forall|x: int, y: usize| 0 <= x < d.len() && #[trigger] d[x].contains(y) ==> y < d.len() && w(y as int) == w(x) - 1
}

/// Every row of a sum of columns of weight `p` has weight `p - 1`; every row of a sum of
/// columns of other weights has a weight other than `p - 1`.
proof fn lemma_sum_rows_weight(d: Seq<Set<usize>>, w: spec_fn(int) -> int, p: int, combo: Seq<int>, same: bool)
    requires
        is_graded(d, w),
        combo_below(combo, d.len() as int),
        forall|t: int| 0 <= t < combo.len() ==> (w(#[trigger] combo[t]) == p) == same,
    ensures
        forall|y: usize| #[trigger] column_sum(d, combo).contains(y) ==> (w(y as int) == p - 1) == same,
    decreases combo.len(),
{
    if combo.len() > 0 {
        let rest = combo.drop_last();
        assert forall|t: int| 0 <= t < rest.len() implies (w(#[trigger] rest[t]) == p) == same && 0 <= rest[t] < d.len() by {
            assert(rest[t] == combo[t]);
        }
        lemma_sum_rows_weight(d, w, p, rest, same);
        let x = combo.last();
        assert(0 <= combo[combo.len() - 1] < d.len());
        assert((w(combo[combo.len() - 1]) == p) == same);
        assert forall|y: usize| #[trigger] column_sum(d, combo).contains(y) implies (w(y as int) == p - 1) == same by {
            if d[x].contains(y) {
                assert(w(y as int) == w(x) - 1);
            } else {
                assert(column_sum(d, rest).contains(y));
            }
        }
    }
}

/// A sum of columns splits into the sum of those of weight `p` and the sum of the others.
proof fn lemma_split_weight(d: Seq<Set<usize>>, w: spec_fn(int) -> int, p: int, bound: int, combo: Seq<int>)
    -> (res: (Seq<int>, Seq<int>))
    requires
        combo_below(combo, bound),
    ensures
        combo_below(res.0, bound),
        combo_below(res.1, bound),
        forall|t: int| 0 <= t < res.0.len() ==> w(#[trigger] res.0[t]) == p,
        forall|t: int| 0 <= t < res.1.len() ==> w(#[trigger] res.1[t]) != p,
        column_sum(d, combo) == symdiff(column_sum(d, res.0), column_sum(d, res.1)),
    decreases combo.len(),
{
    if combo.len() == 0 {
        let e = Seq::<int>::empty();
        assert(symdiff(Set::<usize>::empty(), Set::<usize>::empty()) =~= Set::<usize>::empty());
        (e, e)
    } else {
        let rest = combo.drop_last();
        let x = combo.last();
        assert(combo_below(rest, bound)) by {
            assert forall|t: int| 0 <= t < rest.len() implies 0 <= #[trigger] rest[t] < bound by {
                assert(rest[t] == combo[t]);
            }
        }
        assert(0 <= combo[combo.len() - 1] < bound);
        let (a, b) = lemma_split_weight(d, w, p, bound, rest);
        let (sa, sb) = (column_sum(d, a), column_sum(d, b));
        if w(x) == p {
            let a2 = a.push(x);
            assert(a2.drop_last() =~= a);
            assert(combo_below(a2, bound)) by {
                assert forall|t: int| 0 <= t < a2.len() implies 0 <= #[trigger] a2[t] < bound by {
                    if t < a.len() { assert(a2[t] == a[t]); }
                }
            }
            assert forall|t: int| 0 <= t < a2.len() implies w(#[trigger] a2[t]) == p by {
                if t < a.len() { assert(a2[t] == a[t]); }
            }
            assert(symdiff(symdiff(sa, sb), d[x]) =~= symdiff(symdiff(sa, d[x]), sb));
            (a2, b)
        } else {
            let b2 = b.push(x);
            assert(b2.drop_last() =~= b);
            assert(combo_below(b2, bound)) by {
                assert forall|t: int| 0 <= t < b2.len() implies 0 <= #[trigger] b2[t] < bound by {
                    if t < b.len() { assert(b2[t] == b[t]); }
                }
            }
            assert forall|t: int| 0 <= t < b2.len() implies w(#[trigger] b2[t]) != p by {
                if t < b.len() { assert(b2[t] == b[t]); }
            }
            assert(symdiff(symdiff(sa, sb), d[x]) =~= symdiff(sa, symdiff(sb, d[x])));
            (a, b2)
        }
    }
}

/// In every reduction of a graded boundary matrix, the lowest entry of a column has
/// weight one less than the column.
proof fn lemma_low_weight(d: Seq<Set<usize>>, w: spec_fn(int) -> int, r: Seq<Seq<usize>>, low: Seq<Option<usize>>, m: int)
    requires
        is_reduction(d, r, low),
        is_graded(d, w),
        0 <= m < d.len(),
        low[m] is Some,
    ensures
        w(low[m]->0 as int) == w(m) - 1,
{
    let rs = column_sets(r);
    let p = w(m);
    let l = low[m]->0;
    lemma_reduced_in_boundary_span(d, r, low, m);
    let combo = choose|combo: Seq<int>| combo_below(combo, m + 1) && #[trigger] column_sum(d, combo) == rs[m];
    let (cs, co) = lemma_split_weight(d, w, p, m + 1, combo);
    let r0 = column_sum(d, cs);
    let wo = column_sum(d, co);
    assert(combo_below(cs, d.len() as int));
    assert(combo_below(co, d.len() as int));
    lemma_sum_rows_weight(d, w, p, cs, true);
    lemma_sum_rows_weight(d, w, p, co, false);
    assert(combo_below(co, m)) by {
        assert forall|t: int| 0 <= t < co.len() implies 0 <= #[trigger] co[t] < m by {
            assert(w(co[t]) != p);
        }
    }
    lemma_low_of_column(r, low, m);
    assert(rs[m].contains(l));
    if w(l as int) != p - 1 {
        assert(!r0.contains(l));
        assert(wo.contains(l));
        assert forall|j: int| 0 <= j < m implies in_span(rs, m, #[trigger] d[j]) by {
            lemma_boundary_in_reduced_span(d, r, low, j);
            lemma_span_mono(rs, j + 1, m, d[j]);
        }
        lemma_span_transfer(d, rs, m, co);
        let c2 = choose|c: Seq<int>| combo_below(c, m) && #[trigger] column_sum(rs, c) == wo;
        lemma_span_max(d, r, low, m, c2);
        assert(!(wo =~= Set::<usize>::empty()));
        let j = choose|j: int| 0 <= j < m && #[trigger] low[j] is Some && is_max(wo, low[j]->0);
        let lj = low[j]->0;
        assert(wo.contains(lj));
        assert(!r0.contains(lj)) by {
            assert((w(lj as int) == p - 1) == false);
        }
        assert(rs[m].contains(lj));
        assert(lj <= l);
        assert(l <= lj);
        assert(low[j] == low[m]);
    }
}

/// A class is killed by a simplex with one vertex more than the simplex that gave it
/// birth: in every reduction of the boundary matrix of a list of simplices, the lowest
/// entry of a column is a simplex with one vertex fewer than the column's.
pub proof fn lemma_pairs_join_consecutive_dimensions(
    s: Seq<Seq<usize>>,
    r: Seq<Seq<usize>>,
    low: Seq<Option<usize>>,
    m: int,
)
    requires
        is_reduction(boundary_sets(s), r, low),
        0 <= m < s.len(),
        low[m] is Some,
    ensures
        s[low[m]->0 as int].len() + 1 == s[m].len(),
{
    let d = boundary_sets(s);
    let w = |x: int| s[x].len() as int;
    assert(is_graded(d, w)) by {
        assert forall|x: int, y: usize| 0 <= x < d.len() && #[trigger] d[x].contains(y) implies y < d.len() && w(y as int) == w(x) - 1 by {
            assert(d[x] == boundary_column(s, x));
            let j = choose|j: int| 0 <= j < s[x].len() && #[trigger] last_match(s, s[x].remove(j), y as int);
            s[y as int].to_multiset_ensures();
            s[x].remove(j).to_multiset_ensures();
            assert(same_vertex_set(s[y as int], s[x].remove(j)));
        }
    }
    lemma_low_weight(d, w, r, low, m);
}

/// The finite class that column `i` of a reduction kills, read off the simplices `s`.
pub open spec fn killed_class(s: Seq<Seq<usize>>, dist: Seq<Seq<u64>>, low: Seq<Option<usize>>, i: int) -> PersistencePair {
    PersistencePair {
        dim: (s[low[i]->0 as int].len() - 1) as usize,
        birth: filtration(s[low[i]->0 as int], dist),
        death: Some(filtration(s[i], dist)),
    }
}

/// The class that simplex `k` of `s` gives birth to, when it never dies.
pub open spec fn lasting_class(s: Seq<Seq<usize>>, dist: Seq<Seq<u64>>, k: int) -> PersistencePair {
    PersistencePair { dim: (s[k].len() - 1) as usize, birth: filtration(s[k], dist), death: None }
}

/// Column `i` has a lowest entry `l`, and dies strictly after `l` was born.
pub open spec fn kills_later(s: Seq<Seq<usize>>, dist: Seq<Seq<u64>>, low: Seq<Option<usize>>, i: int) -> bool {
    low[i] is Some && filtration(s[i], dist) > filtration(s[low[i]->0 as int], dist)
}

/// Simplex `k` reduced to zero, and no column has its lowest entry at `k`.
pub open spec fn never_killed(low: Seq<Option<usize>>, k: int) -> bool {
    low[k] is None && !exists|j: int| 0 <= j < low.len() && low[j] == Some(k as usize)
}

proof fn lemma_finite_pairs_are_kills(s: Seq<Seq<usize>>, dist: Seq<Seq<u64>>, low: Seq<Option<usize>>, m: int)
    requires
        0 <= m <= low.len(),
    ensures
        forall|i: int| 0 <= i < m && kills_later(s, dist, low, i) ==> #[trigger] finite_pairs(s, dist, low, m).contains(killed_class(s, dist, low, i)),
        forall|p: PersistencePair| #[trigger] finite_pairs(s, dist, low, m).contains(p)
            ==> exists|i: int| 0 <= i < m && kills_later(s, dist, low, i) && p == #[trigger] killed_class(s, dist, low, i),
    decreases m,
{
    if m > 0 {
        lemma_finite_pairs_are_kills(s, dist, low, m - 1);
        let prev = finite_pairs(s, dist, low, m - 1);
        let cur = finite_pairs(s, dist, low, m);
        assert forall|i: int| 0 <= i < m && kills_later(s, dist, low, i) implies #[trigger] cur.contains(killed_class(s, dist, low, i)) by {
            if i < m - 1 {
                assert(prev.contains(killed_class(s, dist, low, i)));
                let x = choose|x: int| 0 <= x < prev.len() && prev[x] == killed_class(s, dist, low, i);
                assert(cur[x] == prev[x]);
            } else {
                assert(cur == prev.push(killed_class(s, dist, low, i)));
                assert(cur[prev.len() as int] == killed_class(s, dist, low, i));
            }
        }
        assert forall|p: PersistencePair| #[trigger] cur.contains(p)
            implies exists|i: int| 0 <= i < m && kills_later(s, dist, low, i) && p == #[trigger] killed_class(s, dist, low, i) by {
            let x = choose|x: int| 0 <= x < cur.len() && cur[x] == p;
            if x < prev.len() {
                assert(prev[x] == cur[x]);
                assert(prev.contains(p));
            } else {
                assert(kills_later(s, dist, low, m - 1));
                assert(p == killed_class(s, dist, low, m - 1));
            }
        }
    }
}

proof fn lemma_essential_pairs_are_lasting(s: Seq<Seq<usize>>, dist: Seq<Seq<u64>>, low: Seq<Option<usize>>, m: int)
    requires
        0 <= m <= low.len(),
    ensures
        forall|k: int| 0 <= k < m && never_killed(low, k) ==> #[trigger] essential_pairs(s, dist, low, m).contains(lasting_class(s, dist, k)),
        forall|p: PersistencePair| #[trigger] essential_pairs(s, dist, low, m).contains(p)
            ==> exists|k: int| 0 <= k < m && never_killed(low, k) && p == #[trigger] lasting_class(s, dist, k),
    decreases m,
{
    if m > 0 {
        lemma_essential_pairs_are_lasting(s, dist, low, m - 1);
        let prev = essential_pairs(s, dist, low, m - 1);
        let cur = essential_pairs(s, dist, low, m);
        assert(never_killed(low, m - 1) == (!is_paired(low, m - 1) && low[m - 1] is None));
        assert forall|k: int| 0 <= k < m && never_killed(low, k) implies #[trigger] cur.contains(lasting_class(s, dist, k)) by {
            if k < m - 1 {
                assert(prev.contains(lasting_class(s, dist, k)));
                let x = choose|x: int| 0 <= x < prev.len() && prev[x] == lasting_class(s, dist, k);
                assert(cur[x] == prev[x]);
            } else {
                assert(cur == prev.push(lasting_class(s, dist, k)));
                assert(cur[prev.len() as int] == lasting_class(s, dist, k));
            }
        }
        assert forall|p: PersistencePair| #[trigger] cur.contains(p)
            implies exists|k: int| 0 <= k < m && never_killed(low, k) && p == #[trigger] lasting_class(s, dist, k) by {
            let x = choose|x: int| 0 <= x < cur.len() && cur[x] == p;
            if x < prev.len() {
                assert(prev[x] == cur[x]);
                assert(prev.contains(p));
            } else {
                assert(p == lasting_class(s, dist, m - 1));
            }
        }
    }
}

/// The persistence diagram is the pairing of the reduction of the boundary matrix, the
/// simplices taken in filtration order: for every column `i` whose lowest entry `l` was
/// born strictly earlier, whatever their dimensions, the diagram holds the class of
/// dimension `|s[l]| - 1` born at the filtration value of `s[l]` and dying at that of
/// `s[i]` (a loop of edges filled by a later triangle shows as a finite class of
/// dimension 1); for every simplex whose column reduced to zero and that no column
/// kills, the class of its dimension born at its filtration value that never dies; and
/// the diagram holds nothing else.
pub proof fn lemma_diagram_is_pairing(
    c: SimplicialComplex,
    dist: Seq<Seq<u64>>,
    pairs: Seq<PersistencePair>,
    order: Seq<usize>,
    r: Seq<Seq<usize>>,
    low: Seq<Option<usize>>,
)
    requires
        is_persistence_of(c, dist, pairs),
        is_filtration_order(all_simplices(c), dist, order),
        is_reduction(boundary_sets(reorder(all_simplices(c), order)), r, low),
    ensures
        forall|i: int| 0 <= i < order.len() && kills_later(reorder(all_simplices(c), order), dist, low, i)
            ==> #[trigger] pairs.contains(killed_class(reorder(all_simplices(c), order), dist, low, i)),
        forall|k: int| 0 <= k < order.len() && never_killed(low, k)
            ==> #[trigger] pairs.contains(lasting_class(reorder(all_simplices(c), order), dist, k)),
        forall|p: PersistencePair| #[trigger] pairs.contains(p) ==> {
            ||| exists|i: int| 0 <= i < order.len() && kills_later(reorder(all_simplices(c), order), dist, low, i)
                && p == #[trigger] killed_class(reorder(all_simplices(c), order), dist, low, i)
            ||| exists|k: int| 0 <= k < order.len() && never_killed(low, k)
                && p == #[trigger] lasting_class(reorder(all_simplices(c), order), dist, k)
        },
{
    let a = all_simplices(c);
    let (o2, r2, l2) = choose|order: Seq<usize>, r: Seq<Seq<usize>>, low: Seq<Option<usize>>|
        #[trigger] is_filtration_order(a, dist, order)
            && #[trigger] is_reduction(boundary_sets(reorder(a, order)), r, low)
            && pairs == pairs_of(reorder(a, order), dist, low);
    lemma_filtration_order_unique(a, dist, order, o2);
    lemma_reduction_lows_unique(boundary_sets(reorder(a, order)), r, low, r2, l2);
    let s = reorder(a, order);
    let n = s.len() as int;
    assert(pairs == finite_pairs(s, dist, low, n) + essential_pairs(s, dist, low, n));
    lemma_finite_pairs_are_kills(s, dist, low, n);
    lemma_essential_pairs_are_lasting(s, dist, low, n);
    let f = finite_pairs(s, dist, low, n);
    let e = essential_pairs(s, dist, low, n);
    assert forall|i: int| 0 <= i < order.len() && kills_later(s, dist, low, i) implies #[trigger] pairs.contains(killed_class(s, dist, low, i)) by {
        assert(f.contains(killed_class(s, dist, low, i)));
        let x = choose|x: int| 0 <= x < f.len() && f[x] == killed_class(s, dist, low, i);
        assert(pairs[x] == f[x]);
    }
    assert forall|k: int| 0 <= k < order.len() && never_killed(low, k) implies #[trigger] pairs.contains(lasting_class(s, dist, k)) by {
        assert(e.contains(lasting_class(s, dist, k)));
        let x = choose|x: int| 0 <= x < e.len() && e[x] == lasting_class(s, dist, k);
        assert(pairs[f.len() + x] == e[x]);
    }
    assert forall|p: PersistencePair| #[trigger] pairs.contains(p) implies {
        ||| exists|i: int| 0 <= i < order.len() && kills_later(s, dist, low, i) && p == #[trigger] killed_class(s, dist, low, i)
        ||| exists|k: int| 0 <= k < order.len() && never_killed(low, k) && p == #[trigger] lasting_class(s, dist, k)
    } by {
        let x = choose|x: int| 0 <= x < pairs.len() && pairs[x] == p;
        if x < f.len() {
            assert(f[x] == p);
            assert(f.contains(p));
        } else {
            assert(e[x - f.len()] == p);
            assert(e.contains(p));
        }
    }
}

} // verus!
