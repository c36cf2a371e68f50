//! A nonempty complex keeps a connected component forever: its persistence diagram has a
//! class of dimension 0 that never dies.
use vstd::prelude::*;
use crate::faces::{same_vertex_set, is_face};
use crate::landmark::lemma_below_len;
use crate::pairing::combo_below;
use crate::persistence::{
    symdiff, column_sum, column_sets, is_reduction, reduced_from, simplices_below, all_simplices, held_below,
    is_filtration_order, filtration_less, reorder, boundary_column, boundary_sets, last_match,
    lemma_simplices_below_held, lemma_last_match_unique, lemma_simplices_nonempty, lemma_wf_no_empty_simplex,
    lemma_diameter_unique, is_diameter, filtration, finite_pairs, essential_pairs, pairs_of, is_paired,
    is_persistence_of, low_of, PersistencePair, alive_count, is_alive, lemma_alive_count_bounded,
};
use crate::witness::{
    SimplicialComplex, generated_by, witness_generators, witnessed_by_row, edge_witnessed, witnessed_triangle, is_near,
    ordered_pair,
};

verus! {

/// How many positions below `m` hold a vertex (a simplex with one vertex) of `s` and are
/// entries of `col`.
pub open spec fn vertex_rows(s: Seq<Seq<usize>>, col: Set<usize>, m: int) -> int
    decreases m,
{
    if m <= 0 {
        0
    } else {
        let x = m - 1;
        vertex_rows(s, col, x) + if x <= usize::MAX && x < s.len() && col.contains(x as usize) && s[x].len() == 1 { 1int } else { 0int }
    }
}

/// Counting vertex rows adds up over a sum of two columns, up to the rows they share twice.
proof fn lemma_vertex_rows_symdiff(s: Seq<Seq<usize>>, a: Set<usize>, b: Set<usize>, m: int)
    ensures
        vertex_rows(s, symdiff(a, b), m) + 2 * vertex_rows(s, a.intersect(b), m) == vertex_rows(s, a, m) + vertex_rows(s, b, m),
    decreases m,
{
    if m > 0 {
        lemma_vertex_rows_symdiff(s, a, b, m - 1);
    }
}

/// A column with no vertex rows counts none.
proof fn lemma_vertex_rows_none(s: Seq<Seq<usize>>, a: Set<usize>, m: int)
    requires
        forall|k: usize| #[trigger] a.contains(k) && k < s.len() ==> s[k as int].len() != 1,
    ensures
        vertex_rows(s, a, m) == 0,
    decreases m,
{
    if m > 0 {
        lemma_vertex_rows_none(s, a, m - 1);
        let x = m - 1;
        if x <= usize::MAX && x < s.len() && a.contains(x as usize) {
            assert((x as usize) as int == x);
            assert(s[(x as usize) as int].len() != 1);
        }
    }
}

/// A column whose vertex rows are exactly `k1 != k2` counts two of them below `m > k1, k2`.
proof fn lemma_vertex_rows_two(s: Seq<Seq<usize>>, a: Set<usize>, k1: usize, k2: usize, m: int)
    requires
        k1 != k2,
        k1 < s.len(),
        k2 < s.len(),
        s[k1 as int].len() == 1,
        s[k2 as int].len() == 1,
        a.contains(k1),
        a.contains(k2),
        forall|k: usize| #[trigger] a.contains(k) && k != k1 && k != k2 ==> s[k as int].len() != 1,
    ensures
        vertex_rows(s, a, m) == (if k1 < m { 1int } else { 0int }) + (if k2 < m { 1int } else { 0int }),
    decreases m,
{
    if m > 0 {
        lemma_vertex_rows_two(s, a, k1, k2, m - 1);
        let x = m - 1;
        if x <= usize::MAX {
            assert((x as usize) as int == x);
        }
    }
}

/// The empty column counts no vertex rows.
proof fn lemma_vertex_rows_empty(s: Seq<Seq<usize>>, m: int)
    ensures
        vertex_rows(s, Set::<usize>::empty(), m) == 0,
    decreases m,
{
    if m > 0 {
        lemma_vertex_rows_empty(s, m - 1);
    }
}

/// A sum of columns that each count an even number of vertex rows counts an even number.
proof fn lemma_sum_even(s: Seq<Seq<usize>>, cols: Seq<Set<usize>>, combo: Seq<int>, bound: int, m: int)
    requires
        combo_below(combo, bound),
        bound <= cols.len(),
        forall|t: int| 0 <= t < bound ==> #[trigger] vertex_rows(s, cols[t], m) % 2 == 0,
    ensures
        vertex_rows(s, column_sum(cols, combo), m) % 2 == 0,
    decreases combo.len(),
{
    if combo.len() == 0 {
        lemma_vertex_rows_empty(s, m);
    } else {
        let rest = combo.drop_last();
        let x = combo.last();
        assert(combo_below(rest, bound)) by {
            assert forall|t: int| 0 <= t < rest.len() implies 0 <= #[trigger] rest[t] < bound by {
                assert(rest[t] == combo[t]);
            }
        }
        assert(0 <= combo[combo.len() - 1] < bound);
        lemma_sum_even(s, cols, rest, bound, m);
        assert(vertex_rows(s, cols[x], m) % 2 == 0);
        lemma_vertex_rows_symdiff(s, column_sum(cols, rest), cols[x], m);
    }
}

/// Every column of a reduction counts an even number of vertex rows when every boundary
/// column does.
proof fn lemma_reduced_even(s: Seq<Seq<usize>>, d: Seq<Set<usize>>, r: Seq<Seq<usize>>, low: Seq<Option<usize>>, j: int, m: int)
    requires
        is_reduction(d, r, low),
        0 <= j < r.len(),
        forall|t: int| 0 <= t < d.len() ==> #[trigger] vertex_rows(s, d[t], m) % 2 == 0,
    ensures
        vertex_rows(s, column_sets(r)[j], m) % 2 == 0,
    decreases j,
{
    assert(reduced_from(d, r, j));
    let combo = choose|combo: Seq<int>|
        (forall|t: int| 0 <= t < combo.len() ==> 0 <= #[trigger] combo[t] < j)
            && r[j].to_set() == symdiff(d[j], #[trigger] column_sum(column_sets(r), combo));
    assert forall|t: int| 0 <= t < j implies #[trigger] vertex_rows(s, column_sets(r)[t], m) % 2 == 0 by {
        lemma_reduced_even(s, d, r, low, t, m);
    }
    assert(combo_below(combo, j));
    lemma_sum_even(s, column_sets(r), combo, j, m);
    lemma_vertex_rows_symdiff(s, d[j], column_sum(column_sets(r), combo), m);
    assert(vertex_rows(s, d[j], m) % 2 == 0);
    assert(column_sets(r)[j] == r[j].to_set());
}

/// Every simplex the complex holds is listed among its simplices of lower dimensions.
proof fn lemma_held_listed(c: SimplicialComplex, d: int, e: int, t: Seq<usize>)
    requires
        0 <= e < d <= c.simplices@.len(),
        c.level(e).contains(t),
    ensures
        exists|q: int| 0 <= q < simplices_below(c, d).len() && #[trigger] simplices_below(c, d)[q] == t,
    decreases d,
{
    let prev = simplices_below(c, d - 1);
    let lv = c.level_seq(d - 1);
    assert(simplices_below(c, d) == prev + lv);
    if e < d - 1 {
        lemma_held_listed(c, d - 1, e, t);
        let q = choose|q: int| 0 <= q < prev.len() && #[trigger] prev[q] == t;
        assert(simplices_below(c, d)[q] == t);
    } else {
        let p = choose|p: int| 0 <= p < lv.len() && lv[p] == t;
        assert(simplices_below(c, d)[prev.len() + p] == t);
    }
}

/// A face listed somewhere has a last position whose simplex has its vertices.
proof fn lemma_last_match_exists(s: Seq<Seq<usize>>, face: Seq<usize>, p: int)
    requires
        0 <= p < s.len(),
        same_vertex_set(s[p], face),
    ensures
        exists|k: int| #[trigger] last_match(s, face, k),
    decreases s.len() - p,
{
    if forall|k2: int| p < k2 < s.len() ==> !same_vertex_set(#[trigger] s[k2], face) {
        assert(last_match(s, face, p));
    } else {
        let k2 = choose|k2: int| p < k2 < s.len() && same_vertex_set(#[trigger] s[k2], face);
        lemma_last_match_exists(s, face, k2);
    }
}

/// A filtration order lists distinct indices, so it is no longer than `usize` can count.
proof fn lemma_order_fits(a: Seq<Seq<usize>>, dist: Seq<Seq<u64>>, order: Seq<usize>)
    requires
        is_filtration_order(a, dist, order),
    ensures
        order.len() <= usize::MAX + 1,
{
    assert(order.no_duplicates()) by {
        assert forall|k1: int, k2: int| 0 <= k1 < order.len() && 0 <= k2 < order.len() && k1 != k2
            implies order[k1] != order[k2] by {
            if k1 < k2 {
                assert(filtration_less(a, dist, order[k1] as int, order[k2] as int));
            } else {
                assert(filtration_less(a, dist, order[k2] as int, order[k1] as int));
            }
        }
    }
    order.unique_seq_to_set();
    let all = Set::new(|v: usize| v < usize::MAX + 1);
    lemma_below_len(usize::MAX + 1);
    assert(order.to_set().subset_of(all));
    vstd::set_lib::lemma_len_subset(order.to_set(), all);
}

/// No simplex of the complex lists a vertex twice.
pub open spec fn no_repeated_vertex(c: SimplicialComplex) -> bool {
    forall|d: int, t: Seq<usize>, x: int, y: int|
        #![trigger c.level(d).contains(t), t[x], t[y]]
        0 <= d < c.simplices@.len() && c.level(d).contains(t) && 0 <= x < y < t.len() ==> t[x] != t[y]
}

/// A one-vertex sequence with the vertices of `[x]` is `[x]`.
proof fn lemma_single_vertex(t: Seq<usize>, x: usize)
    requires
        t.len() == 1,
        same_vertex_set(t, seq![x]),
    ensures
        t == seq![x],
{
    t.to_multiset_ensures();
    seq![x].to_multiset_ensures();
    assert(t.contains(t[0]));
    assert(seq![x].to_multiset().count(t[0]) > 0);
    assert(seq![x].contains(t[0]));
    assert(t =~= seq![x]);
}

/// In the filtration order, each boundary column counts an even number of vertex rows:
/// none for a simplex of three or more vertices, and its two distinct endpoints for an edge.
proof fn lemma_boundary_even(c: SimplicialComplex, dist: Seq<Seq<u64>>, order: Seq<usize>, j: int)
    requires
        c.wf(),
        no_repeated_vertex(c),
        is_filtration_order(all_simplices(c), dist, order),
        0 <= j < order.len(),
    ensures
        vertex_rows(reorder(all_simplices(c), order), boundary_sets(reorder(all_simplices(c), order))[j], order.len() as int) % 2 == 0,
{
    let a = all_simplices(c);
    let s = reorder(a, order);
    let n = s.len() as int;
    let nl = c.simplices@.len() as int;
    lemma_order_fits(a, dist, order);
    lemma_simplices_below_held(c, nl);
    assert(a == simplices_below(c, nl));
    let t = s[j];
    assert(t == a[order[j] as int]);
    assert(held_below(c, simplices_below(c, nl)[order[j] as int], nl));
    let e = choose|e: int| 0 <= e < nl && #[trigger] c.level(e).contains(t);
    assert(t.len() == e + 1);
    let col = boundary_sets(s)[j];
    assert(col == boundary_column(s, j));
    if t.len() <= 1 {
        assert(col =~= Set::<usize>::empty());
        lemma_vertex_rows_empty(s, n);
    } else if t.len() == 2 {
        let x0 = t[0];
        let x1 = t[1];
        assert(x0 != x1);
        let f0 = t.remove(0);
        let f1 = t.remove(1);
        assert(f0 =~= seq![x1]);
        assert(f1 =~= seq![x0]);
        assert(c.holds_vertices(f0));
        assert(c.holds_vertices(f1));
        let h0 = choose|h: Seq<usize>| #[trigger] c.level(0).contains(h) && same_vertex_set(h, f0);
        let h1 = choose|h: Seq<usize>| #[trigger] c.level(0).contains(h) && same_vertex_set(h, f1);
        lemma_single_vertex(h0, x1);
        lemma_single_vertex(h1, x0);
        assert(c.level(0).contains(f0));
        assert(c.level(0).contains(f1));
        lemma_held_listed(c, nl, 0, f0);
        lemma_held_listed(c, nl, 0, f1);
        let q0 = choose|q: int| 0 <= q < simplices_below(c, nl).len() && #[trigger] simplices_below(c, nl)[q] == f0;
        let q1 = choose|q: int| 0 <= q < simplices_below(c, nl).len() && #[trigger] simplices_below(c, nl)[q] == f1;
        assert(order.contains(q0 as usize));
        assert(order.contains(q1 as usize));
        let p0 = choose|p: int| 0 <= p < order.len() && order[p] == q0 as usize;
        let p1 = choose|p: int| 0 <= p < order.len() && order[p] == q1 as usize;
        assert(s[p0] == f0);
        assert(s[p1] == f1);
        lemma_last_match_exists(s, f0, p0);
        lemma_last_match_exists(s, f1, p1);
        let k0 = choose|k: int| #[trigger] last_match(s, f0, k);
        let k1 = choose|k: int| #[trigger] last_match(s, f1, k);
        let u0 = k0 as usize;
        let u1 = k1 as usize;
        assert(u0 as int == k0 && u1 as int == k1);
        assert forall|k: usize| #[trigger] col.contains(k) <==> (k == u0 || k == u1) by {
            if col.contains(k) {
                let i = choose|i: int| 0 <= i < t.len() && #[trigger] last_match(s, t.remove(i), k as int);
                if i == 0 {
                    lemma_last_match_unique(s, f0, k as int, k0);
                } else {
                    lemma_last_match_unique(s, f1, k as int, k1);
                }
            }
            if k == u0 {
                assert(last_match(s, t.remove(0), k as int));
            }
            if k == u1 {
                assert(last_match(s, t.remove(1), k as int));
            }
        }
        s[k0].to_multiset_ensures();
        s[k1].to_multiset_ensures();
        f0.to_multiset_ensures();
        f1.to_multiset_ensures();
        assert(s[k0].len() == 1);
        assert(s[k1].len() == 1);
        if k0 == k1 {
            assert(f0[0] == x1);
            assert(f0.contains(x1));
            assert(f1.to_multiset().count(x1) > 0);
            assert(f1.contains(x1));
            let w = choose|w: int| 0 <= w < f1.len() && f1[w] == x1;
            assert(f1[0] == x0);
        }
        assert(col.contains(u0) && col.contains(u1));
        lemma_vertex_rows_two(s, col, u0, u1, n);
    } else {
        assert forall|k: usize| #[trigger] col.contains(k) && k < s.len() implies s[k as int].len() != 1 by {
            let i = choose|i: int| 0 <= i < t.len() && #[trigger] last_match(s, t.remove(i), k as int);
            s[k as int].to_multiset_ensures();
            t.remove(i).to_multiset_ensures();
        }
        lemma_vertex_rows_none(s, col, n);
    }
}

/// A column whose only vertex row is `k` counts one below `m > k`.
proof fn lemma_vertex_rows_one(s: Seq<Seq<usize>>, a: Set<usize>, k: usize, m: int)
    requires
        k < s.len(),
        s[k as int].len() == 1,
        a.contains(k),
        forall|x: usize| #[trigger] a.contains(x) && x != k ==> s[x as int].len() != 1,
    ensures
        vertex_rows(s, a, m) == (if k < m { 1int } else { 0int }),
    decreases m,
{
    if m > 0 {
        lemma_vertex_rows_one(s, a, k, m - 1);
        let x = m - 1;
        if x <= usize::MAX {
            assert((x as usize) as int == x);
        }
    }
}

/// While the first simplex is unpaired and its column is zero, it heads the classes that live forever.
proof fn lemma_essential_keeps_first(s: Seq<Seq<usize>>, dist: Seq<Seq<u64>>, low: Seq<Option<usize>>, m: int)
    requires
        1 <= m,
        !is_paired(low, 0),
        low[0] is None,
    ensures
        essential_pairs(s, dist, low, m).len() >= 1,
        essential_pairs(s, dist, low, m)[0]
            == (PersistencePair { dim: (s[0].len() - 1) as usize, birth: filtration(s[0], dist), death: None }),
    decreases m,
{
    if m > 1 {
        lemma_essential_keeps_first(s, dist, low, m - 1);
    } else {
        assert(essential_pairs(s, dist, low, 0) == Seq::<PersistencePair>::empty());
    }
}

/// A nonempty complex keeps a connected component forever: when a well-formed complex holds
/// a vertex and none of its simplices lists a vertex twice, its persistence diagram has a
/// class of dimension 0 that never dies (the first vertex in filtration order, which no
/// column can kill, since every reduced column has an even number of vertex entries).
pub proof fn lemma_component_lives_forever(c: SimplicialComplex, dist: Seq<Seq<u64>>, pairs: Seq<PersistencePair>)
    requires
        c.wf(),
        no_repeated_vertex(c),
        c.count_at(0) > 0,
        is_persistence_of(c, dist, pairs),
    ensures
        exists|x: int| 0 <= x < pairs.len() && (#[trigger] pairs[x]).dim == 0 && pairs[x].death is None,
{
    let a = all_simplices(c);
    let (order, r, low) = choose|order: Seq<usize>, r: Seq<Seq<usize>>, low: Seq<Option<usize>>|
        #[trigger] is_filtration_order(a, dist, order)
            && #[trigger] is_reduction(boundary_sets(reorder(a, order)), r, low)
            && pairs == pairs_of(reorder(a, order), dist, low);
    let s = reorder(a, order);
    let n = s.len() as int;
    let nl = c.simplices@.len() as int;
    let d = boundary_sets(s);
    lemma_order_fits(a, dist, order);
    lemma_wf_no_empty_simplex(c);
    lemma_simplices_nonempty(c, nl);
    assert(a == simplices_below(c, nl));
    // some vertex, at filtration value zero
    let v = c.level_seq(0)[0];
    assert(c.level(0).contains(v));
    assert(v.len() == 1);
    lemma_held_listed(c, nl, 0, v);
    let q = choose|q: int| 0 <= q < simplices_below(c, nl).len() && #[trigger] simplices_below(c, nl)[q] == v;
    assert(order.contains(q as usize));
    let kq = choose|k: int| 0 <= k < order.len() && order[k] == q as usize;
    assert(is_diameter(v, dist, 0));
    lemma_diameter_unique(v, dist, 0);
    // so the first simplex in filtration order is a vertex
    let first = order[0] as int;
    assert(s[0] == a[first]);
    assert(a[first].len() >= 1);
    if kq != 0 {
        assert(filtration_less(a, dist, order[0] as int, order[kq] as int));
    }
    assert(s[0].len() == 1);
    // its column reduces to zero
    assert(reduced_from(d, r, 0));
    let combo = choose|combo: Seq<int>|
        (forall|t: int| 0 <= t < combo.len() ==> 0 <= #[trigger] combo[t] < 0)
            && r[0].to_set() == symdiff(d[0], #[trigger] column_sum(column_sets(r), combo));
    if combo.len() > 0 {
        assert(0 <= combo[0] < 0);
    }
    assert(d[0] =~= Set::<usize>::empty());
    assert(r[0].to_set() =~= Set::<usize>::empty());
    if r[0].len() > 0 {
        assert(r[0].to_set().contains(r[0][0]));
    }
    assert(low[0] == low_of(r[0]));
    // and no column kills it
    assert forall|j: int| 0 <= j < d.len() implies #[trigger] vertex_rows(s, d[j], n) % 2 == 0 by {
        lemma_boundary_even(c, dist, order, j);
    }
    assert(!is_paired(low, 0)) by {
        if is_paired(low, 0) {
            let j = choose|j: int| 0 <= j < low.len() && low[j] == Some(0usize);
            lemma_reduced_even(s, d, r, low, j, n);
            let col = r[j];
            assert(low[j] == low_of(col));
            assert(col.len() >= 1 && col.last() == 0);
            if col.len() > 1 {
                assert(col[0] < col[col.len() - 1]);
            }
            assert(col =~= seq![0usize]);
            assert(column_sets(r)[j] == col.to_set());
            assert forall|x: usize| #[trigger] col.to_set().contains(x) && x != 0 implies s[x as int].len() != 1 by {
                assert(col[0] == 0);
            }
            assert(col.to_set().contains(0usize)) by {
                assert(col[0] == 0usize);
            }
            lemma_vertex_rows_one(s, col.to_set(), 0usize, n);
        }
    }
    lemma_essential_keeps_first(s, dist, low, n);
    let fin = finite_pairs(s, dist, low, n);
    let ess = essential_pairs(s, dist, low, n);
    assert(pairs == fin + ess);
    assert(pairs[fin.len() as int] == ess[0]);
}

/// `s` lists no vertex twice.
pub open spec fn distinct_vertices(s: Seq<usize>) -> bool {
    forall|x: int, y: int| 0 <= x < y < s.len() ==> s[x] != s[y]
}

/// The faces of a simplex without repeated vertices repeat none.
pub(crate) proof fn lemma_face_distinct(f: Seq<usize>, g: Seq<usize>)
    requires
        is_face(f, g),
        distinct_vertices(g),
    ensures
        distinct_vertices(f),
    decreases g.len(),
{
    if f != g {
        let i = choose|i: int| 0 <= i < g.len() && is_face(f, g.remove(i));
        let h = g.remove(i);
        assert forall|x: int, y: int| 0 <= x < y < h.len() implies h[x] != h[y] by {
            let gx = if x < i { x } else { x + 1 };
            let gy = if y < i { y } else { y + 1 };
            assert(h[x] == g[gx] && h[y] == g[gy]);
        }
        lemma_face_distinct(f, h);
    }
}

/// A complex generated by simplices without repeated vertices repeats none in any simplex.
pub proof fn lemma_generated_no_repeat(c: SimplicialComplex, gens: Set<Seq<usize>>)
    requires
        generated_by(c.levels(), gens),
        forall|g: Seq<usize>| #[trigger] gens.contains(g) ==> distinct_vertices(g),
    ensures
        no_repeated_vertex(c),
{
    assert forall|d: int, t: Seq<usize>, x: int, y: int|
        #![trigger c.level(d).contains(t), t[x], t[y]]
        0 <= d < c.simplices@.len() && c.level(d).contains(t) && 0 <= x < y < t.len() implies t[x] != t[y] by {
        assert(c.levels()[d] == c.level(d));
        assert(c.levels()[d].contains(t));
        let g = choose|g: Seq<usize>| #[trigger] gens.contains(g) && is_face(t, g);
        lemma_face_distinct(t, g);
    }
}

/// On distinct landmarks, the witness generators repeat no vertex.
pub proof fn lemma_witness_generators_distinct(dist: Seq<Seq<u64>>, lm: Seq<usize>, k: int)
    requires
        lm.no_duplicates(),
    ensures
        forall|g: Seq<usize>| #[trigger] witness_generators(dist, lm, k).contains(g) ==> distinct_vertices(g),
{
    let kk = if k <= lm.len() { k } else { lm.len() as int };
    assert forall|g: Seq<usize>| #[trigger] witness_generators(dist, lm, k).contains(g) implies distinct_vertices(g) by {
        if exists|i: int| 0 <= i < lm.len() && g == seq![lm[i]] {
        } else if edge_witnessed(dist, lm, kk, g) {
            let p = choose|p: int| 0 <= p < dist.len() && #[trigger] witnessed_by_row(dist[p], lm, kk, g);
            let row = dist[p];
            let (a, b) = choose|a: int, b: int| 0 <= a < b < lm.len() && #[trigger] is_near(row, lm, kk, a)
                && #[trigger] is_near(row, lm, kk, b) && g == ordered_pair(lm[a], lm[b]);
            assert(lm[a] != lm[b]);
        } else {
            let (a, b, x) = choose|a: int, b: int, x: int| #[trigger] witnessed_triangle(dist, lm, kk, g, a, b, x);
            assert(lm[a] != lm[b] && lm[a] != lm[x] && lm[b] != lm[x]);
        }
    }
}

/// A pair of dimension `d` alive at `t` makes the count of such pairs at least one.
pub proof fn lemma_alive_count_pos(pairs: Seq<PersistencePair>, t: u64, d: int, m: int, x: int)
    requires
        0 <= x < m,
        pairs[x].dim == d,
        is_alive(pairs[x], t),
    ensures
        alive_count(pairs, t, d, m) >= 1,
    decreases m,
{
    lemma_alive_count_bounded(pairs, t, d, m - 1);
    if x < m - 1 {
        lemma_alive_count_pos(pairs, t, d, m - 1, x);
    }
}

} // verus!
