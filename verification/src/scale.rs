//! Multi-scale analysis: the witness complex and its Betti numbers as the number `k` of
//! nearest landmarks that a witness votes for varies.
use vstd::prelude::*;
use crate::components::{
    lemma_component_lives_forever, lemma_generated_no_repeat, lemma_witness_generators_distinct, lemma_alive_count_pos,
};
use crate::faces::same_in_order;
use crate::landmark::{random_landmarks, maxmin_landmarks, random_selection, is_maxmin_selection, distinct_below};
use crate::persistence::{
    PersistencePair, compute_persistence, betti_numbers, is_betti_of, is_persistence_of, lemma_generated_vertices,
    lemma_keys_defined, lemma_wf_no_empty_simplex, lemma_max_dim_bounds, simplices_below, all_simplices,
};
use crate::pairing::lemma_persistence_unique;
use crate::weak_witness::{build_weak_witness_complex, weak_generators, weak_edge_ok, weak_triangle_ok, weak_in_order};
use crate::witness::{
    SimplicialComplex, build_witness_complex, generated_by, witness_generators, rows, is_square, landmarks_within,
    ordered_pair, ordered_triple, witnessed_by_row, lemma_witness_monotone, lemma_witness_vertices, lemma_count_is_size,
    witness_in_order,
};

verus! {

/// The summary of a complex at one scale.
#[derive(Debug, Clone)]
pub struct ScaleResult {
    /// The k value used.
    pub k: usize,
    /// Number of vertices.
    pub num_vertices: usize,
    /// Number of edges.
    pub num_edges: usize,
    /// Number of triangles.
    pub num_triangles: usize,
    /// Euler characteristic.
    pub euler: i64,
    /// Betti numbers with every finite class dead, at an infinite filtration value.
    pub betti: Vec<usize>,
}

/// `r` summarizes the complex `c` at scale `k`: its simplex counts, its Euler
/// characteristic, and the Betti numbers of its persistence diagram at an infinite key.
pub open spec fn is_scale_result(r: ScaleResult, k: usize, c: SimplicialComplex, dist: Seq<Seq<u64>>) -> bool {
    &&& r.k == k
    &&& r.num_vertices == c.count_at(0)
    &&& r.num_edges == c.count_at(1)
    &&& r.num_triangles == c.count_at(2)
    &&& (c.count_below(c.simplices@.len() as int) <= i64::MAX ==> r.euler == c.euler())
    &&& r.euler == c.wrapped_euler()
    &&& exists|pairs: Seq<PersistencePair>| #[trigger] is_persistence_of(c, dist, pairs) && is_betti_of(r.betti@, pairs, u64::MAX)
}

/// `r` summarizes, at scale `k`, the witness complex on the landmarks `lm`, its simplices
/// stored in the order in which it is built.
pub open spec fn witness_scale(dist: Seq<Seq<u64>>, lm: Seq<usize>, k: usize, r: ScaleResult) -> bool {
    exists|c: SimplicialComplex| c.wf() && #[trigger] generated_by(c.levels(), witness_generators(dist, lm, k as int))
        && c.level_seqs() == witness_in_order(dist, lm, k as int)
        && is_scale_result(r, k, c, dist)
}

/// `pairs` is the persistence diagram of the witness complex at scale `k` on the landmarks
/// `lm`, its simplices stored in the order in which it is built.
pub open spec fn witness_barcode(dist: Seq<Seq<u64>>, lm: Seq<usize>, k: usize, pairs: Seq<PersistencePair>) -> bool {
    exists|c: SimplicialComplex| c.wf() && #[trigger] generated_by(c.levels(), witness_generators(dist, lm, k as int))
        && c.level_seqs() == witness_in_order(dist, lm, k as int)
        && is_persistence_of(c, dist, pairs)
}

/// `r` summarizes, labelled with scale `k`, the weak witness complex up to triangles on the
/// landmarks `lm`, its simplices stored in the order in which it is built.
pub open spec fn weak_scale(dist: Seq<Seq<u64>>, lm: Seq<usize>, k: usize, r: ScaleResult) -> bool {
    exists|c: SimplicialComplex| c.wf()
        && #[trigger] generated_by(c.levels(), weak_generators(lm, weak_edge_ok(dist, lm), weak_triangle_ok(dist, lm), 2))
        && c.level_seqs() == weak_in_order(lm, weak_edge_ok(dist, lm), weak_triangle_ok(dist, lm), 2)
        && is_scale_result(r, k, c, dist)
}

/// The witness generators on landmarks below `n` have vertices below `n`.
proof fn lemma_witness_generators_within(dist: Seq<Seq<u64>>, lm: Seq<usize>, k: int, n: int)
    requires
        landmarks_within(lm, n),
    ensures
        forall|g: Seq<usize>, a: int| #[trigger] witness_generators(dist, lm, k).contains(g) && 0 <= a < g.len() ==> #[trigger] g[a] < n,
{
    let kk = if k <= lm.len() { k } else { lm.len() as int };
    assert forall|g: Seq<usize>, a: int| #[trigger] witness_generators(dist, lm, k).contains(g) && 0 <= a < g.len()
        implies #[trigger] g[a] < n by {
        if exists|i: int| 0 <= i < lm.len() && g == seq![lm[i]] {
            let i = choose|i: int| 0 <= i < lm.len() && g == seq![lm[i]];
            assert(lm[i] < n);
        } else if crate::witness::edge_witnessed(dist, lm, kk, g) {
            let p = choose|p: int| 0 <= p < dist.len() && #[trigger] witnessed_by_row(dist[p], lm, kk, g);
            let row = dist[p];
            let (x, y) = choose|x: int, y: int| 0 <= x < y < lm.len() && #[trigger] crate::witness::is_near(row, lm, kk, x)
                && #[trigger] crate::witness::is_near(row, lm, kk, y) && g == ordered_pair(lm[x], lm[y]);
            assert(lm[x] < n && lm[y] < n);
        } else {
            let (x, y, z) = choose|x: int, y: int, z: int| #[trigger] crate::witness::witnessed_triangle(dist, lm, kk, g, x, y, z);
            assert(lm[x] < n && lm[y] < n && lm[z] < n);
        }
    }
}

/// The weak witness generators on landmarks below `n` have vertices below `n`.
proof fn lemma_weak_generators_within(dist: Seq<Seq<u64>>, lm: Seq<usize>, n: int)
    requires
        landmarks_within(lm, n),
    ensures
        forall|g: Seq<usize>, a: int| #[trigger] weak_generators(lm, weak_edge_ok(dist, lm), weak_triangle_ok(dist, lm), 2).contains(g)
            && 0 <= a < g.len() ==> #[trigger] g[a] < n,
{
    let e = weak_edge_ok(dist, lm);
    let t = weak_triangle_ok(dist, lm);
    assert forall|g: Seq<usize>, a: int| #[trigger] weak_generators(lm, e, t, 2).contains(g) && 0 <= a < g.len()
        implies #[trigger] g[a] < n by {
        if exists|i: int| 0 <= i < lm.len() && g == seq![lm[i]] {
            let i = choose|i: int| 0 <= i < lm.len() && g == seq![lm[i]];
            assert(lm[i] < n);
        } else if exists|i: int, j: int| 0 <= i < j < lm.len() && #[trigger] e(i, j) && g == seq![lm[i], lm[j]] {
            let (i, j) = choose|i: int, j: int| 0 <= i < j < lm.len() && #[trigger] e(i, j) && g == seq![lm[i], lm[j]];
            assert(lm[i] < n && lm[j] < n);
        } else {
            let (i, j, k) = choose|i: int, j: int, k: int| 0 <= i < j < k < lm.len() && #[trigger] t(i, j, k)
                && crate::weak_witness::edge_listed(lm, e, lm[i], lm[j]) && crate::weak_witness::edge_listed(lm, e, lm[i], lm[k])
                && crate::weak_witness::edge_listed(lm, e, lm[j], lm[k]) && g == seq![lm[i], lm[j], lm[k]];
            assert(lm[i] < n && lm[j] < n && lm[k] < n);
        }
    }
}

/// Summarize a complex at scale `k`.
fn summarize(k: usize, complex: &SimplicialComplex, dist: &[Vec<u64>]) -> (r: ScaleResult)
    requires
        complex.wf(),
        is_square(dist@),
        crate::persistence::vertices_below(*complex, dist@.len() as int),
    ensures
        is_scale_result(r, k, *complex, rows(dist@)),
{
    proof {
        lemma_keys_defined(*complex, dist@);
        lemma_wf_no_empty_simplex(*complex);
    }
    let pairs = compute_persistence(complex, dist);
    let ps = pairs.as_slice();
    assert(ps@ == pairs@);
    let betti = betti_numbers(ps, u64::MAX);
    ScaleResult {
        k,
        num_vertices: complex.num_simplices(0),
        num_edges: complex.num_simplices(1),
        num_triangles: complex.num_simplices(2),
        euler: complex.euler_characteristic(),
        betti,
    }
}

/// The witness complex at scale `k` on the given landmarks, summarized.
fn witness_summary(dist: &[Vec<u64>], landmarks: &Vec<usize>, k: usize) -> (r: ScaleResult)
    requires
        is_square(dist@),
        landmarks_within(landmarks@, dist@.len() as int),
    ensures
        witness_scale(rows(dist@), landmarks@, k, r),
{
    let complex = build_witness_complex(dist, landmarks.as_slice(), k);
    proof {
        lemma_witness_generators_within(rows(dist@), landmarks@, k as int, dist@.len() as int);
        lemma_generated_vertices(complex, witness_generators(rows(dist@), landmarks@, k as int), dist@.len() as int);
    }
    summarize(k, &complex, dist)
}

/// The weak witness complex up to triangles on the given landmarks, summarized under scale label `k`.
fn weak_summary(dist: &[Vec<u64>], landmarks: &Vec<usize>, k: usize) -> (r: ScaleResult)
    requires
        is_square(dist@),
        landmarks_within(landmarks@, dist@.len() as int),
        landmarks@.no_duplicates(),
    ensures
        weak_scale(rows(dist@), landmarks@, k, r),
{
    let complex = build_weak_witness_complex(dist, landmarks.as_slice(), 2);
    proof {
        lemma_weak_generators_within(rows(dist@), landmarks@, dist@.len() as int);
        lemma_generated_vertices(complex,
            weak_generators(landmarks@, weak_edge_ok(rows(dist@), landmarks@), weak_triangle_ok(rows(dist@), landmarks@), 2),
            dist@.len() as int);
    }
    summarize(k, &complex, dist)
}

/// Multi-scale analysis: pick landmarks at random (seeded by `seed`), then for each `k`
/// in `k_values` summarize the witness complex that votes among the `k` nearest landmarks.
/// `dist` holds the distance keys between the points.
pub fn multiscale_analysis(dist: &[Vec<u64>], num_landmarks: usize, k_values: &[usize], seed: u64) -> (results: Vec<ScaleResult>)
    requires
        is_square(dist@),
    ensures
        results@.len() == k_values@.len(),
        forall|x: int| 0 <= x < results@.len() ==> #[trigger] witness_scale(rows(dist@),
            random_selection(dist@.len() as usize, num_landmarks, seed), k_values@[x], results@[x]),
        forall|x: int| 0 <= x < results@.len() ==> (#[trigger] results@[x]).num_vertices
            == if num_landmarks <= dist@.len() { num_landmarks as int } else { dist@.len() as int },
        num_landmarks >= 1 && dist@.len() >= 1 ==> forall|x: int| 0 <= x < results@.len()
            ==> (#[trigger] results@[x]).betti@.len() >= 1 && results@[x].betti@[0] >= 1,
{
    let landmarks = random_landmarks(dist.len(), num_landmarks, seed);
    let mut results: Vec<ScaleResult> = Vec::new();
    let mut x: usize = 0;
    while x < k_values.len()
        invariant
            is_square(dist@),
            landmarks@ == random_selection(dist@.len() as usize, num_landmarks, seed),
            distinct_below(landmarks@, dist@.len() as int),
            x <= k_values@.len(),
            results@.len() == x,
            forall|y: int| 0 <= y < x ==> #[trigger] witness_scale(rows(dist@), landmarks@, k_values@[y], results@[y]),
            landmarks@.len() == if num_landmarks <= dist@.len() { num_landmarks as int } else { dist@.len() as int },
            forall|y: int| 0 <= y < x ==> (#[trigger] results@[y]).num_vertices == landmarks@.len(),
            num_landmarks >= 1 && dist@.len() >= 1 ==> forall|y: int| 0 <= y < x
                ==> (#[trigger] results@[y]).betti@.len() >= 1 && results@[y].betti@[0] >= 1,
        decreases k_values.len() - x,
    {
        let r = witness_summary(dist, &landmarks, k_values[x]);
        proof {
            lemma_scale_vertices(rows(dist@), landmarks@, k_values@[x as int], r);
            if num_landmarks >= 1 && dist@.len() >= 1 {
                lemma_scale_keeps_a_component(rows(dist@), landmarks@, k_values@[x as int], r);
            }
        }
        results.push(r);
        x = x + 1;
    }
    results
}

/// Summarize the weak witness complex (up to triangles) on `landmarks` once per `k` in `k_values`.
fn weak_summaries(dist: &[Vec<u64>], landmarks: &Vec<usize>, k_values: &[usize]) -> (results: Vec<ScaleResult>)
    requires
        is_square(dist@),
        landmarks_within(landmarks@, dist@.len() as int),
        landmarks@.no_duplicates(),
    ensures
        results@.len() == k_values@.len(),
        forall|x: int| 0 <= x < results@.len() ==> #[trigger] weak_scale(rows(dist@), landmarks@, k_values@[x], results@[x]),
{
    let mut results: Vec<ScaleResult> = Vec::new();
    let mut x: usize = 0;
    while x < k_values.len()
        invariant
            is_square(dist@),
            landmarks_within(landmarks@, dist@.len() as int),
            landmarks@.no_duplicates(),
            x <= k_values@.len(),
            results@.len() == x,
            forall|y: int| 0 <= y < x ==> #[trigger] weak_scale(rows(dist@), landmarks@, k_values@[y], results@[y]),
        decreases k_values.len() - x,
    {
        let r = weak_summary(dist, landmarks, k_values[x]);
        results.push(r);
        x = x + 1;
    }
    results
}

/// Compare the witness complex on random landmarks with the weak witness complex (up to
/// triangles) on maxmin landmarks, at each `k` in `k_values`; the weak witness complex
/// does not depend on `k`, which only labels its summary.
pub fn compare_variants(dist: &[Vec<u64>], num_landmarks: usize, k_values: &[usize], seed: u64)
    -> (results: (Vec<ScaleResult>, Vec<ScaleResult>))
    requires
        is_square(dist@),
    ensures
        results.0@.len() == k_values@.len(),
        results.1@.len() == k_values@.len(),
        forall|x: int| 0 <= x < results.0@.len() ==> #[trigger] witness_scale(rows(dist@),
            random_selection(dist@.len() as usize, num_landmarks, seed), k_values@[x], results.0@[x]),
        exists|lm: Seq<usize>| #[trigger] is_maxmin_selection(rows(dist@), num_landmarks, lm)
            && forall|x: int| 0 <= x < results.1@.len() ==> #[trigger] weak_scale(rows(dist@), lm, k_values@[x], results.1@[x]),
{
    let witness_results = multiscale_analysis(dist, num_landmarks, k_values, seed);
    let landmarks_maxmin = maxmin_landmarks(dist, num_landmarks);
    let weak_results = weak_summaries(dist, &landmarks_maxmin, k_values);
    proof {
        assert(is_maxmin_selection(rows(dist@), num_landmarks, landmarks_maxmin@));
    }
    (witness_results, weak_results)
}

/// The persistence pairs of the witness complex at scale `k` on random landmarks (seeded by `seed`).
pub fn barcode_at_scale(dist: &[Vec<u64>], num_landmarks: usize, k: usize, seed: u64) -> (pairs: Vec<PersistencePair>)
    requires
        is_square(dist@),
    ensures
        witness_barcode(rows(dist@), random_selection(dist@.len() as usize, num_landmarks, seed), k, pairs@),
        num_landmarks >= 1 && dist@.len() >= 1 ==> exists|x: int| 0 <= x < pairs@.len()
            && (#[trigger] pairs@[x]).dim == 0 && pairs@[x].death is None,
{
    let landmarks = random_landmarks(dist.len(), num_landmarks, seed);
    let complex = build_witness_complex(dist, landmarks.as_slice(), k);
    let ghost gens = witness_generators(rows(dist@), landmarks@, k as int);
    proof {
        lemma_witness_generators_within(rows(dist@), landmarks@, k as int, dist@.len() as int);
        lemma_generated_vertices(complex, gens, dist@.len() as int);
        lemma_keys_defined(complex, dist@);
        lemma_wf_no_empty_simplex(complex);
    }
    let pairs = compute_persistence(&complex, dist);
    proof {
        assert(generated_by(complex.levels(), witness_generators(rows(dist@),
            random_selection(dist@.len() as usize, num_landmarks, seed), k as int)));
        if num_landmarks >= 1 && dist@.len() >= 1 {
            lemma_witness_has_vertex(complex, rows(dist@), landmarks@, k as int);
            lemma_witness_generators_distinct(rows(dist@), landmarks@, k as int);
            lemma_generated_no_repeat(complex, gens);
            lemma_component_lives_forever(complex, rows(dist@), pairs@);
        }
    }
    pairs
}

} // verus!

verus! {

/// The Betti numbers of the middle result, which stability is measured against.
pub open spec fn reference_betti(results: Seq<ScaleResult>) -> Seq<usize> {
    results[(results.len() / 2) as int].betti@
}

/// `[f, l]` is the stability range: the longest run of consecutive results around the
/// middle one whose Betti numbers all equal the middle result's.
pub open spec fn is_stable_run(results: Seq<ScaleResult>, f: int, l: int) -> bool {
    &&& 0 <= f <= results.len() / 2 <= l < results.len()
    &&& forall|x: int| f <= x <= l ==> (#[trigger] results[x]).betti@ == reference_betti(results)
    &&& (f == 0 || results[f - 1].betti@ != reference_betti(results))
    &&& (l + 1 == results.len() || results[l + 1].betti@ != reference_betti(results))
}

/// The stability range: the `k` of the first and of the last result of the longest run
/// of consecutive results, around the middle one, whose Betti numbers do not change;
/// `None` when there are no results.
pub fn stability_range(results: &[ScaleResult]) -> (range: Option<(usize, usize)>)
    ensures
        match range {
            None => results@.len() == 0,
            Some((a, b)) => exists|f: int, l: int| #[trigger] is_stable_run(results@, f, l)
                && a == results@[f].k && b == results@[l].k,
        },
{
    if results.len() == 0 {
        return None;
    }
    let mid = results.len() / 2;
    let reference = &results[mid].betti;
    let mut f: usize = mid;
    while f > 0 && same_in_order(&results[f - 1].betti, reference)
        invariant
            results@.len() > 0,
            mid == results@.len() / 2,
            reference@ == reference_betti(results@),
            f <= mid,
            forall|x: int| f <= x <= mid ==> (#[trigger] results@[x]).betti@ == reference_betti(results@),
        decreases f,
    {
        f = f - 1;
    }
    let mut l: usize = mid;
    while l < results.len() - 1 && same_in_order(&results[l + 1].betti, reference)
        invariant
            results@.len() > 0,
            mid == results@.len() / 2,
            reference@ == reference_betti(results@),
            mid <= l < results@.len(),
            forall|x: int| mid <= x <= l ==> (#[trigger] results@[x]).betti@ == reference_betti(results@),
        decreases results@.len() - l,
    {
        l = l + 1;
    }
    proof {
        assert(is_stable_run(results@, f as int, l as int));
    }
    Some((results[f].k, results[l].k))
}

} // verus!

verus! {

/// Voting among more nearest landmarks gives no fewer vertices, edges or triangles: for
/// `k1 <= k2`, the summary at `k1` counts at most the simplices of the summary at `k2`.
pub proof fn lemma_scale_counts_grow(
    dist: Seq<Seq<u64>>,
    lm: Seq<usize>,
    k1: usize,
    k2: usize,
    r1: ScaleResult,
    r2: ScaleResult,
)
    requires
        witness_scale(dist, lm, k1, r1),
        witness_scale(dist, lm, k2, r2),
        k1 <= k2,
    ensures
        r1.num_vertices <= r2.num_vertices,
        r1.num_edges <= r2.num_edges,
        r1.num_triangles <= r2.num_triangles,
{
    let c1 = choose|c: SimplicialComplex| c.wf() && #[trigger] generated_by(c.levels(), witness_generators(dist, lm, k1 as int))
        && is_scale_result(r1, k1, c, dist);
    let c2 = choose|c: SimplicialComplex| c.wf() && #[trigger] generated_by(c.levels(), witness_generators(dist, lm, k2 as int))
        && is_scale_result(r2, k2, c, dist);
    lemma_witness_monotone(c1, c2, dist, lm, k1 as int, k2 as int);
    assert(c1.count_at(0) <= c2.count_at(0));
    assert(c1.count_at(1) <= c2.count_at(1));
    assert(c1.count_at(2) <= c2.count_at(2));
}

/// A witness complex on distinct landmarks has one vertex per landmark.
pub proof fn lemma_scale_vertices(dist: Seq<Seq<u64>>, lm: Seq<usize>, k: usize, r: ScaleResult)
    requires
        witness_scale(dist, lm, k, r),
        lm.no_duplicates(),
    ensures
        r.num_vertices == lm.len(),
{
    let c = choose|c: SimplicialComplex| c.wf() && #[trigger] generated_by(c.levels(), witness_generators(dist, lm, k as int))
        && is_scale_result(r, k, c, dist);
    lemma_witness_vertices(c, dist, lm, k as int);
    lemma_count_is_size(c, 0);
    let singles = Seq::new(lm.len(), |i: int| seq![lm[i]]);
    assert forall|a: int, b: int| 0 <= a < b < singles.len() implies singles[a] != singles[b] by {
        assert(singles[a][0] == lm[a]);
        assert(singles[b][0] == lm[b]);
    }
    assert(singles.no_duplicates());
    singles.unique_seq_to_set();
    assert(singles.to_set() =~= c.level(0)) by {
        assert forall|s: Seq<usize>| #[trigger] c.level(0).contains(s) implies singles.to_set().contains(s) by {
            let i = choose|i: int| 0 <= i < lm.len() && s == seq![lm[i]];
            assert(singles[i] == s);
        }
        assert forall|s: Seq<usize>| #[trigger] singles.to_set().contains(s) implies c.level(0).contains(s) by {
            let i = choose|i: int| 0 <= i < singles.len() && singles[i] == s;
            assert(s == seq![lm[i]]);
        }
    }
}

/// At every scale, a witness complex on distinct landmarks, at least one of them, keeps a
/// connected component forever: its first Betti number is at least one.
pub proof fn lemma_scale_keeps_a_component(dist: Seq<Seq<u64>>, lm: Seq<usize>, k: usize, r: ScaleResult)
    requires
        witness_scale(dist, lm, k, r),
        lm.no_duplicates(),
        lm.len() >= 1,
    ensures
        r.betti@.len() >= 1,
        r.betti@[0] >= 1,
{
    let c = choose|c: SimplicialComplex| c.wf() && #[trigger] generated_by(c.levels(), witness_generators(dist, lm, k as int))
        && is_scale_result(r, k, c, dist);
    lemma_scale_vertices(dist, lm, k, r);
    assert(c.count_at(0) == r.num_vertices);
    lemma_witness_generators_distinct(dist, lm, k as int);
    lemma_generated_no_repeat(c, witness_generators(dist, lm, k as int));
    let pairs = choose|pairs: Seq<PersistencePair>| #[trigger] is_persistence_of(c, dist, pairs)
        && is_betti_of(r.betti@, pairs, u64::MAX);
    lemma_component_lives_forever(c, dist, pairs);
    let x = choose|x: int| 0 <= x < pairs.len() && (#[trigger] pairs[x]).dim == 0 && pairs[x].death is None;
    lemma_alive_count_pos(pairs, u64::MAX, 0, pairs.len() as int, x);
    lemma_max_dim_bounds(pairs, pairs.len() as int);
}

} // verus!

verus! {

/// Complexes that store the same simplices in the same order list the same simplices
/// and have the same counts below each dimension.
proof fn lemma_same_store(c1: SimplicialComplex, c2: SimplicialComplex, d: int)
    requires
        c1.level_seqs() == c2.level_seqs(),
        0 <= d <= c1.simplices@.len(),
    ensures
        c1.simplices@.len() == c2.simplices@.len(),
        simplices_below(c1, d) == simplices_below(c2, d),
        c1.count_below(d) == c2.count_below(d),
        c1.euler_below(d) == c2.euler_below(d),
        c1.wrapped_euler_below(d) == c2.wrapped_euler_below(d),
    decreases d,
{
    assert(c1.level_seqs().len() == c1.simplices@.len());
    assert(c2.level_seqs().len() == c2.simplices@.len());
    if d > 0 {
        lemma_same_store(c1, c2, d - 1);
        assert(c1.level_seqs()[d - 1] == c1.level_seq(d - 1));
        assert(c2.level_seqs()[d - 1] == c2.level_seq(d - 1));
        assert(c1.level_seq(d - 1).len() == c1.simplices@[d - 1]@.len());
        assert(c2.level_seq(d - 1).len() == c2.simplices@[d - 1]@.len());
        assert(c1.level_seq(d - 1) == c2.level_seq(d - 1));
        assert(simplices_below(c1, d) == simplices_below(c1, d - 1) + c1.level_seq(d - 1));
        assert(simplices_below(c2, d) == simplices_below(c2, d - 1) + c2.level_seq(d - 1));
    }
}

/// A summary is fixed by the simplices it summarizes, as stored: two summaries of
/// complexes that store the same simplices in the same order agree in every field but
/// the scale label.
pub proof fn lemma_summary_unique(
    r1: ScaleResult,
    r2: ScaleResult,
    k1: usize,
    k2: usize,
    c1: SimplicialComplex,
    c2: SimplicialComplex,
    dist: Seq<Seq<u64>>,
)
    requires
        is_scale_result(r1, k1, c1, dist),
        is_scale_result(r2, k2, c2, dist),
        c1.level_seqs() == c2.level_seqs(),
    ensures
        r1.k == k1,
        r2.k == k2,
        r1.num_vertices == r2.num_vertices,
        r1.num_edges == r2.num_edges,
        r1.num_triangles == r2.num_triangles,
        r1.betti@ == r2.betti@,
        r1.euler == r2.euler,
{
    let n = c1.simplices@.len() as int;
    lemma_same_store(c1, c2, n);
    assert forall|d: int| 0 <= d < n implies #[trigger] c1.count_at(d) == c2.count_at(d) by {
        assert(c1.level_seqs()[d] == c1.level_seq(d));
        assert(c2.level_seqs()[d] == c2.level_seq(d));
        assert(c1.level_seq(d).len() == c1.simplices@[d]@.len());
        assert(c2.level_seq(d).len() == c2.simplices@[d]@.len());
    }
    assert(c1.count_at(0) == c2.count_at(0));
    assert(c1.count_at(1) == c2.count_at(1));
    assert(c1.count_at(2) == c2.count_at(2));
    let p1 = choose|pairs: Seq<PersistencePair>| #[trigger] is_persistence_of(c1, dist, pairs)
        && is_betti_of(r1.betti@, pairs, u64::MAX);
    let p2 = choose|pairs: Seq<PersistencePair>| #[trigger] is_persistence_of(c2, dist, pairs)
        && is_betti_of(r2.betti@, pairs, u64::MAX);
    assert(all_simplices(c1) == all_simplices(c2));
    assert(is_persistence_of(c1, dist, p2));
    lemma_persistence_unique(c1, dist, p1, p2);
    assert(r1.betti@ =~= r2.betti@);
}

/// The witness summary at scale `k` is fixed by the distance keys, the landmarks and `k`;
/// so the witness side of `compare_variants` is, result by result, what
/// `multiscale_analysis` gives for the same points, number of landmarks, scales and seed.
pub proof fn lemma_witness_scale_unique(dist: Seq<Seq<u64>>, lm: Seq<usize>, k: usize, r1: ScaleResult, r2: ScaleResult)
    requires
        witness_scale(dist, lm, k, r1),
        witness_scale(dist, lm, k, r2),
    ensures
        r1.k == k && r2.k == k,
        r1.num_vertices == r2.num_vertices,
        r1.num_edges == r2.num_edges,
        r1.num_triangles == r2.num_triangles,
        r1.betti@ == r2.betti@,
        r1.euler == r2.euler,
{
    let c1 = choose|c: SimplicialComplex| c.wf() && #[trigger] generated_by(c.levels(), witness_generators(dist, lm, k as int))
        && c.level_seqs() == witness_in_order(dist, lm, k as int) && is_scale_result(r1, k, c, dist);
    let c2 = choose|c: SimplicialComplex| c.wf() && #[trigger] generated_by(c.levels(), witness_generators(dist, lm, k as int))
        && c.level_seqs() == witness_in_order(dist, lm, k as int) && is_scale_result(r2, k, c, dist);
    lemma_summary_unique(r1, r2, k, k, c1, c2, dist);
}

/// The weak side of `compare_variants` does not depend on the scale: two weak summaries
/// on the same landmarks agree in every field but the scale label.
pub proof fn lemma_weak_scale_unique(
    dist: Seq<Seq<u64>>,
    lm: Seq<usize>,
    k1: usize,
    k2: usize,
    r1: ScaleResult,
    r2: ScaleResult,
)
    requires
        weak_scale(dist, lm, k1, r1),
        weak_scale(dist, lm, k2, r2),
    ensures
        r1.k == k1 && r2.k == k2,
        r1.num_vertices == r2.num_vertices,
        r1.num_edges == r2.num_edges,
        r1.num_triangles == r2.num_triangles,
        r1.betti@ == r2.betti@,
        r1.euler == r2.euler,
{
    let c1 = choose|c: SimplicialComplex| c.wf()
        && #[trigger] generated_by(c.levels(), weak_generators(lm, weak_edge_ok(dist, lm), weak_triangle_ok(dist, lm), 2))
        && c.level_seqs() == weak_in_order(lm, weak_edge_ok(dist, lm), weak_triangle_ok(dist, lm), 2)
        && is_scale_result(r1, k1, c, dist);
    let c2 = choose|c: SimplicialComplex| c.wf()
        && #[trigger] generated_by(c.levels(), weak_generators(lm, weak_edge_ok(dist, lm), weak_triangle_ok(dist, lm), 2))
        && c.level_seqs() == weak_in_order(lm, weak_edge_ok(dist, lm), weak_triangle_ok(dist, lm), 2)
        && is_scale_result(r2, k2, c, dist);
    lemma_summary_unique(r1, r2, k1, k2, c1, c2, dist);
}

/// A witness complex on at least one landmark stores a vertex.
proof fn lemma_witness_has_vertex(c: SimplicialComplex, dist: Seq<Seq<u64>>, lm: Seq<usize>, k: int)
    requires
        c.wf(),
        generated_by(c.levels(), witness_generators(dist, lm, k)),
        lm.len() >= 1,
    ensures
        c.count_at(0) > 0,
{
    lemma_witness_vertices(c, dist, lm, k);
    assert(c.level(0).contains(seq![lm[0]]));
    let i = choose|i: int| 0 <= i < c.level_seq(0).len() && c.level_seq(0)[i] == seq![lm[0]];
    assert(c.level_seq(0).len() == c.simplices@[0]@.len());
}

/// The barcode at scale `k` is fixed by the distance keys, the landmarks and `k`: what
/// `barcode_at_scale` returns is the persistence diagram of the witness complex that
/// `build_witness_complex` builds on the same landmarks, as `compute_persistence` gives it.
pub proof fn lemma_barcode_unique(
    dist: Seq<Seq<u64>>,
    lm: Seq<usize>,
    k: usize,
    p1: Seq<PersistencePair>,
    p2: Seq<PersistencePair>,
)
    requires
        witness_barcode(dist, lm, k, p1),
        witness_barcode(dist, lm, k, p2),
    ensures
        p1 == p2,
{
    let c1 = choose|c: SimplicialComplex| c.wf() && #[trigger] generated_by(c.levels(), witness_generators(dist, lm, k as int))
        && c.level_seqs() == witness_in_order(dist, lm, k as int) && is_persistence_of(c, dist, p1);
    let c2 = choose|c: SimplicialComplex| c.wf() && #[trigger] generated_by(c.levels(), witness_generators(dist, lm, k as int))
        && c.level_seqs() == witness_in_order(dist, lm, k as int) && is_persistence_of(c, dist, p2);
    lemma_same_store(c1, c2, c1.simplices@.len() as int);
    assert(all_simplices(c1) == all_simplices(c2));
    assert(is_persistence_of(c1, dist, p2));
    lemma_persistence_unique(c1, dist, p1, p2);
}

/// A witness summary counts the complex that `build_witness_complex` builds on the same
/// landmarks at the same scale, and its Betti numbers are those of that complex's
/// persistence diagram (as `barcode_at_scale` or `compute_persistence` gives it) at an
/// infinite key.
pub proof fn lemma_witness_scale_of_build(
    dist: Seq<Seq<u64>>,
    lm: Seq<usize>,
    k: usize,
    r: ScaleResult,
    c: SimplicialComplex,
    pairs: Seq<PersistencePair>,
)
    requires
        witness_scale(dist, lm, k, r),
        c.level_seqs() == witness_in_order(dist, lm, k as int),
        is_persistence_of(c, dist, pairs),
    ensures
        r.k == k,
        r.num_vertices == c.count_at(0),
        r.num_edges == c.count_at(1),
        r.num_triangles == c.count_at(2),
        r.euler == c.wrapped_euler(),
        c.count_below(c.simplices@.len() as int) <= i64::MAX ==> r.euler == c.euler(),
        is_betti_of(r.betti@, pairs, u64::MAX),
{
    let c1 = choose|c: SimplicialComplex| c.wf() && #[trigger] generated_by(c.levels(), witness_generators(dist, lm, k as int))
        && c.level_seqs() == witness_in_order(dist, lm, k as int) && is_scale_result(r, k, c, dist);
    lemma_scale_result_of_store(r, k, c1, c, dist, pairs);
}

/// The weak side of `compare_variants` counts the weak witness complex (up to triangles)
/// that `build_weak_witness_complex` builds on the same landmarks, whatever the scale
/// label, and its Betti numbers are those of that complex's persistence diagram at an
/// infinite key.
pub proof fn lemma_weak_scale_of_build(
    dist: Seq<Seq<u64>>,
    lm: Seq<usize>,
    k: usize,
    r: ScaleResult,
    c: SimplicialComplex,
    pairs: Seq<PersistencePair>,
)
    requires
        weak_scale(dist, lm, k, r),
        c.level_seqs() == weak_in_order(lm, weak_edge_ok(dist, lm), weak_triangle_ok(dist, lm), 2),
        is_persistence_of(c, dist, pairs),
    ensures
        r.k == k,
        r.num_vertices == c.count_at(0),
        r.num_edges == c.count_at(1),
        r.num_triangles == c.count_at(2),
        r.euler == c.wrapped_euler(),
        c.count_below(c.simplices@.len() as int) <= i64::MAX ==> r.euler == c.euler(),
        is_betti_of(r.betti@, pairs, u64::MAX),
{
    let c1 = choose|c: SimplicialComplex| c.wf()
        && #[trigger] generated_by(c.levels(), weak_generators(lm, weak_edge_ok(dist, lm), weak_triangle_ok(dist, lm), 2))
        && c.level_seqs() == weak_in_order(lm, weak_edge_ok(dist, lm), weak_triangle_ok(dist, lm), 2)
        && is_scale_result(r, k, c, dist);
    lemma_scale_result_of_store(r, k, c1, c, dist, pairs);
}

/// A summary of one complex is a summary of any complex that stores the same simplices
/// in the same order.
proof fn lemma_scale_result_of_store(
    r: ScaleResult,
    k: usize,
    c1: SimplicialComplex,
    c: SimplicialComplex,
    dist: Seq<Seq<u64>>,
    pairs: Seq<PersistencePair>,
)
    requires
        is_scale_result(r, k, c1, dist),
        c1.level_seqs() == c.level_seqs(),
        is_persistence_of(c, dist, pairs),
    ensures
        r.k == k,
        r.num_vertices == c.count_at(0),
        r.num_edges == c.count_at(1),
        r.num_triangles == c.count_at(2),
        r.euler == c.wrapped_euler(),
        c.count_below(c.simplices@.len() as int) <= i64::MAX ==> r.euler == c.euler(),
        is_betti_of(r.betti@, pairs, u64::MAX),
{
    let n = c1.simplices@.len() as int;
    lemma_same_store(c1, c, n);
    assert forall|d: int| 0 <= d < n implies #[trigger] c1.count_at(d) == c.count_at(d) by {
        assert(c1.level_seqs()[d] == c1.level_seq(d));
        assert(c.level_seqs()[d] == c.level_seq(d));
        assert(c1.level_seq(d).len() == c1.simplices@[d]@.len());
        assert(c.level_seq(d).len() == c.simplices@[d]@.len());
    }
    assert(c1.count_at(0) == c.count_at(0));
    assert(c1.count_at(1) == c.count_at(1));
    assert(c1.count_at(2) == c.count_at(2));
    let p1 = choose|ps: Seq<PersistencePair>| #[trigger] is_persistence_of(c1, dist, ps)
        && is_betti_of(r.betti@, ps, u64::MAX);
    assert(all_simplices(c1) == all_simplices(c));
    assert(is_persistence_of(c1, dist, pairs));
    lemma_persistence_unique(c1, dist, p1, pairs);
}

} // verus!
