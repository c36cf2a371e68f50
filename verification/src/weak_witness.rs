//! The weak witness complex: a simplex enters when some point is strictly nearer to
//! each of its vertices than to any other landmark.
use vstd::prelude::*;
use crate::components::{distinct_vertices, lemma_face_distinct};
use crate::faces::{is_face, lemma_face_len, lemma_face_vertices, same_vertex_set};
use crate::witness::{
    SimplicialComplex, Simplex, generated_by, lemma_generated_add, add_faces, add_in_order, offer_vertices, rows,
    is_square, landmarks_within, precedes, rank_among, is_near, witness_generators, witnessed_by_row, ordered_pair,
    ordered_triple, holds_set, lemma_holds_set_level, lemma_sorted_unambiguous,
};
use vstd::relations::{sorted_by, total_ordering};

verus! {

/// The point with keys `row` is a weak witness of `s`: it is nearer to every vertex of
/// `s` than to any landmark outside `s`, and at a finite distance from each vertex.
pub open spec fn weak_witness_at(row: Seq<u64>, lm: Seq<usize>, s: Seq<usize>) -> bool {
    forall|a: int| 0 <= a < s.len() ==> {
        &&& #[trigger] row[s[a] as int] < u64::MAX
        &&& forall|l: int| 0 <= l < lm.len() && !s.contains(lm[l]) ==> row[s[a] as int] < #[trigger] row[lm[l] as int]
    }
}

/// Some point of the cloud is a weak witness of `s`.
pub open spec fn weakly_witnessed(dist: Seq<Seq<u64>>, lm: Seq<usize>, s: Seq<usize>) -> bool {
    exists|p: int| 0 <= p < dist.len() && #[trigger] weak_witness_at(dist[p], lm, s)
}

/// The landmarks at positions `i < j` are joined by an edge that `edge_ok` admits, up to vertex order
/// the edge between `x` and `y`.
pub open spec fn edge_listed(lm: Seq<usize>, edge_ok: spec_fn(int, int) -> bool, x: usize, y: usize) -> bool {
    exists|i: int, j: int| 0 <= i < j < lm.len() && #[trigger] edge_ok(i, j) && same_vertex_set(seq![lm[i], lm[j]], seq![x, y])
}

/// The simplices that generate the weak witness complex: a vertex per landmark; the edge
/// between the landmarks at positions `i < j` when `edge_ok(i, j)`; and, when
/// `max_dim >= 2`, the triangle at positions `i < j < k` when `tri_ok(i, j, k)` and each of
/// its three edges is, up to vertex order, an admitted edge.
pub open spec fn weak_generators(
    lm: Seq<usize>,
    edge_ok: spec_fn(int, int) -> bool,
    tri_ok: spec_fn(int, int, int) -> bool,
    max_dim: int,
) -> Set<Seq<usize>> {
    Set::new(|s: Seq<usize>|
        (exists|i: int| 0 <= i < lm.len() && s == seq![lm[i]])
        || (max_dim >= 1 && exists|i: int, j: int| 0 <= i < j < lm.len() && #[trigger] edge_ok(i, j) && s == seq![lm[i], lm[j]])
        || (max_dim >= 2 && exists|i: int, j: int, k: int| 0 <= i < j < k < lm.len() && #[trigger] tri_ok(i, j, k)
            && edge_listed(lm, edge_ok, lm[i], lm[j]) && edge_listed(lm, edge_ok, lm[i], lm[k])
            && edge_listed(lm, edge_ok, lm[j], lm[k]) && s == seq![lm[i], lm[j], lm[k]]))
}

} // verus!

verus! {

/// The stored simplices after offering, in lexicographic order, each edge at landmark
/// positions `(a, b)`, `a < b`, that comes before `(i, j)`: it is added when `edge_ok(a, b)`.
pub open spec fn offer_edges(levels: Seq<Seq<Seq<usize>>>, lm: Seq<usize>, edge_ok: spec_fn(int, int) -> bool, i: int, j: int)
    -> Seq<Seq<Seq<usize>>>
    decreases i, j,
{
    if i < 0 || j < 0 {
        levels
    } else if j > i + 1 {
        let prev = offer_edges(levels, lm, edge_ok, i, j - 1);
        if edge_ok(i, j - 1) { add_in_order(prev, seq![lm[i], lm[j - 1]]) } else { prev }
    } else if i > 0 {
        offer_edges(levels, lm, edge_ok, i - 1, lm.len() as int)
    } else {
        levels
    }
}

/// The stored simplices hold, up to vertex order, the three edges of the triangle on `x`, `y`, `z`.
pub open spec fn triangle_edges_held(levels: Seq<Seq<Seq<usize>>>, x: usize, y: usize, z: usize) -> bool {
    &&& levels.len() > 1
    &&& holds_set(levels[1], seq![x, y])
    &&& holds_set(levels[1], seq![x, z])
    &&& holds_set(levels[1], seq![y, z])
}

/// The stored simplices after offering, in lexicographic order, each triangle at landmark
/// positions `(a, b, c)`, `a < b < c`, that comes before `(i, j, k)`: it is added when
/// `tri_ok(a, b, c)` and the simplices stored at that point hold its three edges.
pub open spec fn offer_triangles(
    levels: Seq<Seq<Seq<usize>>>,
    lm: Seq<usize>,
    tri_ok: spec_fn(int, int, int) -> bool,
    i: int,
    j: int,
    k: int,
) -> Seq<Seq<Seq<usize>>>
    decreases i, j, k,
{
    if i < 0 || j < 0 || k < 0 {
        levels
    } else if k > j + 1 {
        let prev = offer_triangles(levels, lm, tri_ok, i, j, k - 1);
        if tri_ok(i, j, k - 1) && triangle_edges_held(prev, lm[i], lm[j], lm[k - 1]) {
            add_in_order(prev, seq![lm[i], lm[j], lm[k - 1]])
        } else {
            prev
        }
    } else if j > i + 1 {
        offer_triangles(levels, lm, tri_ok, i, j - 1, lm.len() as int)
    } else if i > 0 {
        offer_triangles(levels, lm, tri_ok, i - 1, lm.len() as int, lm.len() + 1int)
    } else {
        levels
    }
}

/// The stored simplices of the weak witness complex, dimension by dimension and in stored
/// order: the landmarks as vertices, then the admitted edges, then (when `max_dim >= 2`)
/// the admitted triangles, each offered in lexicographic order of landmark positions.
pub open spec fn weak_in_order(
    lm: Seq<usize>,
    edge_ok: spec_fn(int, int) -> bool,
    tri_ok: spec_fn(int, int, int) -> bool,
    max_dim: int,
) -> Seq<Seq<Seq<usize>>> {
    let n = lm.len() as int;
    let v = offer_vertices(seq![Seq::<Seq<usize>>::empty()], lm, n);
    let e = if max_dim >= 1 { offer_edges(v, lm, edge_ok, n, n + 1) } else { v };
    if max_dim >= 2 { offer_triangles(e, lm, tri_ok, n, n + 1, n + 2) } else { e }
}

/// Offering edges reads the admissions only at increasing positions below the number of landmarks.
proof fn lemma_offer_edges_agree(
    levels: Seq<Seq<Seq<usize>>>,
    lm: Seq<usize>,
    e1: spec_fn(int, int) -> bool,
    e2: spec_fn(int, int) -> bool,
    i: int,
    j: int,
)
    requires
        forall|a: int, b: int| 0 <= a < b < lm.len() ==> #[trigger] e1(a, b) == e2(a, b),
        0 <= i < j,
        j <= lm.len() || j == i + 1,
    ensures
        offer_edges(levels, lm, e1, i, j) == offer_edges(levels, lm, e2, i, j),
    decreases i, j,
{
    if j > i + 1 {
        lemma_offer_edges_agree(levels, lm, e1, e2, i, j - 1);
        assert(e1(i, j - 1) == e2(i, j - 1));
    } else if i > 0 {
        if lm.len() > i - 1 + 1 {
            lemma_offer_edges_agree(levels, lm, e1, e2, i - 1, lm.len() as int);
        } else {
            lemma_offer_edges_agree(levels, lm, e1, e2, i - 1, i);
            assert(offer_edges(levels, lm, e1, i - 1, lm.len() as int) == offer_edges(levels, lm, e1, i - 1, i)) by {
                if lm.len() < i { } else { assert(lm.len() as int == i); }
            }
            assert(offer_edges(levels, lm, e2, i - 1, lm.len() as int) == offer_edges(levels, lm, e2, i - 1, i)) by {
                if lm.len() < i { } else { assert(lm.len() as int == i); }
            }
        }
    }
}

/// Offering triangles reads the admissions only at increasing positions below the number
/// of landmarks.
proof fn lemma_offer_triangles_agree(
    levels: Seq<Seq<Seq<usize>>>,
    lm: Seq<usize>,
    t1: spec_fn(int, int, int) -> bool,
    t2: spec_fn(int, int, int) -> bool,
    i: int,
    j: int,
    k: int,
)
    requires
        forall|a: int, b: int, c: int| 0 <= a < b < c < lm.len() ==> #[trigger] t1(a, b, c) == t2(a, b, c),
        0 <= i < j <= lm.len() + 1,
        0 <= k,
        k <= lm.len() || k <= j + 1,
    ensures
        offer_triangles(levels, lm, t1, i, j, k) == offer_triangles(levels, lm, t2, i, j, k),
    decreases i, j, k,
{
    if k > j + 1 {
        lemma_offer_triangles_agree(levels, lm, t1, t2, i, j, k - 1);
        assert(t1(i, j, k - 1) == t2(i, j, k - 1));
    } else if j > i + 1 {
        lemma_offer_triangles_agree(levels, lm, t1, t2, i, j - 1, lm.len() as int);
    } else if i > 0 {
        lemma_offer_triangles_agree(levels, lm, t1, t2, i - 1, lm.len() as int, lm.len() + 1int);
    }
}

} // verus!

verus! {

/// The edge generators: the edge at positions `i < j` for each admitted pair.
pub open spec fn weak_edge(lm: Seq<usize>, edge_ok: spec_fn(int, int) -> bool, s: Seq<usize>, i: int, j: int) -> bool {
    0 <= i < j < lm.len() && edge_ok(i, j) && s == seq![lm[i], lm[j]]
}

/// The triangle generators: the triangle at positions `i < j < k` when admitted and its edges are.
pub open spec fn weak_triangle(
    lm: Seq<usize>,
    edge_ok: spec_fn(int, int) -> bool,
    tri_ok: spec_fn(int, int, int) -> bool,
    s: Seq<usize>,
    i: int,
    j: int,
    k: int,
) -> bool {
    &&& 0 <= i < j < k < lm.len()
    &&& tri_ok(i, j, k)
    &&& edge_listed(lm, edge_ok, lm[i], lm[j])
    &&& edge_listed(lm, edge_ok, lm[i], lm[k])
    &&& edge_listed(lm, edge_ok, lm[j], lm[k])
    &&& s == seq![lm[i], lm[j], lm[k]]
}

/// While the complex holds the vertices and all admitted edges, and only generators of the
/// weak witness complex, it holds an edge between `x` and `y` exactly when that edge was admitted.
proof fn lemma_pair_held(
    c: SimplicialComplex,
    gens: Set<Seq<usize>>,
    lm: Seq<usize>,
    edge_ok: spec_fn(int, int) -> bool,
    tri_ok: spec_fn(int, int, int) -> bool,
    max_dim: int,
    x: usize,
    y: usize,
)
    requires
        c.wf(),
        generated_by(c.levels(), gens),
        forall|g: Seq<usize>| #[trigger] gens.contains(g) ==> weak_generators(lm, edge_ok, tri_ok, max_dim).contains(g),
        forall|s: Seq<usize>, i: int, j: int| #[trigger] weak_edge(lm, edge_ok, s, i, j) ==> gens.contains(s),
    ensures
        c.holds_vertices(seq![x, y]) <==> edge_listed(lm, edge_ok, x, y),
{
    let xy = seq![x, y];
    if c.holds_vertices(xy) {
        let t = choose|t: Seq<usize>| #[trigger] c.level(xy.len() - 1).contains(t) && same_vertex_set(t, xy);
        assert(c.levels()[1] == c.level(1));
        assert(c.levels()[1].contains(t));
        let g = choose|g: Seq<usize>| #[trigger] gens.contains(g) && is_face(t, g);
        assert(weak_generators(lm, edge_ok, tri_ok, max_dim).contains(g));
        lemma_face_len(t, g);
        if exists|i: int| 0 <= i < lm.len() && g == seq![lm[i]] {
            assert(false);
        } else if exists|i: int, j: int| 0 <= i < j < lm.len() && #[trigger] edge_ok(i, j) && g == seq![lm[i], lm[j]] {
            let (i, j) = choose|i: int, j: int| 0 <= i < j < lm.len() && #[trigger] edge_ok(i, j) && g == seq![lm[i], lm[j]];
            assert(t == g);
            assert(same_vertex_set(seq![lm[i], lm[j]], xy));
        } else {
            let (i, j, k) = choose|i: int, j: int, k: int| 0 <= i < j < k < lm.len() && #[trigger] tri_ok(i, j, k)
                && edge_listed(lm, edge_ok, lm[i], lm[j]) && edge_listed(lm, edge_ok, lm[i], lm[k])
                && edge_listed(lm, edge_ok, lm[j], lm[k]) && g == seq![lm[i], lm[j], lm[k]];
            assert(t != g);
            let m = choose|m: int| 0 <= m < g.len() && is_face(t, g.remove(m));
            lemma_face_len(t, g.remove(m));
            assert(t == g.remove(m));
            let (a, b) = if m == 0 {
                assert(g.remove(0) =~= seq![lm[j], lm[k]]);
                (lm[j], lm[k])
            } else if m == 1 {
                assert(g.remove(1) =~= seq![lm[i], lm[k]]);
                (lm[i], lm[k])
            } else {
                assert(g.remove(2) =~= seq![lm[i], lm[j]]);
                (lm[i], lm[j])
            };
            assert(edge_listed(lm, edge_ok, a, b));
            let (i2, j2) = choose|i2: int, j2: int| 0 <= i2 < j2 < lm.len() && #[trigger] edge_ok(i2, j2)
                && same_vertex_set(seq![lm[i2], lm[j2]], seq![a, b]);
            assert(t == seq![a, b]);
            assert(same_vertex_set(seq![lm[i2], lm[j2]], xy));
        }
    }
    if edge_listed(lm, edge_ok, x, y) {
        let (i, j) = choose|i: int, j: int| 0 <= i < j < lm.len() && #[trigger] edge_ok(i, j)
            && same_vertex_set(seq![lm[i], lm[j]], xy);
        let e = seq![lm[i], lm[j]];
        assert(weak_edge(lm, edge_ok, e, i, j));
        assert(gens.contains(e));
        assert(is_face(e, e));
        assert(c.levels()[1] == c.level(1));
        assert(c.levels()[1].contains(e));
        assert(c.level(xy.len() - 1).contains(e));
    }
}

} // verus!

verus! {

/// A position at which the landmarks list `a`, when they list it.
pub open spec fn position(lm: Seq<usize>, a: usize) -> int {
    choose|p: int| 0 <= p < lm.len() && lm[p] == a
}

/// Vertices ordered by their position among the landmarks (ties by value).
pub open spec fn position_order(lm: Seq<usize>) -> spec_fn(usize, usize) -> bool {
    |a: usize, b: usize| position(lm, a) < position(lm, b) || (position(lm, a) == position(lm, b) && a <= b)
}

/// Ordering by position is a total order.
pub(crate) proof fn lemma_position_order(lm: Seq<usize>)
    ensures
        total_ordering(position_order(lm)),
{
    let r = position_order(lm);
    assert forall|x: usize| #[trigger] r(x, x) by {}
    assert forall|x: usize, y: usize| #[trigger] r(x, y) && #[trigger] r(y, x) implies x == y by {}
    assert forall|x: usize, y: usize, z: usize| #[trigger] r(x, y) && #[trigger] r(y, z) implies r(x, z) by {}
    assert forall|x: usize, y: usize| #[trigger] r(x, y) || #[trigger] r(y, x) by {}
}

/// With distinct landmarks, the landmark at position `i` sits at position `i`.
pub(crate) proof fn lemma_position_of(lm: Seq<usize>, i: int)
    requires
        lm.no_duplicates(),
        0 <= i < lm.len(),
    ensures
        position(lm, lm[i]) == i,
{
    assert(0 <= i < lm.len() && lm[i] == lm[i]);
    let p = choose|p: int| 0 <= p < lm.len() && lm[p] == lm[i];
    assert(0 <= p < lm.len() && lm[p] == lm[i]);
}

/// With distinct landmarks, simplices listed by increasing landmark position are sorted by position.
proof fn lemma_listed_sorted(lm: Seq<usize>, i: int, j: int, k: int)
    requires
        lm.no_duplicates(),
        0 <= i < j < lm.len(),
    ensures
        sorted_by(seq![lm[i]], position_order(lm)),
        sorted_by(seq![lm[i], lm[j]], position_order(lm)),
        j < k < lm.len() ==> sorted_by(seq![lm[i], lm[j], lm[k]], position_order(lm)),
{
    lemma_position_of(lm, i);
    lemma_position_of(lm, j);
    if j < k < lm.len() {
        lemma_position_of(lm, k);
        let t = seq![lm[i], lm[j], lm[k]];
        assert forall|a: int, b: int| 0 <= a < b < t.len() implies #[trigger] position_order(lm)(t[a], t[b]) by {
            if a == 0 && b == 1 {} else if a == 0 {} else {}
        }
    }
    let p = seq![lm[i], lm[j]];
    assert forall|a: int, b: int| 0 <= a < b < p.len() implies #[trigger] position_order(lm)(p[a], p[b]) by {}
}

/// With distinct landmarks, the complex is generated by `gens`, each listed in landmark order.
spec fn built_from(c: SimplicialComplex, gens: Set<Seq<usize>>, lm: Seq<usize>) -> bool {
    lm.no_duplicates() ==> {
        &&& generated_by(c.levels(), gens)
        &&& forall|g: Seq<usize>| #[trigger] gens.contains(g) ==> sorted_by(g, position_order(lm))
    }
}

/// Add a generator of the weak witness complex, listed in landmark order.
fn add_weak_generator(
    complex: &mut SimplicialComplex,
    s: Simplex,
    Ghost(lm): Ghost<Seq<usize>>,
    Ghost(gens): Ghost<Set<Seq<usize>>>,
)
    requires
        old(complex).wf(),
        s@.len() >= 1,
        built_from(*old(complex), gens, lm),
        lm.no_duplicates() ==> sorted_by(s@, position_order(lm)),
    ensures
        final(complex).wf(),
        final(complex).level_seqs() == add_in_order(old(complex).level_seqs(), s@),
        final(complex).extends(old(complex)),
        built_from(*final(complex), gens.insert(s@), lm),
{
    let ghost before = complex.levels();
    let ghost sv = s@;
    proof {
        if lm.no_duplicates() {
            lemma_position_order(lm);
            lemma_sorted_unambiguous(before, gens, sv, position_order(lm));
        }
    }
    complex.add_simplex(s);
    proof {
        if lm.no_duplicates() {
            lemma_generated_add(before, gens, sv);
        }
    }
}

/// The table `t` answers for every pair of landmark positions.
pub open spec fn pair_table(t: Seq<Vec<bool>>, n: int) -> bool {
    t.len() == n && forall|i: int| 0 <= i < n ==> #[trigger] t[i]@.len() == n
}

/// The table `t` answers for every triple of landmark positions.
pub open spec fn triple_table(t: Seq<Vec<Vec<bool>>>, n: int) -> bool {
    t.len() == n && forall|i: int| 0 <= i < n ==> pair_table(#[trigger] t[i]@, n)
}

/// The edge admission read from a table.
pub open spec fn edge_from(t: Seq<Vec<bool>>) -> spec_fn(int, int) -> bool {
    |i: int, j: int| t[i]@[j]
}

/// The triangle admission read from a table.
pub open spec fn triangle_from(t: Seq<Vec<Vec<bool>>>) -> spec_fn(int, int, int) -> bool {
    |i: int, j: int, k: int| t[i]@[j]@[k]
}

/// Build a weak witness complex from the admission of each edge and triangle: a vertex
/// per landmark; when `max_dim >= 1`, the edge between the landmarks at positions `i < j`
/// when `edge_ok[i][j]`; then, when `max_dim >= 2`, the triangle at positions `i < j < k`
/// when the complex holds its three edges and `tri_ok[i][j][k]`.
pub fn assemble_weak_witness_complex(
    landmarks: &[usize],
    max_dim: usize,
    edge_ok: &Vec<Vec<bool>>,
    tri_ok: &Vec<Vec<Vec<bool>>>,
) -> (complex: SimplicialComplex)
    requires
        pair_table(edge_ok@, landmarks@.len() as int),
        max_dim >= 2 ==> triple_table(tri_ok@, landmarks@.len() as int),
    ensures
        complex.wf(),
        complex.level_seqs() == weak_in_order(landmarks@, edge_from(edge_ok@), triangle_from(tri_ok@), max_dim as int),
        landmarks@.no_duplicates() ==> generated_by(complex.levels(),
            weak_generators(landmarks@, edge_from(edge_ok@), triangle_from(tri_ok@), max_dim as int)),
{
    let ghost lm = landmarks@;
    let ghost eok = edge_from(edge_ok@);
    let ghost tok = triangle_from(tri_ok@);
    let ghost full = weak_generators(lm, eok, tok, max_dim as int);
    let n = landmarks.len();
    let mut complex = SimplicialComplex::new();
    let ghost init = complex.level_seqs();
    let ghost mut cur = Set::<Seq<usize>>::empty();
    proof {
        assert(complex.levels()[0] =~= Set::new(
            |f: Seq<usize>| f.len() == 0 + 1 && exists|g: Seq<usize>| #[trigger] cur.contains(g) && is_face(f, g)));
        assert(init == seq![Seq::<Seq<usize>>::empty()]);
    }
    let mut i: usize = 0;
    while i < n
        invariant
            n == lm.len(),
            lm == landmarks@,
            i <= n,
            complex.wf(),
            built_from(complex, cur, lm),
            cur == Set::new(|s: Seq<usize>| exists|x: int| 0 <= x < i && s == seq![lm[x]]),
            complex.level_seqs() == offer_vertices(init, lm, i as int),
        decreases n - i,
    {
        let v = vec![landmarks[i]];
        let ghost vv = v@;
        assert(vv == seq![lm[i as int]]);
        assert(sorted_by(vv, position_order(lm)));
        add_weak_generator(&mut complex, v, Ghost(lm), Ghost(cur));
        proof {
            assert(complex.level_seqs() == offer_vertices(init, lm, i + 1));
            let old_cur = cur;
            cur = cur.insert(vv);
            assert(cur =~= Set::new(|s: Seq<usize>| exists|x: int| 0 <= x < i + 1 && s == seq![lm[x]])) by {
                assert forall|s: Seq<usize>| (exists|x: int| 0 <= x < i + 1 && s == seq![lm[x]])
                    implies #[trigger] old_cur.insert(vv).contains(s) by {
                    let x = choose|x: int| 0 <= x < i + 1 && s == seq![lm[x]];
                    if x < i { assert(old_cur.contains(s)); }
                }
            }
        }
        i = i + 1;
    }
    let ghost verts = cur;
    let ghost vseq = complex.level_seqs();
    let edge_n = if max_dim >= 1 { n } else { 0 };
    let mut i: usize = 0;
    while i < edge_n
        invariant
            n == lm.len(),
            lm == landmarks@,
            eok == edge_from(edge_ok@),
            pair_table(edge_ok@, n as int),
            edge_n <= n,
            i <= edge_n,
            complex.wf(),
            built_from(complex, cur, lm),
            cur == verts.union(Set::new(|s: Seq<usize>| exists|x: int, y: int| #[trigger] weak_edge(lm, eok, s, x, y) && x < i)),
            complex.level_seqs() == offer_edges(vseq, lm, eok, i as int, i + 1),
        decreases n - i,
    {
        let mut j: usize = i + 1;
        while j < n
            invariant
                n == lm.len(),
                lm == landmarks@,
                eok == edge_from(edge_ok@),
                pair_table(edge_ok@, n as int),
                i < edge_n,
                edge_n <= n,
                i + 1 <= j <= n,
                complex.wf(),
                built_from(complex, cur, lm),
                cur == verts.union(Set::new(|s: Seq<usize>| exists|x: int, y: int| #[trigger] weak_edge(lm, eok, s, x, y)
                    && (x < i || (x == i && y < j)))),
                complex.level_seqs() == offer_edges(vseq, lm, eok, i as int, j as int),
            decreases n - j,
        {
            let ghost old_cur = cur;
            assert(edge_ok@[i as int]@.len() == n);
            if edge_ok[i][j] {
                let e = vec![landmarks[i], landmarks[j]];
                let ghost ev = e@;
                proof {
                    if lm.no_duplicates() {
                        lemma_listed_sorted(lm, i as int, j as int, j as int);
                    }
                }
                add_weak_generator(&mut complex, e, Ghost(lm), Ghost(cur));
                proof {
                    cur = cur.insert(ev);
                    assert(weak_edge(lm, eok, ev, i as int, j as int));
                }
            }
            assert(complex.level_seqs() == offer_edges(vseq, lm, eok, i as int, j + 1));
            proof {
                assert(cur =~= verts.union(Set::new(|s: Seq<usize>| exists|x: int, y: int| #[trigger] weak_edge(lm, eok, s, x, y)
                    && (x < i || (x == i && y < j + 1))))) by {
                    assert forall|s: Seq<usize>| (exists|x: int, y: int| #[trigger] weak_edge(lm, eok, s, x, y)
                        && (x < i || (x == i && y < j + 1))) implies #[trigger] cur.contains(s) by {
                        let (x, y) = choose|x: int, y: int| #[trigger] weak_edge(lm, eok, s, x, y)
                            && (x < i || (x == i && y < j + 1));
                        if x == i && y == j { } else {
                            assert(old_cur.contains(s));
                        }
                    }
                }
            }
            j = j + 1;
        }
        assert(offer_edges(vseq, lm, eok, i + 1, i + 2) == offer_edges(vseq, lm, eok, i as int, n as int));
        proof {
            assert(cur =~= verts.union(Set::new(|s: Seq<usize>| exists|x: int, y: int| #[trigger] weak_edge(lm, eok, s, x, y) && x < i + 1))) by {
                assert forall|s: Seq<usize>| (exists|x: int, y: int| #[trigger] weak_edge(lm, eok, s, x, y) && x < i + 1)
                    implies #[trigger] cur.contains(s) by {
                    let (x, y) = choose|x: int, y: int| #[trigger] weak_edge(lm, eok, s, x, y) && x < i + 1;
                    assert(x < i || (x == i && y < n));
                }
                assert forall|s: Seq<usize>| #[trigger] cur.contains(s) && !verts.contains(s)
                    implies (exists|x: int, y: int| #[trigger] weak_edge(lm, eok, s, x, y) && x < i + 1) by {
                    let (x, y) = choose|x: int, y: int| #[trigger] weak_edge(lm, eok, s, x, y) && (x < i || (x == i && y < n));
                }
            }
        }
        i = i + 1;
    }
    let ghost edges = Set::new(|s: Seq<usize>| exists|x: int, y: int| #[trigger] weak_edge(lm, eok, s, x, y));
    proof {
        if max_dim >= 1 {
            assert(cur =~= verts.union(edges)) by {
                assert forall|s: Seq<usize>| #[trigger] edges.contains(s) implies cur.contains(s) by {
                    let (x, y) = choose|x: int, y: int| #[trigger] weak_edge(lm, eok, s, x, y);
                }
            }
        } else {
            assert(cur =~= verts);
        }
    }
    let ghost eseq = complex.level_seqs();
    if max_dim >= 2 {
        let ghost gen_e = verts.union(edges);
        let mut i: usize = 0;
        while i < n
            invariant
                n == lm.len(),
                lm == landmarks@,
                eok == edge_from(edge_ok@),
                tok == triangle_from(tri_ok@),
                full == weak_generators(lm, eok, tok, max_dim as int),
                max_dim >= 2,
                triple_table(tri_ok@, n as int),
                gen_e == verts.union(edges),
                verts == Set::new(|s: Seq<usize>| exists|x: int| 0 <= x < lm.len() && s == seq![lm[x]]),
                edges == Set::new(|s: Seq<usize>| exists|x: int, y: int| #[trigger] weak_edge(lm, eok, s, x, y)),
                i <= n,
                complex.wf(),
                built_from(complex, cur, lm),
                lm.no_duplicates() ==> cur == gen_e.union(Set::new(|s: Seq<usize>| exists|x: int, y: int, z: int|
                    #[trigger] weak_triangle(lm, eok, tok, s, x, y, z) && x < i)),
                complex.level_seqs() == offer_triangles(eseq, lm, tok, i as int, i + 1, i + 2),
            decreases n - i,
        {
            let mut j: usize = i + 1;
            while j < n
                invariant
                    n == lm.len(),
                    lm == landmarks@,
                    eok == edge_from(edge_ok@),
                    tok == triangle_from(tri_ok@),
                    full == weak_generators(lm, eok, tok, max_dim as int),
                    max_dim >= 2,
                    triple_table(tri_ok@, n as int),
                    gen_e == verts.union(edges),
                    verts == Set::new(|s: Seq<usize>| exists|x: int| 0 <= x < lm.len() && s == seq![lm[x]]),
                    edges == Set::new(|s: Seq<usize>| exists|x: int, y: int| #[trigger] weak_edge(lm, eok, s, x, y)),
                    i < n,
                    i + 1 <= j <= n,
                    complex.wf(),
                    built_from(complex, cur, lm),
                    lm.no_duplicates() ==> cur == gen_e.union(Set::new(|s: Seq<usize>| exists|x: int, y: int, z: int|
                        #[trigger] weak_triangle(lm, eok, tok, s, x, y, z) && (x < i || (x == i && y < j)))),
                    complex.level_seqs() == offer_triangles(eseq, lm, tok, i as int, j as int, j + 1),
                decreases n - j,
            {
                let mut k: usize = j + 1;
                while k < n
                    invariant
                        n == lm.len(),
                        lm == landmarks@,
                        eok == edge_from(edge_ok@),
                        tok == triangle_from(tri_ok@),
                        full == weak_generators(lm, eok, tok, max_dim as int),
                        max_dim >= 2,
                        triple_table(tri_ok@, n as int),
                        gen_e == verts.union(edges),
                        verts == Set::new(|s: Seq<usize>| exists|x: int| 0 <= x < lm.len() && s == seq![lm[x]]),
                        edges == Set::new(|s: Seq<usize>| exists|x: int, y: int| #[trigger] weak_edge(lm, eok, s, x, y)),
                        i < j < n,
                        j + 1 <= k <= n,
                        complex.wf(),
                        built_from(complex, cur, lm),
                        lm.no_duplicates() ==> cur == gen_e.union(Set::new(|s: Seq<usize>| exists|x: int, y: int, z: int|
                            #[trigger] weak_triangle(lm, eok, tok, s, x, y, z)
                                && (x < i || (x == i && y < j) || (x == i && y == j && z < k)))),
                        complex.level_seqs() == offer_triangles(eseq, lm, tok, i as int, j as int, k as int),
                    decreases n - k,
                {
                    let ghost old_cur = cur;
                    let ghost prev = complex.level_seqs();
                    let (li, lj, lk) = (landmarks[i], landmarks[j], landmarks[k]);
                    proof {
                      if lm.no_duplicates() {
                        assert forall|g: Seq<usize>| #[trigger] cur.contains(g) implies full.contains(g) by {
                            if verts.contains(g) {
                                let x = choose|x: int| 0 <= x < lm.len() && g == seq![lm[x]];
                            } else if edges.contains(g) {
                                let (x, y) = choose|x: int, y: int| #[trigger] weak_edge(lm, eok, g, x, y);
                                assert(eok(x, y));
                            } else {
                                let (x, y, z) = choose|x: int, y: int, z: int| #[trigger] weak_triangle(lm, eok, tok, g, x, y, z)
                                    && (x < i || (x == i && y < j) || (x == i && y == j && z < k));
                                assert(tok(x, y, z));
                            }
                        }
                        assert forall|s: Seq<usize>, x: int, y: int| #[trigger] weak_edge(lm, eok, s, x, y) implies cur.contains(s) by {
                            assert(edges.contains(s));
                        }
                        lemma_pair_held(complex, cur, lm, eok, tok, max_dim as int, li, lj);
                        lemma_pair_held(complex, cur, lm, eok, tok, max_dim as int, li, lk);
                        lemma_pair_held(complex, cur, lm, eok, tok, max_dim as int, lj, lk);
                      }
                    }
                    let e1 = vec![li, lj];
                    let e2 = vec![li, lk];
                    let e3 = vec![lj, lk];
                    assert(e1@ == seq![li, lj]);
                    assert(e2@ == seq![li, lk]);
                    assert(e3@ == seq![lj, lk]);
                    assert(tri_ok@[i as int]@.len() == n);
                    assert(tri_ok@[i as int]@[j as int]@.len() == n);
                    let held = complex.contains(e1.as_slice()) && complex.contains(e2.as_slice())
                        && complex.contains(e3.as_slice());
                    proof {
                        if complex.simplices@.len() > 1 {
                            lemma_holds_set_level(complex, seq![li, lj]);
                            lemma_holds_set_level(complex, seq![li, lk]);
                            lemma_holds_set_level(complex, seq![lj, lk]);
                            assert(prev[1] == complex.level_seq(1));
                        }
                        assert(held == triangle_edges_held(prev, li, lj, lk));
                    }
                    if held && tri_ok[i][j][k] {
                        let t = vec![li, lj, lk];
                        let ghost tv = t@;
                        proof {
                            if lm.no_duplicates() {
                                lemma_listed_sorted(lm, i as int, j as int, k as int);
                            }
                        }
                        add_weak_generator(&mut complex, t, Ghost(lm), Ghost(cur));
                        proof {
                            cur = cur.insert(tv);
                            assert(tok(i as int, j as int, k as int));
                            if lm.no_duplicates() {
                                assert(weak_triangle(lm, eok, tok, tv, i as int, j as int, k as int));
                            }
                        }
                    } else {
                        proof {
                            if lm.no_duplicates() {
                                assert(!weak_triangle(lm, eok, tok, seq![li, lj, lk], i as int, j as int, k as int));
                            }
                        }
                    }
                    assert(complex.level_seqs() == offer_triangles(eseq, lm, tok, i as int, j as int, k + 1));
                    proof {
                        if lm.no_duplicates() {
                            assert(cur =~= gen_e.union(Set::new(|s: Seq<usize>| exists|x: int, y: int, z: int|
                                #[trigger] weak_triangle(lm, eok, tok, s, x, y, z)
                                    && (x < i || (x == i && y < j) || (x == i && y == j && z < k + 1))))) by {
                                assert forall|s: Seq<usize>| (exists|x: int, y: int, z: int|
                                    #[trigger] weak_triangle(lm, eok, tok, s, x, y, z)
                                        && (x < i || (x == i && y < j) || (x == i && y == j && z < k + 1)))
                                    implies #[trigger] cur.contains(s) by {
                                    let (x, y, z) = choose|x: int, y: int, z: int|
                                        #[trigger] weak_triangle(lm, eok, tok, s, x, y, z)
                                            && (x < i || (x == i && y < j) || (x == i && y == j && z < k + 1));
                                    if x == i && y == j && z == k { } else {
                                        assert(old_cur.contains(s));
                                    }
                                }
                            }
                        }
                    }
                    k = k + 1;
                }
                assert(offer_triangles(eseq, lm, tok, i as int, j + 1, j + 2)
                    == offer_triangles(eseq, lm, tok, i as int, j as int, n as int));
                proof {
                    if lm.no_duplicates() {
                        assert(cur =~= gen_e.union(Set::new(|s: Seq<usize>| exists|x: int, y: int, z: int|
                            #[trigger] weak_triangle(lm, eok, tok, s, x, y, z) && (x < i || (x == i && y < j + 1))))) by {
                            assert forall|s: Seq<usize>| (exists|x: int, y: int, z: int|
                                #[trigger] weak_triangle(lm, eok, tok, s, x, y, z) && (x < i || (x == i && y < j + 1)))
                                implies #[trigger] cur.contains(s) by {
                                let (x, y, z) = choose|x: int, y: int, z: int|
                                    #[trigger] weak_triangle(lm, eok, tok, s, x, y, z) && (x < i || (x == i && y < j + 1));
                                assert(x < i || (x == i && y < j) || (x == i && y == j && z < n));
                            }
                            assert forall|s: Seq<usize>| #[trigger] cur.contains(s) && !gen_e.contains(s)
                                implies (exists|x: int, y: int, z: int|
                                #[trigger] weak_triangle(lm, eok, tok, s, x, y, z) && (x < i || (x == i && y < j + 1))) by {
                                let (x, y, z) = choose|x: int, y: int, z: int|
                                    #[trigger] weak_triangle(lm, eok, tok, s, x, y, z)
                                        && (x < i || (x == i && y < j) || (x == i && y == j && z < n));
                            }
                        }
                    }
                }
                j = j + 1;
            }
            assert(offer_triangles(eseq, lm, tok, i + 1, i + 2, i + 3)
                == offer_triangles(eseq, lm, tok, i as int, n as int, n + 1));
            proof {
                if lm.no_duplicates() {
                    assert(cur =~= gen_e.union(Set::new(|s: Seq<usize>| exists|x: int, y: int, z: int|
                        #[trigger] weak_triangle(lm, eok, tok, s, x, y, z) && x < i + 1))) by {
                        assert forall|s: Seq<usize>| (exists|x: int, y: int, z: int|
                            #[trigger] weak_triangle(lm, eok, tok, s, x, y, z) && x < i + 1)
                            implies #[trigger] cur.contains(s) by {
                            let (x, y, z) = choose|x: int, y: int, z: int|
                                #[trigger] weak_triangle(lm, eok, tok, s, x, y, z) && x < i + 1;
                            assert(x < i || (x == i && y < n));
                        }
                        assert forall|s: Seq<usize>| #[trigger] cur.contains(s) && !gen_e.contains(s)
                            implies (exists|x: int, y: int, z: int|
                            #[trigger] weak_triangle(lm, eok, tok, s, x, y, z) && x < i + 1) by {
                            let (x, y, z) = choose|x: int, y: int, z: int|
                                #[trigger] weak_triangle(lm, eok, tok, s, x, y, z) && (x < i || (x == i && y < n));
                        }
                    }
                }
            }
            i = i + 1;
        }
    }
    proof {
        if lm.no_duplicates() {
            assert(cur =~= full) by {
                assert forall|s: Seq<usize>| #[trigger] full.contains(s) implies cur.contains(s) by {
                    if exists|x: int| 0 <= x < lm.len() && s == seq![lm[x]] {
                        assert(verts.contains(s));
                    } else if max_dim >= 1 && exists|x: int, y: int| 0 <= x < y < lm.len() && #[trigger] eok(x, y) && s == seq![lm[x], lm[y]] {
                        let (x, y) = choose|x: int, y: int| 0 <= x < y < lm.len() && #[trigger] eok(x, y) && s == seq![lm[x], lm[y]];
                        assert(weak_edge(lm, eok, s, x, y));
                    } else {
                        let (x, y, z) = choose|x: int, y: int, z: int| 0 <= x < y < z < lm.len() && #[trigger] tok(x, y, z)
                            && edge_listed(lm, eok, lm[x], lm[y]) && edge_listed(lm, eok, lm[x], lm[z])
                            && edge_listed(lm, eok, lm[y], lm[z]) && s == seq![lm[x], lm[y], lm[z]];
                        assert(weak_triangle(lm, eok, tok, s, x, y, z));
                    }
                }
                assert forall|s: Seq<usize>| #[trigger] cur.contains(s) implies full.contains(s) by {
                    if verts.contains(s) {
                        let x = choose|x: int| 0 <= x < lm.len() && s == seq![lm[x]];
                    } else if edges.contains(s) {
                        let (x, y) = choose|x: int, y: int| #[trigger] weak_edge(lm, eok, s, x, y);
                        assert(eok(x, y));
                    } else {
                        let (x, y, z) = choose|x: int, y: int, z: int| #[trigger] weak_triangle(lm, eok, tok, s, x, y, z) && x < n;
                        assert(tok(x, y, z));
                    }
                }
            }
        }
    }
    complex
}

} // verus!

verus! {

/// Whether `s` lists the vertex `v`.
fn lists_vertex(s: &[usize], v: usize) -> (r: bool)
    ensures
        r == s@.contains(v),
{
    let mut i: usize = 0;
    while i < s.len()
        invariant
            i <= s@.len(),
            forall|x: int| 0 <= x < i ==> s@[x] != v,
        decreases s.len() - i,
    {
        if s[i] == v {
            return true;
        }
        i = i + 1;
    }
    false
}

/// Whether some point is a weak witness of `simplex`: nearer to each of its vertices than
/// to any landmark outside it (the largest vertex key below the smallest other key, which
/// is `u64::MAX` when every landmark is a vertex).
pub fn has_weak_witness(dist: &[Vec<u64>], landmarks: &[usize], simplex: &[usize]) -> (r: bool)
    requires
        is_square(dist@),
        landmarks_within(landmarks@, dist@.len() as int),
        landmarks_within(simplex@, dist@.len() as int),
        simplex@.len() >= 1,
    ensures
        r == weakly_witnessed(rows(dist@), landmarks@, simplex@),
{
    let ghost dv = rows(dist@);
    let n = dist.len();
    let mut p: usize = 0;
    while p < n
        invariant
            n == dist@.len(),
            dv == rows(dist@),
            is_square(dist@),
            landmarks_within(landmarks@, n as int),
            landmarks_within(simplex@, n as int),
            simplex@.len() >= 1,
            p <= n,
            forall|q: int| 0 <= q < p ==> !#[trigger] weak_witness_at(dv[q], landmarks@, simplex@),
        decreases n - p,
    {
        let row = &dist[p];
        assert(row@.len() == n);
        assert(dv[p as int] == row@);
        let ghost rv = row@;
        let mut max_vertex: u64 = row[simplex[0]];
        let mut a: usize = 1;
        while a < simplex.len()
            invariant
                row@ == rv,
                rv.len() == n,
                landmarks_within(simplex@, n as int),
                1 <= a <= simplex@.len(),
                forall|x: int| 0 <= x < a ==> rv[simplex@[x] as int] <= max_vertex,
                exists|x: int| 0 <= x < a && rv[simplex@[x] as int] == max_vertex,
            decreases simplex.len() - a,
        {
            let d = row[simplex[a]];
            if d > max_vertex {
                max_vertex = d;
            }
            a = a + 1;
        }
        let mut min_other: u64 = u64::MAX;
        let mut b: usize = 0;
        while b < landmarks.len()
            invariant
                row@ == rv,
                rv.len() == n,
                landmarks_within(landmarks@, n as int),
                b <= landmarks@.len(),
                forall|x: int| 0 <= x < b && !simplex@.contains(landmarks@[x]) ==> min_other <= rv[landmarks@[x] as int],
                min_other == u64::MAX || exists|x: int| 0 <= x < b && !simplex@.contains(landmarks@[x])
                    && rv[landmarks@[x] as int] == min_other,
            decreases landmarks.len() - b,
        {
            if !lists_vertex(simplex, landmarks[b]) {
                let d = row[landmarks[b]];
                if d < min_other {
                    min_other = d;
                }
            }
            b = b + 1;
        }
        if max_vertex < min_other {
            proof {
                assert forall|x: int| 0 <= x < simplex@.len() implies {
                    &&& #[trigger] rv[simplex@[x] as int] < u64::MAX
                    &&& forall|l: int| 0 <= l < landmarks@.len() && !simplex@.contains(landmarks@[l])
                        ==> rv[simplex@[x] as int] < #[trigger] rv[landmarks@[l] as int]
                } by {}
                assert(weak_witness_at(dv[p as int], landmarks@, simplex@));
            }
            return true;
        }
        proof {
            let x = choose|x: int| 0 <= x < simplex@.len() && rv[simplex@[x] as int] == max_vertex;
            if weak_witness_at(dv[p as int], landmarks@, simplex@) {
                assert(rv[simplex@[x] as int] < u64::MAX);
                if min_other != u64::MAX {
                    let y = choose|y: int| 0 <= y < landmarks@.len() && !simplex@.contains(landmarks@[y])
                        && rv[landmarks@[y] as int] == min_other;
                    assert(rv[simplex@[x] as int] < rv[landmarks@[y] as int]);
                }
            }
        }
        p = p + 1;
    }
    false
}

} // verus!

verus! {

/// The weak witness admission of the edge at landmark positions `i`, `j`.
pub open spec fn weak_edge_ok(dist: Seq<Seq<u64>>, lm: Seq<usize>) -> spec_fn(int, int) -> bool {
    |i: int, j: int| weakly_witnessed(dist, lm, seq![lm[i], lm[j]])
}

/// The weak witness admission of the triangle at landmark positions `i`, `j`, `k`.
pub open spec fn weak_triangle_ok(dist: Seq<Seq<u64>>, lm: Seq<usize>) -> spec_fn(int, int, int) -> bool {
    |i: int, j: int, k: int| weakly_witnessed(dist, lm, seq![lm[i], lm[j], lm[k]])
}

/// The generators only read the admissions at increasing landmark positions.
proof fn lemma_weak_generators_agree(
    lm: Seq<usize>,
    e1: spec_fn(int, int) -> bool,
    e2: spec_fn(int, int) -> bool,
    t1: spec_fn(int, int, int) -> bool,
    t2: spec_fn(int, int, int) -> bool,
    max_dim: int,
)
    requires
        forall|i: int, j: int| 0 <= i < j < lm.len() ==> #[trigger] e1(i, j) == e2(i, j),
        max_dim >= 2 ==> forall|i: int, j: int, k: int| 0 <= i < j < k < lm.len() ==> #[trigger] t1(i, j, k) == t2(i, j, k),
    ensures
        weak_generators(lm, e1, t1, max_dim) == weak_generators(lm, e2, t2, max_dim),
{
    assert forall|x: usize, y: usize| edge_listed(lm, e1, x, y) <==> edge_listed(lm, e2, x, y) by {
        if edge_listed(lm, e1, x, y) {
            let (i, j) = choose|i: int, j: int| 0 <= i < j < lm.len() && #[trigger] e1(i, j) && same_vertex_set(seq![lm[i], lm[j]], seq![x, y]);
            assert(e2(i, j));
        }
        if edge_listed(lm, e2, x, y) {
            let (i, j) = choose|i: int, j: int| 0 <= i < j < lm.len() && #[trigger] e2(i, j) && same_vertex_set(seq![lm[i], lm[j]], seq![x, y]);
            assert(e1(i, j));
        }
    }
    let g1 = weak_generators(lm, e1, t1, max_dim);
    let g2 = weak_generators(lm, e2, t2, max_dim);
    assert forall|s: Seq<usize>| g1.contains(s) <==> g2.contains(s) by {
        if exists|i: int, j: int| 0 <= i < j < lm.len() && #[trigger] e1(i, j) && s == seq![lm[i], lm[j]] {
            let (i, j) = choose|i: int, j: int| 0 <= i < j < lm.len() && #[trigger] e1(i, j) && s == seq![lm[i], lm[j]];
            assert(e2(i, j));
        }
        if exists|i: int, j: int| 0 <= i < j < lm.len() && #[trigger] e2(i, j) && s == seq![lm[i], lm[j]] {
            let (i, j) = choose|i: int, j: int| 0 <= i < j < lm.len() && #[trigger] e2(i, j) && s == seq![lm[i], lm[j]];
            assert(e1(i, j));
        }
        if max_dim >= 2 && exists|i: int, j: int, k: int| 0 <= i < j < k < lm.len() && #[trigger] t1(i, j, k)
            && edge_listed(lm, e1, lm[i], lm[j]) && edge_listed(lm, e1, lm[i], lm[k])
            && edge_listed(lm, e1, lm[j], lm[k]) && s == seq![lm[i], lm[j], lm[k]] {
            let (i, j, k) = choose|i: int, j: int, k: int| 0 <= i < j < k < lm.len() && #[trigger] t1(i, j, k)
                && edge_listed(lm, e1, lm[i], lm[j]) && edge_listed(lm, e1, lm[i], lm[k])
                && edge_listed(lm, e1, lm[j], lm[k]) && s == seq![lm[i], lm[j], lm[k]];
            assert(t2(i, j, k));
        }
        if max_dim >= 2 && exists|i: int, j: int, k: int| 0 <= i < j < k < lm.len() && #[trigger] t2(i, j, k)
            && edge_listed(lm, e2, lm[i], lm[j]) && edge_listed(lm, e2, lm[i], lm[k])
            && edge_listed(lm, e2, lm[j], lm[k]) && s == seq![lm[i], lm[j], lm[k]] {
            let (i, j, k) = choose|i: int, j: int, k: int| 0 <= i < j < k < lm.len() && #[trigger] t2(i, j, k)
                && edge_listed(lm, e2, lm[i], lm[j]) && edge_listed(lm, e2, lm[i], lm[k])
                && edge_listed(lm, e2, lm[j], lm[k]) && s == seq![lm[i], lm[j], lm[k]];
            assert(t1(i, j, k));
        }
    }
    assert(g1 =~= g2);
}

/// Build a weak witness complex up to dimension `max_dim` (edges when `max_dim >= 1`,
/// triangles when `max_dim >= 2`): a simplex on landmarks enters when some point is a weak
/// witness of it, and a triangle also needs the complex to hold its three edges. `dist`
/// holds the distance keys between the points. With distinct landmarks the complex is
/// exactly the one generated by these simplices; with repeated ones, a simplex whose
/// vertices are already held, in another order, is not stored again.
pub fn build_weak_witness_complex(dist: &[Vec<u64>], landmarks: &[usize], max_dim: usize) -> (complex: SimplicialComplex)
    requires
        is_square(dist@),
        landmarks_within(landmarks@, dist@.len() as int),
    ensures
        complex.wf(),
        complex.level_seqs() == weak_in_order(landmarks@,
            weak_edge_ok(rows(dist@), landmarks@), weak_triangle_ok(rows(dist@), landmarks@), max_dim as int),
        landmarks@.no_duplicates() ==> generated_by(complex.levels(), weak_generators(landmarks@,
            weak_edge_ok(rows(dist@), landmarks@), weak_triangle_ok(rows(dist@), landmarks@), max_dim as int)),
{
    let ghost dv = rows(dist@);
    let ghost lm = landmarks@;
    let n = landmarks.len();
    let mut edge_ok: Vec<Vec<bool>> = Vec::new();
    let mut i: usize = 0;
    while i < n
        invariant
            n == lm.len(),
            lm == landmarks@,
            dv == rows(dist@),
            is_square(dist@),
            landmarks_within(lm, dist@.len() as int),
            i <= n,
            edge_ok@.len() == i,
            forall|x: int| 0 <= x < i ==> #[trigger] edge_ok@[x]@.len() == n,
            forall|x: int, y: int| 0 <= x < i && x < y < n ==> #[trigger] edge_ok@[x]@[y] == weak_edge_ok(dv, lm)(x, y),
        decreases n - i,
    {
        let mut row: Vec<bool> = Vec::new();
        let mut j: usize = 0;
        while j < n
            invariant
                n == lm.len(),
                lm == landmarks@,
                dv == rows(dist@),
                is_square(dist@),
                landmarks_within(lm, dist@.len() as int),
                i < n,
                j <= n,
                row@.len() == j,
                forall|y: int| i < y < j ==> #[trigger] row@[y] == weak_edge_ok(dv, lm)(i as int, y),
            decreases n - j,
        {
            if i < j {
                let e = vec![landmarks[i], landmarks[j]];
                assert(e@ == seq![lm[i as int], lm[j as int]]);
                let w = has_weak_witness(dist, landmarks, e.as_slice());
                row.push(w);
            } else {
                row.push(false);
            }
            j = j + 1;
        }
        edge_ok.push(row);
        i = i + 1;
    }
    let mut tri_ok: Vec<Vec<Vec<bool>>> = Vec::new();
    if max_dim >= 2 {
        let mut i: usize = 0;
        while i < n
            invariant
                n == lm.len(),
                lm == landmarks@,
                dv == rows(dist@),
                is_square(dist@),
                landmarks_within(lm, dist@.len() as int),
                i <= n,
                tri_ok@.len() == i,
                forall|x: int| 0 <= x < i ==> pair_table(#[trigger] tri_ok@[x]@, n as int),
                forall|x: int, y: int, z: int| 0 <= x < i && x < y < z < n
                    ==> #[trigger] tri_ok@[x]@[y]@[z] == weak_triangle_ok(dv, lm)(x, y, z),
            decreases n - i,
        {
            let mut plane: Vec<Vec<bool>> = Vec::new();
            let mut j: usize = 0;
            while j < n
                invariant
                    n == lm.len(),
                    lm == landmarks@,
                    dv == rows(dist@),
                    is_square(dist@),
                    landmarks_within(lm, dist@.len() as int),
                    i < n,
                    j <= n,
                    plane@.len() == j,
                    forall|y: int| 0 <= y < j ==> #[trigger] plane@[y]@.len() == n,
                    forall|y: int, z: int| i < y < j && y < z < n ==> #[trigger] plane@[y]@[z] == weak_triangle_ok(dv, lm)(i as int, y, z),
                decreases n - j,
            {
                let mut row: Vec<bool> = Vec::new();
                let mut k: usize = 0;
                while k < n
                    invariant
                        n == lm.len(),
                        lm == landmarks@,
                        dv == rows(dist@),
                        is_square(dist@),
                        landmarks_within(lm, dist@.len() as int),
                        i < n,
                        j < n,
                        k <= n,
                        row@.len() == k,
                        forall|z: int| i < j < z < k ==> #[trigger] row@[z] == weak_triangle_ok(dv, lm)(i as int, j as int, z),
                    decreases n - k,
                {
                    if i < j && j < k {
                        let t = vec![landmarks[i], landmarks[j], landmarks[k]];
                        assert(t@ == seq![lm[i as int], lm[j as int], lm[k as int]]);
                        let w = has_weak_witness(dist, landmarks, t.as_slice());
                        row.push(w);
                    } else {
                        row.push(false);
                    }
                    k = k + 1;
                }
                plane.push(row);
                j = j + 1;
            }
            tri_ok.push(plane);
            i = i + 1;
        }
    }
    let complex = assemble_weak_witness_complex(landmarks, max_dim, &edge_ok, &tri_ok);
    proof {
        let (e1, e2) = (edge_from(edge_ok@), weak_edge_ok(dv, lm));
        let (t1, t2) = (triangle_from(tri_ok@), weak_triangle_ok(dv, lm));
        lemma_weak_generators_agree(lm, e1, e2, t1, t2, max_dim as int);
        let ni = n as int;
        let v = offer_vertices(seq![Seq::<Seq<usize>>::empty()], lm, ni);
        lemma_offer_edges_agree(v, lm, e1, e2, ni, ni + 1);
        if max_dim >= 2 {
            let e = offer_edges(v, lm, e1, ni, ni + 1);
            lemma_offer_triangles_agree(e, lm, t1, t2, ni, ni + 1, ni + 2);
        }
    }
    complex
}

} // verus!

verus! {

/// Admitting more edges and triangles only adds simplices: a weak witness complex whose
/// admissions include those of another (as the relaxed complex's include the strict one's)
/// holds it as a subcomplex, with at least as many simplices in every dimension.
pub proof fn lemma_weak_monotone(
    c1: SimplicialComplex,
    c2: SimplicialComplex,
    lm: Seq<usize>,
    e1: spec_fn(int, int) -> bool,
    t1: spec_fn(int, int, int) -> bool,
    e2: spec_fn(int, int) -> bool,
    t2: spec_fn(int, int, int) -> bool,
    max_dim: int,
)
    requires
        c1.wf(),
        c2.wf(),
        generated_by(c1.levels(), weak_generators(lm, e1, t1, max_dim)),
        generated_by(c2.levels(), weak_generators(lm, e2, t2, max_dim)),
        forall|i: int, j: int| 0 <= i < j < lm.len() && #[trigger] e1(i, j) ==> e2(i, j),
        forall|i: int, j: int, k: int| 0 <= i < j < k < lm.len() && #[trigger] t1(i, j, k) ==> t2(i, j, k),
    ensures
        c1.simplices@.len() <= c2.simplices@.len(),
        forall|d: int| 0 <= d < c1.simplices@.len() ==> #[trigger] c1.level(d).subset_of(c2.level(d)),
        forall|d: int| #[trigger] c1.count_at(d) <= c2.count_at(d),
{
    let g1 = weak_generators(lm, e1, t1, max_dim);
    let g2 = weak_generators(lm, e2, t2, max_dim);
    assert forall|x: usize, y: usize| edge_listed(lm, e1, x, y) implies edge_listed(lm, e2, x, y) by {
        let (i, j) = choose|i: int, j: int| 0 <= i < j < lm.len() && #[trigger] e1(i, j) && same_vertex_set(seq![lm[i], lm[j]], seq![x, y]);
        assert(e2(i, j));
    }
    assert forall|s: Seq<usize>| g1.contains(s) implies g2.contains(s) by {
        if exists|i: int, j: int| 0 <= i < j < lm.len() && #[trigger] e1(i, j) && s == seq![lm[i], lm[j]] {
            let (i, j) = choose|i: int, j: int| 0 <= i < j < lm.len() && #[trigger] e1(i, j) && s == seq![lm[i], lm[j]];
            assert(e2(i, j));
        }
        if max_dim >= 2 && exists|i: int, j: int, k: int| 0 <= i < j < k < lm.len() && #[trigger] t1(i, j, k)
            && edge_listed(lm, e1, lm[i], lm[j]) && edge_listed(lm, e1, lm[i], lm[k])
            && edge_listed(lm, e1, lm[j], lm[k]) && s == seq![lm[i], lm[j], lm[k]] {
            let (i, j, k) = choose|i: int, j: int, k: int| 0 <= i < j < k < lm.len() && #[trigger] t1(i, j, k)
                && edge_listed(lm, e1, lm[i], lm[j]) && edge_listed(lm, e1, lm[i], lm[k])
                && edge_listed(lm, e1, lm[j], lm[k]) && s == seq![lm[i], lm[j], lm[k]];
            assert(t2(i, j, k));
        }
    }
    crate::witness::lemma_generated_subcomplex(c1, c2, g1, g2);
}

} // verus!

verus! {

/// When only positions `u` and `v` can come before `j`, at most those of them below `m` do.
proof fn lemma_rank_at_most(row: Seq<u64>, lm: Seq<usize>, j: int, m: int, u: int, v: int)
    requires
        forall|x: int| 0 <= x < m && #[trigger] precedes(row, lm, x, j) ==> x == u || x == v,
    ensures
        rank_among(row, lm, j, m) <= (if 0 <= u < m { 1int } else { 0int }) + (if 0 <= v < m && v != u { 1int } else { 0int }),
    decreases m,
{
    if m > 0 {
        lemma_rank_at_most(row, lm, j, m - 1, u, v);
    }
}

/// A weak witness of a simplex on distinct landmarks has each vertex among its nearest
/// landmarks: only the simplex's other vertices can come before it.
proof fn lemma_weak_witness_near(row: Seq<u64>, lm: Seq<usize>, s: Seq<usize>, i: int, u: int, v: int)
    requires
        lm.no_duplicates(),
        weak_witness_at(row, lm, s),
        0 <= i < lm.len(),
        0 <= u < lm.len(),
        0 <= v < lm.len(),
        s.contains(lm[i]),
        forall|x: int| 0 <= x < lm.len() && #[trigger] s.contains(lm[x]) ==> x == i || x == u || x == v,
        u != i,
        v != i,
    ensures
        rank_among(row, lm, i, lm.len() as int) <= (if u != v { 2int } else { 1int }),
{
    let a = choose|a: int| 0 <= a < s.len() && s[a] == lm[i];
    assert(row[s[a] as int] < u64::MAX);
    assert forall|x: int| 0 <= x < lm.len() && #[trigger] precedes(row, lm, x, i) implies x == u || x == v by {
        if x != u && x != v {
            if x == i {
                assert(!precedes(row, lm, i, i));
            } else {
                assert(!s.contains(lm[x]));
                assert(row[s[a] as int] < row[lm[x] as int]);
            }
        }
    }
    lemma_rank_at_most(row, lm, i, lm.len() as int, u, v);
}

/// Two-vertex sequences on the same two vertices have the same vertices.
proof fn lemma_pair_vertices(x: usize, y: usize)
    ensures
        same_vertex_set(seq![x, y], seq![y, x]),
{
    broadcast use vstd::seq_lib::group_to_multiset_ensures;
    assert(seq![x, y] =~= seq![x].push(y));
    assert(seq![y, x] =~= seq![y].push(x));
    assert(seq![x] =~= Seq::<usize>::empty().push(x));
    assert(seq![y] =~= Seq::<usize>::empty().push(y));
    assert(seq![x, y].to_multiset() =~= seq![y, x].to_multiset());
}

/// The increasing order of three vertices has the same vertices.
proof fn lemma_triple_vertices(x: usize, y: usize, z: usize)
    ensures
        same_vertex_set(ordered_triple(x, y, z), seq![x, y, z]),
{
    broadcast use vstd::seq_lib::group_to_multiset_ensures;
    let e = Seq::<usize>::empty();
    assert(seq![x, y, z] =~= e.push(x).push(y).push(z));
    assert(seq![x, z, y] =~= e.push(x).push(z).push(y));
    assert(seq![z, x, y] =~= e.push(z).push(x).push(y));
    assert(seq![y, x, z] =~= e.push(y).push(x).push(z));
    assert(seq![y, z, x] =~= e.push(y).push(z).push(x));
    assert(seq![z, y, x] =~= e.push(z).push(y).push(x));
    assert(ordered_triple(x, y, z).to_multiset() =~= seq![x, y, z].to_multiset());
}

/// A weakly witnessed edge on distinct landmarks is witnessed among `k >= 3` nearest landmarks.
proof fn lemma_weak_edge_witnessed(dist: Seq<Seq<u64>>, lm: Seq<usize>, k: int, i: int, j: int)
    requires
        lm.no_duplicates(),
        k >= 3,
        0 <= i < j < lm.len(),
        weakly_witnessed(dist, lm, seq![lm[i], lm[j]]),
    ensures
        witness_generators(dist, lm, k).contains(ordered_pair(lm[i], lm[j])),
{
    let n = lm.len() as int;
    let kk = if k <= n { k } else { n };
    let g = seq![lm[i], lm[j]];
    let p = choose|p: int| 0 <= p < dist.len() && #[trigger] weak_witness_at(dist[p], lm, g);
    let row = dist[p];
    assert forall|x: int| 0 <= x < n && #[trigger] g.contains(lm[x]) implies x == i || x == j by {
        let b = choose|b: int| 0 <= b < g.len() && g[b] == lm[x];
        if b == 0 { assert(lm[x] == lm[i]); } else { assert(lm[x] == lm[j]); }
    }
    assert(g[0] == lm[i] && g[1] == lm[j]);
    assert(g.contains(lm[i]) && g.contains(lm[j]));
    lemma_weak_witness_near(row, lm, g, i, j, j);
    lemma_weak_witness_near(row, lm, g, j, i, i);
    assert(is_near(row, lm, kk, i) && is_near(row, lm, kk, j));
    assert(witnessed_by_row(row, lm, kk, ordered_pair(lm[i], lm[j])));
}

/// A weakly witnessed triangle on distinct landmarks is witnessed among `k >= 3` nearest
/// landmarks, and so is each of its edges.
proof fn lemma_weak_triangle_witnessed(dist: Seq<Seq<u64>>, lm: Seq<usize>, k: int, i: int, j: int, l: int)
    requires
        lm.no_duplicates(),
        k >= 3,
        0 <= i < j < l < lm.len(),
        weakly_witnessed(dist, lm, seq![lm[i], lm[j], lm[l]]),
    ensures
        witness_generators(dist, lm, k).contains(ordered_triple(lm[i], lm[j], lm[l])),
        witness_generators(dist, lm, k).contains(ordered_pair(lm[i], lm[j])),
        witness_generators(dist, lm, k).contains(ordered_pair(lm[i], lm[l])),
        witness_generators(dist, lm, k).contains(ordered_pair(lm[j], lm[l])),
{
    let n = lm.len() as int;
    let kk = if k <= n { k } else { n };
    let g = seq![lm[i], lm[j], lm[l]];
    let p = choose|p: int| 0 <= p < dist.len() && #[trigger] weak_witness_at(dist[p], lm, g);
    let row = dist[p];
    assert forall|x: int| 0 <= x < n && #[trigger] g.contains(lm[x]) implies x == i || x == j || x == l by {
        let b = choose|b: int| 0 <= b < g.len() && g[b] == lm[x];
        if b == 0 { assert(lm[x] == lm[i]); } else if b == 1 { assert(lm[x] == lm[j]); } else { assert(lm[x] == lm[l]); }
    }
    assert(g[0] == lm[i] && g[1] == lm[j] && g[2] == lm[l]);
    assert(g.contains(lm[i]) && g.contains(lm[j]) && g.contains(lm[l]));
    lemma_weak_witness_near(row, lm, g, i, j, l);
    lemma_weak_witness_near(row, lm, g, j, i, l);
    lemma_weak_witness_near(row, lm, g, l, i, j);
    assert(is_near(row, lm, kk, i) && is_near(row, lm, kk, j) && is_near(row, lm, kk, l));
    assert(witnessed_by_row(row, lm, kk, ordered_pair(lm[i], lm[j])));
    assert(witnessed_by_row(row, lm, kk, ordered_pair(lm[i], lm[l])));
    assert(witnessed_by_row(row, lm, kk, ordered_pair(lm[j], lm[l])));
    assert(crate::witness::witnessed_triangle(dist, lm, kk, ordered_triple(lm[i], lm[j], lm[l]), i, j, l));
}

/// A face of a weak witness generator on distinct landmarks has, up to vertex order, a face
/// of the same size among the faces of witness generators for `k >= 3`.
proof fn lemma_weak_face_witnessed(dist: Seq<Seq<u64>>, lm: Seq<usize>, k: int, g: Seq<usize>, w: Seq<usize>)
    -> (res: (Seq<usize>, Seq<usize>))
    requires
        lm.no_duplicates(),
        k >= 3,
        weak_generators(lm, weak_edge_ok(dist, lm), weak_triangle_ok(dist, lm), 2).contains(g),
        is_face(w, g),
    ensures
        witness_generators(dist, lm, k).contains(res.0),
        is_face(res.1, res.0),
        same_vertex_set(res.1, w),
{
    let e = weak_edge_ok(dist, lm);
    let tr = weak_triangle_ok(dist, lm);
    let gw = witness_generators(dist, lm, k);
    let n = lm.len() as int;
    lemma_face_len(w, g);
    lemma_face_vertices(w, g);
    if exists|i: int| 0 <= i < n && g == seq![lm[i]] {
        assert(w == g);
        assert(gw.contains(g));
        (g, g)
    } else if exists|i: int, j: int| 0 <= i < j < n && #[trigger] e(i, j) && g == seq![lm[i], lm[j]] {
        let (i, j) = choose|i: int, j: int| 0 <= i < j < n && #[trigger] e(i, j) && g == seq![lm[i], lm[j]];
        if w.len() == 1 {
            assert(g.contains(w[0]));
            let b = choose|b: int| 0 <= b < g.len() && g[b] == w[0];
            let v = if b == 0 { i } else { j };
            assert(w =~= seq![lm[v]]);
            assert(gw.contains(w));
            (w, w)
        } else {
            assert(w == g);
            lemma_weak_edge_witnessed(dist, lm, k, i, j);
            let op = ordered_pair(lm[i], lm[j]);
            lemma_pair_vertices(lm[i], lm[j]);
            (op, op)
        }
    } else {
        let (i, j, l) = choose|i: int, j: int, l: int| 0 <= i < j < l < n && #[trigger] tr(i, j, l)
            && edge_listed(lm, e, lm[i], lm[j]) && edge_listed(lm, e, lm[i], lm[l])
            && edge_listed(lm, e, lm[j], lm[l]) && g == seq![lm[i], lm[j], lm[l]];
        lemma_weak_triangle_witnessed(dist, lm, k, i, j, l);
        let pos = seq![i, j, l];
        assert(g[0] == lm[i] && g[1] == lm[j] && g[2] == lm[l]);
        if w.len() == 1 {
            assert(g.contains(w[0]));
            let b = choose|b: int| 0 <= b < g.len() && g[b] == w[0];
            assert(w =~= seq![lm[pos[b]]]);
            assert(gw.contains(w));
            (w, w)
        } else if w.len() == 2 {
            assert(distinct_vertices(g));
            lemma_face_distinct(w, g);
            assert(g.contains(w[0]) && g.contains(w[1]));
            let b0 = choose|b: int| 0 <= b < g.len() && g[b] == w[0];
            let b1 = choose|b: int| 0 <= b < g.len() && g[b] == w[1];
            assert(b0 != b1);
            let (lo, hi) = if b0 < b1 { (pos[b0], pos[b1]) } else { (pos[b1], pos[b0]) };
            let op = ordered_pair(lm[lo], lm[hi]);
            assert(gw.contains(op));
            lemma_pair_vertices(lm[lo], lm[hi]);
            if b0 < b1 {
                assert(w =~= seq![lm[lo], lm[hi]]);
            } else {
                assert(w =~= seq![lm[hi], lm[lo]]);
            }
            (op, op)
        } else {
            assert(w == g);
            let ot = ordered_triple(lm[i], lm[j], lm[l]);
            lemma_triple_vertices(lm[i], lm[j], lm[l]);
            (ot, ot)
        }
    }
}

/// The weak witness complex is stricter than the witness complex: on distinct landmarks,
/// the witness complex whose witnesses vote among their `k >= 3` nearest landmarks holds,
/// up to vertex order, every simplex of the weak witness complex up to triangles on the
/// same landmarks, since a weak witness of a simplex has its vertices as nearest landmarks.
pub proof fn lemma_weak_within_witness(
    weak: SimplicialComplex,
    wit: SimplicialComplex,
    dist: Seq<Seq<u64>>,
    lm: Seq<usize>,
    k: int,
    t: Seq<usize>,
)
    requires
        generated_by(weak.levels(), weak_generators(lm, weak_edge_ok(dist, lm), weak_triangle_ok(dist, lm), 2)),
        generated_by(wit.levels(), witness_generators(dist, lm, k)),
        lm.no_duplicates(),
        k >= 3,
        weak.holds_vertices(t),
    ensures
        wit.holds_vertices(t),
{
    let wg = weak_generators(lm, weak_edge_ok(dist, lm), weak_triangle_ok(dist, lm), 2);
    let d = t.len() - 1;
    let w = choose|w: Seq<usize>| #[trigger] weak.level(d).contains(w) && same_vertex_set(w, t);
    assert(weak.levels()[d] == weak.level(d));
    assert(weak.levels()[d].contains(w));
    let g = choose|g: Seq<usize>| #[trigger] wg.contains(g) && is_face(w, g);
    let (g2, w2) = lemma_weak_face_witnessed(dist, lm, k, g, w);
    assert(same_vertex_set(w2, t));
    assert(w2.len() == t.len()) by {
        w2.to_multiset_ensures();
        t.to_multiset_ensures();
    }
    lemma_face_len(w2, g2);
    assert(wit.levels()[d].contains(w2));
    assert(wit.levels()[d] == wit.level(d));
}

} // verus!
