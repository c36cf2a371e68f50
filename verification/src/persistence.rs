//! Persistent homology of a simplicial complex, filtered by diameter, computed by
//! reducing its boundary matrix over the field with two elements.
use vstd::prelude::*;
use crate::faces::{same_vertex_set, same_vertices, sorted_vertices, is_sorted, is_face, lemma_face_vertices};
use crate::witness::{SimplicialComplex, Simplex, simplex_views, rows, generated_by, is_square};

verus! {

/// A persistence pair: a homology class of dimension `dim` born at filtration key
/// `birth` that dies at `death`, or lives forever when `death` is `None`.
#[derive(Debug, Clone, PartialEq, Eq)]
pub struct PersistencePair {
    /// Homological dimension.
    pub dim: usize,
    /// Distance key of the filtration value at which the class is born.
    pub birth: u64,
    /// Distance key of the filtration value at which the class dies, if it does.
    pub death: Option<u64>,
}

/// The keys between the vertices of `s` can be read from `dist`.
pub open spec fn keys_defined(s: Seq<usize>, dist: Seq<Seq<u64>>) -> bool {
    forall|i: int, j: int|
        #![trigger s[i], s[j]]
        0 <= i < j < s.len() ==> (s[i] < dist.len() && s[j] < dist[s[i] as int].len())
}

/// The key between the `i`-th and `j`-th vertex of `s`.
pub open spec fn pair_key(s: Seq<usize>, dist: Seq<Seq<u64>>, i: int, j: int) -> u64 {
    dist[s[i] as int][s[j] as int]
}

/// `r` is the diameter key of `s`: the largest key between two of its vertices, taken in
/// their listed order, or zero when there is none larger.
pub open spec fn is_diameter(s: Seq<usize>, dist: Seq<Seq<u64>>, r: u64) -> bool {
    &&& forall|i: int, j: int| 0 <= i < j < s.len() ==> #[trigger] pair_key(s, dist, i, j) <= r
    &&& (r == 0 || exists|i: int, j: int| 0 <= i < j < s.len() && #[trigger] pair_key(s, dist, i, j) == r)
}

/// The filtration value of a simplex: its diameter key.
pub open spec fn filtration(s: Seq<usize>, dist: Seq<Seq<u64>>) -> u64 {
    choose|r: u64| is_diameter(s, dist, r)
}

/// A simplex has one diameter key.
pub(crate) proof fn lemma_diameter_unique(s: Seq<usize>, dist: Seq<Seq<u64>>, r: u64)
    requires
        is_diameter(s, dist, r),
    ensures
        filtration(s, dist) == r,
{
    let f = filtration(s, dist);
    assert(is_diameter(s, dist, f));
    if f != r {
        if r != 0 {
            let (i, j) = choose|i: int, j: int| 0 <= i < j < s.len() && #[trigger] pair_key(s, dist, i, j) == r;
            assert(pair_key(s, dist, i, j) <= f);
        }
        if f != 0 {
            let (i, j) = choose|i: int, j: int| 0 <= i < j < s.len() && #[trigger] pair_key(s, dist, i, j) == f;
            assert(pair_key(s, dist, i, j) <= r);
        }
    }
}

/// The filtration value of a simplex: the largest key between two of its vertices, or zero.
pub fn filtration_value(simplex: &[usize], dist: &[Vec<u64>]) -> (r: u64)
    requires
        keys_defined(simplex@, rows(dist@)),
    ensures
        r == filtration(simplex@, rows(dist@)),
{
    let ghost d = rows(dist@);
    let n = simplex.len();
    let mut max_d: u64 = 0;
    let mut i: usize = 0;
    while i < n
        invariant
            n == simplex@.len(),
            i <= n,
            d == rows(dist@),
            keys_defined(simplex@, d),
            forall|a: int, b: int| 0 <= a < b < simplex@.len() && a < i ==> #[trigger] pair_key(simplex@, d, a, b) <= max_d,
            max_d == 0 || exists|a: int, b: int| 0 <= a < b < simplex@.len() && #[trigger] pair_key(simplex@, d, a, b) == max_d,
        decreases n - i,
    {
        let mut j: usize = i + 1;
        while j < n
            invariant
                n == simplex@.len(),
                i < n,
                i + 1 <= j <= n,
                d == rows(dist@),
                keys_defined(simplex@, d),
                forall|a: int, b: int| 0 <= a < b < simplex@.len() && (a < i || (a == i && b < j))
                    ==> #[trigger] pair_key(simplex@, d, a, b) <= max_d,
                max_d == 0 || exists|a: int, b: int| 0 <= a < b < simplex@.len() && #[trigger] pair_key(simplex@, d, a, b) == max_d,
            decreases n - j,
        {
            let ghost si = simplex@;
            let ghost (vi, vj) = (si[i as int], si[j as int]);
            assert(vi < d.len() && vj < d[vi as int].len());
            let key = dist[simplex[i]][simplex[j]];
            assert(key == pair_key(simplex@, d, i as int, j as int));
            if key > max_d {
                max_d = key;
            }
            j = j + 1;
        }
        i = i + 1;
    }
    proof {
        lemma_diameter_unique(simplex@, d, max_d);
    }
    max_d
}

} // verus!

verus! {

/// The simplices of the dimensions below `d`, dimension by dimension, each in stored order.
pub open spec fn simplices_below(c: SimplicialComplex, d: int) -> Seq<Seq<usize>>
    decreases d,
{
    if d <= 0 { seq![] } else { simplices_below(c, d - 1) + c.level_seq(d - 1) }
}

/// All simplices of the complex, dimension by dimension.
pub open spec fn all_simplices(c: SimplicialComplex) -> Seq<Seq<usize>> {
    simplices_below(c, c.simplices@.len() as int)
}

/// In filtration order, the `i`-th simplex of `a` comes before the `j`-th: it has a lower
/// filtration value, or the same value and fewer vertices, or both the same and `i < j`.
pub open spec fn filtration_less(a: Seq<Seq<usize>>, dist: Seq<Seq<u64>>, i: int, j: int) -> bool {
    let fi = filtration(a[i], dist);
    let fj = filtration(a[j], dist);
    fi < fj || (fi == fj && (a[i].len() < a[j].len() || (a[i].len() == a[j].len() && i < j)))
}

/// `order` lists every position of `a` once, in filtration order.
pub open spec fn is_filtration_order(a: Seq<Seq<usize>>, dist: Seq<Seq<u64>>, order: Seq<usize>) -> bool {
    &&& order.len() == a.len()
    &&& forall|k: int| 0 <= k < order.len() ==> #[trigger] order[k] < a.len()
    &&& forall|x: usize| x < a.len() ==> #[trigger] order.contains(x)
    &&& forall|k1: int, k2: int| 0 <= k1 < k2 < order.len() ==> filtration_less(a, dist, order[k1] as int, order[k2] as int)
}

/// The simplices of `a` taken in the order `order`.
pub open spec fn reorder(a: Seq<Seq<usize>>, order: Seq<usize>) -> Seq<Seq<usize>> {
    Seq::new(order.len(), |k: int| a[order[k] as int])
}

/// Copy out all simplices of the complex, dimension by dimension.
fn collect_simplices(complex: &SimplicialComplex) -> (all: Vec<Simplex>)
    ensures
        simplex_views(all@) == all_simplices(*complex),
{
    let mut all: Vec<Simplex> = Vec::new();
    let mut d: usize = 0;
    while d < complex.simplices.len()
        invariant
            d <= complex.simplices@.len(),
            simplex_views(all@) == simplices_below(*complex, d as int),
        decreases complex.simplices.len() - d,
    {
        let level = &complex.simplices[d];
        let mut m: usize = 0;
        while m < level.len()
            invariant
                d < complex.simplices@.len(),
                level == complex.simplices@[d as int],
                m <= level@.len(),
                simplex_views(all@) == simplices_below(*complex, d as int) + complex.level_seq(d as int).take(m as int),
            decreases level.len() - m,
        {
            let s = level[m].clone();
            assert(s@ == level@[m as int]@);
            let ghost before = all@;
            all.push(s);
            assert(simplex_views(all@) =~= simplex_views(before).push(s@));
            assert(complex.level_seq(d as int).take(m + 1) =~= complex.level_seq(d as int).take(m as int).push(s@));
            m = m + 1;
        }
        assert(complex.level_seq(d as int).take(m as int) =~= complex.level_seq(d as int));
        d = d + 1;
    }
    all
}

/// Position `i` comes before position `j` by filtration keys `f` and simplex sizes `sizes`.
fn key_before(f: &Vec<u64>, sizes: &Vec<usize>, i: usize, j: usize) -> (r: bool)
    requires
        i < f@.len(),
        j < f@.len(),
        f@.len() == sizes@.len(),
    ensures
        r == (f@[i as int] < f@[j as int] || (f@[i as int] == f@[j as int] && (sizes@[i as int] < sizes@[j as int]
            || (sizes@[i as int] == sizes@[j as int] && i < j)))),
{
    f[i] < f[j] || (f[i] == f[j] && (sizes[i] < sizes[j] || (sizes[i] == sizes[j] && i < j)))
}

/// The positions of `a` in filtration order.
fn filtration_order(a: &Vec<Simplex>, f: &Vec<u64>, Ghost(dist): Ghost<Seq<Seq<u64>>>) -> (order: Vec<usize>)
    requires
        f@.len() == a@.len(),
        forall|i: int| 0 <= i < a@.len() ==> #[trigger] f@[i] == filtration(a@[i]@, dist),
    ensures
        is_filtration_order(simplex_views(a@), dist, order@),
{
    let ghost av = simplex_views(a@);
    let n = a.len();
    let mut sizes: Vec<usize> = Vec::new();
    let mut t: usize = 0;
    while t < n
        invariant
            n == a@.len(),
            t <= n,
            sizes@.len() == t,
            forall|i: int| 0 <= i < t ==> #[trigger] sizes@[i] == a@[i]@.len(),
        decreases n - t,
    {
        sizes.push(a[t].len());
        t = t + 1;
    }
    let mut order: Vec<usize> = Vec::new();
    let mut i: usize = 0;
    while i < n
        invariant
            n == a@.len(),
            av == simplex_views(a@),
            f@.len() == n,
            sizes@.len() == n,
            forall|x: int| 0 <= x < n ==> #[trigger] sizes@[x] == a@[x]@.len(),
            forall|x: int| 0 <= x < n ==> #[trigger] f@[x] == filtration(a@[x]@, dist),
            i <= n,
            order@.len() == i,
            forall|k: int| 0 <= k < order@.len() ==> #[trigger] order@[k] < i,
            forall|x: usize| x < i ==> #[trigger] order@.contains(x),
            forall|k1: int, k2: int| 0 <= k1 < k2 < order@.len()
                ==> filtration_less(av, dist, order@[k1] as int, order@[k2] as int),
        decreases n - i,
    {
        let mut pos: usize = 0;
        while pos < order.len() && !key_before(f, &sizes, i, order[pos])
            invariant
                i < n,
                n == a@.len(),
                f@.len() == n,
                sizes@.len() == n,
                pos <= order@.len(),
                forall|k: int| 0 <= k < order@.len() ==> #[trigger] order@[k] < i,
                forall|k: int| 0 <= k < pos ==> !(f@[i as int] < f@[order@[k] as int] || (f@[i as int] == f@[order@[k] as int]
                    && (sizes@[i as int] < sizes@[order@[k] as int] || (sizes@[i as int] == sizes@[order@[k] as int] && i < order@[k])))),
            decreases order.len() - pos,
        {
            pos = pos + 1;
        }
        let ghost before = order@;
        order.insert(pos, i);
        proof {
            assert(order@ == before.insert(pos as int, i));
            before.insert_ensures(pos as int, i);
            assert forall|k: int| 0 <= k < pos implies filtration_less(av, dist, before[k] as int, i as int) by {
                let x = before[k] as int;
                assert(av[x] == a@[x]@);
                assert(av[i as int] == a@[i as int]@);
            }
            assert forall|k: int| pos <= k < before.len() implies filtration_less(av, dist, i as int, before[k] as int) by {
                let y = before[pos as int] as int;
                assert(av[y] == a@[y]@);
                assert(av[i as int] == a@[i as int]@);
                if k > pos {
                    assert(filtration_less(av, dist, y, before[k] as int));
                }
            }
            assert forall|k1: int, k2: int| 0 <= k1 < k2 < order@.len()
                implies filtration_less(av, dist, order@[k1] as int, order@[k2] as int) by {
                if k2 < pos {
                    assert(filtration_less(av, dist, before[k1] as int, before[k2] as int));
                } else if k2 == pos {
                } else if k1 < pos {
                    assert(order@[k2] == before[k2 - 1]);
                    assert(filtration_less(av, dist, before[k1] as int, before[k2 - 1] as int));
                } else if k1 == pos {
                    assert(order@[k2] == before[k2 - 1]);
                } else {
                    assert(filtration_less(av, dist, before[k1 - 1] as int, before[k2 - 1] as int));
                }
            }
            assert forall|x: usize| x < i + 1 implies #[trigger] order@.contains(x) by {
                if x < i {
                    assert(before.contains(x));
                    let k = choose|k: int| 0 <= k < before.len() && before[k] == x;
                    if k < pos { assert(order@[k] == x); } else { assert(order@[k + 1] == x); }
                } else {
                    assert(order@[pos as int] == x);
                }
            }
        }
        i = i + 1;
    }
    order
}

} // verus!

verus! {

/// `s` is strictly increasing.
pub open spec fn is_increasing(s: Seq<usize>) -> bool {
    forall|i: int, j: int| 0 <= i < j < s.len() ==> s[i] < s[j]
}

/// `k` is the last position of `s` whose simplex has the vertices of `face`.
pub open spec fn last_match(s: Seq<Seq<usize>>, face: Seq<usize>, k: int) -> bool {
    &&& 0 <= k < s.len()
    &&& same_vertex_set(s[k], face)
    &&& forall|k2: int| k < k2 < s.len() ==> !same_vertex_set(#[trigger] s[k2], face)
}

/// The boundary of the `i`-th simplex of `s`: for each face that deletes one of its
/// vertices, the last position of `s` that holds a simplex with the vertices of that face.
pub open spec fn boundary_column(s: Seq<Seq<usize>>, i: int) -> Set<usize> {
    Set::new(|k: usize| s[i].len() > 1 && exists|j: int| 0 <= j < s[i].len() && #[trigger] last_match(s, s[i].remove(j), k as int))
}

/// The last position of `s` whose simplex has the vertices of `face`, if any.
fn find_last_match(s: &Vec<Simplex>, face: &[usize]) -> (r: Option<usize>)
    ensures
        match r {
            Some(k) => last_match(simplex_views(s@), face@, k as int),
            None => forall|k: int| 0 <= k < s@.len() ==> !same_vertex_set(#[trigger] simplex_views(s@)[k], face@),
        },
{
    let ghost sv = simplex_views(s@);
    let mut k: usize = s.len();
    while k > 0
        invariant
            k <= s@.len(),
            sv == simplex_views(s@),
            forall|k2: int| k <= k2 < s@.len() ==> !same_vertex_set(#[trigger] sv[k2], face@),
        decreases k,
    {
        k = k - 1;
        if same_vertices(s[k].as_slice(), face) {
            assert(sv[k as int] == s@[k as int]@);
            return Some(k);
        }
        assert(sv[k as int] == s@[k as int]@);
    }
    None
}

/// The distinct entries of `v`, in increasing order.
fn sorted_distinct(v: &Vec<usize>) -> (r: Vec<usize>)
    ensures
        is_increasing(r@),
        r@.to_set() == v@.to_set(),
{
    let vs = v.as_slice();
    assert(vs@ == v@);
    let sorted = sorted_vertices(vs);
    let mut r: Vec<usize> = Vec::new();
    let mut i: usize = 0;
    while i < sorted.len()
        invariant
            i <= sorted@.len(),
            is_sorted(sorted@),
            is_increasing(r@),
            r@.to_set() == sorted@.take(i as int).to_set(),
            r@.len() > 0 ==> i > 0 && r@.last() == sorted@[i - 1],
            r@.len() == 0 ==> i == 0,
        decreases sorted.len() - i,
    {
        let x = sorted[i];
        let ghost before = r@;
        if r.len() == 0 || r[r.len() - 1] != x {
            r.push(x);
            proof {
                assert(sorted@.take(i + 1) =~= sorted@.take(i as int).push(x));
                before.lemma_push_to_set_commute(x);
                sorted@.take(i as int).lemma_push_to_set_commute(x);
                if before.len() > 0 {
                    assert(before.last() <= x);
                }
            }
        } else {
            proof {
                assert(sorted@.take(i + 1) =~= sorted@.take(i as int).push(x));
                sorted@.take(i as int).lemma_push_to_set_commute(x);
                assert(before.contains(x));
                assert(before.to_set().insert(x) =~= before.to_set());
            }
        }
        i = i + 1;
    }
    proof {
        assert(sorted@.take(sorted@.len() as int) =~= sorted@);
        assert forall|x: usize| sorted@.to_set().contains(x) <==> v@.to_set().contains(x) by {
            sorted@.to_multiset_ensures();
            v@.to_multiset_ensures();
            assert(sorted@.to_multiset() == v@.to_multiset());
            assert(sorted@.contains(x) <==> sorted@.to_multiset().count(x) > 0);
            assert(v@.contains(x) <==> v@.to_multiset().count(x) > 0);
        }
        assert(sorted@.to_set() =~= v@.to_set());
    }
    r
}

} // verus!

verus! {

/// A face has at most one last matching position.
pub(crate) proof fn lemma_last_match_unique(s: Seq<Seq<usize>>, face: Seq<usize>, k1: int, k2: int)
    requires
        last_match(s, face, k1),
        last_match(s, face, k2),
    ensures
        k1 == k2,
{
    if k1 < k2 {
        assert(!same_vertex_set(s[k2], face));
    } else if k2 < k1 {
        assert(!same_vertex_set(s[k1], face));
    }
}

/// The boundary matrix: column `i` lists, in increasing order, the boundary of the `i`-th simplex.
fn boundary_columns(s: &Vec<Simplex>) -> (cols: Vec<Vec<usize>>)
    ensures
        cols@.len() == s@.len(),
        forall|i: int| 0 <= i < cols@.len() ==> is_increasing(#[trigger] cols@[i]@),
        forall|i: int| 0 <= i < cols@.len() ==> #[trigger] cols@[i]@.to_set() == boundary_column(simplex_views(s@), i),
        forall|i: int, t: int| 0 <= i < cols@.len() && 0 <= t < cols@[i]@.len() ==> #[trigger] cols@[i]@[t] < s@.len(),
{
    let ghost sv = simplex_views(s@);
    let n = s.len();
    let mut cols: Vec<Vec<usize>> = Vec::new();
    let mut i: usize = 0;
    while i < n
        invariant
            n == s@.len(),
            sv == simplex_views(s@),
            i <= n,
            cols@.len() == i,
            forall|x: int| 0 <= x < i ==> is_increasing(#[trigger] cols@[x]@),
            forall|x: int| 0 <= x < i ==> #[trigger] cols@[x]@.to_set() == boundary_column(sv, x),
            forall|x: int, t: int| 0 <= x < i && 0 <= t < cols@[x]@.len() ==> #[trigger] cols@[x]@[t] < n,
        decreases n - i,
    {
        let si = &s[i];
        assert(sv[i as int] == si@);
        let mut raw: Vec<usize> = Vec::new();
        let m = si.len();
        if m > 1 {
            let mut j: usize = 0;
            while j < m
                invariant
                    n == s@.len(),
                    sv == simplex_views(s@),
                    i < n,
                    m == si@.len(),
                    m > 1,
                    sv[i as int] == si@,
                    j <= m,
                    forall|t: int| 0 <= t < raw@.len() ==> #[trigger] raw@[t] < n,
                    forall|k: usize| raw@.contains(k) <==> exists|j2: int| 0 <= j2 < j && #[trigger] last_match(sv, si@.remove(j2), k as int),
                decreases m - j,
            {
                let mut face = si.clone();
                assert(face@ == si@);
                face.remove(j);
                let found = find_last_match(s, face.as_slice());
                let ghost before = raw@;
                match found {
                    Some(k) => {
                        raw.push(k);
                        proof {
                            assert forall|k2: usize| raw@.contains(k2) <==> exists|j2: int| 0 <= j2 < j + 1
                                && #[trigger] last_match(sv, si@.remove(j2), k2 as int) by {
                                if raw@.contains(k2) {
                                    if k2 == k {
                                        assert(last_match(sv, si@.remove(j as int), k as int));
                                    } else {
                                        let t = choose|t: int| 0 <= t < raw@.len() && raw@[t] == k2;
                                        assert(before[t] == k2);
                                        assert(before.contains(k2));
                                    }
                                }
                                if exists|j2: int| 0 <= j2 < j + 1 && #[trigger] last_match(sv, si@.remove(j2), k2 as int) {
                                    let j2 = choose|j2: int| 0 <= j2 < j + 1 && #[trigger] last_match(sv, si@.remove(j2), k2 as int);
                                    if j2 == j {
                                        lemma_last_match_unique(sv, si@.remove(j as int), k as int, k2 as int);
                                        assert(raw@[raw@.len() - 1] == k);
                                    } else {
                                        assert(before.contains(k2));
                                        let t = choose|t: int| 0 <= t < before.len() && before[t] == k2;
                                        assert(raw@[t] == k2);
                                    }
                                }
                            }
                        }
                    },
                    None => {
                        proof {
                            assert forall|k2: usize| raw@.contains(k2) <==> exists|j2: int| 0 <= j2 < j + 1
                                && #[trigger] last_match(sv, si@.remove(j2), k2 as int) by {
                                if exists|j2: int| 0 <= j2 < j + 1 && #[trigger] last_match(sv, si@.remove(j2), k2 as int) {
                                    let j2 = choose|j2: int| 0 <= j2 < j + 1 && #[trigger] last_match(sv, si@.remove(j2), k2 as int);
                                    if j2 == j {
                                        assert(!same_vertex_set(sv[k2 as int], si@.remove(j as int)));
                                    }
                                }
                            }
                        }
                    },
                }
                j = j + 1;
            }
        }
        let col = sorted_distinct(&raw);
        proof {
            assert forall|t: int| 0 <= t < col@.len() implies #[trigger] col@[t] < n by {
                assert(col@.to_set().contains(col@[t]));
                assert(raw@.to_set().contains(col@[t]));
                let u = choose|u: int| 0 <= u < raw@.len() && raw@[u] == col@[t];
                assert(raw@[u] < n);
            }
            assert forall|k: usize| col@.to_set().contains(k) <==> #[trigger] boundary_column(sv, i as int).contains(k) by {
                assert(col@.to_set().contains(k) <==> raw@.to_set().contains(k));
                if m > 1 {
                    assert(raw@.contains(k) <==> exists|j2: int| 0 <= j2 < m && #[trigger] last_match(sv, si@.remove(j2), k as int));
                } else {
                    assert(raw@ =~= Seq::<usize>::empty());
                    assert(!raw@.contains(k));
                }
            }
            assert(col@.to_set() =~= boundary_column(sv, i as int));
        }
        cols.push(col);
        i = i + 1;
    }
    cols
}

} // verus!

verus! {

/// The symmetric difference of two sets: their sum over the field with two elements.
pub open spec fn symdiff(a: Set<usize>, b: Set<usize>) -> Set<usize> {
    a.difference(b).union(b.difference(a))
}

/// The sum of two increasing columns over the field with two elements.
fn add_columns(a: &Vec<usize>, b: &Vec<usize>) -> (r: Vec<usize>)
    requires
        is_increasing(a@),
        is_increasing(b@),
    ensures
        is_increasing(r@),
        r@.to_set() == symdiff(a@.to_set(), b@.to_set()),
{
    let mut r: Vec<usize> = Vec::new();
    let mut p: usize = 0;
    let mut q: usize = 0;
    while p < a.len() || q < b.len()
        invariant
            is_increasing(a@),
            is_increasing(b@),
            p <= a@.len(),
            q <= b@.len(),
            is_increasing(r@),
            forall|x: int, y: int| 0 <= x < p && q <= y < b@.len() ==> a@[x] < b@[y],
            forall|x: int, y: int| p <= x < a@.len() && 0 <= y < q ==> b@[y] < a@[x],
            r@.to_set() == symdiff(a@.take(p as int).to_set(), b@.take(q as int).to_set()),
        decreases a@.len() - p + b@.len() - q,
    {
        let ghost rs = r@;
        let ghost ap = a@.take(p as int);
        let ghost bq = b@.take(q as int);
        proof {
            assert forall|t: int| 0 <= t < rs.len() implies ap.contains(#[trigger] rs[t]) || bq.contains(rs[t]) by {
                assert(rs.to_set().contains(rs[t]));
            }
        }
        if q >= b.len() || (p < a.len() && a[p] < b[q]) {
            let x = a[p];
            r.push(x);
            proof {
                assert(a@.take(p + 1) =~= ap.push(x));
                ap.lemma_push_to_set_commute(x);
                rs.lemma_push_to_set_commute(x);
                assert(!bq.contains(x)) by {
                    if bq.contains(x) {
                        let y = choose|y: int| 0 <= y < bq.len() && bq[y] == x;
                        assert(b@[y] < a@[p as int]);
                    }
                }
                assert(!ap.contains(x)) by {
                    if ap.contains(x) {
                        let y = choose|y: int| 0 <= y < ap.len() && ap[y] == x;
                        assert(a@[y] < a@[p as int]);
                    }
                }
                assert(r@.to_set() =~= symdiff(a@.take(p + 1).to_set(), bq.to_set()));
                assert forall|s: int, t: int| 0 <= s < t < r@.len() implies r@[s] < r@[t] by {
                    if t == r@.len() - 1 {
                        if ap.contains(rs[s]) {
                            let y = choose|y: int| 0 <= y < ap.len() && ap[y] == rs[s];
                        } else {
                            let y = choose|y: int| 0 <= y < bq.len() && bq[y] == rs[s];
                        }
                    }
                }
            }
            p = p + 1;
        } else if p >= a.len() || b[q] < a[p] {
            let x = b[q];
            r.push(x);
            proof {
                assert(b@.take(q + 1) =~= bq.push(x));
                bq.lemma_push_to_set_commute(x);
                rs.lemma_push_to_set_commute(x);
                assert(!ap.contains(x)) by {
                    if ap.contains(x) {
                        let y = choose|y: int| 0 <= y < ap.len() && ap[y] == x;
                        assert(a@[y] < b@[q as int]);
                    }
                }
                assert(!bq.contains(x)) by {
                    if bq.contains(x) {
                        let y = choose|y: int| 0 <= y < bq.len() && bq[y] == x;
                        assert(b@[y] < b@[q as int]);
                    }
                }
                assert(r@.to_set() =~= symdiff(ap.to_set(), b@.take(q + 1).to_set()));
                assert forall|s: int, t: int| 0 <= s < t < r@.len() implies r@[s] < r@[t] by {
                    if t == r@.len() - 1 {
                        if ap.contains(rs[s]) {
                            let y = choose|y: int| 0 <= y < ap.len() && ap[y] == rs[s];
                        } else {
                            let y = choose|y: int| 0 <= y < bq.len() && bq[y] == rs[s];
                        }
                    }
                }
            }
            q = q + 1;
        } else {
            let x = a[p];
            proof {
                assert(a@.take(p + 1) =~= ap.push(x));
                assert(b@.take(q + 1) =~= bq.push(x));
                ap.lemma_push_to_set_commute(x);
                bq.lemma_push_to_set_commute(x);
                assert(!bq.contains(x)) by {
                    if bq.contains(x) {
                        let y = choose|y: int| 0 <= y < bq.len() && bq[y] == x;
                        assert(b@[y] < a@[p as int]);
                    }
                }
                assert(!ap.contains(x)) by {
                    if ap.contains(x) {
                        let y = choose|y: int| 0 <= y < ap.len() && ap[y] == x;
                        assert(a@[y] < a@[p as int]);
                    }
                }
                assert(r@.to_set() =~= symdiff(a@.take(p + 1).to_set(), b@.take(q + 1).to_set()));
            }
            p = p + 1;
            q = q + 1;
        }
    }
    proof {
        assert(a@.take(a@.len() as int) =~= a@);
        assert(b@.take(b@.len() as int) =~= b@);
    }
    r
}

} // verus!

verus! {

/// The entries of each column, as sets.
pub open spec fn column_sets(cols: Seq<Seq<usize>>) -> Seq<Set<usize>> {
    cols.map_values(|c: Seq<usize>| c.to_set())
}

/// The sum, over the field with two elements, of the columns of `cols` listed in `combo`.
pub open spec fn column_sum(cols: Seq<Set<usize>>, combo: Seq<int>) -> Set<usize>
    decreases combo.len(),
{
    if combo.len() == 0 {
        Set::empty()
    } else {
        symdiff(column_sum(cols, combo.drop_last()), cols[combo.last()])
    }
}

/// The lowest nonzero entry of an increasing column: its last entry, if any.
pub open spec fn low_of(col: Seq<usize>) -> Option<usize> {
    if col.len() == 0 { None } else { Some(col.last()) }
}

/// `r` reduces the boundary matrix `d`: each column of `r` is increasing, `low` holds the
/// lowest entry of each, no two nonzero columns share their lowest entry, and each
/// column is its column of `d` plus a sum of earlier columns of `r`.
pub open spec fn is_reduction(d: Seq<Set<usize>>, r: Seq<Seq<usize>>, low: Seq<Option<usize>>) -> bool {
    &&& r.len() == d.len()
    &&& low.len() == d.len()
    &&& forall|i: int| 0 <= i < r.len() ==> is_increasing(#[trigger] r[i])
    &&& forall|i: int| 0 <= i < r.len() ==> #[trigger] low[i] == low_of(r[i])
    &&& forall|i: int, j: int| 0 <= i < j < low.len() && low[i] is Some ==> low[i] != low[j]
    &&& forall|i: int| 0 <= i < r.len() ==> #[trigger] reduced_from(d, r, i)
}

/// Column `i` of `r` is column `i` of `d` plus a sum of earlier columns of `r`.
pub open spec fn reduced_from(d: Seq<Set<usize>>, r: Seq<Seq<usize>>, i: int) -> bool {
    exists|combo: Seq<int>|
        (forall|t: int| 0 <= t < combo.len() ==> 0 <= #[trigger] combo[t] < i)
            && r[i].to_set() == symdiff(d[i], #[trigger] column_sum(column_sets(r), combo))
}

/// A sum of columns depends only on the columns it adds.
proof fn lemma_column_sum_frame(a: Seq<Set<usize>>, b: Seq<Set<usize>>, combo: Seq<int>, bound: int)
    requires
        forall|t: int| 0 <= t < combo.len() ==> 0 <= #[trigger] combo[t] < bound,
        bound <= a.len(),
        bound <= b.len(),
        forall|x: int| 0 <= x < bound ==> #[trigger] a[x] == b[x],
    ensures
        column_sum(a, combo) == column_sum(b, combo),
    decreases combo.len(),
{
    if combo.len() > 0 {
        assert(0 <= combo[combo.len() - 1] < bound);
        lemma_column_sum_frame(a, b, combo.drop_last(), bound);
    }
}

/// Every entry of an increasing column is at most its lowest entry.
pub(crate) proof fn lemma_low_is_max(c: Seq<usize>, x: usize)
    requires
        is_increasing(c),
        c.len() > 0,
        c.to_set().contains(x),
    ensures
        x <= c.last(),
{
    let t = choose|t: int| 0 <= t < c.len() && c[t] == x;
    if t < c.len() - 1 {
        assert(c[t] < c[c.len() - 1]);
    }
}

/// The lowest entry of a column, if any.
fn column_low(c: &Vec<usize>) -> (r: Option<usize>)
    ensures
        r == low_of(c@),
{
    if c.len() == 0 { None } else { Some(c[c.len() - 1]) }
}

/// Whether `low` holds the value `Some(l)`.
fn low_is(low: Option<usize>, l: usize) -> (r: bool)
    ensures
        r == (low == Some(l)),
{
    match low {
        Some(x) => x == l,
        None => false,
    }
}

/// The entries of the columns, as sequences.
pub open spec fn column_views(cols: Seq<Vec<usize>>) -> Seq<Seq<usize>> {
    cols.map_values(|c: Vec<usize>| c@)
}

/// Every entry of every column is below `n`.
pub open spec fn entries_below(cols: Seq<Seq<usize>>, n: int) -> bool {
    forall|i: int, t: int| 0 <= i < cols.len() && 0 <= t < cols[i].len() ==> #[trigger] cols[i][t] < n
}

/// The first column before `i` whose lowest entry is `l`, if any.
fn find_low(low: &Vec<Option<usize>>, i: usize, l: usize) -> (r: Option<usize>)
    requires
        i <= low@.len(),
    ensures
        match r {
            Some(j) => j < i && low@[j as int] == Some(l),
            None => forall|j: int| 0 <= j < i ==> low@[j] != Some(l),
        },
{
    let mut j: usize = 0;
    while j < i
        invariant
            i <= low@.len(),
            j <= i,
            forall|x: int| 0 <= x < j ==> low@[x] != Some(l),
        decreases i - j,
    {
        if low_is(low[j], l) {
            return Some(j);
        }
        j = j + 1;
    }
    None
}

/// Reduce a boundary matrix, left to right: while a column's lowest entry is the lowest
/// entry of an earlier column, add that column to it.
pub fn reduce_boundary(cols: Vec<Vec<usize>>) -> (res: (Vec<Vec<usize>>, Vec<Option<usize>>))
    requires
        forall|i: int| 0 <= i < cols@.len() ==> is_increasing(#[trigger] cols@[i]@),
        entries_below(column_views(cols@), cols@.len() as int),
    ensures
        is_reduction(column_sets(column_views(cols@)), column_views(res.0@), res.1@),
        entries_below(column_views(res.0@), cols@.len() as int),
{
    let ghost d0 = column_views(cols@);
    let ghost d = column_sets(d0);
    let n = cols.len();
    let mut cols = cols;
    let mut low: Vec<Option<usize>> = Vec::new();
    let mut t: usize = 0;
    while t < n
        invariant
            n == cols@.len(),
            t <= n,
            low@.len() == t,
            forall|c: int| 0 <= c < t ==> #[trigger] low@[c] == low_of(cols@[c]@),
        decreases n - t,
    {
        low.push(column_low(&cols[t]));
        t = t + 1;
    }
    let ghost mut combos: Seq<Seq<int>> = Seq::new(n as nat, |c: int| Seq::<int>::empty());
    let mut i: usize = 0;
    while i < n
        invariant
            n == cols@.len(),
            n == low@.len(),
            n == combos.len(),
            n == d.len(),
            d == column_sets(d0),
            i <= n,
            forall|c: int| 0 <= c < n ==> is_increasing(#[trigger] cols@[c]@),
            entries_below(column_views(cols@), n as int),
            forall|c: int| 0 <= c < n ==> #[trigger] low@[c] == low_of(cols@[c]@),
            forall|c: int| i <= c < n ==> #[trigger] cols@[c]@ == d0[c],
            forall|c: int, t: int| 0 <= c < i && 0 <= t < combos[c].len() ==> 0 <= #[trigger] combos[c][t] < c,
            forall|c: int| 0 <= c < i ==> #[trigger] cols@[c]@.to_set()
                == symdiff(d[c], column_sum(column_sets(column_views(cols@)), combos[c])),
            forall|c1: int, c2: int| 0 <= c1 < c2 < i && low@[c1] is Some ==> low@[c1] != low@[c2],
        decreases n - i,
    {
        let ghost mut combo: Seq<int> = Seq::empty();
        proof {
            assert(column_sum(column_sets(column_views(cols@)), combo) =~= Set::<usize>::empty());
            assert(cols@[i as int]@ == d0[i as int]);
            assert(symdiff(d[i as int], Set::<usize>::empty()) =~= d[i as int]);
        }
        loop
            invariant
                n == cols@.len(),
                n == low@.len(),
                n == combos.len(),
                n == d.len(),
                d == column_sets(d0),
                i < n,
                forall|c: int| 0 <= c < n ==> is_increasing(#[trigger] cols@[c]@),
                entries_below(column_views(cols@), n as int),
                forall|c: int| 0 <= c < n ==> #[trigger] low@[c] == low_of(cols@[c]@),
                forall|c: int| i < c < n ==> #[trigger] cols@[c]@ == d0[c],
                forall|c: int, t: int| 0 <= c < i && 0 <= t < combos[c].len() ==> 0 <= #[trigger] combos[c][t] < c,
                forall|c: int| 0 <= c < i ==> #[trigger] cols@[c]@.to_set()
                    == symdiff(d[c], column_sum(column_sets(column_views(cols@)), combos[c])),
                forall|c1: int, c2: int| 0 <= c1 < c2 < i && low@[c1] is Some ==> low@[c1] != low@[c2],
                forall|t: int| 0 <= t < combo.len() ==> 0 <= #[trigger] combo[t] < i,
                cols@[i as int]@.to_set() == symdiff(d[i as int], column_sum(column_sets(column_views(cols@)), combo)),
            ensures
                low@[i as int] is None || forall|j: int| 0 <= j < i ==> low@[j] != low@[i as int],
            decreases (match low@[i as int] { Some(l) => l as int + 1, None => 0 }),
        {
            match low[i] {
                None => {
                    break;
                },
                Some(l) => {
                    match find_low(&low, i, l) {
                        None => {
                            break;
                        },
                        Some(j) => {
                            let ghost old_cols = cols@;
                            let ghost old_sets = column_sets(column_views(old_cols));
                            let merged = add_columns(&cols[i], &cols[j]);
                            let new_low = column_low(&merged);
                            cols.set(i, merged);
                            low.set(i, new_low);
                            proof {
                                let new_sets = column_sets(column_views(cols@));
                                assert forall|x: int| 0 <= x < i implies #[trigger] old_sets[x] == new_sets[x] by {
                                    assert(old_cols[x] == cols@[x]);
                                }
                                assert forall|c: int| 0 <= c < i implies #[trigger] cols@[c]@.to_set()
                                    == symdiff(d[c], column_sum(new_sets, combos[c])) by {
                                    assert(old_cols[c] == cols@[c]);
                                    lemma_column_sum_frame(old_sets, new_sets, combos[c], i as int);
                                }
                                let ci = old_cols[i as int]@;
                                let cj = old_cols[j as int]@;
                                assert(old_sets[j as int] == cj.to_set());
                                lemma_column_sum_frame(old_sets, new_sets, combo, i as int);
                                let new_combo = combo.push(j as int);
                                assert(new_combo.drop_last() =~= combo);
                                assert(column_sum(new_sets, new_combo) == symdiff(column_sum(new_sets, combo), new_sets[j as int]));
                                assert(new_sets[j as int] == cj.to_set());
                                assert(cols@[i as int]@.to_set() =~= symdiff(d[i as int], column_sum(new_sets, new_combo)));
                                combo = new_combo;
                                // the lowest entry of column i drops below l
                                assert forall|x: usize| #[trigger] cols@[i as int]@.to_set().contains(x) implies x < l by {
                                    if ci.to_set().contains(x) {
                                        lemma_low_is_max(ci, x);
                                        assert(!cj.to_set().contains(x));
                                        assert(cj.to_set().contains(cj.last()));
                                    } else {
                                        lemma_low_is_max(cj, x);
                                        assert(ci.to_set().contains(ci.last()));
                                    }
                                }
                                let ni = cols@[i as int]@;
                                if ni.len() > 0 {
                                    assert(ni.to_set().contains(ni.last()));
                                }
                                assert forall|x: int, u: int| 0 <= x < column_views(cols@).len() && 0 <= u < column_views(cols@)[x].len()
                                    implies #[trigger] column_views(cols@)[x][u] < n by {
                                    if x == i {
                                        assert(ni.to_set().contains(ni[u]));
                                        if ci.to_set().contains(ni[u]) {
                                            let w = choose|w: int| 0 <= w < ci.len() && ci[w] == ni[u];
                                            assert(column_views(old_cols)[i as int][w] < n);
                                        } else {
                                            let w = choose|w: int| 0 <= w < cj.len() && cj[w] == ni[u];
                                            assert(column_views(old_cols)[j as int][w] < n);
                                        }
                                    } else {
                                        assert(column_views(old_cols)[x][u] < n);
                                    }
                                }
                            }
                        },
                    }
                },
            }
        }
        proof {
            combos = combos.update(i as int, combo);
            assert forall|c1: int, c2: int| 0 <= c1 < c2 < i + 1 && low@[c1] is Some implies low@[c1] != low@[c2] by {
                if c2 == i { }
            }
        }
        i = i + 1;
    }
    proof {
        let r = column_views(cols@);
        assert forall|c: int| 0 <= c < r.len() implies #[trigger] reduced_from(d, r, c) by {
            assert(r[c] == cols@[c]@);
            assert(forall|t: int| 0 <= t < combos[c].len() ==> 0 <= #[trigger] combos[c][t] < c);
            assert(r[c].to_set() == symdiff(d[c], column_sum(column_sets(r), combos[c])));
        }
        assert forall|c: int| 0 <= c < r.len() implies is_increasing(#[trigger] r[c]) by {
            assert(r[c] == cols@[c]@);
        }
        assert forall|c: int| 0 <= c < r.len() implies #[trigger] low@[c] == low_of(r[c]) by {
            assert(r[c] == cols@[c]@);
        }
        assert(r.len() == d.len());
        assert(low@.len() == d.len());
        assert(forall|a: int, b: int| 0 <= a < b < low@.len() && low@[a] is Some ==> low@[a] != low@[b]);
        assert(is_reduction(d, r, low@));
    }
    (cols, low)
}

} // verus!

verus! {

/// The boundary matrix of the simplices `s`, column by column.
pub open spec fn boundary_sets(s: Seq<Seq<usize>>) -> Seq<Set<usize>> {
    Seq::new(s.len(), |i: int| boundary_column(s, i))
}

/// Some column has its lowest entry at row `k`.
pub open spec fn is_paired(low: Seq<Option<usize>>, k: int) -> bool {
    exists|i: int| 0 <= i < low.len() && low[i] == Some(k as usize)
}

/// The finite pairs found in the first `m` columns, in column order: column `i` with
/// lowest entry `l` kills the class born with simplex `l`, kept when it dies strictly
/// later than it was born.
pub open spec fn finite_pairs(s: Seq<Seq<usize>>, dist: Seq<Seq<u64>>, low: Seq<Option<usize>>, m: int) -> Seq<PersistencePair>
    decreases m,
{
    if m <= 0 {
        seq![]
    } else {
        let prev = finite_pairs(s, dist, low, m - 1);
        match low[m - 1] {
            Some(l) => {
                let birth = filtration(s[l as int], dist);
                let death = filtration(s[m - 1], dist);
                if death > birth {
                    prev.push(PersistencePair { dim: (s[l as int].len() - 1) as usize, birth, death: Some(death) })
                } else {
                    prev
                }
            },
            None => prev,
        }
    }
}

/// The classes that live forever among the first `m` simplices, in order: each simplex
/// whose column reduced to zero and that no column kills.
pub open spec fn essential_pairs(s: Seq<Seq<usize>>, dist: Seq<Seq<u64>>, low: Seq<Option<usize>>, m: int) -> Seq<PersistencePair>
    decreases m,
{
    if m <= 0 {
        seq![]
    } else {
        let prev = essential_pairs(s, dist, low, m - 1);
        if !is_paired(low, m - 1) && low[m - 1] is None {
            prev.push(PersistencePair { dim: (s[m - 1].len() - 1) as usize, birth: filtration(s[m - 1], dist), death: None })
        } else {
            prev
        }
    }
}

/// The persistence pairs read off a reduction of the boundary matrix of `s`: the finite
/// pairs, then the classes that live forever.
pub open spec fn pairs_of(s: Seq<Seq<usize>>, dist: Seq<Seq<u64>>, low: Seq<Option<usize>>) -> Seq<PersistencePair> {
    finite_pairs(s, dist, low, s.len() as int) + essential_pairs(s, dist, low, s.len() as int)
}

/// `pairs` is the persistence diagram of the complex filtered by diameter: sort its
/// simplices in filtration order, reduce their boundary matrix, and read off the pairs.
pub open spec fn is_persistence_of(c: SimplicialComplex, dist: Seq<Seq<u64>>, pairs: Seq<PersistencePair>) -> bool {
    let a = all_simplices(c);
    exists|order: Seq<usize>, r: Seq<Seq<usize>>, low: Seq<Option<usize>>|
        #[trigger] is_filtration_order(a, dist, order)
            && #[trigger] is_reduction(boundary_sets(reorder(a, order)), r, low)
            && pairs == pairs_of(reorder(a, order), dist, low)
}

/// The diameter keys of every simplex of the complex can be read from `dist`.
pub open spec fn complex_keys_defined(c: SimplicialComplex, dist: Seq<Seq<u64>>) -> bool {
    forall|k: int| 0 <= k < all_simplices(c).len() ==> #[trigger] keys_defined(all_simplices(c)[k], dist)
}

/// No simplex stored in the complex is empty.
pub open spec fn no_empty_simplex(c: SimplicialComplex) -> bool {
    forall|d: int, i: int| 0 <= d < c.simplices@.len() && 0 <= i < c.simplices@[d]@.len()
        ==> #[trigger] c.simplices@[d]@[i]@.len() >= 1
}

/// A well-formed complex stores no empty simplex.
pub proof fn lemma_wf_no_empty_simplex(c: SimplicialComplex)
    requires
        c.wf(),
    ensures
        no_empty_simplex(c),
{
    assert forall|d: int, i: int| 0 <= d < c.simplices@.len() && 0 <= i < c.simplices@[d]@.len()
        implies #[trigger] c.simplices@[d]@[i]@.len() >= 1 by {
        assert(c.level_seq(d)[i] == c.simplices@[d]@[i]@);
        assert(c.level(d).contains(c.level_seq(d)[i]));
    }
}

/// The simplices listed dimension by dimension are not empty.
pub(crate) proof fn lemma_simplices_nonempty(c: SimplicialComplex, d: int)
    requires
        no_empty_simplex(c),
        0 <= d <= c.simplices@.len(),
    ensures
        forall|k: int| 0 <= k < simplices_below(c, d).len() ==> #[trigger] simplices_below(c, d)[k].len() >= 1,
    decreases d,
{
    if d > 0 {
        lemma_simplices_nonempty(c, d - 1);
        let prev = simplices_below(c, d - 1);
        let lv = c.level_seq(d - 1);
        assert forall|k: int| 0 <= k < simplices_below(c, d).len() implies #[trigger] simplices_below(c, d)[k].len() >= 1 by {
            if k >= prev.len() {
                assert(simplices_below(c, d)[k] == lv[k - prev.len()]);
                assert(lv[k - prev.len()] == c.simplices@[d - 1]@[k - prev.len()]@);
            } else {
                assert(simplices_below(c, d)[k] == prev[k]);
            }
        }
    }
}

/// Compute persistent homology, filtering each simplex by its diameter key: the largest
/// key in `dist` between two of its vertices. The simplices are sorted by filtration
/// value, then by size, then by their position in the complex; the boundary matrix is
/// reduced left to right; a column with lowest entry `l` gives a finite pair, kept when
/// its death is strictly after its birth, and every unpaired simplex whose column
/// reduced to zero gives a class that lives forever. The diagram this describes is
/// unique (`pairing::lemma_persistence_unique`).
pub fn compute_persistence(complex: &SimplicialComplex, dist: &[Vec<u64>]) -> (pairs: Vec<PersistencePair>)
    requires
        no_empty_simplex(*complex),
        complex_keys_defined(*complex, rows(dist@)),
    ensures
        is_persistence_of(*complex, rows(dist@), pairs@),
        forall|x: int| 0 <= x < pairs@.len() ==> (#[trigger] pairs@[x]).dim < usize::MAX,
{
    let ghost dv = rows(dist@);
    let all = collect_simplices(complex);
    let ghost av = simplex_views(all@);
    proof {
        lemma_simplices_nonempty(*complex, complex.simplices@.len() as int);
    }
    let n = all.len();
    let mut fk: Vec<u64> = Vec::new();
    let mut t: usize = 0;
    while t < n
        invariant
            n == all@.len(),
            av == simplex_views(all@),
            av == all_simplices(*complex),
            dv == rows(dist@),
            complex_keys_defined(*complex, dv),
            t <= n,
            fk@.len() == t,
            forall|i: int| 0 <= i < t ==> #[trigger] fk@[i] == filtration(all@[i]@, dv),
        decreases n - t,
    {
        assert(av[t as int] == all@[t as int]@);
        assert(keys_defined(av[t as int], dv));
        fk.push(filtration_value(all[t].as_slice(), dist));
        t = t + 1;
    }
    let order = filtration_order(&all, &fk, Ghost(dv));
    let mut sorted: Vec<Simplex> = Vec::new();
    let mut sf: Vec<u64> = Vec::new();
    let mut k: usize = 0;
    while k < n
        invariant
            n == all@.len(),
            av == simplex_views(all@),
            fk@.len() == n,
            forall|i: int| 0 <= i < n ==> #[trigger] fk@[i] == filtration(all@[i]@, dv),
            is_filtration_order(av, dv, order@),
            k <= n,
            sorted@.len() == k,
            sf@.len() == k,
            forall|x: int| 0 <= x < k ==> #[trigger] sorted@[x]@ == av[order@[x] as int],
            forall|x: int| 0 <= x < k ==> #[trigger] sf@[x] == filtration(av[order@[x] as int], dv),
        decreases n - k,
    {
        let x = order[k];
        assert(x < n);
        let s = all[x].clone();
        assert(s@ == all@[x as int]@);
        sorted.push(s);
        sf.push(fk[x]);
        k = k + 1;
    }
    let ghost sv = reorder(av, order@);
    proof {
        assert(simplex_views(sorted@) =~= sv);
        assert forall|x: int| 0 <= x < n implies #[trigger] sv[x].len() >= 1 by {
            assert(sv[x] == av[order@[x] as int]);
        }
    }
    let cols = boundary_columns(&sorted);
    proof {
        assert(column_sets(column_views(cols@)) =~= boundary_sets(sv)) by {
            assert forall|i: int| 0 <= i < n implies #[trigger] column_sets(column_views(cols@))[i] == boundary_sets(sv)[i] by {
                assert(column_views(cols@)[i] == cols@[i]@);
            }
        }
        assert forall|i: int| 0 <= i < cols@.len() implies is_increasing(#[trigger] cols@[i]@) by {}
        assert(entries_below(column_views(cols@), n as int)) by {
            assert forall|i: int, t: int| 0 <= i < column_views(cols@).len() && 0 <= t < column_views(cols@)[i].len()
                implies #[trigger] column_views(cols@)[i][t] < n by {
                assert(column_views(cols@)[i] == cols@[i]@);
            }
        }
    }
    let (red, low) = reduce_boundary(cols);
    let ghost rv = column_views(red@);
    proof {
        assert(is_reduction(boundary_sets(sv), rv, low@));
    }
    let mut pairs: Vec<PersistencePair> = Vec::new();
    if n == 0 {
        proof {
            assert(pairs@ =~= pairs_of(sv, dv, low@));
        }
        return pairs;
    }
    let mut paired: Vec<bool> = Vec::new();
    let mut t: usize = 0;
    while t < n
        invariant
            t <= n,
            paired@.len() == t,
            forall|x: int| 0 <= x < t ==> !#[trigger] paired@[x],
        decreases n - t,
    {
        paired.push(false);
        t = t + 1;
    }
    let mut i: usize = 0;
    while i < n
        invariant
            n == sorted@.len(),
            n == low@.len(),
            n == rv.len(),
            n == sf@.len(),
            sv == simplex_views(sorted@),
            forall|x: int| 0 <= x < n ==> #[trigger] sv[x].len() >= 1,
            forall|x: int| 0 <= x < n ==> #[trigger] sf@[x] == filtration(sv[x], dv),
            forall|x: int| 0 <= x < n ==> #[trigger] low@[x] == low_of(rv[x]),
            entries_below(rv, n as int),
            i <= n,
            paired@.len() == n,
            forall|y: int| 0 <= y < n ==> (#[trigger] paired@[y] <==> exists|x: int| 0 <= x < i && low@[x] == Some(y as usize)),
            pairs@ == finite_pairs(sv, dv, low@, i as int),
            forall|x: int| 0 <= x < pairs@.len() ==> (#[trigger] pairs@[x]).dim < usize::MAX,
        decreases n - i,
    {
        assert(low@[i as int] == low_of(rv[i as int]));
        match low[i] {
            Some(l) => {
                assert(l == rv[i as int].last());
                assert(rv[i as int][rv[i as int].len() - 1] < n);
                assert(sorted@[l as int]@ == sv[l as int]);
                let ghost before = paired@;
                paired.set(l, true);
                proof {
                    assert forall|y: int| 0 <= y < n implies (#[trigger] paired@[y] <==> exists|x: int| 0 <= x < i + 1 && low@[x] == Some(y as usize)) by {
                        if y == l as int {
                            assert(low@[i as int] == Some(y as usize));
                        } else {
                            assert(paired@[y] == before[y]);
                            if exists|x: int| 0 <= x < i + 1 && low@[x] == Some(y as usize) {
                                let x = choose|x: int| 0 <= x < i + 1 && low@[x] == Some(y as usize);
                                assert(x != i);
                            }
                        }
                    }
                }
                let birth = sf[l];
                let death = sf[i];
                if death > birth {
                    let dim = sorted[l].len() - 1;
                    pairs.push(PersistencePair { dim, birth, death: Some(death) });
                }
            },
            None => {
                proof {
                    assert forall|y: int| 0 <= y < n implies (#[trigger] paired@[y] <==> exists|x: int| 0 <= x < i + 1 && low@[x] == Some(y as usize)) by {
                        if exists|x: int| 0 <= x < i + 1 && low@[x] == Some(y as usize) {
                            let x = choose|x: int| 0 <= x < i + 1 && low@[x] == Some(y as usize);
                            assert(x != i);
                        }
                    }
                }
            },
        }
        i = i + 1;
    }
    let mut i: usize = 0;
    while i < n
        invariant
            n == sorted@.len(),
            n == low@.len(),
            n == sf@.len(),
            sv == simplex_views(sorted@),
            forall|x: int| 0 <= x < n ==> #[trigger] sv[x].len() >= 1,
            forall|x: int| 0 <= x < n ==> #[trigger] sf@[x] == filtration(sv[x], dv),
            i <= n,
            paired@.len() == n,
            forall|y: int| 0 <= y < n ==> (#[trigger] paired@[y] <==> is_paired(low@, y)),
            pairs@ == finite_pairs(sv, dv, low@, n as int) + essential_pairs(sv, dv, low@, i as int),
            forall|x: int| 0 <= x < pairs@.len() ==> (#[trigger] pairs@[x]).dim < usize::MAX,
        decreases n - i,
    {
        if !paired[i] && low[i].is_none() {
            assert(sorted@[i as int]@ == sv[i as int]);
            let dim = sorted[i].len() - 1;
            pairs.push(PersistencePair { dim, birth: sf[i], death: None });
        }
        i = i + 1;
    }
    proof {
        assert(is_filtration_order(av, dv, order@));
        assert(pairs@ == pairs_of(sv, dv, low@));
    }
    pairs
}

} // verus!

verus! {

/// The class of `p` is alive at the filtration key `t`: born at or before `t` and not dead by `t`.
pub open spec fn is_alive(p: PersistencePair, t: u64) -> bool {
    p.birth <= t && match p.death {
        Some(d) => d > t,
        None => true,
    }
}

/// The largest dimension among the first `m` pairs, or zero.
pub open spec fn max_dim(pairs: Seq<PersistencePair>, m: int) -> int
    decreases m,
{
    if m <= 0 {
        0
    } else {
        let prev = max_dim(pairs, m - 1);
        if pairs[m - 1].dim > prev { pairs[m - 1].dim as int } else { prev }
    }
}

/// How many of the first `m` pairs have dimension `d` and are alive at `t`.
pub open spec fn alive_count(pairs: Seq<PersistencePair>, t: u64, d: int, m: int) -> int
    decreases m,
{
    if m <= 0 {
        0
    } else {
        alive_count(pairs, t, d, m - 1) + if pairs[m - 1].dim == d && is_alive(pairs[m - 1], t) { 1int } else { 0int }
    }
}

pub(crate) proof fn lemma_alive_count_bounded(pairs: Seq<PersistencePair>, t: u64, d: int, m: int)
    requires
        m >= 0,
    ensures
        0 <= alive_count(pairs, t, d, m) <= m,
    decreases m,
{
    if m > 0 {
        lemma_alive_count_bounded(pairs, t, d, m - 1);
    }
}

pub(crate) proof fn lemma_max_dim_bounds(pairs: Seq<PersistencePair>, m: int)
    requires
        0 <= m <= pairs.len(),
    ensures
        max_dim(pairs, m) >= 0,
        forall|x: int| 0 <= x < m ==> (#[trigger] pairs[x]).dim <= max_dim(pairs, m),
        m == 0 || max_dim(pairs, m) == 0 || exists|x: int| 0 <= x < m && pairs[x].dim == max_dim(pairs, m),
    decreases m,
{
    if m > 0 {
        lemma_max_dim_bounds(pairs, m - 1);
    }
}

/// `b` lists the Betti numbers at `t`: for each dimension up to the largest among the
/// pairs, how many pairs of that dimension are alive at `t`.
pub open spec fn is_betti_of(b: Seq<usize>, pairs: Seq<PersistencePair>, t: u64) -> bool {
    &&& b.len() == max_dim(pairs, pairs.len() as int) + 1
    &&& forall|d: int| 0 <= d < b.len() ==> #[trigger] b[d] == alive_count(pairs, t, d, pairs.len() as int)
}

/// Betti numbers at a filtration key: for each dimension up to the largest among the
/// pairs, the number of pairs of that dimension alive at `threshold`.
pub fn betti_numbers(pairs: &[PersistencePair], threshold: u64) -> (betti: Vec<usize>)
    requires
        forall|x: int| 0 <= x < pairs@.len() ==> (#[trigger] pairs@[x]).dim < usize::MAX,
    ensures
        is_betti_of(betti@, pairs@, threshold),
{
    let n = pairs.len();
    let mut top: usize = 0;
    let mut i: usize = 0;
    while i < n
        invariant
            n == pairs@.len(),
            i <= n,
            top == max_dim(pairs@, i as int),
            forall|x: int| 0 <= x < pairs@.len() ==> (#[trigger] pairs@[x]).dim < usize::MAX,
        decreases n - i,
    {
        if pairs[i].dim > top {
            top = pairs[i].dim;
        }
        i = i + 1;
    }
    proof {
        lemma_max_dim_bounds(pairs@, n as int);
        if n > 0 && top > 0 {
            let x = choose|x: int| 0 <= x < n && pairs@[x].dim == max_dim(pairs@, n as int);
        }
    }
    let mut betti: Vec<usize> = Vec::new();
    let mut d: usize = 0;
    while d <= top
        invariant
            top < usize::MAX,
            d <= top + 1,
            betti@.len() == d,
            forall|x: int| 0 <= x < d ==> #[trigger] betti@[x] == 0,
        decreases top + 1 - d,
    {
        betti.push(0);
        d = d + 1;
    }
    let mut i: usize = 0;
    while i < n
        invariant
            n == pairs@.len(),
            i <= n,
            top == max_dim(pairs@, n as int),
            betti@.len() == top + 1,
            forall|x: int| 0 <= x < n ==> (#[trigger] pairs@[x]).dim <= top,
            forall|x: int| 0 <= x < betti@.len() ==> #[trigger] betti@[x] == alive_count(pairs@, threshold, x, i as int),
        decreases n - i,
    {
        let p = &pairs[i];
        let alive = p.birth <= threshold && match p.death {
            Some(dd) => dd > threshold,
            None => true,
        };
        let ghost before = betti@;
        if alive {
            proof {
                lemma_alive_count_bounded(pairs@, threshold, p.dim as int, i as int);
            }
            let cur = betti[p.dim];
            betti.set(p.dim, cur + 1);
        }
        proof {
            assert forall|x: int| 0 <= x < betti@.len() implies #[trigger] betti@[x] == alive_count(pairs@, threshold, x, i + 1) by {
                assert(before[x] == alive_count(pairs@, threshold, x, i as int));
            }
        }
        i = i + 1;
    }
    proof {
        lemma_max_dim_bounds(pairs@, n as int);
    }
    betti
}

} // verus!

verus! {

/// Every vertex of every simplex the complex holds is below `n`.
pub open spec fn vertices_below(c: SimplicialComplex, n: int) -> bool {
    forall|d: int, t: Seq<usize>, a: int| 0 <= d < c.simplices@.len() && #[trigger] c.level(d).contains(t) && 0 <= a < t.len()
        ==> #[trigger] t[a] < n
}

/// A complex generated by simplices on vertices below `n` holds only such simplices.
pub proof fn lemma_generated_vertices(c: SimplicialComplex, gens: Set<Seq<usize>>, n: int)
    requires
        generated_by(c.levels(), gens),
        forall|g: Seq<usize>, a: int| #[trigger] gens.contains(g) && 0 <= a < g.len() ==> #[trigger] g[a] < n,
    ensures
        vertices_below(c, n),
{
    assert forall|d: int, t: Seq<usize>, a: int| 0 <= d < c.simplices@.len() && #[trigger] c.level(d).contains(t) && 0 <= a < t.len()
        implies #[trigger] t[a] < n by {
        assert(c.levels()[d] == c.level(d));
        assert(c.levels()[d].contains(t));
        let g = choose|g: Seq<usize>| #[trigger] gens.contains(g) && is_face(t, g);
        lemma_face_vertices(t, g);
        assert(g.contains(t[a]));
        let b = choose|b: int| 0 <= b < g.len() && g[b] == t[a];
        assert(g[b] < n);
    }
}

/// The complex holds `s` in some dimension below `d`.
pub open spec fn held_below(c: SimplicialComplex, s: Seq<usize>, d: int) -> bool {
    exists|e: int| 0 <= e < d && #[trigger] c.level(e).contains(s)
}

/// The simplices below dimension `d` are held by the complex.
pub(crate) proof fn lemma_simplices_below_held(c: SimplicialComplex, d: int)
    requires
        0 <= d <= c.simplices@.len(),
    ensures
        forall|k: int| 0 <= k < simplices_below(c, d).len() ==> #[trigger] held_below(c, simplices_below(c, d)[k], d),
    decreases d,
{
    if d > 0 {
        lemma_simplices_below_held(c, d - 1);
        let prev = simplices_below(c, d - 1);
        let lv = c.level_seq(d - 1);
        assert forall|k: int| 0 <= k < simplices_below(c, d).len() implies #[trigger] held_below(c, simplices_below(c, d)[k], d) by {
            if k >= prev.len() {
                assert(simplices_below(c, d)[k] == lv[k - prev.len()]);
                assert(c.level(d - 1).contains(lv[k - prev.len()]));
            } else {
                assert(simplices_below(c, d)[k] == prev[k]);
                assert(held_below(c, prev[k], d - 1));
                let e = choose|e: int| 0 <= e < d - 1 && #[trigger] c.level(e).contains(prev[k]);
            }
        }
    } else {
        assert(simplices_below(c, d).len() == 0);
    }
}

/// A complex on vertices below `n` has all its diameter keys in an `n` by `n` matrix.
pub proof fn lemma_keys_defined(c: SimplicialComplex, dist: Seq<Vec<u64>>)
    requires
        vertices_below(c, dist.len() as int),
        is_square(dist),
    ensures
        complex_keys_defined(c, rows(dist)),
{
    lemma_simplices_below_held(c, c.simplices@.len() as int);
    assert forall|k: int| 0 <= k < all_simplices(c).len() implies #[trigger] keys_defined(all_simplices(c)[k], rows(dist)) by {
        let s = all_simplices(c)[k];
        assert(held_below(c, s, c.simplices@.len() as int));
        let e = choose|e: int| 0 <= e < c.simplices@.len() && #[trigger] c.level(e).contains(s);
        assert forall|i: int, j: int| #![trigger s[i], s[j]] 0 <= i < j < s.len()
            implies s[i] < rows(dist).len() && s[j] < rows(dist)[s[i] as int].len() by {
            assert(s[i] < dist.len());
            assert(s[j] < dist.len());
            assert(dist[s[i] as int]@.len() == dist.len());
        }
    }
}

} // verus!

verus! {

proof fn lemma_finite_pairs_die_later(s: Seq<Seq<usize>>, dist: Seq<Seq<u64>>, low: Seq<Option<usize>>, m: int)
    ensures
        forall|x: int| 0 <= x < finite_pairs(s, dist, low, m).len() ==> match #[trigger] finite_pairs(s, dist, low, m)[x].death {
            Some(d) => d > finite_pairs(s, dist, low, m)[x].birth,
            None => false,
        },
    decreases m,
{
    if m > 0 {
        lemma_finite_pairs_die_later(s, dist, low, m - 1);
    }
}

proof fn lemma_essential_pairs_live(s: Seq<Seq<usize>>, dist: Seq<Seq<u64>>, low: Seq<Option<usize>>, m: int)
    ensures
        forall|x: int| 0 <= x < essential_pairs(s, dist, low, m).len() ==> (#[trigger] essential_pairs(s, dist, low, m)[x]).death is None,
    decreases m,
{
    if m > 0 {
        lemma_essential_pairs_live(s, dist, low, m - 1);
    }
}

/// Every finite class of a persistence diagram dies strictly after it is born.
pub proof fn lemma_pairs_die_after_birth(c: SimplicialComplex, dist: Seq<Seq<u64>>, pairs: Seq<PersistencePair>)
    requires
        is_persistence_of(c, dist, pairs),
    ensures
        forall|x: int| 0 <= x < pairs.len() ==> match (#[trigger] pairs[x]).death {
            Some(d) => d > pairs[x].birth,
            None => true,
        },
{
    let a = all_simplices(c);
    let (order, r, low) = choose|order: Seq<usize>, r: Seq<Seq<usize>>, low: Seq<Option<usize>>|
        #[trigger] is_filtration_order(a, dist, order)
            && #[trigger] is_reduction(boundary_sets(reorder(a, order)), r, low)
            && pairs == pairs_of(reorder(a, order), dist, low);
    let s = reorder(a, order);
    let n = s.len() as int;
    lemma_finite_pairs_die_later(s, dist, low, n);
    lemma_essential_pairs_live(s, dist, low, n);
    let fin = finite_pairs(s, dist, low, n);
    let ess = essential_pairs(s, dist, low, n);
    assert forall|x: int| 0 <= x < pairs.len() implies match (#[trigger] pairs[x]).death {
        Some(d) => d > pairs[x].birth,
        None => true,
    } by {
        if x < fin.len() {
            assert(pairs[x] == fin[x]);
        } else {
            assert(pairs[x] == ess[x - fin.len()]);
        }
    }
}

} // verus!
