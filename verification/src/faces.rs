//! Faces of a simplex: the simplices obtained by deleting vertices.
use vstd::prelude::*;
use vstd::relations::{sorted_by, total_ordering};
use vstd::seq_lib::{group_to_multiset_ensures, lemma_multiset_commutative, lemma_sorted_unique};

verus! {

/// The order `<=` on vertices.
pub open spec fn vertex_le(a: usize, b: usize) -> bool {
    a <= b
}

/// `s` lists its vertices in increasing order.
pub open spec fn is_sorted(s: Seq<usize>) -> bool {
    forall|i: int, j: int| 0 <= i < j < s.len() ==> s[i] <= s[j]
}

/// `a` and `b` have the same vertices, counted with multiplicity.
pub open spec fn same_vertex_set(a: Seq<usize>, b: Seq<usize>) -> bool {
    a.to_multiset() == b.to_multiset()
}

/// `f` is a face of `s`: it is `s` itself, or a face of `s` with one vertex removed.
pub open spec fn is_face(f: Seq<usize>, s: Seq<usize>) -> bool
    decreases s.len(),
{
    f == s || (s.len() > 1 && exists|i: int| 0 <= i < s.len() && is_face(f, s.remove(i)))
}

/// A face of a non-empty simplex is non-empty and no longer than it; one of the
/// same length is the simplex itself.
pub proof fn lemma_face_len(f: Seq<usize>, s: Seq<usize>)
    requires
        is_face(f, s),
        s.len() >= 1,
    ensures
        1 <= f.len() <= s.len(),
        f.len() == s.len() ==> f == s,
    decreases s.len(),
{
    if f != s {
        let i = choose|i: int| 0 <= i < s.len() && is_face(f, s.remove(i));
        lemma_face_len(f, s.remove(i));
    }
}

/// Every vertex of a face is a vertex of the simplex.
pub proof fn lemma_face_vertices(f: Seq<usize>, s: Seq<usize>)
    requires
        is_face(f, s),
    ensures
        forall|a: int| 0 <= a < f.len() ==> s.contains(#[trigger] f[a]),
    decreases s.len(),
{
    if f != s {
        let i = choose|i: int| 0 <= i < s.len() && is_face(f, s.remove(i));
        lemma_face_vertices(f, s.remove(i));
        assert forall|a: int| 0 <= a < f.len() implies s.contains(#[trigger] f[a]) by {
            assert(s.remove(i).contains(f[a]));
            let b = choose|b: int| 0 <= b < s.remove(i).len() && s.remove(i)[b] == f[a];
            if b < i { assert(s[b] == f[a]); } else { assert(s[b + 1] == f[a]); }
        }
    } else {
        assert forall|a: int| 0 <= a < f.len() implies s.contains(#[trigger] f[a]) by {
            assert(s[a] == f[a]);
        }
    }
}

pub(crate) proof fn lemma_vertex_le_total()
    ensures
        total_ordering(|a: usize, b: usize| vertex_le(a, b)),
{
}

/// Inserting into a sequence adds one occurrence to its multiset.
proof fn lemma_insert_multiset(s: Seq<usize>, pos: int, x: usize)
    requires
        0 <= pos <= s.len(),
    ensures
        s.insert(pos, x).to_multiset() =~= s.to_multiset().insert(x),
{
    broadcast use group_to_multiset_ensures;
    let a = s.subrange(0, pos);
    let b = s.subrange(pos, s.len() as int);
    assert(s =~= a + b);
    assert(s.insert(pos, x) =~= a.push(x) + b);
    lemma_multiset_commutative(a.push(x), b);
    lemma_multiset_commutative(a, b);
}

/// The vertices of `s` in increasing order.
pub fn sorted_vertices(s: &[usize]) -> (r: Vec<usize>)
    ensures
        is_sorted(r@),
        same_vertex_set(r@, s@),
{
    broadcast use group_to_multiset_ensures;
    let mut r: Vec<usize> = Vec::new();
    let mut i: usize = 0;
    while i < s.len()
        invariant
            i <= s@.len(),
            is_sorted(r@),
            r@.to_multiset() =~= s@.subrange(0, i as int).to_multiset(),
        decreases s.len() - i,
    {
        let x = s[i];
        let mut j: usize = 0;
        while j < r.len() && r[j] <= x
            invariant
                j <= r@.len(),
                is_sorted(r@),
                forall|k: int| 0 <= k < j ==> r@[k] <= x,
            decreases r.len() - j,
        {
            j = j + 1;
        }
        let ghost before = r@;
        proof {
            lemma_insert_multiset(before, j as int, x);
            assert(s@.subrange(0, i + 1) =~= s@.subrange(0, i as int).push(x));
        }
        r.insert(j, x);
        assert(r@ == before.insert(j as int, x));
        proof {
            s@.subrange(0, i as int).to_multiset_ensures();
        }
        assert(s@.subrange(0, i as int).push(x).to_multiset() =~= s@.subrange(0, i as int).to_multiset().insert(x));
        assert forall|a: int, b: int| 0 <= a < b < r@.len() implies r@[a] <= r@[b] by {
            if b < j {
                assert(before[a] <= before[b]);
            } else if b == j {
                assert(r@[a] == before[a]);
            } else if a < j {
                assert(r@[b] == before[b - 1]);
                assert(before[a] <= before[b - 1]);
            } else if a == j {
                assert(r@[b] == before[b - 1]);
                assert(j < before.len());
                assert(before[j as int] <= before[b - 1]);
            } else {
                assert(before[a - 1] <= before[b - 1]);
            }
        }
        i = i + 1;
    }
    assert(s@.subrange(0, s@.len() as int) =~= s@);
    r
}

/// Whether `a` and `b` have the same vertices, counted with multiplicity.
pub fn same_vertices(a: &[usize], b: &[usize]) -> (r: bool)
    ensures
        r == same_vertex_set(a@, b@),
{
    let sa = sorted_vertices(a);
    let sb = sorted_vertices(b);
    let r = same_in_order(&sa, &sb);
    proof {
        if same_vertex_set(a@, b@) {
            lemma_vertex_le_total();
            assert(sorted_by(sa@, |x: usize, y: usize| vertex_le(x, y)));
            assert(sorted_by(sb@, |x: usize, y: usize| vertex_le(x, y)));
            lemma_sorted_unique(sa@, sb@, |x: usize, y: usize| vertex_le(x, y));
        }
    }
    r
}

/// Whether two vertex lists are equal, position by position.
pub fn same_in_order(a: &Vec<usize>, b: &Vec<usize>) -> (r: bool)
    ensures
        r == (a@ == b@),
{
    if a.len() != b.len() {
        return false;
    }
    let mut i: usize = 0;
    while i < a.len()
        invariant
            a@.len() == b@.len(),
            i <= a@.len(),
            forall|j: int| 0 <= j < i ==> a@[j] == b@[j],
        decreases a.len() - i,
    {
        if a[i] != b[i] {
            return false;
        }
        i = i + 1;
    }
    assert(a@ =~= b@);
    true
}

} // verus!
