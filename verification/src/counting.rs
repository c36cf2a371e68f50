//! How many faces a simplex has: a simplex on `m` distinct vertices has `C(m, j)`
//! faces with `j` vertices.
use vstd::prelude::*;
use vstd::relations::injective_on;
use vstd::set_lib::{lemma_map_size, lemma_set_disjoint_lens};
use crate::faces::is_face;
use crate::weak_witness::{position_order, lemma_position_order, lemma_position_of};
use crate::witness::{
    SimplicialComplex, add_faces, faces_unambiguous, generated_by, lemma_count_is_size, lemma_sorted_unambiguous,
    level_or_empty,
};
use vstd::relations::sorted_by;

verus! {

/// The binomial coefficient `C(n, k)`: the number of ways to choose `k` of `n` things.
pub open spec fn binomial(n: nat, k: nat) -> nat
    decreases n,
{
    if k == 0 {
        1
    } else if n == 0 {
        0
    } else {
        binomial((n - 1) as nat, (k - 1) as nat) + binomial((n - 1) as nat, k)
    }
}

/// `f` lists some of the vertices of `s`, in the order in which `s` lists them.
pub open spec fn is_subseq(f: Seq<usize>, s: Seq<usize>) -> bool
    decreases s.len(),
{
    if s.len() == 0 {
        f.len() == 0
    } else {
        is_subseq(f, s.drop_last())
            || (f.len() > 0 && f.last() == s.last() && is_subseq(f.drop_last(), s.drop_last()))
    }
}

/// The subsequences of `s` with `j` vertices.
pub open spec fn subseqs(s: Seq<usize>, j: int) -> Set<Seq<usize>> {
    Set::new(|f: Seq<usize>| f.len() == j && is_subseq(f, s))
}

/// The faces of `s` with `j` vertices.
pub open spec fn faces_with(s: Seq<usize>, j: int) -> Set<Seq<usize>> {
    Set::new(|f: Seq<usize>| f.len() == j && is_face(f, s))
}

/// A subsequence is no longer than the sequence, and one of the same length is it.
proof fn lemma_subseq_len(f: Seq<usize>, s: Seq<usize>)
    requires
        is_subseq(f, s),
    ensures
        f.len() <= s.len(),
        f.len() == s.len() ==> f == s,
    decreases s.len(),
{
    if s.len() > 0 {
        if is_subseq(f, s.drop_last()) {
            lemma_subseq_len(f, s.drop_last());
        } else {
            lemma_subseq_len(f.drop_last(), s.drop_last());
            if f.len() == s.len() {
                assert(f =~= f.drop_last().push(f.last()));
                assert(s =~= s.drop_last().push(s.last()));
            }
        }
    }
}

/// The empty sequence, and `s` itself, are subsequences of `s`.
proof fn lemma_subseq_ends(s: Seq<usize>)
    ensures
        is_subseq(Seq::empty(), s),
        is_subseq(s, s),
    decreases s.len(),
{
    if s.len() > 0 {
        lemma_subseq_ends(s.drop_last());
        assert(s.drop_last() == s.drop_last());
    }
}

/// The last vertex of a non-empty subsequence is a vertex of the sequence.
proof fn lemma_subseq_last(f: Seq<usize>, s: Seq<usize>)
    requires
        is_subseq(f, s),
        f.len() > 0,
    ensures
        s.contains(f.last()),
    decreases s.len(),
{
    if s.len() > 0 {
        if is_subseq(f, s.drop_last()) {
            lemma_subseq_last(f, s.drop_last());
            let i = choose|i: int| 0 <= i < s.drop_last().len() && s.drop_last()[i] == f.last();
            assert(s[i] == f.last());
        } else {
            assert(s[s.len() - 1] == f.last());
        }
    }
}

/// A subsequence of `s` with one vertex removed is a subsequence of `s`.
proof fn lemma_subseq_of_removed(f: Seq<usize>, s: Seq<usize>, i: int)
    requires
        0 <= i < s.len(),
        is_subseq(f, s.remove(i)),
    ensures
        is_subseq(f, s),
    decreases s.len(),
{
    let r = s.remove(i);
    if i == s.len() - 1 {
        assert(r =~= s.drop_last());
    } else {
        assert(r.drop_last() =~= s.drop_last().remove(i));
        assert(r.last() == s.last());
        if is_subseq(f, r.drop_last()) {
            lemma_subseq_of_removed(f, s.drop_last(), i);
        } else {
            lemma_subseq_of_removed(f.drop_last(), s.drop_last(), i);
        }
    }
}

/// A strictly shorter subsequence of `s` is a subsequence of `s` with some vertex removed.
proof fn lemma_subseq_removable(f: Seq<usize>, s: Seq<usize>)
    requires
        is_subseq(f, s),
        f.len() < s.len(),
    ensures
        exists|i: int| 0 <= i < s.len() && is_subseq(f, #[trigger] s.remove(i)),
    decreases s.len(),
{
    let last = s.len() - 1;
    if is_subseq(f, s.drop_last()) {
        assert(s.remove(last) =~= s.drop_last());
    } else {
        lemma_subseq_len(f.drop_last(), s.drop_last());
        lemma_subseq_removable(f.drop_last(), s.drop_last());
        let i = choose|i: int| 0 <= i < s.drop_last().len() && is_subseq(f.drop_last(), #[trigger] s.drop_last().remove(i));
        let r = s.remove(i);
        assert(r.drop_last() =~= s.drop_last().remove(i));
        assert(r.last() == s.last());
        assert(is_subseq(f, r));
    }
}

/// The faces of a non-empty simplex are its non-empty subsequences.
proof fn lemma_face_is_subseq(f: Seq<usize>, s: Seq<usize>)
    requires
        s.len() >= 1,
    ensures
        is_face(f, s) <==> (f.len() >= 1 && is_subseq(f, s)),
    decreases s.len(),
{
    if is_face(f, s) {
        crate::faces::lemma_face_len(f, s);
        if f == s {
            lemma_subseq_ends(s);
        } else {
            let i = choose|i: int| 0 <= i < s.len() && is_face(f, s.remove(i));
            lemma_face_is_subseq(f, s.remove(i));
            lemma_subseq_of_removed(f, s, i);
        }
    }
    if f.len() >= 1 && is_subseq(f, s) {
        lemma_subseq_len(f, s);
        if f.len() < s.len() {
            lemma_subseq_removable(f, s);
            let i = choose|i: int| 0 <= i < s.len() && is_subseq(f, #[trigger] s.remove(i));
            lemma_face_is_subseq(f, s.remove(i));
        }
    }
}

/// A sequence of `m` distinct vertices has `C(m, j)` subsequences with `j` vertices.
proof fn lemma_subseq_count(s: Seq<usize>, j: nat)
    requires
        s.no_duplicates(),
    ensures
        subseqs(s, j as int).finite(),
        subseqs(s, j as int).len() == binomial(s.len(), j),
    decreases s.len(),
{
    let all = subseqs(s, j as int);
    if j == 0 {
        lemma_subseq_ends(s);
        assert(all =~= set![Seq::<usize>::empty()]) by {
            assert forall|f: Seq<usize>| all.contains(f) implies f == Seq::<usize>::empty() by {
                assert(f =~= Seq::<usize>::empty());
            }
        }
    } else if s.len() == 0 {
        assert(all =~= Set::<Seq<usize>>::empty());
    } else {
        let t = s.drop_last();
        let x = s.last();
        assert(t.no_duplicates()) by {
            assert forall|a: int, b: int| 0 <= a < t.len() && 0 <= b < t.len() && a != b implies t[a] != t[b] by {
                assert(t[a] == s[a] && t[b] == s[b]);
            }
        }
        lemma_subseq_count(t, j);
        lemma_subseq_count(t, (j - 1) as nat);
        let keep = subseqs(t, j as int);
        let shorter = subseqs(t, j - 1);
        let push_x = |g: Seq<usize>| g.push(x);
        let grown = shorter.map(push_x);
        assert(injective_on(push_x, shorter)) by {
            assert forall|g1: Seq<usize>, g2: Seq<usize>|
                shorter.contains(g1) && shorter.contains(g2) && #[trigger] push_x(g1) == #[trigger] push_x(g2) implies g1 == g2 by {
                assert(g1 =~= push_x(g1).drop_last());
                assert(g2 =~= push_x(g2).drop_last());
            }
        }
        lemma_map_size(shorter, grown, push_x);
        assert(keep.disjoint(grown)) by {
            assert forall|f: Seq<usize>| keep.contains(f) implies !grown.contains(f) by {
                lemma_subseq_last(f, t);
                if grown.contains(f) {
                    let g = choose|g: Seq<usize>| shorter.contains(g) && push_x(g) == f;
                    assert(f.last() == x);
                    let i = choose|i: int| 0 <= i < t.len() && t[i] == x;
                    assert(s[i] == s[s.len() - 1]);
                }
            }
        }
        assert(all =~= keep + grown) by {
            assert forall|f: Seq<usize>| all.contains(f) implies (keep + grown).contains(f) by {
                if !is_subseq(f, t) {
                    assert(f =~= push_x(f.drop_last()));
                    assert(shorter.contains(f.drop_last()));
                }
            }
            assert forall|f: Seq<usize>| (keep + grown).contains(f) implies all.contains(f) by {
                if grown.contains(f) {
                    let g = choose|g: Seq<usize>| shorter.contains(g) && push_x(g) == f;
                    assert(f.drop_last() =~= g);
                }
            }
        }
        lemma_set_disjoint_lens(keep, grown);
    }
}

/// A simplex on `m` distinct vertices has `C(m, j)` faces with `j` vertices, for each `j >= 1`.
pub proof fn lemma_face_count(s: Seq<usize>, j: nat)
    requires
        s.no_duplicates(),
        s.len() >= 1,
        j >= 1,
    ensures
        faces_with(s, j as int).finite(),
        faces_with(s, j as int).len() == binomial(s.len(), j),
{
    lemma_subseq_count(s, j);
    assert(faces_with(s, j as int) =~= subseqs(s, j as int)) by {
        assert forall|f: Seq<usize>| faces_with(s, j as int).contains(f) <==> subseqs(s, j as int).contains(f) by {
            lemma_face_is_subseq(f, s);
        }
    }
}

/// There is no way to choose more things than there are.
proof fn lemma_binomial_zero(n: nat, k: nat)
    requires
        k > n,
    ensures
        binomial(n, k) == 0,
    decreases n,
{
    if n > 0 {
        lemma_binomial_zero((n - 1) as nat, (k - 1) as nat);
        lemma_binomial_zero((n - 1) as nat, k);
    }
}

/// Adding a simplex on `m` distinct vertices to an empty complex stores `C(m, d + 1)`
/// simplices of each dimension `d`: `m` vertices, `C(m, 2)` edges, `C(m, 3)` triangles, ...
/// The requirements on `empty` and `c` are what `new` and then `add_simplex` ensure.
pub proof fn lemma_single_simplex_counts(empty: SimplicialComplex, c: SimplicialComplex, s: Seq<usize>, d: int)
    requires
        empty.levels() == seq![Set::<Seq<usize>>::empty()],
        c.wf(),
        faces_unambiguous(empty.levels(), s) ==> c.levels() == add_faces(empty.levels(), s),
        s.no_duplicates(),
        s.len() >= 1,
        0 <= d,
    ensures
        c.count_at(d) == binomial(s.len(), (d + 1) as nat),
{
    let levels = empty.levels();
    let none = Set::<Seq<usize>>::empty();
    assert(generated_by(levels, none)) by {
        assert(levels[0] =~= Set::new(
            |f: Seq<usize>| f.len() == 0 + 1 && exists|g: Seq<usize>| #[trigger] none.contains(g) && is_face(f, g)));
    }
    lemma_position_order(s);
    assert(sorted_by(s, position_order(s))) by {
        assert forall|i: int, j: int| 0 <= i < j < s.len() implies #[trigger] position_order(s)(s[i], s[j]) by {
            lemma_position_of(s, i);
            lemma_position_of(s, j);
        }
    }
    lemma_sorted_unambiguous(levels, none, s, position_order(s));
    let all = add_faces(levels, s);
    assert(c.levels() == all);
    assert(c.simplices@.len() == s.len()) by {
        assert(c.levels().len() == c.simplices@.len());
    }
    if d < s.len() {
        lemma_count_is_size(c, d);
        lemma_face_count(s, (d + 1) as nat);
        assert(c.levels()[d] == c.level(d));
        assert(level_or_empty(levels, d) =~= Set::<Seq<usize>>::empty());
        assert(c.level(d) =~= faces_with(s, d + 1));
    } else {
        lemma_binomial_zero(s.len(), (d + 1) as nat);
    }
}

} // verus!
