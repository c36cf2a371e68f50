//! Simplicial complexes and the witness complex of a point cloud.
use vstd::prelude::*;
use crate::faces::{
    is_face, lemma_face_len, lemma_face_vertices, same_in_order, same_vertices, same_vertex_set, vertex_le,
    lemma_vertex_le_total,
};
use vstd::relations::{sorted_by, total_ordering};
use vstd::seq_lib::lemma_sorted_unique;

verus! {

/// A simplex: its vertices, as landmark indices.
pub type Simplex = Vec<usize>;

/// A simplicial complex, its simplices stored by dimension.
#[derive(Debug, Clone)]
pub struct SimplicialComplex {
    /// `simplices[d]` holds the simplices with `d + 1` vertices.
    pub simplices: Vec<Vec<Simplex>>,
}

/// The sets of simplices of `levels` after a simplex `s` and all its faces were added.
pub open spec fn add_faces(levels: Seq<Set<Seq<usize>>>, s: Seq<usize>) -> Seq<Set<Seq<usize>>> {
    let n = if levels.len() >= s.len() { levels.len() } else { s.len() };
    Seq::new(
        n,
        |d: int|
            level_or_empty(levels, d).union(
                Set::new(|f: Seq<usize>| f.len() == d + 1 && is_face(f, s)),
            ),
    )
}

/// `levels` with empty dimensions appended until it has at least `n` of them.
pub open spec fn padded(levels: Seq<Seq<Seq<usize>>>, n: int) -> Seq<Seq<Seq<usize>>> {
    if levels.len() >= n { levels } else { levels + Seq::new((n - levels.len()) as nat, |d: int| Seq::<Seq<usize>>::empty()) }
}

/// `level` holds a simplex with the vertices of `s`, in any order.
pub open spec fn holds_set(level: Seq<Seq<usize>>, s: Seq<usize>) -> bool {
    exists|i: int| 0 <= i < level.len() && same_vertex_set(#[trigger] level[i], s)
}

/// No face of `s` has the vertices of a different face of `s`, or of a different simplex
/// of `levels` (as when all of them list their vertices in increasing order).
pub open spec fn faces_unambiguous(levels: Seq<Set<Seq<usize>>>, s: Seq<usize>) -> bool {
    &&& forall|f: Seq<usize>, g: Seq<usize>| #[trigger] is_face(f, s) && #[trigger] is_face(g, s) && same_vertex_set(f, g) ==> f == g
    &&& forall|d: int, t: Seq<usize>, f: Seq<usize>|
        0 <= d < levels.len() && #[trigger] levels[d].contains(t) && #[trigger] is_face(f, s) && same_vertex_set(t, f) ==> t == f
}

/// The stored simplices, dimension by dimension and in stored order, after adding `s`:
/// nothing changes if a simplex with the vertices of `s` is stored already; otherwise its
/// faces that delete one vertex are added first, deleting the first vertex first, and
/// then `s` is appended.
pub open spec fn add_in_order(levels: Seq<Seq<Seq<usize>>>, s: Seq<usize>) -> Seq<Seq<Seq<usize>>>
    decreases s.len(), 1int, 0int,
{
    let p = padded(levels, s.len() as int);
    if s.len() == 0 {
        levels
    } else if holds_set(p[s.len() - 1], s) {
        p
    } else {
        let f = faces_in_order(p, s, if s.len() > 1 { s.len() as int } else { 0 });
        f.update(s.len() - 1, f[s.len() - 1].push(s))
    }
}

/// The stored simplices after adding, in turn, the faces of `s` that delete its vertex
/// `0`, then `1`, ... up to `i - 1`.
pub open spec fn faces_in_order(levels: Seq<Seq<Seq<usize>>>, s: Seq<usize>, i: int) -> Seq<Seq<Seq<usize>>>
    decreases s.len(), 0int, i,
{
    if i <= 0 || i > s.len() {
        levels
    } else {
        add_in_order(faces_in_order(levels, s, i - 1), s.remove(i - 1))
    }
}

/// The stored simplices after offering the first `i` landmarks, in order, as vertices.
pub open spec fn offer_vertices(levels: Seq<Seq<Seq<usize>>>, lm: Seq<usize>, i: int) -> Seq<Seq<Seq<usize>>>
    decreases i,
{
    if i <= 0 || i > lm.len() {
        levels
    } else {
        add_in_order(offer_vertices(levels, lm, i - 1), seq![lm[i - 1]])
    }
}

/// The vertex sequences of a list of stored simplices.
pub open spec fn simplex_views(list: Seq<Simplex>) -> Seq<Seq<usize>> {
    list.map_values(|s: Simplex| s@)
}

/// The `d`-th set of `levels`, or the empty set past its end.
pub open spec fn level_or_empty(levels: Seq<Set<Seq<usize>>>, d: int) -> Set<Seq<usize>> {
    if d < levels.len() { levels[d] } else { Set::empty() }
}

/// The simplices with `d + 1` vertices that are faces of `s` with one of its first
/// `i` vertices removed.
pub open spec fn faces_through(s: Seq<usize>, i: int, d: int) -> Set<Seq<usize>> {
    Set::new(|f: Seq<usize>| f.len() == d + 1 && s.len() > 1 && exists|j: int| 0 <= j < i && is_face(f, s.remove(j)))
}

/// `levels` holds exactly the faces of the simplices in `gens`, by dimension, and stores
/// as many dimensions as the longest of them needs (at least one).
pub open spec fn generated_by(levels: Seq<Set<Seq<usize>>>, gens: Set<Seq<usize>>) -> bool {
    &&& levels.len() >= 1
    &&& forall|g: Seq<usize>| #[trigger] gens.contains(g) ==> 1 <= g.len() <= levels.len()
    &&& (levels.len() == 1 || exists|g: Seq<usize>| #[trigger] gens.contains(g) && g.len() == levels.len())
    &&& forall|d: int| 0 <= d < levels.len() ==> #[trigger] levels[d] == Set::new(
        |f: Seq<usize>| f.len() == d + 1 && exists|g: Seq<usize>| #[trigger] gens.contains(g) && is_face(f, g))
}

/// Adding a simplex to a complex generated by `gens` gives the complex generated by
/// `gens` and that simplex.
pub proof fn lemma_generated_add(levels: Seq<Set<Seq<usize>>>, gens: Set<Seq<usize>>, s: Seq<usize>)
    requires
        generated_by(levels, gens),
        s.len() >= 1,
    ensures
        generated_by(add_faces(levels, s), gens.insert(s)),
{
    let new = add_faces(levels, s);
    let g2 = gens.insert(s);
    if new.len() > 1 {
        if s.len() == new.len() {
            assert(g2.contains(s));
        } else {
            let g = choose|g: Seq<usize>| #[trigger] gens.contains(g) && g.len() == levels.len();
            assert(g2.contains(g));
        }
    }
    assert forall|d: int| 0 <= d < new.len() implies #[trigger] new[d] == Set::new(
        |f: Seq<usize>| f.len() == d + 1 && exists|g: Seq<usize>| #[trigger] g2.contains(g) && is_face(f, g)) by {
        let target = Set::new(
            |f: Seq<usize>| f.len() == d + 1 && exists|g: Seq<usize>| #[trigger] g2.contains(g) && is_face(f, g));
        assert forall|f: Seq<usize>| new[d].contains(f) <==> #[trigger] target.contains(f) by {
            if new[d].contains(f) {
                if level_or_empty(levels, d).contains(f) {
                    assert(d < levels.len());
                    assert(levels[d].contains(f));
                    let g = choose|g: Seq<usize>| #[trigger] gens.contains(g) && is_face(f, g);
                    assert(g2.contains(g));
                } else {
                    assert(g2.contains(s));
                }
            }
            if target.contains(f) {
                let g = choose|g: Seq<usize>| #[trigger] g2.contains(g) && is_face(f, g);
                if g != s {
                    assert(gens.contains(g));
                    lemma_face_len(f, g);
                    assert(d < levels.len());
                    assert(levels[d].contains(f));
                }
            }
        }
        assert(new[d] =~= target);
    }
}

impl SimplicialComplex {
    /// The simplices of dimension `d`, in stored order.
    pub open spec fn level_seq(&self, d: int) -> Seq<Seq<usize>> {
        simplex_views(self.simplices@[d]@)
    }

    /// The set of simplices of dimension `d`.
    pub open spec fn level(&self, d: int) -> Set<Seq<usize>> {
        self.level_seq(d).to_set()
    }

    /// The stored simplices, dimension by dimension, each in stored order.
    pub open spec fn level_seqs(&self) -> Seq<Seq<Seq<usize>>> {
        Seq::new(self.simplices@.len(), |d: int| self.level_seq(d))
    }

    /// The complex as a sequence of sets of simplices, one per stored dimension.
    pub open spec fn levels(&self) -> Seq<Set<Seq<usize>>> {
        Seq::new(self.simplices@.len(), |d: int| self.level(d))
    }

    /// Well-formed: at least one dimension is stored, no two simplices of a dimension have
    /// the same vertices (a simplex is its set of vertices), a simplex of dimension `d` has
    /// `d + 1` vertices, and the complex holds, in some vertex order, each face that deletes
    /// one vertex of a simplex it holds.
    pub open spec fn wf(&self) -> bool {
        &&& self.simplices@.len() >= 1
        &&& forall|d: int| 0 <= d < self.simplices@.len() ==> #[trigger] self.level_seq(d).no_duplicates()
        &&& forall|d: int, a: int, b: int| 0 <= d < self.simplices@.len() && 0 <= a < b < self.level_seq(d).len()
            ==> !same_vertex_set(#[trigger] self.level_seq(d)[a], #[trigger] self.level_seq(d)[b])
        &&& forall|d: int, t: Seq<usize>|
            0 <= d < self.simplices@.len() && #[trigger] self.level(d).contains(t) ==> t.len() == d + 1
        &&& forall|d: int, t: Seq<usize>, i: int|
            1 <= d < self.simplices@.len() && #[trigger] self.level(d).contains(t) && 0 <= i < t.len()
                ==> self.holds_vertices(#[trigger] t.remove(i))
    }

    /// Every dimension of `old` is stored here too, with the same simplices first, in the same order.
    pub open spec fn extends(&self, old: &Self) -> bool {
        &&& old.simplices@.len() <= self.simplices@.len()
        &&& forall|d: int| 0 <= d < old.simplices@.len() ==> #[trigger] old.level_seq(d).len() <= self.level_seq(d).len()
        &&& forall|d: int, i: int| 0 <= d < old.simplices@.len() && 0 <= i < old.level_seq(d).len()
            ==> #[trigger] old.level_seq(d)[i] == self.level_seq(d)[i]
    }

    /// Create an empty complex.
    pub fn new() -> (c: Self)
        ensures
            c.wf(),
            c.levels() =~= seq![Set::<Seq<usize>>::empty()],
            c.level_seqs() =~= seq![Seq::<Seq<usize>>::empty()],
    {
        let c = SimplicialComplex { simplices: vec![Vec::new()] };
        assert(c.level_seq(0) =~= Seq::<Seq<usize>>::empty());
        assert(c.level(0) =~= Set::<Seq<usize>>::empty());
        c
    }

    /// Add a simplex and, recursively, every face of it, unless a simplex with the same
    /// vertices (in any order) is already stored.
    pub fn add_simplex(&mut self, simplex: Simplex)
        requires
            old(self).wf(),
            simplex@.len() >= 1,
        ensures
            final(self).wf(),
            final(self).level_seqs() =~= add_in_order(old(self).level_seqs(), simplex@),
            final(self).extends(old(self)),
            final(self).holds_vertices(simplex@),
            final(self).simplices@.len() == (if old(self).simplices@.len() >= simplex@.len() {
                old(self).simplices@.len() as int } else { simplex@.len() as int }),
            forall|d: int| simplex@.len() <= d < old(self).simplices@.len()
                ==> #[trigger] final(self).level_seq(d) == old(self).level_seq(d),
            faces_unambiguous(old(self).levels(), simplex@)
                ==> final(self).levels() =~= add_faces(old(self).levels(), simplex@),
        decreases simplex@.len(),
    {
        let ghost old_levels = self.levels();
        let ghost old_seqs = self.level_seqs();
        let ghost start = *self;
        let ghost cond = faces_unambiguous(old_levels, simplex@);
        let dim = simplex.len() - 1;
        while self.simplices.len() <= dim
            invariant
                self.wf(),
                old_levels.len() <= self.simplices@.len(),
                self.simplices@.len() == old_levels.len() || self.simplices@.len() <= dim + 1,
                forall|d: int| 0 <= d < self.simplices@.len() ==> #[trigger] self.level(d) == level_or_empty(old_levels, d),
                self.extends(&start),
                old_seqs.len() == old_levels.len(),
                self.level_seqs() == padded(old_seqs, self.simplices@.len() as int),
                forall|d: int| 0 <= d < old_levels.len() ==> #[trigger] self.level_seq(d) == start.level_seq(d),
            decreases dim + 1 - self.simplices.len(),
        {
            let ghost before = *self;
            self.simplices.push(Vec::new());
            proof {
                assert forall|d: int| 0 <= d < before.simplices@.len() implies #[trigger] self.level_seq(d)
                    == before.level_seq(d) by {
                    assert(self.simplices@[d] == before.simplices@[d]);
                }
                assert forall|d: int| 0 <= d < before.simplices@.len() implies #[trigger] self.level(d)
                    == before.level(d) by {
                    assert(self.level_seq(d) == before.level_seq(d));
                }
                assert forall|d: int| 0 <= d < start.simplices@.len() implies #[trigger] start.level_seq(d).len() <= self.level_seq(d).len() by {
                    assert(self.level_seq(d) == before.level_seq(d));
                }
                assert forall|d: int, i: int| 0 <= d < start.simplices@.len() && 0 <= i < start.level_seq(d).len()
                    implies #[trigger] start.level_seq(d)[i] == self.level_seq(d)[i] by {
                    assert(self.level_seq(d) == before.level_seq(d));
                    assert(before.level_seq(d).len() >= start.level_seq(d).len());
                }
                let last = self.simplices@.len() - 1;
                assert(self.level_seq(last) =~= Seq::<Seq<usize>>::empty());
                assert(self.level_seqs() =~= padded(old_seqs, self.simplices@.len() as int)) by {
                    assert(before.level_seqs() == padded(old_seqs, before.simplices@.len() as int));
                    assert forall|d: int| 0 <= d < self.simplices@.len() implies #[trigger] self.level_seqs()[d]
                        == padded(old_seqs, self.simplices@.len() as int)[d] by {
                        if d < last {
                            assert(self.level_seqs()[d] == before.level_seqs()[d]);
                        }
                    }
                }
                assert(self.level(last) =~= Set::<Seq<usize>>::empty());
                assert(level_or_empty(old_levels, last) =~= Set::<Seq<usize>>::empty());
                assert forall|d: int, t: Seq<usize>|
                    0 <= d < self.simplices@.len() && #[trigger] self.level(d).contains(t) implies t.len() == d + 1 by {
                    if d < last { assert(before.level(d).contains(t)); }
                }
                assert forall|d: int, t: Seq<usize>, i: int|
                    1 <= d < self.simplices@.len() && #[trigger] self.level(d).contains(t) && 0 <= i < t.len()
                        implies self.holds_vertices(#[trigger] t.remove(i)) by {
                    if d < last {
                        assert(before.level(d).contains(t));
                        assert(before.holds_vertices(t.remove(i)));
                        assert(self.level(d - 1) == before.level(d - 1));
                    }
                }
            }
        }
        let ghost padded_seqs = self.level_seqs();
        let ghost pad = *self;
        proof {
            assert(padded_seqs == padded(old_seqs, simplex@.len() as int));
            assert(padded_seqs[dim as int] == self.level_seq(dim as int));
            lemma_holds_set_level(*self, simplex@);
        }
        if !self.contains(simplex.as_slice()) {
            let n = simplex.len();
            let mut i: usize = 0;
            proof {
                if cond {
                    assert forall|d: int| 0 <= d < self.simplices@.len() implies #[trigger] self.level(d)
                        =~= level_or_empty(old_levels, d).union(faces_through(simplex@, 0, d)) by {}
                }
            }
            if n > 1 {
                while i < n
                    invariant
                        self.wf(),
                        n == simplex@.len(),
                        n > 1,
                        dim + 1 == n,
                        i <= n,
                        dim < self.simplices@.len(),
                        self.simplices@.len() == pad.simplices@.len(),
                        old_levels.len() <= self.simplices@.len(),
                        self.simplices@.len() == add_faces(old_levels, simplex@).len(),
                        self.extends(&start),
                        self.extends(&pad),
                        self.level_seqs() == faces_in_order(padded_seqs, simplex@, i as int),
                        forall|d: int| dim <= d < self.simplices@.len() ==> #[trigger] self.level_seq(d) == pad.level_seq(d),
                        forall|j: int| 0 <= j < i ==> self.holds_vertices(#[trigger] simplex@.remove(j)),
                        !holds_set(pad.level_seq(dim as int), simplex@),
                        cond == faces_unambiguous(old_levels, simplex@),
                        cond ==> forall|d: int| 0 <= d < self.simplices@.len() ==> #[trigger] self.level(d)
                            == level_or_empty(old_levels, d).union(faces_through(simplex@, i as int, d)),
                    decreases n - i,
                {
                    let mut face = simplex.clone();
                    assert(face@ == simplex@);
                    face.remove(i);
                    let ghost before = self.levels();
                    let ghost before_c = *self;
                    let ghost fv = face@;
                    assert(fv == simplex@.remove(i as int));
                    proof {
                        if cond {
                            assert forall|f: Seq<usize>| #[trigger] is_face(f, fv) implies is_face(f, simplex@) by {}
                            assert forall|d: int, t: Seq<usize>, f: Seq<usize>|
                                0 <= d < before.len() && #[trigger] before[d].contains(t) && #[trigger] is_face(f, fv)
                                    && same_vertex_set(t, f) implies t == f by {
                                assert(is_face(f, simplex@));
                                assert(before[d] == before_c.level(d));
                                if level_or_empty(old_levels, d).contains(t) {
                                    assert(old_levels[d].contains(t));
                                } else {
                                    let j = choose|j: int| 0 <= j < i && is_face(t, simplex@.remove(j));
                                    assert(is_face(t, simplex@));
                                }
                            }
                            assert(faces_unambiguous(before, fv));
                        }
                    }
                    self.add_simplex(face);
                    proof {
                        lemma_extends_trans(*self, before_c, start);
                        lemma_extends_trans(*self, before_c, pad);
                        assert(self.level_seqs() == faces_in_order(padded_seqs, simplex@, i + 1));
                        assert forall|j: int| 0 <= j < i + 1 implies self.holds_vertices(#[trigger] simplex@.remove(j)) by {
                            if j < i {
                                lemma_holds_extends(before_c, *self, simplex@.remove(j));
                            }
                        }
                        if cond {
                            assert forall|d: int| 0 <= d < self.simplices@.len() implies #[trigger] self.level(d)
                                == level_or_empty(old_levels, d).union(faces_through(simplex@, i + 1, d)) by {
                                assert(self.level(d) == self.levels()[d]);
                                assert(before[d] == level_or_empty(old_levels, d).union(faces_through(simplex@, i as int, d)));
                                assert forall|f: Seq<usize>| #[trigger] faces_through(simplex@, i + 1, d).contains(f)
                                    <==> faces_through(simplex@, i as int, d).contains(f)
                                        || (f.len() == d + 1 && is_face(f, simplex@.remove(i as int))) by {
                                    if faces_through(simplex@, i + 1, d).contains(f) {
                                        let j = choose|j: int| 0 <= j < i + 1 && is_face(f, simplex@.remove(j));
                                        if j < i {} else { assert(j == i); }
                                    }
                                }
                                assert(self.level(d) =~= level_or_empty(old_levels, d).union(faces_through(simplex@, i + 1, d)));
                            }
                        }
                    }
                    i = i + 1;
                }
            }
            proof {
                if n == 1 && cond {
                    assert forall|d: int| 0 <= d < self.simplices@.len() implies #[trigger] self.level(d)
                        =~= level_or_empty(old_levels, d).union(faces_through(simplex@, n as int, d)) by {
                        assert(faces_through(simplex@, n as int, d) =~= faces_through(simplex@, 0, d));
                    }
                }
            }
            let ghost before = *self;
            proof {
                assert(before.level_seqs() == faces_in_order(padded_seqs, simplex@, if n > 1 { n as int } else { 0 }));
            }
            self.simplices[dim].push(simplex);
            proof {
                let s = simplex@;
                let fs = before.level_seqs();
                assert forall|d: int| 0 <= d < self.simplices@.len() && d != dim implies #[trigger] self.level_seq(d)
                    == before.level_seq(d) by {
                    assert(self.simplices@[d] == before.simplices@[d]);
                }
                assert(self.simplices@[dim as int]@ == before.simplices@[dim as int]@.push(simplex));
                assert(self.level_seq(dim as int) =~= before.level_seq(dim as int).push(s));
                before.level_seq(dim as int).lemma_push_to_set_commute(s);
                assert(self.level(dim as int) =~= before.level(dim as int).insert(s));
                assert(self.level_seqs() =~= fs.update(dim as int, fs[dim as int].push(s))) by {
                    assert forall|d: int| 0 <= d < self.simplices@.len() implies #[trigger] self.level_seqs()[d]
                        == fs.update(dim as int, fs[dim as int].push(s))[d] by {
                        if d != dim {
                            assert(self.level_seq(d) == before.level_seq(d));
                        }
                    }
                }
                assert(!holds_set(padded_seqs[dim as int], s));
                assert(add_in_order(old_seqs, s) == fs.update(dim as int, fs[dim as int].push(s)));
                // the level of `s` had no simplex with its vertices
                assert(before.level_seq(dim as int) == pad.level_seq(dim as int));
                let ls = self.level_seq(dim as int);
                assert forall|a: int, b: int| 0 <= a < b < ls.len() implies !same_vertex_set(ls[a], ls[b]) by {
                    if b == ls.len() - 1 {
                        assert(ls[a] == pad.level_seq(dim as int)[a]);
                        if same_vertex_set(ls[a], s) {
                            assert(holds_set(pad.level_seq(dim as int), s));
                        }
                    } else {
                        assert(ls[a] == before.level_seq(dim as int)[a] && ls[b] == before.level_seq(dim as int)[b]);
                    }
                }
                assert forall|a: int, b: int| 0 <= a < b < ls.len() implies ls[a] != ls[b] by {
                    assert(!same_vertex_set(ls[a], ls[b]));
                }
                assert(ls.no_duplicates());
                assert forall|d: int| 0 <= d < self.simplices@.len() implies #[trigger] self.level_seq(d).no_duplicates() by {
                    if d != dim { assert(before.level_seq(d).no_duplicates()); }
                }
                assert forall|d: int, a: int, b: int| 0 <= d < self.simplices@.len() && 0 <= a < b < self.level_seq(d).len()
                    implies !same_vertex_set(#[trigger] self.level_seq(d)[a], #[trigger] self.level_seq(d)[b]) by {
                    if d != dim {
                        assert(self.level_seq(d) == before.level_seq(d));
                    } else {
                        assert(!same_vertex_set(ls[a], ls[b]));
                    }
                }
                assert forall|d: int, t: Seq<usize>|
                    0 <= d < self.simplices@.len() && #[trigger] self.level(d).contains(t) implies t.len() == d + 1 by {
                    if d != dim || t != s { assert(before.level(d).contains(t)); }
                }
                assert(self.extends(&before)) by {
                    assert forall|d: int, j: int| 0 <= d < before.simplices@.len() && 0 <= j < before.level_seq(d).len()
                        implies #[trigger] before.level_seq(d)[j] == self.level_seq(d)[j] by {
                        if d == dim {
                            assert(self.level_seq(d)[j] == before.level_seq(d)[j]);
                        }
                    }
                }
                lemma_extends_trans(*self, before, start);
                assert forall|d: int, t: Seq<usize>, j: int|
                    1 <= d < self.simplices@.len() && #[trigger] self.level(d).contains(t) && 0 <= j < t.len()
                        implies self.holds_vertices(#[trigger] t.remove(j)) by {
                    if d != dim || t != s {
                        assert(before.level(d).contains(t));
                        assert(before.holds_vertices(t.remove(j)));
                    } else {
                        assert(n > 1);
                        assert(before.holds_vertices(s.remove(j)));
                    }
                    lemma_holds_extends(before, *self, t.remove(j));
                }
                assert(self.wf());
                assert(self.level(dim as int).contains(s));
                s.to_multiset_ensures();
                assert(self.holds_vertices(s));
                assert forall|d: int| s.len() <= d < start.simplices@.len()
                    implies #[trigger] self.level_seq(d) == start.level_seq(d) by {
                    assert(self.level_seq(d) == before.level_seq(d));
                    assert(pad.level_seq(d) == start.level_seq(d));
                }
                if cond {
                    assert forall|j: int| n > 1 && 0 <= j < n implies before.level(dim - 1).contains(#[trigger] s.remove(j)) by {
                        assert(is_face(s.remove(j), s.remove(j)));
                        assert(faces_through(s, n as int, dim - 1).contains(s.remove(j)));
                    }
                    assert(self.simplices@.len() == add_faces(old_levels, s).len());
                    assert forall|d: int| 0 <= d < self.simplices@.len() implies #[trigger] self.levels()[d]
                        =~= add_faces(old_levels, s)[d] by {
                        assert(self.levels()[d] == self.level(d));
                        assert(add_faces(old_levels, s)[d] == level_or_empty(old_levels, d).union(
                            Set::new(|f: Seq<usize>| f.len() == d + 1 && is_face(f, s))));
                        assert(before.level(d) == level_or_empty(old_levels, d).union(faces_through(s, n as int, d)));
                        assert forall|f: Seq<usize>| f.len() == d + 1 implies (is_face(f, s) <==> (f == s || faces_through(s, n as int, d).contains(f))) by {
                            if is_face(f, s) && f != s {
                                let j = choose|j: int| 0 <= j < s.len() && is_face(f, s.remove(j));
                                assert(faces_through(s, n as int, d).contains(f));
                            }
                            if faces_through(s, n as int, d).contains(f) {
                                let j = choose|j: int| 0 <= j < n && is_face(f, s.remove(j));
                                assert(is_face(f, s));
                            }
                        }
                        if d != dim {
                            assert(self.level(d) == before.level(d));
                        }
                    }
                }
            }
        } else {
            proof {
                assert(holds_set(padded_seqs[dim as int], simplex@));
                assert forall|d: int| simplex@.len() <= d < start.simplices@.len()
                    implies #[trigger] self.level_seq(d) == start.level_seq(d) by {}
                if cond {
                    let s = simplex@;
                    let t = choose|t: Seq<usize>| #[trigger] self.level(s.len() - 1).contains(t) && same_vertex_set(t, s);
                    assert(self.level(dim as int) == level_or_empty(old_levels, dim as int));
                    assert(old_levels[dim as int].contains(t));
                    assert(is_face(s, s));
                    assert(t == s);
                    assert forall|d: int, u: Seq<usize>, f: Seq<usize>|
                        0 <= d < self.levels().len() && #[trigger] self.levels()[d].contains(u) && #[trigger] is_face(f, s)
                            && same_vertex_set(u, f) implies u == f by {
                        assert(self.levels()[d] == self.level(d));
                        assert(old_levels[d].contains(u));
                    }
                    lemma_faces_present_exact(*self, s);
                    assert forall|d: int| 0 <= d < self.simplices@.len() implies #[trigger] self.levels()[d]
                        =~= add_faces(old_levels, s)[d] by {
                        assert(self.levels()[d] == self.level(d));
                        assert forall|f: Seq<usize>| f.len() == d + 1 && is_face(f, s) implies self.level(d).contains(f) by {}
                    }
                }
            }
        }
    }
}

/// Whether the complex holds a simplex with the vertices of `s` is whether the stored
/// simplices of its dimension include one with those vertices.
pub proof fn lemma_holds_set_level(c: SimplicialComplex, s: Seq<usize>)
    requires
        1 <= s.len() <= c.simplices@.len(),
    ensures
        c.holds_vertices(s) <==> holds_set(c.level_seq(s.len() - 1), s),
{
    let ls = c.level_seq(s.len() - 1);
    if c.holds_vertices(s) {
        let t = choose|t: Seq<usize>| #[trigger] c.level(s.len() - 1).contains(t) && same_vertex_set(t, s);
        let i = choose|i: int| 0 <= i < ls.len() && ls[i] == t;
        assert(same_vertex_set(ls[i], s));
    }
    if holds_set(ls, s) {
        let i = choose|i: int| 0 <= i < ls.len() && same_vertex_set(#[trigger] ls[i], s);
        assert(c.level(s.len() - 1).contains(ls[i]));
    }
}

/// A complex keeps holding what it held when it is extended.
proof fn lemma_holds_extends(old: SimplicialComplex, new: SimplicialComplex, s: Seq<usize>)
    requires
        new.extends(&old),
        old.holds_vertices(s),
    ensures
        new.holds_vertices(s),
{
    let d = s.len() - 1;
    let t = choose|t: Seq<usize>| #[trigger] old.level(d).contains(t) && same_vertex_set(t, s);
    let i = choose|i: int| 0 <= i < old.level_seq(d).len() && old.level_seq(d)[i] == t;
    assert(new.level_seq(d)[i] == t);
    assert(new.level(d).contains(t));
}

/// When no face of a held simplex shares its vertices with a different simplex, the
/// complex holds each face exactly as listed.
proof fn lemma_faces_present_exact(c: SimplicialComplex, s: Seq<usize>)
    requires
        c.wf(),
        1 <= s.len() <= c.simplices@.len(),
        c.level(s.len() - 1).contains(s),
        forall|d: int, u: Seq<usize>, f: Seq<usize>|
            0 <= d < c.levels().len() && #[trigger] c.levels()[d].contains(u) && #[trigger] is_face(f, s)
                && same_vertex_set(u, f) ==> u == f,
    ensures
        forall|f: Seq<usize>| #[trigger] is_face(f, s) ==> c.level(f.len() - 1).contains(f),
    decreases s.len(),
{
    assert forall|f: Seq<usize>| #[trigger] is_face(f, s) implies c.level(f.len() - 1).contains(f) by {
        if f != s {
            let i = choose|i: int| 0 <= i < s.len() && is_face(f, s.remove(i));
            let r = s.remove(i);
            assert(c.holds_vertices(r));
            let u = choose|u: Seq<usize>| #[trigger] c.level(r.len() - 1).contains(u) && same_vertex_set(u, r);
            assert(is_face(r, r));
            assert(is_face(r, s));
            assert(c.levels()[r.len() - 1] == c.level(r.len() - 1));
            assert(u == r);
            assert forall|d: int, v: Seq<usize>, g: Seq<usize>|
                0 <= d < c.levels().len() && #[trigger] c.levels()[d].contains(v) && #[trigger] is_face(g, r)
                    && same_vertex_set(v, g) implies v == g by {
                assert(is_face(g, s));
            }
            lemma_faces_present_exact(c, r);
        }
    }
}

/// Every complex extends itself, and extending is transitive.
proof fn lemma_extends_trans(a: SimplicialComplex, b: SimplicialComplex, c: SimplicialComplex)
    requires
        a.extends(&b),
        b.extends(&c),
    ensures
        a.extends(&c),
{
    assert forall|d: int| 0 <= d < c.simplices@.len() implies #[trigger] c.level_seq(d).len() <= a.level_seq(d).len() by {
        assert(c.level_seq(d).len() <= b.level_seq(d).len());
    }
    assert forall|d: int, i: int| 0 <= d < c.simplices@.len() && 0 <= i < c.level_seq(d).len()
        implies #[trigger] c.level_seq(d)[i] == a.level_seq(d)[i] by {
        assert(c.level_seq(d).len() <= b.level_seq(d).len());
        assert(c.level_seq(d)[i] == b.level_seq(d)[i]);
    }
}

/// A well-formed complex that extends another and has the same vertices stores them in
/// the same order.
proof fn lemma_vertex_order_kept(old: SimplicialComplex, new: SimplicialComplex)
    requires
        old.wf(),
        new.wf(),
        new.extends(&old),
        new.level(0) == old.level(0),
    ensures
        new.level_seq(0) == old.level_seq(0),
{
    let o = old.level_seq(0);
    let n = new.level_seq(0);
    if n.len() > o.len() {
        let x = n[o.len() as int];
        assert(new.level(0).contains(x));
        assert(old.level(0).contains(x));
        let p = choose|p: int| 0 <= p < o.len() && o[p] == x;
        assert(n[p] == o[p]);
        assert(n.no_duplicates());
    }
    assert(n =~= o);
}

impl SimplicialComplex {
    /// The complex holds a simplex with the vertices of `s`, in any order.
    pub open spec fn holds_vertices(&self, s: Seq<usize>) -> bool {
        &&& 1 <= s.len() <= self.simplices@.len()
        &&& exists|t: Seq<usize>| #[trigger] self.level(s.len() - 1).contains(t) && same_vertex_set(t, s)
    }

    /// The number of stored simplices of dimension `dim`.
    pub open spec fn count_at(&self, dim: int) -> int {
        if 0 <= dim < self.simplices@.len() { self.simplices@[dim]@.len() as int } else { 0 }
    }

    /// The number of stored simplices of each dimension below `k`, summed.
    pub open spec fn count_below(&self, k: int) -> int
        decreases k,
    {
        if k <= 0 { 0 } else { self.count_below(k - 1) + self.simplices@[k - 1]@.len() }
    }

    /// The alternating sum, over the dimensions below `k`, of the number of simplices.
    pub open spec fn euler_below(&self, k: int) -> int
        decreases k,
    {
        if k <= 0 {
            0
        } else if (k - 1) % 2 == 0 {
            self.euler_below(k - 1) + self.simplices@[k - 1]@.len()
        } else {
            self.euler_below(k - 1) - self.simplices@[k - 1]@.len()
        }
    }

    /// The Euler characteristic: simplices of even dimension count one, of odd dimension minus one.
    pub open spec fn euler(&self) -> int {
        self.euler_below(self.simplices@.len() as int)
    }

    /// The alternating sum over the dimensions below `k` as 64-bit arithmetic that wraps
    /// around computes it: each count taken as an `i64`, then added or subtracted.
    pub open spec fn wrapped_euler_below(&self, k: int) -> i64
        decreases k,
    {
        if k <= 0 {
            0
        } else if (k - 1) % 2 == 0 {
            vstd::wrapping::i64_specs::wrapping_add(self.wrapped_euler_below(k - 1), self.simplices@[k - 1]@.len() as i64)
        } else {
            vstd::wrapping::i64_specs::wrapping_sub(self.wrapped_euler_below(k - 1), self.simplices@[k - 1]@.len() as i64)
        }
    }

    /// The Euler characteristic in 64-bit arithmetic that wraps around.
    pub open spec fn wrapped_euler(&self) -> i64 {
        self.wrapped_euler_below(self.simplices@.len() as int)
    }

    /// The vertices (0-simplices).
    pub fn vertices(&self) -> (r: &[Simplex])
        requires
            self.simplices@.len() >= 1,
        ensures
            r@ == self.simplices@[0]@,
    {
        self.simplices[0].as_slice()
    }

    /// The edges (1-simplices).
    pub fn edges(&self) -> (r: &[Simplex])
        ensures
            r@ == (if self.simplices@.len() > 1 { self.simplices@[1]@ } else { Seq::empty() }),
    {
        if self.simplices.len() > 1 {
            self.simplices[1].as_slice()
        } else {
            &[]
        }
    }

    /// The triangles (2-simplices).
    pub fn triangles(&self) -> (r: &[Simplex])
        ensures
            r@ == (if self.simplices@.len() > 2 { self.simplices@[2]@ } else { Seq::empty() }),
    {
        if self.simplices.len() > 2 {
            self.simplices[2].as_slice()
        } else {
            &[]
        }
    }

    /// The number of simplices of dimension `dim`.
    pub fn num_simplices(&self, dim: usize) -> (r: usize)
        ensures
            r == self.count_at(dim as int),
    {
        if dim < self.simplices.len() {
            self.simplices[dim].len()
        } else {
            0
        }
    }

    /// Whether the complex holds a simplex with the vertices of `simplex`, in any order.
    pub fn contains(&self, simplex: &[usize]) -> (r: bool)
        requires
            simplex@.len() >= 1,
        ensures
            r == self.holds_vertices(simplex@),
    {
        let dim = simplex.len() - 1;
        if dim >= self.simplices.len() {
            return false;
        }
        let level = &self.simplices[dim];
        let mut i: usize = 0;
        while i < level.len()
            invariant
                dim < self.simplices@.len(),
                dim + 1 == simplex@.len(),
                level == self.simplices@[dim as int],
                i <= level@.len(),
                forall|j: int| 0 <= j < i ==> !same_vertex_set(#[trigger] level@[j]@, simplex@),
            decreases level.len() - i,
        {
            if same_vertices(level[i].as_slice(), simplex) {
                proof {
                    assert(simplex_views(level@)[i as int] == level@[i as int]@);
                    assert(self.level(dim as int).contains(level@[i as int]@));
                    assert(same_vertex_set(level@[i as int]@, simplex@));
                    assert(simplex@.len() - 1 == dim as int);
                    assert(self.level(simplex@.len() - 1).contains(level@[i as int]@));
                    assert(self.holds_vertices(simplex@));
                }
                return true;
            }
            i = i + 1;
        }
        proof {
            if self.holds_vertices(simplex@) {
                let t = choose|t: Seq<usize>| #[trigger] self.level(dim as int).contains(t) && same_vertex_set(t, simplex@);
                let j = choose|j: int| 0 <= j < simplex_views(level@).len() && simplex_views(level@)[j] == t;
                assert(level@[j]@ == t);
            }
        }
        false
    }

    /// The Euler characteristic: the alternating sum of the numbers of simplices by
    /// dimension, in 64-bit arithmetic that wraps around (it is exact whenever the complex
    /// holds no more than `i64::MAX` simplices).
    pub fn euler_characteristic(&self) -> (r: i64)
        ensures
            self.count_below(self.simplices@.len() as int) <= i64::MAX ==> r == self.euler(),
            r == self.wrapped_euler(),
    {
        let mut acc: i64 = 0;
        let mut d: usize = 0;
        while d < self.simplices.len()
            invariant
                d <= self.simplices@.len(),
                self.count_below(d as int) <= i64::MAX ==> acc == self.euler_below(d as int),
                acc == self.wrapped_euler_below(d as int),
            decreases self.simplices.len() - d,
        {
            proof {
                self.lemma_euler_bounded(d + 1);
                self.lemma_count_monotone(d as int, d + 1);
            }
            let len = self.simplices[d].len() as i64;
            if d % 2 == 0 {
                acc = acc.wrapping_add(len);
            } else {
                acc = acc.wrapping_sub(len);
            }
            d = d + 1;
        }
        acc
    }

    proof fn lemma_euler_bounded(&self, k: int)
        ensures
            -self.count_below(k) <= self.euler_below(k) <= self.count_below(k),
            self.simplices@[k - 1]@.len() <= self.count_below(k) || k <= 0,
        decreases k,
    {
        if k > 0 {
            self.lemma_euler_bounded(k - 1);
        }
    }

    proof fn lemma_count_monotone(&self, j: int, k: int)
        requires
            j <= k,
        ensures
            self.count_below(j) <= self.count_below(k),
        decreases k - j,
    {
        if j < k {
            self.lemma_count_monotone(j, k - 1);
        }
    }
}

impl Default for SimplicialComplex {
    /// An empty complex.
    fn default() -> (c: Self)
        ensures
            c.wf(),
            c.levels() =~= seq![Set::<Seq<usize>>::empty()],
            c.level_seqs() =~= seq![Seq::<Seq<usize>>::empty()],
    {
        Self::new()
    }
}

} // verus!

verus! {

/// The rows of a matrix of distance keys.
pub open spec fn rows(dist: Seq<Vec<u64>>) -> Seq<Seq<u64>> {
    dist.map_values(|r: Vec<u64>| r@)
}

/// `dist` is a square matrix of distance keys between `dist.len()` points.
pub open spec fn is_square(dist: Seq<Vec<u64>>) -> bool {
    forall|p: int| 0 <= p < dist.len() ==> #[trigger] dist[p]@.len() == dist.len()
}

/// Every landmark is the index of one of `n` points.
pub open spec fn landmarks_within(lm: Seq<usize>, n: int) -> bool {
    forall|i: int| 0 <= i < lm.len() ==> #[trigger] lm[i] < n
}

/// Seen from a point whose distance keys are `row`, landmark position `a` comes before
/// position `b`: it is nearer, or as near and earlier in the landmark list.
pub open spec fn precedes(row: Seq<u64>, lm: Seq<usize>, a: int, b: int) -> bool {
    row[lm[a] as int] < row[lm[b] as int] || (row[lm[a] as int] == row[lm[b] as int] && a < b)
}

/// How many of the landmark positions below `m` come before position `j`.
pub open spec fn rank_among(row: Seq<u64>, lm: Seq<usize>, j: int, m: int) -> int
    decreases m,
{
    if m <= 0 {
        0
    } else {
        rank_among(row, lm, j, m - 1) + if precedes(row, lm, m - 1, j) { 1int } else { 0int }
    }
}

/// Landmark position `j` is among the `kk` nearest landmarks of the point with keys `row`,
/// ties going to the earlier landmark.
pub open spec fn is_near(row: Seq<u64>, lm: Seq<usize>, kk: int, j: int) -> bool {
    0 <= j < lm.len() && rank_among(row, lm, j, lm.len() as int) < kk
}

/// The edge between two vertices, smaller vertex first.
pub open spec fn ordered_pair(x: usize, y: usize) -> Seq<usize> {
    if x <= y { seq![x, y] } else { seq![y, x] }
}

/// The triangle on three vertices, in increasing order.
pub open spec fn ordered_triple(x: usize, y: usize, z: usize) -> Seq<usize> {
    if x <= y {
        if y <= z { seq![x, y, z] } else if x <= z { seq![x, z, y] } else { seq![z, x, y] }
    } else {
        if x <= z { seq![y, x, z] } else if y <= z { seq![y, z, x] } else { seq![z, y, x] }
    }
}

/// `s` is an edge between two of the `kk` nearest landmarks of the point with keys `row`.
pub open spec fn witnessed_by_row(row: Seq<u64>, lm: Seq<usize>, kk: int, s: Seq<usize>) -> bool {
    exists|a: int, b: int|
        0 <= a < b < lm.len() && #[trigger] is_near(row, lm, kk, a) && #[trigger] is_near(row, lm, kk, b)
            && s == ordered_pair(lm[a], lm[b])
}

/// Some point witnesses the edge `s` among its `kk` nearest landmarks.
pub open spec fn edge_witnessed(dist: Seq<Seq<u64>>, lm: Seq<usize>, kk: int, s: Seq<usize>) -> bool {
    exists|p: int| 0 <= p < dist.len() && #[trigger] witnessed_by_row(dist[p], lm, kk, s)
}

/// `s` is the triangle on the landmarks at positions `a < b < c`, all three of whose edges
/// are witnessed.
pub open spec fn witnessed_triangle(dist: Seq<Seq<u64>>, lm: Seq<usize>, kk: int, s: Seq<usize>, a: int, b: int, c: int) -> bool {
    &&& 0 <= a < b < c < lm.len()
    &&& edge_witnessed(dist, lm, kk, ordered_pair(lm[a], lm[b]))
    &&& edge_witnessed(dist, lm, kk, ordered_pair(lm[a], lm[c]))
    &&& edge_witnessed(dist, lm, kk, ordered_pair(lm[b], lm[c]))
    &&& s == ordered_triple(lm[a], lm[b], lm[c])
}

/// The simplices that generate the witness complex: one vertex per landmark, the edges
/// that some point witnesses among its `min(k, #landmarks)` nearest landmarks, and the
/// triangles all of whose edges are witnessed.
pub open spec fn witness_generators(dist: Seq<Seq<u64>>, lm: Seq<usize>, k: int) -> Set<Seq<usize>> {
    let kk = if k <= lm.len() { k } else { lm.len() as int };
    Set::new(
        |s: Seq<usize>|
            (exists|i: int| 0 <= i < lm.len() && s == seq![lm[i]])
                || (exists|p: int| 0 <= p < dist.len() && #[trigger] witnessed_by_row(dist[p], lm, kk, s))
                || (exists|a: int, b: int, c: int| #[trigger] witnessed_triangle(dist, lm, kk, s, a, b, c)),
    )
}

/// `s` is the edge between the landmarks at positions `near[a]` and `near[b]`, `a < b`.
pub open spec fn near_edge(lm: Seq<usize>, near: Seq<usize>, s: Seq<usize>, a: int, b: int) -> bool {
    0 <= a < b < near.len() && s == ordered_pair(lm[near[a] as int], lm[near[b] as int])
}

/// The edges among the landmarks listed in `near`.
pub open spec fn near_simplices(lm: Seq<usize>, near: Seq<usize>) -> Set<Seq<usize>> {
    Set::new(|s: Seq<usize>| exists|a: int, b: int| #[trigger] near_edge(lm, near, s, a, b))
}

/// The positions among the first `j` landmarks that are near the point with keys `row`,
/// in increasing order.
pub open spec fn near_positions(row: Seq<u64>, lm: Seq<usize>, kk: int, j: int) -> Seq<usize>
    decreases j,
{
    if j <= 0 {
        Seq::empty()
    } else if is_near(row, lm, kk, j - 1) {
        near_positions(row, lm, kk, j - 1).push((j - 1) as usize)
    } else {
        near_positions(row, lm, kk, j - 1)
    }
}

/// The stored simplices after offering, in lexicographic order, the edge between the
/// landmarks at `near[x]` and `near[y]` for each `x < y` that comes before `(a, b)`.
pub open spec fn offer_near_edges(levels: Seq<Seq<Seq<usize>>>, lm: Seq<usize>, near: Seq<usize>, a: int, b: int)
    -> Seq<Seq<Seq<usize>>>
    decreases a, b,
{
    if a < 0 || b < 0 {
        levels
    } else if b > a + 1 {
        add_in_order(offer_near_edges(levels, lm, near, a, b - 1), ordered_pair(lm[near[a] as int], lm[near[b - 1] as int]))
    } else if a > 0 {
        offer_near_edges(levels, lm, near, a - 1, near.len() as int)
    } else {
        levels
    }
}

/// The stored simplices after offering, point by point, the edges that the first `p`
/// points witness among their `kk` nearest landmarks.
pub open spec fn offer_points(levels: Seq<Seq<Seq<usize>>>, dist: Seq<Seq<u64>>, lm: Seq<usize>, kk: int, p: int)
    -> Seq<Seq<Seq<usize>>>
    decreases p,
{
    if p <= 0 || p > dist.len() {
        levels
    } else {
        let near = near_positions(dist[p - 1], lm, kk, lm.len() as int);
        offer_near_edges(offer_points(levels, dist, lm, kk, p - 1), lm, near, near.len() as int, near.len() + 1int)
    }
}

/// The stored edges hold the three edges of the triangle on `x`, `y`, `z`.
pub open spec fn edges_held(levels: Seq<Seq<Seq<usize>>>, x: usize, y: usize, z: usize) -> bool {
    &&& levels.len() > 1
    &&& holds_set(levels[1], ordered_pair(x, y))
    &&& holds_set(levels[1], ordered_pair(x, z))
    &&& holds_set(levels[1], ordered_pair(y, z))
}

/// The stored simplices after offering, in lexicographic order, the triangle at landmark
/// positions `(x, y, z)`, `x < y < z`, for each that comes before `(a, b, c)`: it is added
/// when the simplices stored at that point hold its three edges.
pub open spec fn offer_held_triangles(levels: Seq<Seq<Seq<usize>>>, lm: Seq<usize>, a: int, b: int, c: int)
    -> Seq<Seq<Seq<usize>>>
    decreases a, b, c,
{
    if a < 0 || b < 0 || c < 0 {
        levels
    } else if c > b + 1 {
        let prev = offer_held_triangles(levels, lm, a, b, c - 1);
        if edges_held(prev, lm[a], lm[b], lm[c - 1]) {
            add_in_order(prev, ordered_triple(lm[a], lm[b], lm[c - 1]))
        } else {
            prev
        }
    } else if b > a + 1 {
        offer_held_triangles(levels, lm, a, b - 1, lm.len() as int)
    } else if a > 0 {
        offer_held_triangles(levels, lm, a - 1, lm.len() as int, lm.len() + 1int)
    } else {
        levels
    }
}

/// The stored simplices of the witness complex, dimension by dimension and in stored
/// order: the landmarks as vertices; then, point by point, the edges among its
/// `min(k, landmarks)` nearest landmarks (by increasing positions); then each triangle
/// whose three edges are held, in lexicographic order of landmark positions.
pub open spec fn witness_in_order(dist: Seq<Seq<u64>>, lm: Seq<usize>, k: int) -> Seq<Seq<Seq<usize>>> {
    let n = lm.len() as int;
    let kk = if k <= n { k } else { n };
    let v = offer_vertices(seq![Seq::<Seq<usize>>::empty()], lm, n);
    let e = offer_points(v, dist, lm, kk, dist.len() as int);
    offer_held_triangles(e, lm, n, n + 1, n + 2)
}

/// The order `<=` on vertices, as a relation.
pub open spec fn vertex_order() -> spec_fn(usize, usize) -> bool {
    |a: usize, b: usize| vertex_le(a, b)
}

/// `<=` is a total order on vertices.
proof fn lemma_vertex_order_total()
    ensures
        total_ordering(vertex_order()),
{
    lemma_vertex_le_total();
    assert(vertex_order() =~= (|a: usize, b: usize| vertex_le(a, b)));
}

/// Edges and triangles listed smaller vertex first are sorted.
proof fn lemma_ordered_sorted(x: usize, y: usize, z: usize)
    ensures
        sorted_by(seq![x], vertex_order()),
        sorted_by(ordered_pair(x, y), vertex_order()),
        sorted_by(ordered_triple(x, y, z), vertex_order()),
{
}

/// A face of a simplex sorted by `leq` is sorted by it.
pub proof fn lemma_face_sorted(f: Seq<usize>, g: Seq<usize>, leq: spec_fn(usize, usize) -> bool)
    requires
        is_face(f, g),
        sorted_by(g, leq),
    ensures
        sorted_by(f, leq),
    decreases g.len(),
{
    if f != g {
        let i = choose|i: int| 0 <= i < g.len() && is_face(f, g.remove(i));
        let h = g.remove(i);
        assert forall|x: int, y: int| 0 <= x < y < h.len() implies #[trigger] leq(h[x], h[y]) by {
            let gx = if x < i { x } else { x + 1 };
            let gy = if y < i { y } else { y + 1 };
            assert(h[x] == g[gx] && h[y] == g[gy]);
        }
        lemma_face_sorted(f, h, leq);
    }
}

/// When a simplex and the generators of a complex are all sorted by one total order, no
/// face of the simplex shares its vertices with a different face or stored simplex.
pub proof fn lemma_sorted_unambiguous(
    levels: Seq<Set<Seq<usize>>>,
    gens: Set<Seq<usize>>,
    s: Seq<usize>,
    leq: spec_fn(usize, usize) -> bool,
)
    requires
        total_ordering(leq),
        generated_by(levels, gens),
        forall|g: Seq<usize>| #[trigger] gens.contains(g) ==> sorted_by(g, leq),
        sorted_by(s, leq),
    ensures
        faces_unambiguous(levels, s),
{
    assert forall|f: Seq<usize>, g: Seq<usize>| #[trigger] is_face(f, s) && #[trigger] is_face(g, s) && same_vertex_set(f, g)
        implies f == g by {
        lemma_face_sorted(f, s, leq);
        lemma_face_sorted(g, s, leq);
        lemma_sorted_unique(f, g, leq);
    }
    assert forall|d: int, t: Seq<usize>, f: Seq<usize>|
        0 <= d < levels.len() && #[trigger] levels[d].contains(t) && #[trigger] is_face(f, s) && same_vertex_set(t, f)
        implies t == f by {
        let g = choose|g: Seq<usize>| #[trigger] gens.contains(g) && is_face(t, g);
        lemma_face_sorted(t, g, leq);
        lemma_face_sorted(f, s, leq);
        lemma_sorted_unique(t, f, leq);
    }
}

/// Add a simplex to a complex generated by `gens`, all sorted.
fn add_generator(complex: &mut SimplicialComplex, s: Simplex, Ghost(gens): Ghost<Set<Seq<usize>>>)
    requires
        old(complex).wf(),
        generated_by(old(complex).levels(), gens),
        forall|g: Seq<usize>| #[trigger] gens.contains(g) ==> sorted_by(g, vertex_order()),
        sorted_by(s@, vertex_order()),
        s@.len() >= 1,
    ensures
        final(complex).wf(),
        generated_by(final(complex).levels(), gens.insert(s@)),
        forall|g: Seq<usize>| #[trigger] gens.insert(s@).contains(g) ==> sorted_by(g, vertex_order()),
        final(complex).level_seqs() == add_in_order(old(complex).level_seqs(), s@),
        final(complex).extends(old(complex)),
{
    let ghost before = complex.levels();
    let ghost sv = s@;
    proof {
        lemma_vertex_order_total();
        lemma_sorted_unambiguous(before, gens, sv, vertex_order());
    }
    complex.add_simplex(s);
    proof {
        lemma_generated_add(before, gens, sv);
    }
}

/// The edge between two vertices, smaller vertex first.
fn make_pair(x: usize, y: usize) -> (r: Simplex)
    ensures
        r@ == ordered_pair(x, y),
{
    if x <= y { vec![x, y] } else { vec![y, x] }
}

/// The triangle on three vertices, in increasing order.
fn make_triple(x: usize, y: usize, z: usize) -> (r: Simplex)
    ensures
        r@ == ordered_triple(x, y, z),
{
    if x <= y {
        if y <= z { vec![x, y, z] } else if x <= z { vec![x, z, y] } else { vec![z, x, y] }
    } else {
        if x <= z { vec![y, x, z] } else if y <= z { vec![y, z, x] } else { vec![z, y, x] }
    }
}

/// Add the edges among the landmarks at the positions `near`.
fn add_near_simplices(
    complex: &mut SimplicialComplex,
    landmarks: &[usize],
    near: &Vec<usize>,
    Ghost(gens): Ghost<Set<Seq<usize>>>,
)
    requires
        old(complex).wf(),
        generated_by(old(complex).levels(), gens),
        forall|g: Seq<usize>| #[trigger] gens.contains(g) ==> sorted_by(g, vertex_order()),
        forall|a: int| 0 <= a < near@.len() ==> #[trigger] near@[a] < landmarks@.len(),
    ensures
        final(complex).wf(),
        generated_by(final(complex).levels(), gens.union(near_simplices(landmarks@, near@))),
        final(complex).extends(old(complex)),
        final(complex).level_seqs() == offer_near_edges(old(complex).level_seqs(), landmarks@, near@,
            near@.len() as int, near@.len() + 1int),
{
    let ghost start = *complex;
    let lm = landmarks;
    let n = near.len();
    let ghost mut cur = gens;
    let mut a: usize = 0;
    while a < n
        invariant
            n == near@.len(),
            a <= n,
            forall|x: int| 0 <= x < near@.len() ==> #[trigger] near@[x] < lm@.len(),
            complex.wf(),
            generated_by(complex.levels(), cur),
            forall|g: Seq<usize>| #[trigger] cur.contains(g) ==> sorted_by(g, vertex_order()),
            complex.extends(&start),
            cur == gens.union(Set::new(|s: Seq<usize>| exists|x: int, y: int| #[trigger] near_edge(lm@, near@, s, x, y) && x < a)),
            complex.level_seqs() == offer_near_edges(start.level_seqs(), lm@, near@, a as int, a + 1int),
        decreases n - a,
    {
        let mut b: usize = a + 1;
        while b < n
            invariant
                n == near@.len(),
                a < n,
                a + 1 <= b <= n,
                forall|x: int| 0 <= x < near@.len() ==> #[trigger] near@[x] < lm@.len(),
                complex.wf(),
                generated_by(complex.levels(), cur),
                forall|g: Seq<usize>| #[trigger] cur.contains(g) ==> sorted_by(g, vertex_order()),
                complex.extends(&start),
                cur == gens.union(Set::new(|s: Seq<usize>| exists|x: int, y: int| #[trigger] near_edge(lm@, near@, s, x, y)
                    && (x < a || (x == a && y < b)))),
                complex.level_seqs() == offer_near_edges(start.level_seqs(), lm@, near@, a as int, b as int),
            decreases n - b,
        {
            let e = make_pair(lm[near[a]], lm[near[b]]);
            proof { lemma_ordered_sorted(lm@[near@[a as int] as int], lm@[near@[b as int] as int], 0); }
            let ghost ev = e@;
            let ghost before_c = *complex;
            add_generator(complex, e, Ghost(cur));
            assert(complex.level_seqs() == offer_near_edges(start.level_seqs(), lm@, near@, a as int, b + 1));
            proof {
                lemma_extends_trans(*complex, before_c, start);
                let old_cur = cur;
                cur = cur.insert(ev);
                assert(near_edge(lm@, near@, ev, a as int, b as int));
                assert(cur =~= gens.union(Set::new(|s: Seq<usize>| exists|x: int, y: int| #[trigger] near_edge(lm@, near@, s, x, y)
                    && (x < a || (x == a && y < b + 1))))) by {
                    assert forall|s: Seq<usize>| (exists|x: int, y: int| #[trigger] near_edge(lm@, near@, s, x, y)
                        && (x < a || (x == a && y < b + 1))) implies #[trigger] old_cur.insert(ev).contains(s) by {
                        let (x, y) = choose|x: int, y: int| #[trigger] near_edge(lm@, near@, s, x, y)
                            && (x < a || (x == a && y < b + 1));
                        if x == a && y == b { } else {
                            assert(old_cur.contains(s));
                        }
                    }
                }
            }
            b = b + 1;
        }
        assert(offer_near_edges(start.level_seqs(), lm@, near@, a + 1, a + 2)
            == offer_near_edges(start.level_seqs(), lm@, near@, a as int, n as int));
        proof {
            assert(cur =~= gens.union(Set::new(|s: Seq<usize>| exists|x: int, y: int| #[trigger] near_edge(lm@, near@, s, x, y) && x < a + 1))) by {
                assert forall|s: Seq<usize>| (exists|x: int, y: int| #[trigger] near_edge(lm@, near@, s, x, y) && x < a + 1)
                    implies #[trigger] cur.contains(s) by {
                    let (x, y) = choose|x: int, y: int| #[trigger] near_edge(lm@, near@, s, x, y) && x < a + 1;
                    assert(x < a || (x == a && y < n));
                }
                assert forall|s: Seq<usize>| #[trigger] cur.contains(s) && !gens.contains(s)
                    implies (exists|x: int, y: int| #[trigger] near_edge(lm@, near@, s, x, y) && x < a + 1) by {
                    let (x, y) = choose|x: int, y: int| #[trigger] near_edge(lm@, near@, s, x, y)
                        && (x < a || (x == a && y < n));
                }
            }
        }
        a = a + 1;
    }
    let ghost edges = Set::new(|s: Seq<usize>| exists|x: int, y: int| #[trigger] near_edge(lm@, near@, s, x, y));
    proof {
        assert(cur =~= gens.union(edges)) by {
            assert forall|s: Seq<usize>| #[trigger] edges.contains(s) implies cur.contains(s) by {
                let (x, y) = choose|x: int, y: int| #[trigger] near_edge(lm@, near@, s, x, y);
            }
        }
    }
    proof {
        assert(cur =~= gens.union(near_simplices(lm@, near@)));
    }
}

/// The positions of the `kk` nearest landmarks of the point with keys `row`, in landmark order.
fn nearest_landmarks(row: &Vec<u64>, landmarks: &[usize], kk: usize) -> (near: Vec<usize>)
    requires
        landmarks_within(landmarks@, row@.len() as int),
    ensures
        forall|a: int, b: int| 0 <= a < b < near@.len() ==> near@[a] < near@[b],
        forall|a: int| 0 <= a < near@.len() ==> #[trigger] near@[a] < landmarks@.len(),
        forall|j: usize| #[trigger] near@.contains(j) ==> is_near(row@, landmarks@, kk as int, j as int),
        forall|j: usize| #[trigger] is_near(row@, landmarks@, kk as int, j as int) ==> near@.contains(j),
        near@ == near_positions(row@, landmarks@, kk as int, landmarks@.len() as int),
{
    let mut near: Vec<usize> = Vec::new();
    let mut j: usize = 0;
    while j < landmarks.len()
        invariant
            j <= landmarks@.len(),
            landmarks_within(landmarks@, row@.len() as int),
            forall|a: int, b: int| 0 <= a < b < near@.len() ==> near@[a] < near@[b],
            forall|a: int| 0 <= a < near@.len() ==> #[trigger] near@[a] < j,
            forall|i: usize| #[trigger] near@.contains(i) ==> is_near(row@, landmarks@, kk as int, i as int),
            forall|i: usize| i < j && #[trigger] is_near(row@, landmarks@, kk as int, i as int) ==> near@.contains(i),
            near@ == near_positions(row@, landmarks@, kk as int, j as int),
        decreases landmarks.len() - j,
    {
        let key = row[landmarks[j]];
        let mut rank: usize = 0;
        let mut m: usize = 0;
        while m < landmarks.len()
            invariant
                j < landmarks@.len(),
                m <= landmarks@.len(),
                landmarks_within(landmarks@, row@.len() as int),
                key == row@[landmarks@[j as int] as int],
                rank == rank_among(row@, landmarks@, j as int, m as int),
                rank <= m,
            decreases landmarks.len() - m,
        {
            let other = row[landmarks[m]];
            if other < key || (other == key && m < j) {
                rank = rank + 1;
            }
            m = m + 1;
        }
        let ghost before = near@;
        assert(rank == rank_among(row@, landmarks@, j as int, landmarks@.len() as int));
        if rank < kk {
            near.push(j);
            proof {
                assert forall|i: usize| #[trigger] near@.contains(i) implies is_near(row@, landmarks@, kk as int, i as int) by {
                    if i != j {
                        let x = choose|x: int| 0 <= x < near@.len() && near@[x] == i;
                        assert(x < before.len());
                        assert(before[x] == i);
                        assert(before.contains(i));
                    }
                }
                assert forall|i: usize| i < j + 1 && #[trigger] is_near(row@, landmarks@, kk as int, i as int) implies near@.contains(i) by {
                    if i < j {
                        let x = choose|x: int| 0 <= x < before.len() && before[x] == i;
                        assert(near@[x] == i);
                    } else {
                        assert(near@[near@.len() - 1] == j);
                    }
                }
            }
        } else {
            proof {
                assert forall|i: usize| i < j + 1 && #[trigger] is_near(row@, landmarks@, kk as int, i as int) implies near@.contains(i) by {
                    if i == j {
                        assert(!is_near(row@, landmarks@, kk as int, i as int));
                    }
                }
            }
        }
        j = j + 1;
    }
    near
}

} // verus!

verus! {

/// The edges among the listed nearest landmarks are exactly those the point witnesses.
proof fn lemma_near_simplices_witnessed(row: Seq<u64>, lm: Seq<usize>, kk: int, near: Seq<usize>)
    requires
        lm.len() <= usize::MAX,
        forall|a: int, b: int| 0 <= a < b < near.len() ==> near[a] < near[b],
        forall|a: int| 0 <= a < near.len() ==> #[trigger] near[a] < lm.len(),
        forall|j: usize| #[trigger] near.contains(j) ==> is_near(row, lm, kk, j as int),
        forall|j: usize| #[trigger] is_near(row, lm, kk, j as int) ==> near.contains(j),
    ensures
        near_simplices(lm, near) =~= Set::new(|s: Seq<usize>| witnessed_by_row(row, lm, kk, s)),
{
    assert forall|s: Seq<usize>| #[trigger] near_simplices(lm, near).contains(s)
        implies witnessed_by_row(row, lm, kk, s) by {
        let (x, y) = choose|x: int, y: int| #[trigger] near_edge(lm, near, s, x, y);
        let a = near[x] as int;
        let b = near[y] as int;
        assert(near.contains(near[x]));
        assert(near.contains(near[y]));
        assert(is_near(row, lm, kk, a) && is_near(row, lm, kk, b));
    }
    assert forall|s: Seq<usize>| witnessed_by_row(row, lm, kk, s)
        implies #[trigger] near_simplices(lm, near).contains(s) by {
        let (a, b) = choose|a: int, b: int|
            0 <= a < b < lm.len() && #[trigger] is_near(row, lm, kk, a) && #[trigger] is_near(row, lm, kk, b)
                && s == ordered_pair(lm[a], lm[b]);
        assert(is_near(row, lm, kk, (a as usize) as int));
        assert(is_near(row, lm, kk, (b as usize) as int));
        assert(near.contains(a as usize));
        assert(near.contains(b as usize));
        let x = choose|x: int| 0 <= x < near.len() && near[x] == a as usize;
        let y = choose|y: int| 0 <= y < near.len() && near[y] == b as usize;
        if y <= x {
            if y < x { assert(near[y] < near[x]); }
        }
        assert(near_edge(lm, near, s, x, y));
    }
}

/// Two increasing two-vertex simplices on the same vertices are equal.
proof fn lemma_ordered_pairs_equal(u: usize, v: usize, x: usize, y: usize)
    requires
        same_vertex_set(ordered_pair(u, v), ordered_pair(x, y)),
    ensures
        ordered_pair(u, v) == ordered_pair(x, y),
{
    lemma_vertex_le_total();
    let leq = |a: usize, b: usize| vertex_le(a, b);
    assert(sorted_by(ordered_pair(u, v), leq));
    assert(sorted_by(ordered_pair(x, y), leq));
    lemma_sorted_unique(ordered_pair(u, v), ordered_pair(x, y), leq);
}

/// The two-vertex faces of a triangle are the edges between its vertices.
proof fn lemma_triple_edge_faces(x: usize, y: usize, z: usize, f: Seq<usize>)
    requires
        is_face(f, ordered_triple(x, y, z)),
        f.len() == 2,
    ensures
        f == ordered_pair(x, y) || f == ordered_pair(x, z) || f == ordered_pair(y, z),
{
    let t = ordered_triple(x, y, z);
    assert(f != t);
    let i = choose|i: int| 0 <= i < t.len() && is_face(f, t.remove(i));
    lemma_face_len(f, t.remove(i));
    assert(f == t.remove(i));
    assert(t.remove(0) =~= seq![t[1], t[2]]);
    assert(t.remove(1) =~= seq![t[0], t[2]]);
    assert(t.remove(2) =~= seq![t[0], t[1]]);
}

/// While the complex holds the vertices and all witnessed edges, and only witness
/// generators, it holds an edge between `x` and `y` exactly when that edge is witnessed.
proof fn lemma_edge_held(
    c: SimplicialComplex,
    gens: Set<Seq<usize>>,
    dist: Seq<Seq<u64>>,
    lm: Seq<usize>,
    kk: int,
    x: usize,
    y: usize,
)
    requires
        c.wf(),
        generated_by(c.levels(), gens),
        forall|g: Seq<usize>| #[trigger] gens.contains(g) ==> (exists|i: int| 0 <= i < lm.len() && g == seq![lm[i]])
            || edge_witnessed(dist, lm, kk, g)
            || exists|a: int, b: int, cc: int| #[trigger] witnessed_triangle(dist, lm, kk, g, a, b, cc),
        forall|g: Seq<usize>| edge_witnessed(dist, lm, kk, g) ==> #[trigger] gens.contains(g),
    ensures
        c.holds_vertices(ordered_pair(x, y)) <==> edge_witnessed(dist, lm, kk, ordered_pair(x, y)),
{
    let op = ordered_pair(x, y);
    if c.holds_vertices(op) {
        let t = choose|t: Seq<usize>| #[trigger] c.level(op.len() - 1).contains(t) && same_vertex_set(t, op);
        assert(c.levels()[1] == c.level(1));
        assert(c.levels()[1].contains(t));
        let g = choose|g: Seq<usize>| #[trigger] gens.contains(g) && is_face(t, g);
        lemma_face_len(t, g);
        if exists|i: int| 0 <= i < lm.len() && g == seq![lm[i]] {
            assert(false);
        } else if edge_witnessed(dist, lm, kk, g) {
            assert(t == g);
            let p = choose|p: int| 0 <= p < dist.len() && #[trigger] witnessed_by_row(dist[p], lm, kk, g);
            let (a, b) = choose|a: int, b: int|
                0 <= a < b < lm.len() && #[trigger] is_near(dist[p], lm, kk, a) && #[trigger] is_near(dist[p], lm, kk, b)
                    && g == ordered_pair(lm[a], lm[b]);
            lemma_ordered_pairs_equal(lm[a], lm[b], x, y);
        } else {
            let (a, b, cc) = choose|a: int, b: int, cc: int| #[trigger] witnessed_triangle(dist, lm, kk, g, a, b, cc);
            lemma_triple_edge_faces(lm[a], lm[b], lm[cc], t);
            if t == ordered_pair(lm[a], lm[b]) {
                lemma_ordered_pairs_equal(lm[a], lm[b], x, y);
            } else if t == ordered_pair(lm[a], lm[cc]) {
                lemma_ordered_pairs_equal(lm[a], lm[cc], x, y);
            } else {
                lemma_ordered_pairs_equal(lm[b], lm[cc], x, y);
            }
        }
    }
    if edge_witnessed(dist, lm, kk, op) {
        assert(gens.contains(op));
        assert(is_face(op, op));
        assert(c.levels()[1] == c.level(1));
        assert(c.levels()[1].contains(op));
        assert(c.level(op.len() - 1).contains(op));
    }
}

/// Build a witness complex: a vertex for each landmark, an edge between two landmarks
/// that are both among the `k` nearest landmarks of some point (ties in distance go to the
/// landmark listed first), and a triangle on three landmarks all of whose edges are witnessed.
/// `dist` holds the distance keys between the points. The vertices are stored in landmark
/// order, the edges in the order in which the points witness them, and the triangles in
/// the order of their landmark positions.
pub fn build_witness_complex(dist: &[Vec<u64>], landmarks: &[usize], k: usize) -> (complex: SimplicialComplex)
    requires
        is_square(dist@),
        landmarks_within(landmarks@, dist@.len() as int),
    ensures
        complex.wf(),
        generated_by(complex.levels(), witness_generators(rows(dist@), landmarks@, k as int)),
        complex.level_seq(0) == offer_vertices(seq![Seq::<Seq<usize>>::empty()], landmarks@, landmarks@.len() as int)[0],
        complex.level_seqs() == witness_in_order(rows(dist@), landmarks@, k as int),
{
    let mut complex = SimplicialComplex::new();
    let ghost init = complex.level_seqs();
    let ghost mut cur = Set::<Seq<usize>>::empty();
    proof {
        assert(complex.levels()[0] =~= Set::new(
            |f: Seq<usize>| f.len() == 0 + 1 && exists|g: Seq<usize>| #[trigger] cur.contains(g) && is_face(f, g)));
    }
    let n_lm = landmarks.len();
    let mut i: usize = 0;
    while i < n_lm
        invariant
            n_lm == landmarks@.len(),
            i <= n_lm,
            complex.wf(),
            generated_by(complex.levels(), cur),
            forall|g: Seq<usize>| #[trigger] cur.contains(g) ==> sorted_by(g, vertex_order()),
            cur == Set::new(|s: Seq<usize>| exists|x: int| 0 <= x < i && s == seq![landmarks@[x]]),
            init == seq![Seq::<Seq<usize>>::empty()],
            complex.level_seqs() == offer_vertices(init, landmarks@, i as int),
        decreases n_lm - i,
    {
        let v = vec![landmarks[i]];
        let ghost vv = v@;
        proof { lemma_ordered_sorted(landmarks@[i as int], 0, 0); assert(vv == seq![landmarks@[i as int]]); }
        add_generator(&mut complex, v, Ghost(cur));
        proof {
            assert(vv == seq![landmarks@[i as int]]);
            assert(complex.level_seqs() == offer_vertices(init, landmarks@, i + 1));
            let old_cur = cur;
            cur = cur.insert(vv);
            assert(cur =~= Set::new(|s: Seq<usize>| exists|x: int| 0 <= x < i + 1 && s == seq![landmarks@[x]])) by {
                assert forall|s: Seq<usize>| (exists|x: int| 0 <= x < i + 1 && s == seq![landmarks@[x]])
                    implies #[trigger] old_cur.insert(vv).contains(s) by {
                    let x = choose|x: int| 0 <= x < i + 1 && s == seq![landmarks@[x]];
                    if x < i { assert(old_cur.contains(s)); }
                }
            }
        }
        i = i + 1;
    }
    let kk = if k <= n_lm { k } else { n_lm };
    let ghost verts = cur;
    let ghost after_v = complex;
    let ghost vseq = complex.level_seqs();
    proof {
        assert(after_v.level_seq(0) == after_v.level_seqs()[0]);
        assert(after_v.levels()[0] == after_v.level(0));
        assert(after_v.level(0) =~= verts) by {
            assert forall|f: Seq<usize>| #[trigger] after_v.level(0).contains(f) implies verts.contains(f) by {
                assert(after_v.levels()[0].contains(f));
                let g = choose|g: Seq<usize>| #[trigger] verts.contains(g) && is_face(f, g);
                lemma_face_len(f, g);
            }
            assert forall|f: Seq<usize>| #[trigger] verts.contains(f) implies after_v.level(0).contains(f) by {
                assert(is_face(f, f));
                assert(after_v.levels()[0].contains(f));
            }
        }
    }
    let n = dist.len();
    let mut p: usize = 0;
    while p < n
        invariant
            n == dist@.len(),
            p <= n,
            n_lm == landmarks@.len(),
            kk as int == (if k <= landmarks@.len() { k as int } else { landmarks@.len() as int }),
            is_square(dist@),
            landmarks_within(landmarks@, dist@.len() as int),
            complex.wf(),
            generated_by(complex.levels(), cur),
            forall|g: Seq<usize>| #[trigger] cur.contains(g) ==> sorted_by(g, vertex_order()),
            verts == Set::new(|s: Seq<usize>| exists|x: int| 0 <= x < landmarks@.len() && s == seq![landmarks@[x]]),
            cur == verts.union(Set::new(|s: Seq<usize>| exists|q: int| 0 <= q < p
                && #[trigger] witnessed_by_row(rows(dist@)[q], landmarks@, kk as int, s))),
            complex.extends(&after_v),
            vseq == offer_vertices(seq![Seq::<Seq<usize>>::empty()], landmarks@, landmarks@.len() as int),
            complex.level_seqs() == offer_points(vseq, rows(dist@), landmarks@, kk as int, p as int),
        decreases n - p,
    {
        let row = &dist[p];
        assert(row@.len() == n);
        let near = nearest_landmarks(row, landmarks, kk);
        let ghost before_c = complex;
        add_near_simplices(&mut complex, landmarks, &near, Ghost(cur));
        assert(rows(dist@)[p as int] == row@);
        assert(complex.level_seqs() == offer_points(vseq, rows(dist@), landmarks@, kk as int, p + 1));
        proof {
            lemma_extends_trans(complex, before_c, after_v);
            lemma_near_simplices_witnessed(row@, landmarks@, kk as int, near@);
            assert(rows(dist@)[p as int] == row@);
            let old_cur = cur;
            cur = cur.union(near_simplices(landmarks@, near@));
            assert(cur =~= verts.union(Set::new(|s: Seq<usize>| exists|q: int| 0 <= q < p + 1
                && #[trigger] witnessed_by_row(rows(dist@)[q], landmarks@, kk as int, s)))) by {
                assert forall|s: Seq<usize>| (exists|q: int| 0 <= q < p + 1
                    && #[trigger] witnessed_by_row(rows(dist@)[q], landmarks@, kk as int, s))
                    implies #[trigger] cur.contains(s) by {
                    let q = choose|q: int| 0 <= q < p + 1 && #[trigger] witnessed_by_row(rows(dist@)[q], landmarks@, kk as int, s);
                    if q < p {
                        assert(old_cur.contains(s));
                    } else {
                        assert(Set::new(|s: Seq<usize>| witnessed_by_row(row@, landmarks@, kk as int, s)).contains(s));
                    }
                }
                assert forall|s: Seq<usize>| #[trigger] cur.contains(s) && !old_cur.contains(s)
                    implies witnessed_by_row(rows(dist@)[p as int], landmarks@, kk as int, s) by {
                    assert(near_simplices(landmarks@, near@).contains(s));
                    assert(Set::new(|s: Seq<usize>| witnessed_by_row(row@, landmarks@, kk as int, s)).contains(s));
                }
            }
        }
        p = p + 1;
    }
    let ghost dv = rows(dist@);
    let ghost lm = landmarks@;
    let ghost edges = Set::new(|s: Seq<usize>| edge_witnessed(dv, lm, kk as int, s));
    let ghost gen_e = verts.union(edges);
    proof {
        assert(cur =~= gen_e);
    }
    let ghost eseq = complex.level_seqs();
    let mut a: usize = 0;
    while a < n_lm
        invariant
            n_lm == lm.len(),
            lm == landmarks@,
            dv == rows(dist@),
            a <= n_lm,
            complex.wf(),
            generated_by(complex.levels(), cur),
            forall|g: Seq<usize>| #[trigger] cur.contains(g) ==> sorted_by(g, vertex_order()),
            complex.extends(&after_v),
            verts == Set::new(|s: Seq<usize>| exists|x: int| 0 <= x < lm.len() && s == seq![lm[x]]),
            edges == Set::new(|s: Seq<usize>| edge_witnessed(dv, lm, kk as int, s)),
            gen_e == verts.union(edges),
            cur == gen_e.union(Set::new(|s: Seq<usize>| exists|x: int, y: int, z: int|
                #[trigger] witnessed_triangle(dv, lm, kk as int, s, x, y, z) && x < a)),
            complex.level_seqs() == offer_held_triangles(eseq, lm, a as int, a + 1int, a + 2int),
        decreases n_lm - a,
    {
        let mut b: usize = a + 1;
        while b < n_lm
            invariant
                n_lm == lm.len(),
                lm == landmarks@,
                dv == rows(dist@),
                a < n_lm,
                a + 1 <= b <= n_lm,
                complex.wf(),
                generated_by(complex.levels(), cur),
                forall|g: Seq<usize>| #[trigger] cur.contains(g) ==> sorted_by(g, vertex_order()),
                complex.extends(&after_v),
                verts == Set::new(|s: Seq<usize>| exists|x: int| 0 <= x < lm.len() && s == seq![lm[x]]),
                edges == Set::new(|s: Seq<usize>| edge_witnessed(dv, lm, kk as int, s)),
                gen_e == verts.union(edges),
                cur == gen_e.union(Set::new(|s: Seq<usize>| exists|x: int, y: int, z: int|
                    #[trigger] witnessed_triangle(dv, lm, kk as int, s, x, y, z) && (x < a || (x == a && y < b)))),
                complex.level_seqs() == offer_held_triangles(eseq, lm, a as int, b as int, b + 1int),
            decreases n_lm - b,
        {
            let mut c: usize = b + 1;
            while c < n_lm
                invariant
                    n_lm == lm.len(),
                    lm == landmarks@,
                    dv == rows(dist@),
                    a < b < n_lm,
                    b + 1 <= c <= n_lm,
                    complex.wf(),
                    generated_by(complex.levels(), cur),
                    forall|g: Seq<usize>| #[trigger] cur.contains(g) ==> sorted_by(g, vertex_order()),
                    complex.extends(&after_v),
                    verts == Set::new(|s: Seq<usize>| exists|x: int| 0 <= x < lm.len() && s == seq![lm[x]]),
                    edges == Set::new(|s: Seq<usize>| edge_witnessed(dv, lm, kk as int, s)),
                    gen_e == verts.union(edges),
                    cur == gen_e.union(Set::new(|s: Seq<usize>| exists|x: int, y: int, z: int|
                        #[trigger] witnessed_triangle(dv, lm, kk as int, s, x, y, z)
                            && (x < a || (x == a && y < b) || (x == a && y == b && z < c)))),
                    complex.level_seqs() == offer_held_triangles(eseq, lm, a as int, b as int, c as int),
                decreases n_lm - c,
            {
                let ghost old_cur = cur;
                let ghost prev = complex.level_seqs();
                let (la, lb, lc) = (landmarks[a], landmarks[b], landmarks[c]);
                let e1 = make_pair(la, lb);
                let e2 = make_pair(la, lc);
                let e3 = make_pair(lb, lc);
                proof {
                    assert forall|g: Seq<usize>| #[trigger] cur.contains(g) implies verts.contains(g) || edges.contains(g)
                        || exists|x: int, y: int, z: int| #[trigger] witnessed_triangle(dv, lm, kk as int, g, x, y, z) by {
                        if !gen_e.contains(g) {
                            let (x, y, z) = choose|x: int, y: int, z: int| #[trigger] witnessed_triangle(dv, lm, kk as int, g, x, y, z)
                                && (x < a || (x == a && y < b) || (x == a && y == b && z < c));
                        }
                    }
                    lemma_edge_held(complex, cur, dv, lm, kk as int, la, lb);
                    lemma_edge_held(complex, cur, dv, lm, kk as int, la, lc);
                    lemma_edge_held(complex, cur, dv, lm, kk as int, lb, lc);
                }
                let held = complex.contains(e1.as_slice()) && complex.contains(e2.as_slice())
                    && complex.contains(e3.as_slice());
                proof {
                    if complex.simplices@.len() > 1 {
                        lemma_holds_set_level(complex, ordered_pair(la, lb));
                        lemma_holds_set_level(complex, ordered_pair(la, lc));
                        lemma_holds_set_level(complex, ordered_pair(lb, lc));
                        assert(prev[1] == complex.level_seq(1));
                    }
                    assert(held == edges_held(prev, la, lb, lc));
                }
                if held {
                    let t = make_triple(la, lb, lc);
                    let ghost tv = t@;
                    proof { lemma_ordered_sorted(la, lb, lc); }
                    let ghost before_c = complex;
                    add_generator(&mut complex, t, Ghost(cur));
                    proof {
                        lemma_extends_trans(complex, before_c, after_v);
                        cur = cur.insert(tv);
                        assert(witnessed_triangle(dv, lm, kk as int, tv, a as int, b as int, c as int));
                    }
                } else {
                    proof {
                        assert(!witnessed_triangle(dv, lm, kk as int, ordered_triple(la, lb, lc), a as int, b as int, c as int));
                    }
                }
                assert(complex.level_seqs() == offer_held_triangles(eseq, lm, a as int, b as int, c + 1));
                proof {
                    assert(cur =~= gen_e.union(Set::new(|s: Seq<usize>| exists|x: int, y: int, z: int|
                        #[trigger] witnessed_triangle(dv, lm, kk as int, s, x, y, z)
                            && (x < a || (x == a && y < b) || (x == a && y == b && z < c + 1))))) by {
                        assert forall|s: Seq<usize>| (exists|x: int, y: int, z: int|
                            #[trigger] witnessed_triangle(dv, lm, kk as int, s, x, y, z)
                                && (x < a || (x == a && y < b) || (x == a && y == b && z < c + 1)))
                            implies #[trigger] cur.contains(s) by {
                            let (x, y, z) = choose|x: int, y: int, z: int|
                                #[trigger] witnessed_triangle(dv, lm, kk as int, s, x, y, z)
                                    && (x < a || (x == a && y < b) || (x == a && y == b && z < c + 1));
                            if x == a && y == b && z == c { } else {
                                assert(old_cur.contains(s));
                            }
                        }
                    }
                }
                c = c + 1;
            }
            assert(offer_held_triangles(eseq, lm, a as int, b + 1, b + 2)
                == offer_held_triangles(eseq, lm, a as int, b as int, n_lm as int));
            proof {
                assert(cur =~= gen_e.union(Set::new(|s: Seq<usize>| exists|x: int, y: int, z: int|
                    #[trigger] witnessed_triangle(dv, lm, kk as int, s, x, y, z) && (x < a || (x == a && y < b + 1))))) by {
                    assert forall|s: Seq<usize>| (exists|x: int, y: int, z: int|
                        #[trigger] witnessed_triangle(dv, lm, kk as int, s, x, y, z) && (x < a || (x == a && y < b + 1)))
                        implies #[trigger] cur.contains(s) by {
                        let (x, y, z) = choose|x: int, y: int, z: int|
                            #[trigger] witnessed_triangle(dv, lm, kk as int, s, x, y, z) && (x < a || (x == a && y < b + 1));
                        assert(x < a || (x == a && y < b) || (x == a && y == b && z < n_lm));
                    }
                    assert forall|s: Seq<usize>| #[trigger] cur.contains(s) && !gen_e.contains(s)
                        implies (exists|x: int, y: int, z: int|
                        #[trigger] witnessed_triangle(dv, lm, kk as int, s, x, y, z) && (x < a || (x == a && y < b + 1))) by {
                        let (x, y, z) = choose|x: int, y: int, z: int|
                            #[trigger] witnessed_triangle(dv, lm, kk as int, s, x, y, z)
                                && (x < a || (x == a && y < b) || (x == a && y == b && z < n_lm));
                    }
                }
            }
            b = b + 1;
        }
        assert(offer_held_triangles(eseq, lm, a + 1, a + 2, a + 3)
            == offer_held_triangles(eseq, lm, a as int, n_lm as int, n_lm + 1));
        proof {
            assert(cur =~= gen_e.union(Set::new(|s: Seq<usize>| exists|x: int, y: int, z: int|
                #[trigger] witnessed_triangle(dv, lm, kk as int, s, x, y, z) && x < a + 1))) by {
                assert forall|s: Seq<usize>| (exists|x: int, y: int, z: int|
                    #[trigger] witnessed_triangle(dv, lm, kk as int, s, x, y, z) && x < a + 1)
                    implies #[trigger] cur.contains(s) by {
                    let (x, y, z) = choose|x: int, y: int, z: int|
                        #[trigger] witnessed_triangle(dv, lm, kk as int, s, x, y, z) && x < a + 1;
                    assert(x < a || (x == a && y < n_lm));
                }
                assert forall|s: Seq<usize>| #[trigger] cur.contains(s) && !gen_e.contains(s)
                    implies (exists|x: int, y: int, z: int|
                    #[trigger] witnessed_triangle(dv, lm, kk as int, s, x, y, z) && x < a + 1) by {
                    let (x, y, z) = choose|x: int, y: int, z: int|
                        #[trigger] witnessed_triangle(dv, lm, kk as int, s, x, y, z) && (x < a || (x == a && y < n_lm));
                }
            }
        }
        a = a + 1;
    }
    proof {
        assert(cur =~= witness_generators(rows(dist@), landmarks@, k as int)) by {
            assert forall|s: Seq<usize>| #[trigger] cur.contains(s) implies witness_generators(rows(dist@), landmarks@, k as int).contains(s) by {
                if !gen_e.contains(s) {
                    let (x, y, z) = choose|x: int, y: int, z: int| #[trigger] witnessed_triangle(dv, lm, kk as int, s, x, y, z) && x < n_lm;
                }
            }
        }
        lemma_witness_vertices(complex, rows(dist@), landmarks@, k as int);
        assert(complex.level(0) == after_v.level(0));
        lemma_vertex_order_kept(after_v, complex);
    }
    complex
}

} // verus!

verus! {

/// Adding a simplex a second time changes nothing.
pub proof fn lemma_add_simplex_idempotent(levels: Seq<Set<Seq<usize>>>, s: Seq<usize>)
    ensures
        add_faces(add_faces(levels, s), s) =~= add_faces(levels, s),
{
    let once = add_faces(levels, s);
    let twice = add_faces(once, s);
    assert forall|d: int| 0 <= d < twice.len() implies #[trigger] twice[d] =~= once[d] by {}
}

/// Adding two simplices gives the same complex in either order.
pub proof fn lemma_add_simplex_commutes(levels: Seq<Set<Seq<usize>>>, a: Seq<usize>, b: Seq<usize>)
    requires
        a.len() >= 1,
        b.len() >= 1,
    ensures
        add_faces(add_faces(levels, a), b) =~= add_faces(add_faces(levels, b), a),
{
    let ab = add_faces(add_faces(levels, a), b);
    let ba = add_faces(add_faces(levels, b), a);
    assert forall|f: Seq<usize>| #[trigger] is_face(f, a) implies f.len() <= a.len() by {
        lemma_face_len(f, a);
    }
    assert forall|f: Seq<usize>| #[trigger] is_face(f, b) implies f.len() <= b.len() by {
        lemma_face_len(f, b);
    }
    assert forall|d: int| 0 <= d < ab.len() implies #[trigger] ab[d] =~= ba[d] by {}
}

/// A well-formed complex that holds a simplex also holds the face that deletes any one
/// of its vertices.
proof fn lemma_held_face_removed(c: SimplicialComplex, s: Seq<usize>, i: int)
    requires
        c.wf(),
        c.holds_vertices(s),
        s.len() >= 2,
        0 <= i < s.len(),
    ensures
        c.holds_vertices(s.remove(i)),
{
    let d = s.len() - 1;
    let u = choose|u: Seq<usize>| #[trigger] c.level(d).contains(u) && same_vertex_set(u, s);
    s.to_multiset_ensures();
    u.to_multiset_ensures();
    assert(s.contains(s[i]));
    assert(u.to_multiset().count(s[i]) > 0);
    assert(u.contains(s[i]));
    let j = choose|j: int| 0 <= j < u.len() && u[j] == s[i];
    assert(c.holds_vertices(u.remove(j)));
    assert(same_vertex_set(u.remove(j), s.remove(i)));
    lemma_holds_any_order(c, u.remove(j), s.remove(i));
}

/// A well-formed complex that holds a simplex holds each of its faces, in any vertex
/// order: after `add_simplex`, `contains` answers true for the added simplex and for
/// every face of it, whatever the order of the vertices asked for.
pub proof fn lemma_added_simplex_held(c: SimplicialComplex, s: Seq<usize>, f: Seq<usize>, t: Seq<usize>)
    requires
        c.wf(),
        c.holds_vertices(s),
        is_face(f, s),
        same_vertex_set(t, f),
    ensures
        c.holds_vertices(t),
    decreases s.len(),
{
    if f == s {
        lemma_holds_any_order(c, s, t);
    } else {
        let i = choose|i: int| 0 <= i < s.len() && is_face(f, s.remove(i));
        lemma_held_face_removed(c, s, i);
        lemma_added_simplex_held(c, s.remove(i), f, t);
    }
}

/// Adding a simplex whose vertices the complex already holds, in any order, changes
/// nothing: a simplex is its set of vertices.
pub proof fn lemma_add_held_unchanged(c: SimplicialComplex, s: Seq<usize>)
    requires
        c.wf(),
        c.holds_vertices(s),
    ensures
        add_in_order(c.level_seqs(), s) == c.level_seqs(),
{
    lemma_holds_set_level(c, s);
    let levels = c.level_seqs();
    assert(padded(levels, s.len() as int) == levels);
    assert(levels[s.len() - 1] == c.level_seq(s.len() - 1));
}

/// Whether the complex holds a simplex does not depend on the order of its vertices.
pub proof fn lemma_holds_any_order(c: SimplicialComplex, a: Seq<usize>, b: Seq<usize>)
    requires
        same_vertex_set(a, b),
    ensures
        c.holds_vertices(a) == c.holds_vertices(b),
{
    a.to_multiset_ensures();
    b.to_multiset_ensures();
    if c.holds_vertices(a) {
        let t = choose|t: Seq<usize>| #[trigger] c.level(a.len() - 1).contains(t) && same_vertex_set(t, a);
        assert(c.level(b.len() - 1).contains(t) && same_vertex_set(t, b));
    }
    if c.holds_vertices(b) {
        let t = choose|t: Seq<usize>| #[trigger] c.level(b.len() - 1).contains(t) && same_vertex_set(t, b);
        assert(c.level(a.len() - 1).contains(t) && same_vertex_set(t, a));
    }
}

/// A well-formed complex stores each dimension's simplices once each: the count is the
/// size of the set.
pub proof fn lemma_count_is_size(c: SimplicialComplex, d: int)
    requires
        c.wf(),
        0 <= d < c.simplices@.len(),
    ensures
        c.count_at(d) == c.level(d).len(),
        c.level(d).finite(),
{
    c.level_seq(d).unique_seq_to_set();
    vstd::seq_lib::seq_to_set_is_finite(c.level_seq(d));
}

/// A complex generated by a subset of the generators of another is a subcomplex of it,
/// with no more simplices in any dimension.
pub proof fn lemma_generated_subcomplex(c1: SimplicialComplex, c2: SimplicialComplex, g1: Set<Seq<usize>>, g2: Set<Seq<usize>>)
    requires
        c1.wf(),
        c2.wf(),
        generated_by(c1.levels(), g1),
        generated_by(c2.levels(), g2),
        g1.subset_of(g2),
    ensures
        c1.simplices@.len() <= c2.simplices@.len(),
        forall|d: int| 0 <= d < c1.simplices@.len() ==> #[trigger] c1.level(d).subset_of(c2.level(d)),
        forall|d: int| #[trigger] c1.count_at(d) <= c2.count_at(d),
{
    if c1.simplices@.len() > 1 {
        let g = choose|g: Seq<usize>| #[trigger] g1.contains(g) && g.len() == c1.levels().len();
        assert(g2.contains(g));
    }
    assert forall|d: int| 0 <= d < c1.simplices@.len() implies #[trigger] c1.level(d).subset_of(c2.level(d)) by {
        assert(c1.levels()[d] == c1.level(d));
        assert forall|f: Seq<usize>| c1.level(d).contains(f) implies c2.level(d).contains(f) by {
            assert(c1.levels()[d].contains(f));
            let g = choose|g: Seq<usize>| #[trigger] g1.contains(g) && is_face(f, g);
            assert(g2.contains(g));
            assert(c2.levels()[d] == c2.level(d));
            assert(c2.levels()[d].contains(f));
        }
    }
    assert forall|d: int| #[trigger] c1.count_at(d) <= c2.count_at(d) by {
        if 0 <= d < c1.simplices@.len() {
            lemma_count_is_size(c1, d);
            lemma_count_is_size(c2, d);
            vstd::set_lib::lemma_len_subset(c1.level(d), c2.level(d));
        }
    }
}

/// A position that comes before `j` makes the rank of `j` at least one.
proof fn lemma_rank_positive(row: Seq<u64>, lm: Seq<usize>, j: int, m: int, x: int)
    requires
        0 <= x < m,
        precedes(row, lm, x, j),
    ensures
        rank_among(row, lm, j, m) >= 1,
    decreases m,
{
    lemma_rank_nonneg(row, lm, j, m - 1);
    if x < m - 1 {
        lemma_rank_positive(row, lm, j, m - 1, x);
    }
}

proof fn lemma_rank_nonneg(row: Seq<u64>, lm: Seq<usize>, j: int, m: int)
    ensures
        rank_among(row, lm, j, m) >= 0,
    decreases m,
{
    if m > 0 {
        lemma_rank_nonneg(row, lm, j, m - 1);
    }
}

/// A witness voting for at most one nearest landmark (`kk <= 1`) witnesses no edge.
proof fn lemma_no_witnessed_edge(dist: Seq<Seq<u64>>, lm: Seq<usize>, kk: int, s: Seq<usize>)
    requires
        kk <= 1,
    ensures
        !edge_witnessed(dist, lm, kk, s),
{
    if edge_witnessed(dist, lm, kk, s) {
        let p = choose|p: int| 0 <= p < dist.len() && #[trigger] witnessed_by_row(dist[p], lm, kk, s);
        let row = dist[p];
        let (a, b) = choose|a: int, b: int| 0 <= a < b < lm.len() && #[trigger] is_near(row, lm, kk, a)
            && #[trigger] is_near(row, lm, kk, b) && s == ordered_pair(lm[a], lm[b]);
        if precedes(row, lm, a, b) {
            lemma_rank_positive(row, lm, b, lm.len() as int, a);
        } else {
            lemma_rank_positive(row, lm, a, lm.len() as int, b);
        }
    }
}

/// A witness voting for a single nearest landmark (`k <= 1`) witnesses no edge: the
/// witness complex has no edges (and so no triangles).
pub proof fn lemma_witness_no_edges(c: SimplicialComplex, dist: Seq<Seq<u64>>, lm: Seq<usize>, k: int)
    requires
        c.wf(),
        generated_by(c.levels(), witness_generators(dist, lm, k)),
        k <= 1,
    ensures
        c.count_at(1) == 0,
{
    let kk = if k <= lm.len() { k } else { lm.len() as int };
    if c.simplices@.len() > 1 {
        assert forall|f: Seq<usize>| !#[trigger] c.level(1).contains(f) by {
            assert(c.levels()[1] == c.level(1));
            if c.level(1).contains(f) {
                let g = choose|g: Seq<usize>| #[trigger] witness_generators(dist, lm, k).contains(g) && is_face(f, g);
                lemma_face_len(f, g);
                if exists|i: int| 0 <= i < lm.len() && g == seq![lm[i]] {
                } else if edge_witnessed(dist, lm, kk, g) {
                    lemma_no_witnessed_edge(dist, lm, kk, g);
                } else {
                    let (a, b, cc) = choose|a: int, b: int, cc: int| #[trigger] witnessed_triangle(dist, lm, kk, g, a, b, cc);
                    lemma_no_witnessed_edge(dist, lm, kk, ordered_pair(lm[a], lm[b]));
                }
            }
        }
        lemma_count_is_size(c, 1);
        assert(c.level(1) =~= Set::<Seq<usize>>::empty());
    }
}

/// An edge witnessed among the `kk1` nearest landmarks is witnessed among `kk2 >= kk1`.
proof fn lemma_edge_witnessed_mono(dist: Seq<Seq<u64>>, lm: Seq<usize>, kk1: int, kk2: int, s: Seq<usize>)
    requires
        kk1 <= kk2,
        edge_witnessed(dist, lm, kk1, s),
    ensures
        edge_witnessed(dist, lm, kk2, s),
{
    let p = choose|p: int| 0 <= p < dist.len() && #[trigger] witnessed_by_row(dist[p], lm, kk1, s);
    let row = dist[p];
    let (a, b) = choose|a: int, b: int| 0 <= a < b < lm.len() && #[trigger] is_near(row, lm, kk1, a)
        && #[trigger] is_near(row, lm, kk1, b) && s == ordered_pair(lm[a], lm[b]);
    assert(is_near(row, lm, kk2, a) && is_near(row, lm, kk2, b));
    assert(witnessed_by_row(row, lm, kk2, s));
}

/// Voting among more nearest landmarks only adds simplices: for `k1 <= k2` the witness
/// complex at `k1` is a subcomplex of the one at `k2`, with no more simplices in any dimension.
pub proof fn lemma_witness_monotone(
    c1: SimplicialComplex,
    c2: SimplicialComplex,
    dist: Seq<Seq<u64>>,
    lm: Seq<usize>,
    k1: int,
    k2: int,
)
    requires
        c1.wf(),
        c2.wf(),
        generated_by(c1.levels(), witness_generators(dist, lm, k1)),
        generated_by(c2.levels(), witness_generators(dist, lm, k2)),
        k1 <= k2,
    ensures
        c1.simplices@.len() <= c2.simplices@.len(),
        forall|d: int| 0 <= d < c1.simplices@.len() ==> #[trigger] c1.level(d).subset_of(c2.level(d)),
        forall|d: int| #[trigger] c1.count_at(d) <= c2.count_at(d),
{
    let kk1 = if k1 <= lm.len() { k1 } else { lm.len() as int };
    let kk2 = if k2 <= lm.len() { k2 } else { lm.len() as int };
    let g1 = witness_generators(dist, lm, k1);
    let g2 = witness_generators(dist, lm, k2);
    assert forall|s: Seq<usize>| g1.contains(s) implies g2.contains(s) by {
        if exists|i: int| 0 <= i < lm.len() && s == seq![lm[i]] {
        } else if edge_witnessed(dist, lm, kk1, s) {
            lemma_edge_witnessed_mono(dist, lm, kk1, kk2, s);
        } else {
            let (a, b, cc) = choose|a: int, b: int, cc: int| #[trigger] witnessed_triangle(dist, lm, kk1, s, a, b, cc);
            lemma_edge_witnessed_mono(dist, lm, kk1, kk2, ordered_pair(lm[a], lm[b]));
            lemma_edge_witnessed_mono(dist, lm, kk1, kk2, ordered_pair(lm[a], lm[cc]));
            lemma_edge_witnessed_mono(dist, lm, kk1, kk2, ordered_pair(lm[b], lm[cc]));
            assert(witnessed_triangle(dist, lm, kk2, s, a, b, cc));
        }
    }
    lemma_generated_subcomplex(c1, c2, g1, g2);
}

/// The vertices of the witness complex are exactly the landmarks.
pub proof fn lemma_witness_vertices(c: SimplicialComplex, dist: Seq<Seq<u64>>, lm: Seq<usize>, k: int)
    requires
        c.wf(),
        generated_by(c.levels(), witness_generators(dist, lm, k)),
    ensures
        c.level(0) =~= Set::new(|s: Seq<usize>| exists|i: int| 0 <= i < lm.len() && s == seq![lm[i]]),
{
    let kk = if k <= lm.len() { k } else { lm.len() as int };
    let g = witness_generators(dist, lm, k);
    assert(c.levels()[0] == c.level(0));
    assert forall|f: Seq<usize>| #[trigger] c.level(0).contains(f) implies exists|i: int| 0 <= i < lm.len() && f == seq![lm[i]] by {
        assert(c.levels()[0].contains(f));
        let gen = choose|gen: Seq<usize>| #[trigger] g.contains(gen) && is_face(f, gen);
        lemma_face_vertices(f, gen);
        assert(gen.contains(f[0]));
        let v = f[0];
        assert(f =~= seq![v]);
        if exists|i: int| 0 <= i < lm.len() && gen == seq![lm[i]] {
            let i = choose|i: int| 0 <= i < lm.len() && gen == seq![lm[i]];
            assert(f == seq![lm[i]]);
        } else if edge_witnessed(dist, lm, kk, gen) {
            let p = choose|p: int| 0 <= p < dist.len() && #[trigger] witnessed_by_row(dist[p], lm, kk, gen);
            let row = dist[p];
            let (a, b2) = choose|a: int, b: int| 0 <= a < b < lm.len() && #[trigger] is_near(row, lm, kk, a)
                && #[trigger] is_near(row, lm, kk, b) && gen == ordered_pair(lm[a], lm[b]);
            assert(v == lm[a] || v == lm[b2]);
            if v == lm[a] { assert(f == seq![lm[a]]); } else { assert(f == seq![lm[b2]]); }
        } else {
            let (a, b2, x) = choose|a: int, b: int, x: int| #[trigger] witnessed_triangle(dist, lm, kk, gen, a, b, x);
            assert(v == lm[a] || v == lm[b2] || v == lm[x]);
            if v == lm[a] { assert(f == seq![lm[a]]); } else if v == lm[b2] { assert(f == seq![lm[b2]]); }
            else { assert(f == seq![lm[x]]); }
        }
    }
    assert forall|f: Seq<usize>| (exists|i: int| 0 <= i < lm.len() && f == seq![lm[i]]) implies #[trigger] c.level(0).contains(f) by {
        assert(g.contains(f));
        assert(is_face(f, f));
        assert(c.levels()[0].contains(f));
    }
}

} // verus!
