# witness_topology

Witness complexes for approximating the topology of point clouds, verified with Verus:
landmark selection (seeded random, maxmin), witness and weak witness complexes,
persistent homology by boundary-matrix reduction over the field with two elements,
Betti numbers, and multi-scale analysis over the number `k` of nearest landmarks a
witness votes for.

## Distance keys

The verified library never touches floating point. Distances enter it as *distance
keys*: `u64` values that order exactly as the distances they stand for (`0` for a zero
distance, `u64::MAX` for an infinite one, and the IEEE bit pattern in between, which
orders non-negative doubles as they compare). Every decision the algorithms make is a
comparison of distances, so they run unchanged on keys, and filtration values come out
as keys.

## Layout

- `src/` — the verified library.
  - `faces.rs`: faces of a simplex, vertex sets up to order.
  - `witness.rs`: `SimplicialComplex` (what `add_simplex` adds, in which order), the
    witness complex, and its laws (idempotent and commuting insertion, monotone in `k`).
  - `weak_witness.rs`: the weak witness complex and its relation to the witness complex.
  - `landmark.rs`: random and maxmin landmarks, distances to landmarks.
  - `persistence.rs`: diameter filtration, boundary matrix, reduction, persistence
    pairs, Betti numbers.
  - `pairing.rs`: the persistence diagram is well defined (pivots of a reduction and the
    filtration order are unique), and a class is killed by a simplex one dimension above
    the one that gave it birth.
  - `components.rs`: a nonempty complex keeps a connected component forever.
  - `scale.rs`: multi-scale summaries and the stability range; a summary is fixed by
    its inputs.
  - `counting.rs`: a simplex on `m` distinct vertices has `C(m, j)` faces with `j`
    vertices.
- `tests/` — tests of the library on concrete values.
- `app/` — point clouds of `f64` coordinates: Euclidean distances, conversion to and from
  distance keys, and the relaxed weak witness admission, which adds a float margin.
