//! Landmark selection: a seeded random subset, or the greedy maxmin choice.
use vstd::prelude::*;
use crate::witness::{rows, is_square, landmarks_within};

verus! {

/// One step of the linear congruential generator behind random landmark selection.
pub open spec fn lcg_next(r: u64) -> u64 {
    r.wrapping_mul(6364136223846793005u64).wrapping_add(1442695040888963407u64)
}

/// The partial Fisher-Yates shuffle of `0..n` after `i` steps, and the generator state:
/// step `t` draws the next value `r` and swaps position `t` with `t + (r mod (n - t))`.
pub open spec fn shuffle_state(n: usize, seed: u64, i: int) -> (Seq<usize>, u64)
    decreases i,
{
    if i <= 0 {
        (Seq::new(n as nat, |x: int| x as usize), seed)
    } else {
        let (perm, rng) = shuffle_state(n, seed, i - 1);
        let r = lcg_next(rng);
        let t = i - 1;
        let j = t + ((r as usize) % ((n - t) as usize)) as int;
        (perm.update(t, perm[j]).update(j, perm[t]), r)
    }
}

/// The random landmarks: all of `0..n` in order when `k >= n`, else the first `k` entries
/// of the shuffle after `k` steps.
pub open spec fn random_selection(n: usize, k: usize, seed: u64) -> Seq<usize> {
    if k >= n {
        Seq::new(n as nat, |x: int| x as usize)
    } else {
        shuffle_state(n, seed, k as int).0.take(k as int)
    }
}

/// `s` lists distinct indices below `n`.
pub open spec fn distinct_below(s: Seq<usize>, n: int) -> bool {
    &&& s.no_duplicates()
    &&& forall|x: int| 0 <= x < s.len() ==> #[trigger] s[x] < n
}

/// The shuffle permutes `0..n` at every step.
pub proof fn lemma_shuffle_permutes(n: usize, seed: u64, i: int)
    requires
        0 <= i <= n,
    ensures
        shuffle_state(n, seed, i).0.len() == n,
        distinct_below(shuffle_state(n, seed, i).0, n as int),
    decreases i,
{
    if i > 0 {
        lemma_shuffle_permutes(n, seed, i - 1);
        let (perm, rng) = shuffle_state(n, seed, i - 1);
        let r = lcg_next(rng);
        let t = i - 1;
        let j = t + ((r as usize) % ((n - t) as usize)) as int;
        let next = perm.update(t, perm[j]).update(j, perm[t]);
        assert(shuffle_state(n, seed, i).0 == next);
        assert forall|a: int, b: int| 0 <= a < b < next.len() implies next[a] != next[b] by {
            assert(perm[a] != perm[b] || a == b);
            if a == t || a == j || b == t || b == j {
                assert(t != j ==> perm[t] != perm[j]);
            }
        }
    } else {
        let s = Seq::new(n as nat, |x: int| x as usize);
        assert forall|a: int, b: int| 0 <= a < b < s.len() implies s[a] != s[b] by {}
    }
}

/// Select `num_landmarks` of `n` points at random, seeded by `seed`: all of them in order
/// when there are no more points than requested, else a partial Fisher-Yates shuffle of
/// the indices driven by a linear congruential generator.
pub fn random_landmarks(n: usize, num_landmarks: usize, seed: u64) -> (landmarks: Vec<usize>)
    ensures
        landmarks@ == random_selection(n, num_landmarks, seed),
        landmarks@.len() == if num_landmarks <= n { num_landmarks } else { n },
        distinct_below(landmarks@, n as int),
{
    if num_landmarks >= n {
        let mut all: Vec<usize> = Vec::new();
        let mut x: usize = 0;
        while x < n
            invariant
                x <= n,
                all@ == Seq::new(x as nat, |y: int| y as usize),
            decreases n - x,
        {
            all.push(x);
            assert(all@ =~= Seq::new((x + 1) as nat, |y: int| y as usize));
            x = x + 1;
        }
        proof {
            lemma_shuffle_permutes(n, seed, 0);
        }
        return all;
    }
    let mut rng: u64 = seed;
    let mut indices: Vec<usize> = Vec::new();
    let mut x: usize = 0;
    while x < n
        invariant
            x <= n,
            indices@ == Seq::new(x as nat, |y: int| y as usize),
        decreases n - x,
    {
        indices.push(x);
        assert(indices@ =~= Seq::new((x + 1) as nat, |y: int| y as usize));
        x = x + 1;
    }
    let mut i: usize = 0;
    while i < num_landmarks
        invariant
            num_landmarks < n,
            i <= num_landmarks,
            (indices@, rng) == shuffle_state(n, seed, i as int),
            indices@.len() == n,
        decreases num_landmarks - i,
    {
        rng = rng.wrapping_mul(6364136223846793005u64).wrapping_add(1442695040888963407u64);
        let j = i + (rng as usize % (n - i));
        let a = indices[i];
        let b = indices[j];
        indices.set(i, b);
        indices.set(j, a);
        i = i + 1;
    }
    let mut landmarks: Vec<usize> = Vec::new();
    let mut t: usize = 0;
    while t < num_landmarks
        invariant
            num_landmarks < n,
            indices@.len() == n,
            t <= num_landmarks,
            landmarks@ == indices@.take(t as int),
        decreases num_landmarks - t,
    {
        landmarks.push(indices[t]);
        assert(indices@.take(t + 1) =~= indices@.take(t as int).push(indices@[t as int]));
        t = t + 1;
    }
    proof {
        lemma_shuffle_permutes(n, seed, num_landmarks as int);
        let perm = shuffle_state(n, seed, num_landmarks as int).0;
        assert forall|a: int, b: int| 0 <= a < b < landmarks@.len() implies landmarks@[a] != landmarks@[b] by {
            assert(perm[a] != perm[b]);
        }
    }
    landmarks
}

} // verus!

verus! {

/// The smallest key from a chosen landmark to point `i`: `min` over `chosen` of `dist[c][i]`.
pub open spec fn min_key_to(dist: Seq<Seq<u64>>, chosen: Seq<usize>, i: int) -> u64
    decreases chosen.len(),
{
    if chosen.len() <= 1 {
        dist[chosen[0] as int][i]
    } else {
        let prev = min_key_to(dist, chosen.drop_last(), i);
        let d = dist[chosen.last() as int][i];
        if d < prev { d } else { prev }
    }
}

/// `b` is the maxmin choice after `chosen`: an unchosen point farthest from the chosen
/// ones, the last such point on ties.
pub open spec fn is_maxmin_choice(dist: Seq<Seq<u64>>, chosen: Seq<usize>, b: int) -> bool {
    &&& 0 <= b < dist.len()
    &&& !chosen.contains(b as usize)
    &&& forall|j: int| 0 <= j < dist.len() && !chosen.contains(j as usize) ==> {
        ||| #[trigger] min_key_to(dist, chosen, j) < min_key_to(dist, chosen, b)
        ||| (min_key_to(dist, chosen, j) == min_key_to(dist, chosen, b) && j <= b)
    }
}

/// `s` is a maxmin sequence: it starts at point 0 and each later entry is the maxmin
/// choice after the entries before it.
pub open spec fn is_maxmin_sequence(dist: Seq<Seq<u64>>, s: Seq<usize>) -> bool {
    &&& s.len() >= 1
    &&& s[0] == 0
    &&& forall|t: int| 1 <= t < s.len() ==> #[trigger] is_maxmin_choice(dist, s.take(t), s[t] as int)
}

/// `lm` is the maxmin selection of `k` landmarks among the points of `dist`: all points
/// in order when there are no more than `k`, none when `k` is zero, else a maxmin
/// sequence of length `k`.
pub open spec fn is_maxmin_selection(dist: Seq<Seq<u64>>, k: usize, lm: Seq<usize>) -> bool {
    &&& (k >= dist.len() ==> lm == Seq::new(dist.len(), |x: int| x as usize))
    &&& (k < dist.len() && k == 0 ==> lm.len() == 0)
    &&& (0 < k < dist.len() ==> lm.len() == k && is_maxmin_sequence(dist, lm))
}

/// Whether `s` lists `v`.
fn lists(s: &Vec<usize>, v: usize) -> (r: bool)
    ensures
        r == s@.contains(v),
{
    let mut i: usize = 0;
    while i < s.len()
        invariant
            i <= s@.len(),
            forall|x: int| 0 <= x < i ==> s@[x] != v,
        decreases s.len() - i,
    {
        if s[i] == v {
            return true;
        }
        i = i + 1;
    }
    false
}

/// Select landmarks by the maxmin strategy: start from point 0, then repeatedly take the
/// point whose smallest key to the chosen landmarks is largest (the last such point on
/// ties). All points, in order, when there are no more than requested; none when there
/// are no points or none are requested. `dist` holds the distance keys between the points.
pub fn maxmin_landmarks(dist: &[Vec<u64>], num_landmarks: usize) -> (landmarks: Vec<usize>)
    requires
        is_square(dist@),
    ensures
        is_maxmin_selection(rows(dist@), num_landmarks, landmarks@),
        distinct_below(landmarks@, dist@.len() as int),
{
    let ghost dv = rows(dist@);
    let n = dist.len();
    if num_landmarks >= n {
        let mut all: Vec<usize> = Vec::new();
        let mut x: usize = 0;
        while x < n
            invariant
                x <= n,
                all@ == Seq::new(x as nat, |y: int| y as usize),
            decreases n - x,
        {
            all.push(x);
            assert(all@ =~= Seq::new((x + 1) as nat, |y: int| y as usize));
            x = x + 1;
        }
        assert forall|a: int, b: int| 0 <= a < b < all@.len() implies all@[a] != all@[b] by {}
        return all;
    }
    if n == 0 || num_landmarks == 0 {
        return Vec::new();
    }
    let mut landmarks: Vec<usize> = Vec::new();
    landmarks.push(0);
    let row0 = &dist[0];
    assert(row0@.len() == n);
    assert(dv[0] == row0@);
    let mut min_distances: Vec<u64> = Vec::new();
    let mut i: usize = 0;
    while i < n
        invariant
            n == dist@.len(),
            row0@ == dv[0],
            row0@.len() == n,
            landmarks@ == seq![0usize],
            i <= n,
            min_distances@.len() == i,
            forall|x: int| 0 <= x < i ==> #[trigger] min_distances@[x] == min_key_to(dv, landmarks@, x),
        decreases n - i,
    {
        min_distances.push(row0[i]);
        i = i + 1;
    }
    while landmarks.len() < num_landmarks
        invariant
            n == dist@.len(),
            dv == rows(dist@),
            is_square(dist@),
            0 < num_landmarks < n,
            1 <= landmarks@.len() <= num_landmarks,
            is_maxmin_sequence(dv, landmarks@),
            distinct_below(landmarks@, n as int),
            min_distances@.len() == n,
            forall|x: int| 0 <= x < n ==> #[trigger] min_distances@[x] == min_key_to(dv, landmarks@, x),
        decreases num_landmarks - landmarks.len(),
    {
        // find the last unchosen point with the largest smallest key
        let mut best: usize = 0;
        let mut found = false;
        let mut x: usize = 0;
        while x < n
            invariant
                n == dist@.len(),
                min_distances@.len() == n,
                x <= n,
                found ==> best < x && !landmarks@.contains(best),
                !found ==> forall|j: usize| j < x ==> #[trigger] landmarks@.contains(j),
                found ==> forall|j: usize| j < x && !#[trigger] landmarks@.contains(j) ==> {
                    ||| min_distances@[j as int] < min_distances@[best as int]
                    ||| (min_distances@[j as int] == min_distances@[best as int] && j <= best)
                },
            decreases n - x,
        {
            if !lists(&landmarks, x) {
                if !found || min_distances[x] >= min_distances[best] {
                    best = x;
                    found = true;
                }
            }
            x = x + 1;
        }
        proof {
            if !found {
                // every point is chosen, yet fewer than n points are chosen
                let s = landmarks@;
                assert forall|j: usize| j < n implies s.to_set().contains(j) by {
                    assert(s.contains(j));
                }
                assert(Set::new(|v: usize| v < n).subset_of(s.to_set()));
                s.unique_seq_to_set();
                vstd::set_lib::lemma_set_subset_finite(s.to_set(), Set::new(|v: usize| v < n));
                lemma_below_len(n as int);
                vstd::set_lib::lemma_len_subset(Set::new(|v: usize| v < n), s.to_set());
                assert(false);
            }
        }
        let ghost old_lm = landmarks@;
        landmarks.push(best);
        proof {
            assert(landmarks@.take(old_lm.len() as int) =~= old_lm);
            assert forall|j: int| 0 <= j < n && !old_lm.contains(j as usize) implies {
                ||| #[trigger] min_key_to(dv, old_lm, j) < min_key_to(dv, old_lm, best as int)
                ||| (min_key_to(dv, old_lm, j) == min_key_to(dv, old_lm, best as int) && j <= best)
            } by {
                assert(min_distances@[j] == min_key_to(dv, old_lm, j));
                assert(!old_lm.contains((j as usize)));
            }
            assert(is_maxmin_choice(dv, old_lm, best as int));
            assert forall|t: int| 1 <= t < landmarks@.len() implies #[trigger] is_maxmin_choice(dv, landmarks@.take(t), landmarks@[t] as int) by {
                if t < old_lm.len() {
                    assert(landmarks@.take(t) =~= old_lm.take(t));
                    assert(is_maxmin_choice(dv, old_lm.take(t), old_lm[t] as int));
                }
            }
            assert forall|a: int, b: int| 0 <= a < b < landmarks@.len() implies landmarks@[a] != landmarks@[b] by {
                if b == old_lm.len() {
                    assert(old_lm.contains(landmarks@[a]));
                }
            }
        }
        let row = &dist[best];
        assert(row@.len() == n);
        assert(dv[best as int] == row@);
        let mut i: usize = 0;
        while i < n
            invariant
                n == dist@.len(),
                row@ == dv[best as int],
                row@.len() == n,
                landmarks@.len() >= 2,
                landmarks@.last() == best,
                min_distances@.len() == n,
                i <= n,
                forall|x: int| 0 <= x < i ==> #[trigger] min_distances@[x] == min_key_to(dv, landmarks@, x),
                forall|x: int| i <= x < n ==> #[trigger] min_distances@[x] == min_key_to(dv, landmarks@.drop_last(), x),
            decreases n - i,
        {
            let d = row[i];
            if d < min_distances[i] {
                min_distances.set(i, d);
            }
            i = i + 1;
        }
    }
    landmarks
}

/// The set of indices below `n` has `n` elements.
pub(crate) proof fn lemma_below_len(n: int)
    requires
        0 <= n <= usize::MAX + 1,
    ensures
        Set::new(|v: usize| v < n).finite(),
        Set::new(|v: usize| v < n).len() == n,
    decreases n,
{
    if n == 0 {
        assert(Set::new(|v: usize| v < n) =~= Set::<usize>::empty());
    } else {
        lemma_below_len(n - 1);
        assert(Set::new(|v: usize| v < n) =~= Set::new(|v: usize| v < n - 1).insert((n - 1) as usize));
    }
}

/// For each point, the smallest key to a landmark, or `u64::MAX` when there are no landmarks.
pub fn distances_to_landmarks(dist: &[Vec<u64>], landmarks: &[usize]) -> (r: Vec<u64>)
    requires
        is_square(dist@),
        landmarks_within(landmarks@, dist@.len() as int),
    ensures
        r@.len() == dist@.len(),
        forall|p: int, l: int| 0 <= p < r@.len() && 0 <= l < landmarks@.len()
            ==> r@[p] <= #[trigger] rows(dist@)[p][landmarks@[l] as int],
        forall|p: int| 0 <= p < r@.len() ==> #[trigger] r@[p] == u64::MAX || exists|l: int| 0 <= l < landmarks@.len()
            && r@[p] == rows(dist@)[p][landmarks@[l] as int],
{
    let ghost dv = rows(dist@);
    let n = dist.len();
    let mut r: Vec<u64> = Vec::new();
    let mut p: usize = 0;
    while p < n
        invariant
            n == dist@.len(),
            dv == rows(dist@),
            is_square(dist@),
            landmarks_within(landmarks@, n as int),
            p <= n,
            r@.len() == p,
            forall|q: int, l: int| 0 <= q < p && 0 <= l < landmarks@.len() ==> r@[q] <= #[trigger] dv[q][landmarks@[l] as int],
            forall|q: int| 0 <= q < p ==> #[trigger] r@[q] == u64::MAX || exists|l: int| 0 <= l < landmarks@.len()
                && r@[q] == dv[q][landmarks@[l] as int],
        decreases n - p,
    {
        let row = &dist[p];
        assert(row@.len() == n);
        assert(dv[p as int] == row@);
        let mut m: u64 = u64::MAX;
        let mut t: usize = 0;
        while t < landmarks.len()
            invariant
                row@ == dv[p as int],
                row@.len() == n,
                landmarks_within(landmarks@, n as int),
                t <= landmarks@.len(),
                forall|l: int| 0 <= l < t ==> m <= row@[landmarks@[l] as int],
                m == u64::MAX || exists|l: int| 0 <= l < t && m == row@[landmarks@[l] as int],
            decreases landmarks.len() - t,
        {
            let d = row[landmarks[t]];
            if d < m {
                m = d;
            }
            t = t + 1;
        }
        r.push(m);
        p = p + 1;
    }
    r
}

} // verus!

verus! {

/// There is one maxmin choice after given landmarks.
proof fn lemma_maxmin_choice_unique(dist: Seq<Seq<u64>>, chosen: Seq<usize>, b1: int, b2: int)
    requires
        is_maxmin_choice(dist, chosen, b1),
        is_maxmin_choice(dist, chosen, b2),
    ensures
        b1 == b2,
{
    assert(min_key_to(dist, chosen, b2) < min_key_to(dist, chosen, b1)
        || (min_key_to(dist, chosen, b2) == min_key_to(dist, chosen, b1) && b2 <= b1));
    assert(min_key_to(dist, chosen, b1) < min_key_to(dist, chosen, b2)
        || (min_key_to(dist, chosen, b1) == min_key_to(dist, chosen, b2) && b1 <= b2));
}

/// Two maxmin sequences of the same length agree on their first `t` entries.
proof fn lemma_maxmin_prefix(dist: Seq<Seq<u64>>, s1: Seq<usize>, s2: Seq<usize>, t: int)
    requires
        is_maxmin_sequence(dist, s1),
        is_maxmin_sequence(dist, s2),
        s1.len() == s2.len(),
        0 <= t <= s1.len(),
    ensures
        s1.take(t) == s2.take(t),
    decreases t,
{
    if t > 0 {
        lemma_maxmin_prefix(dist, s1, s2, t - 1);
        if t - 1 >= 1 {
            assert(is_maxmin_choice(dist, s1.take(t - 1), s1[t - 1] as int));
            assert(is_maxmin_choice(dist, s2.take(t - 1), s2[t - 1] as int));
            lemma_maxmin_choice_unique(dist, s1.take(t - 1), s1[t - 1] as int, s2[t - 1] as int);
        }
        assert(s1.take(t) =~= s1.take(t - 1).push(s1[t - 1]));
        assert(s2.take(t) =~= s2.take(t - 1).push(s2[t - 1]));
    }
}

/// The maxmin selection is unique: the distances and the number requested determine the
/// landmarks.
pub proof fn lemma_maxmin_unique(dist: Seq<Seq<u64>>, k: usize, lm1: Seq<usize>, lm2: Seq<usize>)
    requires
        is_maxmin_selection(dist, k, lm1),
        is_maxmin_selection(dist, k, lm2),
    ensures
        lm1 == lm2,
{
    if 0 < k < dist.len() {
        lemma_maxmin_prefix(dist, lm1, lm2, lm1.len() as int);
        assert(lm1 =~= lm1.take(lm1.len() as int));
        assert(lm2 =~= lm2.take(lm2.len() as int));
    } else if k < dist.len() {
        assert(lm1 =~= lm2);
    }
}

/// The smallest key from a nonempty list of landmarks to a point is the key from one of
/// them, and no key from any of them is smaller.
proof fn lemma_min_key_is_min(dist: Seq<Seq<u64>>, chosen: Seq<usize>, i: int)
    requires
        chosen.len() >= 1,
    ensures
        exists|a: int| 0 <= a < chosen.len() && min_key_to(dist, chosen, i) == dist[#[trigger] chosen[a] as int][i],
        forall|b: int| 0 <= b < chosen.len() ==> min_key_to(dist, chosen, i) <= #[trigger] dist[chosen[b] as int][i],
    decreases chosen.len(),
{
    if chosen.len() > 1 {
        let rest = chosen.drop_last();
        lemma_min_key_is_min(dist, rest, i);
        let a = choose|a: int| 0 <= a < rest.len() && min_key_to(dist, rest, i) == dist[rest[a] as int][i];
        assert(rest[a] == chosen[a]);
        assert forall|b: int| 0 <= b < chosen.len() implies min_key_to(dist, chosen, i) <= #[trigger] dist[chosen[b] as int][i] by {
            if b < rest.len() {
                assert(rest[b] == chosen[b]);
                assert(min_key_to(dist, rest, i) <= dist[rest[b] as int][i]);
            }
        }
        let last = chosen.len() - 1;
        assert(chosen[last] == chosen.last());
        if dist[chosen.last() as int][i] < min_key_to(dist, rest, i) {
            assert(min_key_to(dist, chosen, i) == dist[chosen[last] as int][i]);
        } else {
            assert(min_key_to(dist, chosen, i) == dist[chosen[a] as int][i]);
        }
    } else {
        assert(min_key_to(dist, chosen, i) == dist[chosen[0] as int][i]);
    }
}

/// Maxmin selection maximizes the minimum distance to all landmarks chosen before: every
/// landmark after the first is a point not chosen yet, and no other point not chosen yet
/// is farther from the landmarks chosen before it. That is, for every such point `p` some
/// earlier landmark is at least as near to `p` as every earlier landmark is to the new one.
/// Among points equally far, the last is chosen: an unchosen point after the new landmark
/// is strictly nearer to some earlier landmark. The first landmark is point 0, and no
/// landmark is chosen twice.
pub proof fn lemma_maxmin_maximizes_min_distance(dist: Seq<Seq<u64>>, k: usize, lm: Seq<usize>, t: int, p: int)
    requires
        is_maxmin_selection(dist, k, lm),
        0 < k < dist.len(),
        1 <= t < lm.len(),
        0 <= p < dist.len(),
        !lm.take(t).contains(p as usize),
    ensures
        lm[0] == 0,
        !lm.take(t).contains(lm[t]),
        exists|a: int| #![trigger lm[a]] 0 <= a < t && forall|b: int| 0 <= b < t ==>
            dist[lm[a] as int][p] <= #[trigger] dist[lm[b] as int][lm[t] as int],
        p > lm[t] ==> exists|a: int| #![trigger lm[a]] 0 <= a < t && forall|b: int| 0 <= b < t ==>
            dist[lm[a] as int][p] < #[trigger] dist[lm[b] as int][lm[t] as int],
{
    let chosen = lm.take(t);
    assert(is_maxmin_choice(dist, chosen, lm[t] as int));
    lemma_min_key_is_min(dist, chosen, p);
    lemma_min_key_is_min(dist, chosen, lm[t] as int);
    let a = choose|a: int| 0 <= a < chosen.len() && min_key_to(dist, chosen, p) == dist[chosen[a] as int][p];
    assert(min_key_to(dist, chosen, p) <= min_key_to(dist, chosen, lm[t] as int));
    assert(chosen[a] == lm[a]);
    assert forall|b: int| 0 <= b < t implies dist[lm[a] as int][p] <= #[trigger] dist[lm[b] as int][lm[t] as int] by {
        assert(chosen[b] == lm[b]);
        assert(min_key_to(dist, chosen, lm[t] as int) <= dist[chosen[b] as int][lm[t] as int]);
    }
    if p > lm[t] {
        assert(min_key_to(dist, chosen, p) < min_key_to(dist, chosen, lm[t] as int));
        assert forall|b: int| 0 <= b < t implies dist[lm[a] as int][p] < #[trigger] dist[lm[b] as int][lm[t] as int] by {
            assert(chosen[b] == lm[b]);
            assert(min_key_to(dist, chosen, lm[t] as int) <= dist[chosen[b] as int][lm[t] as int]);
        }
    }
}

/// A step of the shuffle leaves the positions before it alone.
proof fn lemma_shuffle_keeps_front(n: usize, seed: u64, t: int, u: int)
    requires
        0 <= t < u <= n,
    ensures
        shuffle_state(n, seed, u).0[t] == shuffle_state(n, seed, t + 1).0[t],
    decreases u,
{
    if u > t + 1 {
        lemma_shuffle_keeps_front(n, seed, t, u - 1);
        lemma_shuffle_permutes(n, seed, u - 1);
        let (perm, rng) = shuffle_state(n, seed, u - 1);
        let r = lcg_next(rng);
        let v = u - 1;
        let j = v + ((r as usize) % ((n - v) as usize)) as int;
        assert(shuffle_state(n, seed, u).0 == perm.update(v, perm[j]).update(j, perm[v]));
    }
}

/// Landmark `t` of a selection of `k < n` is drawn at step `t` of the shuffle.
proof fn lemma_selection_step(n: usize, k: usize, seed: u64, t: int)
    requires
        k < n,
        0 <= t < k,
    ensures
        random_selection(n, k, seed)[t] == shuffle_state(n, seed, t).0[
            t + ((lcg_next(shuffle_state(n, seed, t).1) as usize) % ((n - t) as usize)) as int],
{
    lemma_shuffle_keeps_front(n, seed, t, k as int);
    lemma_shuffle_permutes(n, seed, t);
    let (perm, rng) = shuffle_state(n, seed, t);
    let j = t + ((lcg_next(rng) as usize) % ((n - t) as usize)) as int;
    assert(shuffle_state(n, seed, t + 1).0 == perm.update(t, perm[j]).update(j, perm[t]));
    lemma_shuffle_permutes(n, seed, k as int);
    assert(random_selection(n, k, seed)[t] == shuffle_state(n, seed, k as int).0[t]);
}

/// Asking for one landmark more keeps the landmarks already drawn.
proof fn lemma_selection_prefix(n: usize, k: usize, seed: u64)
    requires
        k + 1 < n,
    ensures
        random_selection(n, (k + 1) as usize, seed).take(k as int) == random_selection(n, k, seed),
{
    lemma_shuffle_permutes(n, seed, k as int);
    lemma_shuffle_permutes(n, seed, k + 1);
    let small = random_selection(n, k, seed);
    let big = random_selection(n, (k + 1) as usize, seed);
    assert(small == shuffle_state(n, seed, k as int).0.take(k as int));
    assert(big == shuffle_state(n, seed, k + 1).0.take(k + 1));
    assert forall|x: int| 0 <= x < k implies #[trigger] random_selection(n, (k + 1) as usize, seed)[x]
        == random_selection(n, k, seed)[x] by {
        lemma_shuffle_keeps_front(n, seed, x, k as int);
        lemma_shuffle_keeps_front(n, seed, x, k + 1);
    }
    assert(random_selection(n, (k + 1) as usize, seed).take(k as int) =~= random_selection(n, k, seed));
}

/// Random selection draws one landmark per step of a partial Fisher-Yates shuffle: when
/// fewer landmarks than points are requested, landmark `t` is the point at position
/// `t + (r mod (n - t))` of the shuffle after `t` steps, where `r` is the next value of
/// the generator; the first landmark is `g(seed) mod n`, for `g` the generator step
/// `x * 6364136223846793005 + 1442695040888963407` (mod 2^64); and asking for one
/// landmark more keeps the landmarks already drawn.
pub proof fn lemma_random_selection_draws(n: usize, k: usize, seed: u64, t: int)
    requires
        k < n,
        0 <= t < k,
    ensures
        random_selection(n, k, seed)[t] == shuffle_state(n, seed, t).0[
            t + ((lcg_next(shuffle_state(n, seed, t).1) as usize) % ((n - t) as usize)) as int],
        random_selection(n, k, seed)[0]
            == ((seed.wrapping_mul(6364136223846793005u64).wrapping_add(1442695040888963407u64)) as usize) % n,
        k + 1 < n ==> random_selection(n, (k + 1) as usize, seed).take(k as int) == random_selection(n, k, seed),
{
    lemma_selection_step(n, k, seed, t);
    lemma_selection_step(n, k, seed, 0);
    let first = (lcg_next(seed) as usize) % (n as usize);
    assert(shuffle_state(n, seed, 0).1 == seed);
    assert(shuffle_state(n, seed, 0).0[first as int] == first);
    if k + 1 < n {
        lemma_selection_prefix(n, k, seed);
    }
}

/// The shuffle starts from `0..n` in order and the seed; each step `t` draws the next
/// generator value `r' = r * 6364136223846793005 + 1442695040888963407` (mod 2^64) and
/// swaps position `t` with position `t + (r' mod (n - t))`, leaving every other position
/// alone, so the selection is a partial Fisher-Yates shuffle driven by that generator.
pub proof fn lemma_shuffle_step(n: usize, seed: u64, t: int, x: int)
    requires
        0 <= t < n,
        0 <= x < n,
    ensures
        shuffle_state(n, seed, 0).0.len() == n,
        shuffle_state(n, seed, 0).0[x] == x,
        shuffle_state(n, seed, 0).1 == seed,
        shuffle_state(n, seed, t + 1).1
            == shuffle_state(n, seed, t).1.wrapping_mul(6364136223846793005u64).wrapping_add(1442695040888963407u64),
        shuffle_state(n, seed, t + 1).0[x] == (
            if x == t {
                shuffle_state(n, seed, t).0[t + ((shuffle_state(n, seed, t + 1).1 as usize) % ((n - t) as usize)) as int]
            } else if x == t + ((shuffle_state(n, seed, t + 1).1 as usize) % ((n - t) as usize)) as int {
                shuffle_state(n, seed, t).0[t]
            } else {
                shuffle_state(n, seed, t).0[x]
            }
        ),
{
    lemma_shuffle_permutes(n, seed, t);
    lemma_shuffle_permutes(n, seed, 0);
    let (perm, rng) = shuffle_state(n, seed, t);
    let r = lcg_next(rng);
    let j = t + ((r as usize) % ((n - t) as usize)) as int;
    assert(shuffle_state(n, seed, t + 1) == (perm.update(t, perm[j]).update(j, perm[t]), r));
}

} // verus!
