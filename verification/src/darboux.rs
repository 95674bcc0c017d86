//! Darboux coordinates: the greedy search for a symplectic basis.
//!
//! Given which pairs of basis vectors have ω(e_i, e_j) ≠ 0, the search takes,
//! n times, the least basis index i not used yet and pairs it with the least
//! unused index j ≠ i such that ω(e_i, e_j) ≠ 0. The Darboux transformation
//! then has e_i and e_j / ω(e_i, e_j) as its next two columns.
use vstd::prelude::*;
use vstd::set_lib::{lemma_int_range, lemma_len_subset, lemma_subset_equality, set_int_range};

verus! {

/// The rows of a boolean matrix as sequences.
pub open spec fn rows_view(m: Seq<Vec<bool>>) -> Seq<Seq<bool>> {
    Seq::new(m.len(), |r: int| m[r]@)
}

/// Index x is one of the indices of some pair in `pairs`.
pub open spec fn pair_used(pairs: Seq<(usize, usize)>, x: int) -> bool {
    exists|k: int| 0 <= k < pairs.len() && (#[trigger] pairs[k].0 == x || pairs[k].1 == x)
}

/// The set of indices used by `pairs`.
pub open spec fn used_set(pairs: Seq<(usize, usize)>) -> Set<int> {
    Set::new(|x: int| pair_used(pairs, x))
}

/// (i, j) is the choice of the greedy search after the pairs in `prefix`:
/// i is the least unused index, and j is the least unused index other than i
/// with ω(e_i, e_j) ≠ 0.
pub open spec fn is_greedy_choice(
    nonzero: Seq<Seq<bool>>,
    prefix: Seq<(usize, usize)>,
    i: int,
    j: int,
) -> bool {
    &&& 0 <= i < nonzero.len()
    &&& !pair_used(prefix, i)
    &&& forall|x: int| 0 <= x < i ==> #[trigger] pair_used(prefix, x)
    &&& 0 <= j < nonzero.len()
    &&& j != i
    &&& !pair_used(prefix, j)
    &&& nonzero[i][j]
    &&& forall|y: int| 0 <= y < j && y != i && !#[trigger] pair_used(prefix, y) ==> !nonzero[i][y]
}

/// Every pair of `pairs` is the greedy choice after the pairs before it.
pub open spec fn is_greedy_pairing(nonzero: Seq<Seq<bool>>, pairs: Seq<(usize, usize)>) -> bool
    decreases pairs.len(),
{
    if pairs.len() == 0 {
        true
    } else {
        is_greedy_pairing(nonzero, pairs.drop_last()) && is_greedy_choice(
            nonzero,
            pairs.drop_last(),
            pairs.last().0 as int,
            pairs.last().1 as int,
        )
    }
}

/// After `prefix`, the least unused index has no unused partner j with
/// ω(e_i, e_j) ≠ 0, so the search cannot go on.
pub open spec fn is_stuck(nonzero: Seq<Seq<bool>>, prefix: Seq<(usize, usize)>) -> bool {
    exists|i: int|
        0 <= i < nonzero.len() && !#[trigger] pair_used(prefix, i) && (forall|x: int|
            0 <= x < i ==> #[trigger] pair_used(prefix, x)) && (forall|y: int|
            0 <= y < nonzero.len() && y != i && !#[trigger] pair_used(prefix, y) ==> !nonzero[i][y])
}

/// Why no Darboux basis was found.
#[derive(Debug, Clone, Copy, PartialEq, Eq)]
pub enum DarbouxError {
    /// Some basis vector has no remaining partner it pairs with under ω.
    NoSymplecticPair,
}

/// Run the greedy search for n symplectic pairs on a 2n × 2n pattern, where
/// `nonzero[i][j]` says whether ω(e_i, e_j) ≠ 0.
pub fn symplectic_pairs(nonzero: &Vec<Vec<bool>>, n: usize) -> (res: Result<
    Vec<(usize, usize)>,
    DarbouxError,
>)
    requires
        nonzero@.len() == 2 * n,
        forall|r: int| 0 <= r < 2 * n ==> (#[trigger] nonzero@[r])@.len() == 2 * n,
    ensures
        match res {
            Ok(pairs) => pairs@.len() == n && is_greedy_pairing(rows_view(nonzero@), pairs@),
            Err(e) => e == DarbouxError::NoSymplecticPair && exists|prefix: Seq<(usize, usize)>|
                prefix.len() < n && #[trigger] is_greedy_pairing(rows_view(nonzero@), prefix)
                    && is_stuck(rows_view(nonzero@), prefix),
        },
        // Each pair (i, j) takes the least index i no earlier pair uses, and
        // the least index j != i no earlier pair uses with ω(e_i, e_j) ≠ 0.
        res matches Ok(pairs) ==> forall|k: int|
                0 <= k < pairs@.len() ==> {
                    let i = (#[trigger] pairs@[k]).0 as int;
                    let j = pairs@[k].1 as int;
                    &&& 0 <= i < nonzero@.len()
                    &&& 0 <= j < nonzero@.len()
                    &&& i != j
                    &&& nonzero@[i]@[j]
                    &&& forall|k2: int|
                        0 <= k2 < k ==> pairs@[k2].0 != i && pairs@[k2].1 != i && pairs@[k2].0 != j
                            && pairs@[k2].1 != j
                    &&& Set::new(|x: int| 0 <= x < i).subset_of(Set::new(|x: int| exists|k2: int| 0 <= k2 < k && (pairs@[k2].0 == x || pairs@[k2].1 == x)))
                    &&& forall|y: int|
                        #![trigger nonzero@[i]@[y]]
                        0 <= y < j && y != i && (forall|k2: int|
                            0 <= k2 < k ==> pairs@[k2].0 != y && pairs@[k2].1 != y) ==> !nonzero@[i]@[y]
                },
        // On failure, some prefix of such pairs, shorter than n, leaves the
        // least unused index i with no unused j != i such that ω(e_i, e_j) ≠ 0.
        res is Err ==> exists|prefix: Seq<(usize, usize)>|
            #![trigger prefix.len()]
            prefix.len() < n && (forall|k: int|
                    0 <= k < prefix.len() ==> {
                        let i = (#[trigger] prefix[k]).0 as int;
                        let j = prefix[k].1 as int;
                        &&& 0 <= i < nonzero@.len()
                        &&& 0 <= j < nonzero@.len()
                        &&& i != j
                        &&& nonzero@[i]@[j]
                        &&& forall|k2: int|
                            0 <= k2 < k ==> prefix[k2].0 != i && prefix[k2].1 != i && prefix[k2].0 != j
                                && prefix[k2].1 != j
                        &&& Set::new(|x: int| 0 <= x < i).subset_of(Set::new(|x: int| exists|k2: int| 0 <= k2 < k && (prefix[k2].0 == x || prefix[k2].1 == x)))
                        &&& forall|y: int|
                            #![trigger nonzero@[i]@[y]]
                            0 <= y < j && y != i && (forall|k2: int|
                                0 <= k2 < k ==> prefix[k2].0 != y && prefix[k2].1 != y) ==> !nonzero@[i]@[y]
                    }) && (forall|i: int|
                    #![trigger nonzero@[i]]
                    0 <= i < nonzero@.len() && (forall|k2: int|
                        0 <= k2 < prefix.len() ==> prefix[k2].0 != i && prefix[k2].1 != i) && (Set::new(|x: int| 0 <= x < i).subset_of(Set::new(|x: int| exists|k2: int| 0 <= k2 < prefix.len() && (prefix[k2].0 == x || prefix[k2].1 == x)))) ==> (forall|y: int|
                        #![trigger nonzero@[i]@[y]]
                        0 <= y < nonzero@.len() && y != i && (forall|k2: int|
                            0 <= k2 < prefix.len() ==> prefix[k2].0 != y && prefix[k2].1 != y) ==> !nonzero@[i]@[y])),
{
    let dim = nonzero.len();
    let ghost nz = rows_view(nonzero@);
    let mut used: Vec<bool> = Vec::new();
    let mut k: usize = 0;
    while k < dim
        invariant
            k <= dim,
            used@.len() == k,
            forall|x: int| 0 <= x < k ==> !#[trigger] used@[x],
        decreases dim - k,
    {
        used.push(false);
        k += 1;
    }
    let mut pairs: Vec<(usize, usize)> = Vec::new();
    assert forall|x: int| 0 <= x < dim implies used@[x] == pair_used(pairs@, x) by {}
    let mut step: usize = 0;
    while step < n
        invariant
            dim == nonzero@.len(),
            dim == 2 * n,
            nz == rows_view(nonzero@),
            forall|r: int| 0 <= r < 2 * n ==> (#[trigger] nonzero@[r])@.len() == 2 * n,
            used@.len() == dim,
            step <= n,
            pairs@.len() == step,
            is_greedy_pairing(nz, pairs@),
            forall|x: int| 0 <= x < dim ==> #[trigger] used@[x] == pair_used(pairs@, x),
        decreases n - step,
    {
        let mut i: usize = 0;
        while i < dim && used[i]
            invariant
                i <= dim,
                used@.len() == dim,
                forall|x: int| 0 <= x < dim ==> #[trigger] used@[x] == pair_used(pairs@, x),
                forall|x: int| 0 <= x < i ==> #[trigger] pair_used(pairs@, x),
            decreases dim - i,
        {
            i += 1;
        }
        if i == dim {
            proof {
                lemma_greedy_used_count(nz, pairs@);
                lemma_int_range(0, dim as int);
                assert(set_int_range(0, dim as int).subset_of(used_set(pairs@)));
                lemma_len_subset(set_int_range(0, dim as int), used_set(pairs@));
            }
            assert(false);
            return Err(DarbouxError::NoSymplecticPair);
        }
        let mut j: usize = 0;
        while j < dim && !(j != i && !used[j] && nonzero[i][j])
            invariant
                i < dim,
                j <= dim,
                used@.len() == dim,
                dim == nonzero@.len(),
                nz == rows_view(nonzero@),
                forall|r: int| 0 <= r < 2 * n ==> (#[trigger] nonzero@[r])@.len() == 2 * n,
                dim == 2 * n,
                forall|x: int| 0 <= x < dim ==> #[trigger] used@[x] == pair_used(pairs@, x),
                forall|y: int|
                    0 <= y < j && y != i && !#[trigger] pair_used(pairs@, y) ==> !nz[i as int][y],
            decreases dim - j,
        {
            j += 1;
        }
        if j == dim {
            assert(is_stuck(nz, pairs@)) by {
                assert(!pair_used(pairs@, i as int));
            }
            proof {
                lemma_greedy_pairing_least_partner(nonzero@, pairs@);
                lemma_stuck_at(nonzero@, pairs@, i as int);
                assert(pairs@.len() < n);
                assert(pairs@.len() < n && (forall|k: int|
                    0 <= k < pairs@.len() ==> {
                        let i = (#[trigger] pairs@[k]).0 as int;
                        let j = pairs@[k].1 as int;
                        &&& 0 <= i < nonzero@.len()
                        &&& 0 <= j < nonzero@.len()
                        &&& i != j
                        &&& nonzero@[i]@[j]
                        &&& forall|k2: int|
                            0 <= k2 < k ==> pairs@[k2].0 != i && pairs@[k2].1 != i && pairs@[k2].0 != j
                                && pairs@[k2].1 != j
                        &&& Set::new(|x: int| 0 <= x < i).subset_of(Set::new(|x: int| exists|k2: int| 0 <= k2 < k && (pairs@[k2].0 == x || pairs@[k2].1 == x)))
                        &&& forall|y: int|
                            #![trigger nonzero@[i]@[y]]
                            0 <= y < j && y != i && (forall|k2: int|
                                0 <= k2 < k ==> pairs@[k2].0 != y && pairs@[k2].1 != y) ==> !nonzero@[i]@[y]
                    }) && (forall|i: int|
                    #![trigger nonzero@[i]]
                    0 <= i < nonzero@.len() && (forall|k2: int|
                        0 <= k2 < pairs@.len() ==> pairs@[k2].0 != i && pairs@[k2].1 != i) && (Set::new(|x: int| 0 <= x < i).subset_of(Set::new(|x: int| exists|k2: int| 0 <= k2 < pairs@.len() && (pairs@[k2].0 == x || pairs@[k2].1 == x)))) ==> (forall|y: int|
                        #![trigger nonzero@[i]@[y]]
                        0 <= y < nonzero@.len() && y != i && (forall|k2: int|
                            0 <= k2 < pairs@.len() ==> pairs@[k2].0 != y && pairs@[k2].1 != y) ==> !nonzero@[i]@[y])));
            }
            return Err(DarbouxError::NoSymplecticPair);
        }
        let ghost old_pairs = pairs@;
        assert(is_greedy_choice(nz, old_pairs, i as int, j as int));
        used.set(i, true);
        used.set(j, true);
        pairs.push((i, j));
        proof {
            assert(pairs@.drop_last() =~= old_pairs);
            lemma_pair_used_push(old_pairs, (i, j));
        }
        step += 1;
    }
    proof {
        lemma_greedy_pairing_least_partner(nonzero@, pairs@);
    }
    Ok(pairs)
}

/// The indices used after one more pair are the old ones and the pair's two.
proof fn lemma_pair_used_push(pairs: Seq<(usize, usize)>, p: (usize, usize))
    ensures
        forall|x: int|
            #[trigger] pair_used(pairs.push(p), x) == (pair_used(pairs, x) || x == p.0 as int
                || x == p.1 as int),
{
    let q = pairs.push(p);
    assert forall|x: int| #[trigger]
        pair_used(q, x) == (pair_used(pairs, x) || x == p.0 as int || x == p.1 as int) by {
        if pair_used(pairs, x) {
            let k = choose|k: int| 0 <= k < pairs.len() && (#[trigger] pairs[k].0 == x || pairs[k].1 == x);
            assert(q[k] == pairs[k]);
            assert(q[k].0 == x || q[k].1 == x);
        }
        if x == p.0 as int || x == p.1 as int {
            assert(q[pairs.len() as int] == p);
            assert(q[pairs.len() as int].0 == x || q[pairs.len() as int].1 == x);
        }
        if pair_used(q, x) {
            let k = choose|k: int| 0 <= k < q.len() && (#[trigger] q[k].0 == x || q[k].1 == x);
            if k < pairs.len() {
                assert(q[k] == pairs[k]);
            } else {
                assert(q[k] == p);
            }
        }
    }
}

/// A greedy pairing of length m uses exactly 2m distinct indices, all below
/// the dimension.
proof fn lemma_greedy_used_count(nonzero: Seq<Seq<bool>>, pairs: Seq<(usize, usize)>)
    requires
        is_greedy_pairing(nonzero, pairs),
    ensures
        used_set(pairs).finite(),
        used_set(pairs).len() == 2 * pairs.len(),
        used_set(pairs).subset_of(set_int_range(0, nonzero.len() as int)),
    decreases pairs.len(),
{
    if pairs.len() == 0 {
        assert(used_set(pairs) =~= Set::<int>::empty());
    } else {
        let prefix = pairs.drop_last();
        let p = pairs.last();
        lemma_greedy_used_count(nonzero, prefix);
        assert(pairs =~= prefix.push(p));
        lemma_pair_used_push(prefix, p);
        assert(used_set(pairs) =~= used_set(prefix).insert(p.0 as int).insert(p.1 as int));
    }
}

/// Each pair of a greedy pairing is the greedy choice after the pairs before it.
proof fn lemma_greedy_choices(nonzero: Seq<Seq<bool>>, pairs: Seq<(usize, usize)>)
    requires
        is_greedy_pairing(nonzero, pairs),
    ensures
        forall|k: int|
            0 <= k < pairs.len() ==> is_greedy_choice(
                nonzero,
                pairs.take(k),
                (#[trigger] pairs[k]).0 as int,
                pairs[k].1 as int,
            ),
    decreases pairs.len(),
{
    if pairs.len() > 0 {
        let prefix = pairs.drop_last();
        lemma_greedy_choices(nonzero, prefix);
        assert forall|k: int| 0 <= k < pairs.len() implies is_greedy_choice(
            nonzero,
            pairs.take(k),
            (#[trigger] pairs[k]).0 as int,
            pairs[k].1 as int,
        ) by {
            if k < prefix.len() {
                assert(pairs.take(k) =~= prefix.take(k));
                assert(pairs[k] == prefix[k]);
            } else {
                assert(pairs.take(k) =~= prefix);
            }
        }
    }
}

/// The greedy choice after a given prefix is unique.
proof fn lemma_greedy_choice_unique(
    nonzero: Seq<Seq<bool>>,
    prefix: Seq<(usize, usize)>,
    i1: int,
    j1: int,
    i2: int,
    j2: int,
)
    requires
        is_greedy_choice(nonzero, prefix, i1, j1),
        is_greedy_choice(nonzero, prefix, i2, j2),
    ensures
        i1 == i2,
        j1 == j2,
{
    if i1 < i2 {
        assert(pair_used(prefix, i1));
    }
    if i2 < i1 {
        assert(pair_used(prefix, i2));
    }
    if j1 < j2 {
        assert(!pair_used(prefix, j1));
    }
    if j2 < j1 {
        assert(!pair_used(prefix, j2));
    }
}

/// A successful greedy search splits the 2n basis indices into n disjoint
/// pairs (i, j) with i < j and ω(e_i, e_j) ≠ 0: every index lies in exactly
/// one pair.
pub proof fn lemma_greedy_pairing_partitions(nonzero: Seq<Seq<bool>>, pairs: Seq<(usize, usize)>)
    requires
        is_greedy_pairing(nonzero, pairs),
        nonzero.len() == 2 * pairs.len(),
    ensures
        forall|k: int|
            0 <= k < pairs.len() ==> (#[trigger] pairs[k]).0 < pairs[k].1 < nonzero.len()
                && nonzero[pairs[k].0 as int][pairs[k].1 as int],
        forall|k1: int, k2: int|
            0 <= k1 < k2 < pairs.len() ==> #[trigger] pairs[k1].0 != #[trigger] pairs[k2].0
                && pairs[k1].0 != pairs[k2].1 && pairs[k1].1 != pairs[k2].0 && pairs[k1].1
                != pairs[k2].1,
        forall|x: int| 0 <= x < nonzero.len() ==> #[trigger] pair_used(pairs, x),
{
    lemma_greedy_choices(nonzero, pairs);
    assert forall|k: int| 0 <= k < pairs.len() implies (#[trigger] pairs[k]).0 < pairs[k].1
        < nonzero.len() && nonzero[pairs[k].0 as int][pairs[k].1 as int] by {
        let j = pairs[k].1 as int;
        if j < pairs[k].0 {
            assert(pair_used(pairs.take(k), j));
        }
    }
    assert forall|k1: int, k2: int| 0 <= k1 < k2 < pairs.len() implies #[trigger] pairs[k1].0
        != #[trigger] pairs[k2].0 && pairs[k1].0 != pairs[k2].1 && pairs[k1].1 != pairs[k2].0
        && pairs[k1].1 != pairs[k2].1 by {
        let pre = pairs.take(k2);
        assert(pre[k1] == pairs[k1]);
        assert(pre[k1].0 == pairs[k1].0);
        assert(pair_used(pre, pairs[k1].0 as int));
        assert(pair_used(pre, pairs[k1].1 as int));
        assert(is_greedy_choice(nonzero, pre, pairs[k2].0 as int, pairs[k2].1 as int));
    }
    lemma_greedy_used_count(nonzero, pairs);
    lemma_int_range(0, nonzero.len() as int);
    lemma_subset_equality(used_set(pairs), set_int_range(0, nonzero.len() as int));
    assert forall|x: int| 0 <= x < nonzero.len() implies #[trigger] pair_used(pairs, x) by {
        assert(set_int_range(0, nonzero.len() as int).contains(x));
    }
}

/// The greedy search is deterministic: of two greedy pairings on the same
/// pattern, the shorter is a prefix of the longer.
pub proof fn lemma_greedy_pairing_unique(
    nonzero: Seq<Seq<bool>>,
    p1: Seq<(usize, usize)>,
    p2: Seq<(usize, usize)>,
)
    requires
        is_greedy_pairing(nonzero, p1),
        is_greedy_pairing(nonzero, p2),
        p1.len() <= p2.len(),
    ensures
        p2.take(p1.len() as int) == p1,
    decreases p1.len(),
{
    if p1.len() > 0 {
        let m = p1.len() - 1;
        let q1 = p1.drop_last();
        lemma_greedy_pairing_unique(nonzero, q1, p2);
        lemma_greedy_choices(nonzero, p2);
        assert(p2.take(m) == q1);
        assert(is_greedy_choice(nonzero, p2.take(m), p2[m].0 as int, p2[m].1 as int));
        lemma_greedy_choice_unique(
            nonzero,
            q1,
            p1.last().0 as int,
            p1.last().1 as int,
            p2[m].0 as int,
            p2[m].1 as int,
        );
        assert(p2[m] == p1.last());
        assert(p2.take(p1.len() as int) =~= p1);
    }
}

/// Once the greedy search is stuck, no greedy pairing goes further: the search
/// fails exactly when no greedy pairing of the full length exists.
pub proof fn lemma_stuck_is_final(
    nonzero: Seq<Seq<bool>>,
    prefix: Seq<(usize, usize)>,
    pairs: Seq<(usize, usize)>,
)
    requires
        is_greedy_pairing(nonzero, prefix),
        is_stuck(nonzero, prefix),
        is_greedy_pairing(nonzero, pairs),
    ensures
        pairs.len() <= prefix.len(),
{
    if pairs.len() > prefix.len() {
        let m = prefix.len() as int;
        lemma_greedy_pairing_unique(nonzero, prefix, pairs);
        lemma_greedy_choices(nonzero, pairs);
        assert(pairs.take(m) == prefix);
        let i = pairs[m].0 as int;
        let j = pairs[m].1 as int;
        assert(is_greedy_choice(nonzero, prefix, i, j));
        let s = choose|s: int|
            0 <= s < nonzero.len() && !#[trigger] pair_used(prefix, s) && (forall|x: int|
                0 <= x < s ==> #[trigger] pair_used(prefix, x)) && (forall|y: int|
                0 <= y < nonzero.len() && y != s && !#[trigger] pair_used(prefix, y)
                    ==> !nonzero[s][y]);
        if s < i {
            assert(pair_used(prefix, s));
        }
        if i < s {
            assert(pair_used(prefix, i));
        }
        assert(!nonzero[i][j]);
    }
}

/// A greedy pairing takes, at each step, the least index i that no earlier
/// pair uses, and pairs it with the least index j ≠ i that no earlier pair
/// uses and for which ω(e_i, e_j) ≠ 0.
pub proof fn lemma_greedy_pairing_least_partner(nonzero: Seq<Vec<bool>>, pairs: Seq<(usize, usize)>)
    requires
        is_greedy_pairing(rows_view(nonzero), pairs),
    ensures
        forall|k: int|
            0 <= k < pairs.len() ==> {
                let i = (#[trigger] pairs[k]).0 as int;
                let j = pairs[k].1 as int;
                &&& 0 <= i < nonzero.len()
                &&& 0 <= j < nonzero.len()
                &&& i != j
                &&& nonzero[i]@[j]
                &&& forall|k2: int|
                    0 <= k2 < k ==> pairs[k2].0 != i && pairs[k2].1 != i && pairs[k2].0 != j
                        && pairs[k2].1 != j
                &&& Set::new(|x: int| 0 <= x < i).subset_of(Set::new(|x: int| exists|k2: int| 0 <= k2 < k && (pairs[k2].0 == x || pairs[k2].1 == x)))
                &&& forall|y: int|
                    #![trigger nonzero[i]@[y]]
                    0 <= y < j && y != i && (forall|k2: int|
                        0 <= k2 < k ==> pairs[k2].0 != y && pairs[k2].1 != y) ==> !nonzero[i]@[y]
            },
{
    let nz = rows_view(nonzero);
    lemma_greedy_choices(nz, pairs);
    assert forall|k: int| 0 <= k < pairs.len() implies {
        let i = (#[trigger] pairs[k]).0 as int;
        let j = pairs[k].1 as int;
        &&& 0 <= i < nonzero.len()
        &&& 0 <= j < nonzero.len()
        &&& i != j
        &&& nonzero[i]@[j]
        &&& forall|k2: int|
            0 <= k2 < k ==> pairs[k2].0 != i && pairs[k2].1 != i && pairs[k2].0 != j
                && pairs[k2].1 != j
        &&& Set::new(|x: int| 0 <= x < i).subset_of(Set::new(|x: int| exists|k2: int| 0 <= k2 < k && (pairs[k2].0 == x || pairs[k2].1 == x)))
        &&& forall|y: int|
            #![trigger nonzero[i]@[y]]
            0 <= y < j && y != i && (forall|k2: int|
                0 <= k2 < k ==> pairs[k2].0 != y && pairs[k2].1 != y) ==> !nonzero[i]@[y]
    } by {
        let pre = pairs.take(k);
        assert(is_greedy_choice(nz, pre, (pairs[k].0 as int), (pairs[k].1 as int)));
        assert(nz[(pairs[k].0 as int)] == nonzero[(pairs[k].0 as int)]@);
        assert(0 <= (pairs[k].0 as int) < nonzero.len());
        assert(0 <= (pairs[k].1 as int) < nonzero.len());
        assert((pairs[k].0 as int) != (pairs[k].1 as int));
        assert(nonzero[(pairs[k].0 as int)]@[(pairs[k].1 as int)]);
        assert forall|k2: int| 0 <= k2 < k implies pairs[k2].0 != (pairs[k].0 as int) && pairs[k2].1 != (pairs[k].0 as int)
            && pairs[k2].0 != (pairs[k].1 as int) && pairs[k2].1 != (pairs[k].1 as int) by {
            assert(pre[k2] == pairs[k2]);
            if pairs[k2].0 == (pairs[k].0 as int) || pairs[k2].1 == (pairs[k].0 as int) {
                assert(pair_used(pre, (pairs[k].0 as int)));
            }
            if pairs[k2].0 == (pairs[k].1 as int) || pairs[k2].1 == (pairs[k].1 as int) {
                assert(pair_used(pre, (pairs[k].1 as int)));
            }
        }
        let below = Set::new(|x: int| 0 <= x < (pairs[k].0 as int));
        let earlier = Set::new(|x: int| exists|k2: int| 0 <= k2 < k && (pairs[k2].0 == x || pairs[k2].1 == x));
        assert forall|x: int| below.contains(x) implies earlier.contains(x) by {
            assert(pair_used(pre, x));
            let k2 = choose|k2: int| 0 <= k2 < pre.len() && (#[trigger] pre[k2].0 == x || pre[k2].1 == x);
            assert(pre[k2] == pairs[k2]);
            assert(0 <= k2 < k && (pairs[k2].0 == x || pairs[k2].1 == x));
        }
        assert(below.subset_of(earlier));
        assert forall|y: int| #![trigger nonzero[(pairs[k].0 as int)]@[y]] 0 <= y < (pairs[k].1 as int) && y != (pairs[k].0 as int) && (forall|k2: int|
            0 <= k2 < k ==> pairs[k2].0 != y && pairs[k2].1 != y) implies !nonzero[(pairs[k].0 as int)]@[y] by {
            if pair_used(pre, y) {
                let k2 = choose|k2: int| 0 <= k2 < pre.len() && (#[trigger] pre[k2].0 == y || pre[k2].1 == y);
                assert(pre[k2] == pairs[k2]);
            }
        }
    }
}

/// If the least index s that no pair of `prefix` uses has no partner j ≠ s,
/// unused by `prefix`, with ω(e_s, e_j) ≠ 0, then every index that no pair of
/// `prefix` uses while every smaller index is used is that s, and has no
/// such partner.
proof fn lemma_stuck_at(nonzero: Seq<Vec<bool>>, prefix: Seq<(usize, usize)>, s: int)
    requires
        0 <= s < nonzero.len(),
        !pair_used(prefix, s),
        forall|x: int| 0 <= x < s ==> #[trigger] pair_used(prefix, x),
        forall|y: int|
            0 <= y < nonzero.len() && y != s && !#[trigger] pair_used(prefix, y) ==> !rows_view(nonzero)[s][y],
    ensures
        forall|i: int|
            #![trigger nonzero[i]]
            0 <= i < nonzero.len() && (forall|k2: int|
                0 <= k2 < prefix.len() ==> prefix[k2].0 != i && prefix[k2].1 != i) && (Set::new(|x: int| 0 <= x < i).subset_of(Set::new(|x: int| exists|k2: int| 0 <= k2 < prefix.len() && (prefix[k2].0 == x || prefix[k2].1 == x)))) ==> (forall|y: int|
                #![trigger nonzero[i]@[y]]
                0 <= y < nonzero.len() && y != i && (forall|k2: int|
                    0 <= k2 < prefix.len() ==> prefix[k2].0 != y && prefix[k2].1 != y) ==> !nonzero[i]@[y]),
{
    let nz = rows_view(nonzero);
    assert forall|i: int|
        #![trigger nonzero[i]]
        0 <= i < nonzero.len() && (forall|k2: int|
            0 <= k2 < prefix.len() ==> prefix[k2].0 != i && prefix[k2].1 != i) && (Set::new(|x: int| 0 <= x < i).subset_of(Set::new(|x: int| exists|k2: int| 0 <= k2 < prefix.len() && (prefix[k2].0 == x || prefix[k2].1 == x)))) implies (forall|y: int|
            #![trigger nonzero[i]@[y]]
            0 <= y < nonzero.len() && y != i && (forall|k2: int|
                0 <= k2 < prefix.len() ==> prefix[k2].0 != y && prefix[k2].1 != y) ==> !nonzero[i]@[y]) by {
        if i < s {
            assert(pair_used(prefix, i));
            let k2 = choose|k2: int| 0 <= k2 < prefix.len() && (#[trigger] prefix[k2].0 == i || prefix[k2].1 == i);
            assert(false);
        }
        if s < i {
            assert(Set::new(|x: int| 0 <= x < i).contains(s));
            assert(Set::new(|x: int| exists|k2: int| 0 <= k2 < prefix.len() && (prefix[k2].0 == x || prefix[k2].1 == x)).contains(s));
            let k2 = choose|k2: int| 0 <= k2 < prefix.len() && (prefix[k2].0 == s || prefix[k2].1 == s);
            assert(prefix[k2].0 == s || prefix[k2].1 == s);
            assert(pair_used(prefix, s));
            assert(false);
        }
        assert(nz[i] == nonzero[i]@);
        assert forall|y: int| #![trigger nonzero[i]@[y]] 0 <= y < nonzero.len() && y != i && (forall|k2: int|
            0 <= k2 < prefix.len() ==> prefix[k2].0 != y && prefix[k2].1 != y) implies !nonzero[i]@[y] by {
            if pair_used(prefix, y) {
                let k2 = choose|k2: int| 0 <= k2 < prefix.len() && (#[trigger] prefix[k2].0 == y || prefix[k2].1 == y);
            }
            assert(nz[i][y] == nonzero[i]@[y]);
        }
    }
}

/// When the greedy search is stuck after `prefix`, the least index that no
/// pair of `prefix` uses has no partner j ≠ i, unused by `prefix`, with
/// ω(e_i, e_j) ≠ 0.
pub proof fn lemma_stuck_least_index(nonzero: Seq<Vec<bool>>, prefix: Seq<(usize, usize)>)
    requires
        is_stuck(rows_view(nonzero), prefix),
    ensures
        forall|i: int|
            #![trigger nonzero[i]]
            0 <= i < nonzero.len() && (forall|k2: int|
                0 <= k2 < prefix.len() ==> prefix[k2].0 != i && prefix[k2].1 != i) && (Set::new(|x: int| 0 <= x < i).subset_of(Set::new(|x: int| exists|k2: int| 0 <= k2 < prefix.len() && (prefix[k2].0 == x || prefix[k2].1 == x)))) ==> (forall|y: int|
                #![trigger nonzero[i]@[y]]
                0 <= y < nonzero.len() && y != i && (forall|k2: int|
                    0 <= k2 < prefix.len() ==> prefix[k2].0 != y && prefix[k2].1 != y) ==> !nonzero[i]@[y]),
{
    let nz = rows_view(nonzero);
    let i = choose|i: int|
        0 <= i < nz.len() && !#[trigger] pair_used(prefix, i) && (forall|x: int|
            0 <= x < i ==> #[trigger] pair_used(prefix, x)) && (forall|y: int|
            0 <= y < nz.len() && y != i && !#[trigger] pair_used(prefix, y) ==> !nz[i][y]);
    lemma_stuck_at(nonzero, prefix, i);
}

} // verus!
