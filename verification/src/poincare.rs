//! Poincaré recurrence: finding the times at which a trajectory comes back
//! close to its initial state.
//!
//! A trajectory x_0, x_1, ... is described here by `close`, where `close[i]`
//! says whether x_i lies within the chosen tolerance of x_0. A return is an
//! index i ≥ 1 with `close[i]`; the initial point itself never counts.
use vstd::prelude::*;

verus! {

/// Index i is a return: a later point that lies close to the initial one.
pub open spec fn is_return(close: Seq<bool>, i: int) -> bool {
    1 <= i < close.len() && close[i]
}

/// The indices of all returns, in increasing order.
pub open spec fn return_indices(close: Seq<bool>) -> Seq<usize>
    decreases close.len(),
{
    if close.len() <= 1 {
        seq![]
    } else {
        let earlier = return_indices(close.drop_last());
        if close.last() {
            earlier.push((close.len() - 1) as usize)
        } else {
            earlier
        }
    }
}

/// The first return, or `None` when the trajectory has fewer than two
/// points or never returns.
pub fn first_return(close: &Vec<bool>) -> (res: Option<usize>)
    ensures
        match res {
            Some(i) => 1 <= i < close@.len() && close@[i as int] && forall|k: int|
                1 <= k < i ==> !#[trigger] close@[k],
            None => forall|k: int| 1 <= k < close@.len() ==> !#[trigger] close@[k],
        },
{
    if close.len() < 2 {
        return None;
    }
    let mut i: usize = 1;
    while i < close.len()
        invariant
            1 <= i <= close@.len(),
            forall|k: int| 1 <= k < i ==> !#[trigger] close@[k],
        decreases close.len() - i,
    {
        if close[i] {
            return Some(i);
        }
        i += 1;
    }
    None
}

/// All returns, in the order they occur.
pub fn all_returns(close: &Vec<bool>) -> (res: Vec<usize>)
    ensures
        res@ == return_indices(close@),
        forall|i: int| 1 <= i < close@.len() && #[trigger] close@[i] ==> res@.contains(i as usize),
        forall|k: int|
            0 <= k < res@.len() ==> 1 <= #[trigger] res@[k] < close@.len() && close@[res@[k] as int],
        forall|k1: int, k2: int| 0 <= k1 < k2 < res@.len() ==> #[trigger] res@[k1] < #[trigger] res@[k2],
{
    let mut res: Vec<usize> = Vec::new();
    if close.len() < 2 {
        return res;
    }
    let mut i: usize = 1;
    proof {
        assert(return_indices(close@.take(1)) == Seq::<usize>::empty());
    }
    while i < close.len()
        invariant
            1 <= i <= close@.len(),
            res@ == return_indices(close@.take(i as int)),
        decreases close.len() - i,
    {
        proof {
            assert(close@.take(i + 1).drop_last() =~= close@.take(i as int));
        }
        if close[i] {
            res.push(i);
        }
        i += 1;
    }
    proof {
        assert(close@.take(close@.len() as int) =~= close@);
        lemma_return_indices(close@);
        assert forall|i: int| 1 <= i < close@.len() && #[trigger] close@[i] implies res@.contains(
            i as usize,
        ) by {
            assert(is_return(close@, i));
        }
        assert forall|k: int| 0 <= k < res@.len() implies 1 <= #[trigger] res@[k] < close@.len()
            && close@[res@[k] as int] by {
            assert(is_return(close@, res@[k] as int));
        }
    }
    res
}

/// The returns are exactly the return indices, each once, in strictly
/// increasing order.
pub proof fn lemma_return_indices(close: Seq<bool>)
    requires
        close.len() <= usize::MAX,
    ensures
        forall|k: int|
            0 <= k < return_indices(close).len() ==> is_return(
                close,
                #[trigger] return_indices(close)[k] as int,
            ),
        forall|k1: int, k2: int|
            0 <= k1 < k2 < return_indices(close).len() ==> #[trigger] return_indices(close)[k1]
                < #[trigger] return_indices(close)[k2],
        forall|i: int| #[trigger] is_return(close, i) ==> return_indices(close).contains(i as usize),
        forall|i: int|
            1 <= i < close.len() && #[trigger] close[i] ==> return_indices(close).contains(i as usize),
        forall|k: int|
            0 <= k < return_indices(close).len() ==> 1 <= #[trigger] return_indices(close)[k]
                < close.len() && close[return_indices(close)[k] as int],
    decreases close.len(),
{
    if close.len() > 1 {
        let prev = close.drop_last();
        lemma_return_indices(prev);
        let rs = return_indices(close);
        let ps = return_indices(prev);
        let last = (close.len() - 1) as usize;
        assert forall|x: int| #[trigger] is_return(prev, x) implies is_return(close, x) by {
            assert(prev[x] == close[x]);
        }
        assert forall|x: int| #[trigger] is_return(close, x) && x < close.len() - 1 implies is_return(prev, x) by {
            assert(prev[x] == close[x]);
        }
        if close.last() {
            assert(rs == ps.push(last));
            assert forall|i: int| #[trigger] is_return(close, i) implies rs.contains(i as usize) by {
                if i < close.len() - 1 {
                    assert(is_return(prev, i));
                    let k = choose|k: int| 0 <= k < ps.len() && ps[k] == i as usize;
                    assert(rs[k] == ps[k]);
                } else {
                    assert(rs[rs.len() - 1] == i as usize);
                }
            }
            assert forall|k: int| 0 <= k < rs.len() implies is_return(close, #[trigger] rs[k] as int) by {
                if k < ps.len() {
                    assert(rs[k] == ps[k]);
                    assert(is_return(prev, ps[k] as int));
                } else {
                    assert(rs[k] == last);
                }
            }
            assert forall|k1: int, k2: int| 0 <= k1 < k2 < rs.len() implies #[trigger] rs[k1]
                < #[trigger] rs[k2] by {
                assert(rs[k1] == ps[k1]);
                if k2 < ps.len() {
                    assert(rs[k2] == ps[k2]);
                } else {
                    assert(is_return(prev, ps[k1] as int));
                    assert(rs[k2] == last);
                }
            }
        } else {
            assert(rs == ps);
            assert forall|i: int| #[trigger] is_return(close, i) implies rs.contains(i as usize) by {
                assert(is_return(prev, i));
            }
            assert forall|k: int| 0 <= k < rs.len() implies is_return(close, #[trigger] rs[k] as int) by {
                assert(is_return(prev, ps[k] as int));
            }
        }
    }
    assert forall|i: int| 1 <= i < close.len() && #[trigger] close[i] implies return_indices(
        close,
    ).contains(i as usize) by {
        assert(is_return(close, i));
    }
}

/// The first return is the first of all returns.
pub proof fn lemma_first_return_heads_all_returns(close: Seq<bool>, first: Option<usize>)
    requires
        close.len() <= usize::MAX,
        match first {
            Some(i) => 1 <= i < close.len() && close[i as int] && forall|k: int|
                1 <= k < i ==> !#[trigger] close[k],
            None => forall|k: int| 1 <= k < close.len() ==> !#[trigger] close[k],
        },
    ensures
        first == (if return_indices(close).len() > 0 {
            Some(return_indices(close)[0])
        } else {
            None
        }),
{
    lemma_return_indices(close);
    let rs = return_indices(close);
    match first {
        Some(i) => {
            assert(is_return(close, i as int));
            let k = choose|k: int| 0 <= k < rs.len() && rs[k] == i;
            assert(is_return(close, rs[0] as int));
            if k > 0 {
                assert(rs[0] < rs[k]);
            }
        },
        None => {
            if rs.len() > 0 {
                assert(is_return(close, rs[0] as int));
            }
        },
    }
}

/// The span from the first to the last return, in steps, and the number of
/// intervals between consecutive returns; `None` with fewer than two returns.
/// The mean recurrence time is span · dt / intervals.
pub fn recurrence_span(close: &Vec<bool>) -> (res: Option<(usize, usize)>)
    ensures
        res is None <==> !exists|a: int, b: int|
            1 <= a < b < close@.len() && #[trigger] close@[a] && #[trigger] close@[b],
        forall|s: usize, c: usize|
            res == Some((s, c)) ==> exists|a: int, b: int|
                1 <= a < b < close@.len() && #[trigger] close@[a] && #[trigger] close@[b] && (
                forall|x: int| 1 <= x < a ==> !#[trigger] close@[x]) && (forall|x: int|
                    b < x < close@.len() ==> !#[trigger] close@[x]) && s == b - a && c + 1 == Set::new(
                    |i: int| 1 <= i < close@.len() && close@[i],
                ).len(),
        return_indices(close@).len() < 2 ==> res is None,
        return_indices(close@).len() >= 2 ==> res == Some(
            (
                (return_indices(close@).last() - return_indices(close@)[0]) as usize,
                (return_indices(close@).len() - 1) as usize,
            ),
        ),
{
    let found = all_returns(close);
    proof {
        assert(close@.len() == close.len());
        lemma_return_indices(close@);
        lemma_return_count(close@);
    }
    if found.len() < 2 {
        proof {
            assert forall|a: int, b: int|
                1 <= a < b < close@.len() && #[trigger] close@[a] && #[trigger] close@[b] implies false by {
                assert(found@.contains(a as usize));
                assert(found@.contains(b as usize));
                let ka = choose|k: int| 0 <= k < found@.len() && found@[k] == a as usize;
                let kb = choose|k: int| 0 <= k < found@.len() && found@[k] == b as usize;
                assert(ka != kb);
            }
        }
        return None;
    }
    let last = found.len() - 1;
    let ghost a = found@[0] as int;
    let ghost b = found@[last as int] as int;
    proof {
        assert(found@[0] < found@[last as int]);
        assert forall|x: int| 1 <= x < a implies !#[trigger] close@[x] by {
            if close@[x] {
                assert(found@.contains(x as usize));
                let k = choose|k: int| 0 <= k < found@.len() && found@[k] == x as usize;
                if k > 0 {
                    assert(found@[0] < found@[k]);
                }
            }
        }
        assert forall|x: int| b < x < close@.len() implies !#[trigger] close@[x] by {
            if close@[x] {
                assert(found@.contains(x as usize));
                let k = choose|k: int| 0 <= k < found@.len() && found@[k] == x as usize;
                if k < last {
                    assert(found@[k] < found@[last as int]);
                }
            }
        }
        assert(close@[a] && close@[b]);
    }
    Some((found[last] - found[0], found.len() - 1))
}

/// The number of returns is the number of indices i ≥ 1 whose point lies
/// close to the initial one.
pub proof fn lemma_return_count(close: Seq<bool>)
    requires
        close.len() <= usize::MAX,
    ensures
        Set::new(|i: int| 1 <= i < close.len() && close[i]).finite(),
        return_indices(close).len() == Set::new(|i: int| 1 <= i < close.len() && close[i]).len(),
    decreases close.len(),
{
    let here = Set::new(|i: int| 1 <= i < close.len() && close[i]);
    if close.len() <= 1 {
        assert(here =~= Set::<int>::empty());
    } else {
        let prev = close.drop_last();
        lemma_return_count(prev);
        let before = Set::new(|i: int| 1 <= i < prev.len() && prev[i]);
        let top = close.len() - 1;
        assert forall|i: int| 0 <= i < prev.len() implies prev[i] == close[i] by {}
        if close.last() {
            assert(here =~= before.insert(top));
            assert(!before.contains(top));
        } else {
            assert(here =~= before);
        }
    }
}

} // verus!
