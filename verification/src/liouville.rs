//! Liouville's theorem: the phase space volume form Ω^n / n! is preserved by
//! Hamiltonian flows.
use vstd::prelude::*;

verus! {

/// n! = 1 · 2 · … · n
pub open spec fn factorial(n: nat) -> nat
    decreases n,
{
    if n == 0 {
        1
    } else {
        n * factorial((n - 1) as nat)
    }
}

/// Liouville's theorem: the phase space volume form is preserved by Hamiltonian flows.
pub struct LiouvilleTheorem;

/// The factorial is positive and grows with its argument.
proof fn lemma_factorial_monotone(a: nat, b: nat)
    requires
        a <= b,
    ensures
        1 <= factorial(a) <= factorial(b),
    decreases b,
{
    if b > 0 {
        if a == b {
            lemma_factorial_monotone((b - 1) as nat, (b - 1) as nat);
        } else {
            lemma_factorial_monotone(a, (b - 1) as nat);
        }
        let f = factorial((b - 1) as nat);
        assert(f <= b * f) by (nonlinear_arith)
            requires
                b >= 1,
                f >= 1,
        ;
    }
}

impl LiouvilleTheorem {
    /// The normalising factor n! of the volume form Ω^n / n! on R^{2n}, or
    /// `None` when n! does not fit in a usize.
    pub fn volume_normalization(n: usize) -> (res: Option<usize>)
        ensures
            factorial(n as nat) <= usize::MAX ==> res == Some(factorial(n as nat) as usize),
            factorial(n as nat) > usize::MAX ==> res is None,
            n <= 1 ==> res == Some(1usize),
    {
        proof {
            assert(factorial(1) == 1 * factorial(0));
        }
        let mut acc: usize = 1;
        let mut k: usize = 0;
        while k < n
            invariant
                k <= n,
                acc as nat == factorial(k as nat),
                factorial(1) == 1,
            decreases n - k,
        {
            let next = k + 1;
            match acc.checked_mul(next) {
                Some(v) => {
                    acc = v;
                },
                None => {
                    proof {
                        assert(factorial(next as nat) == next * factorial(k as nat));
                        lemma_factorial_monotone(next as nat, n as nat);
                    }
                    return None;
                },
            }
            k = next;
        }
        Some(acc)
    }
}

/// 0! = 1 and (n + 1)! = (n + 1) · n!: each factorial is the previous one
/// times the next integer.
pub proof fn lemma_factorial_step(n: nat)
    ensures
        factorial(0) == 1,
        factorial(n + 1) == (n + 1) * factorial(n),
{
}

} // verus!
