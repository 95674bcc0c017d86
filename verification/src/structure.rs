//! The canonical structure matrix J = [0 I_n; -I_n 0] on R^{2n}, and the shape
//! that every symplectic form or symplectic matrix must have (square, even
//! dimension 2n).
use vstd::prelude::*;
use crate::poisson::kronecker;

verus! {

/// Entry (r, c) of the canonical matrix J = [0 I_n; -I_n 0] of size 2n × 2n:
/// 1 at (i, n + i), -1 at (n + i, i), 0 elsewhere.
pub open spec fn canonical_entry(n: int, r: int, c: int) -> int {
    if 0 <= r < n && c == r + n {
        1
    } else if n <= r < 2 * n && c == r - n {
        -1
    } else {
        0
    }
}

/// The canonical matrix J as a function of (row, column).
pub open spec fn canonical_matrix(n: int) -> spec_fn(int, int) -> int {
    |r: int, c: int| canonical_entry(n, r, c)
}

/// Σ_{k < m} f(k)
pub open spec fn sum_to(f: spec_fn(int) -> int, m: nat) -> int
    decreases m,
{
    if m == 0 {
        0
    } else {
        sum_to(f, (m - 1) as nat) + f(m - 1)
    }
}

/// Entry (r, c) of the product A·B of two dim × dim matrices.
pub open spec fn product_entry(
    a: spec_fn(int, int) -> int,
    b: spec_fn(int, int) -> int,
    dim: nat,
    r: int,
    c: int,
) -> int {
    sum_to(|k: int| a(r, k) * b(k, c), dim)
}

/// The product A·B of two dim × dim matrices.
pub open spec fn product(
    a: spec_fn(int, int) -> int,
    b: spec_fn(int, int) -> int,
    dim: nat,
) -> spec_fn(int, int) -> int {
    |r: int, c: int| product_entry(a, b, dim, r, c)
}

/// The transpose Aᵀ.
pub open spec fn transpose(a: spec_fn(int, int) -> int) -> spec_fn(int, int) -> int {
    |r: int, c: int| a(c, r)
}

/// Build the canonical matrix J = [0 I_n; -I_n 0] row by row, with its exact
/// integer entries.
pub fn canonical_j_entries(n: usize) -> (m: Vec<Vec<i8>>)
    requires
        n <= usize::MAX / 2,
    ensures
        m@.len() == 2 * n,
        forall|r: int| 0 <= r < 2 * n ==> #[trigger] m@[r]@.len() == 2 * n,
        forall|r: int, c: int|
            0 <= r < 2 * n && 0 <= c < 2 * n ==> #[trigger] m@[r]@[c] as int == canonical_entry(
                n as int,
                r,
                c,
            ),
        forall|r: int, c: int|
            0 <= r < 2 * n && 0 <= c < 2 * n ==> #[trigger] m@[r]@[c] == (if r < n && c == r + n {
                1i8
            } else if r >= n && c == r - n {
                -1i8
            } else {
                0i8
            }),
{
    let dim = 2 * n;
    let mut m: Vec<Vec<i8>> = Vec::new();
    let mut r: usize = 0;
    while r < dim
        invariant
            dim == 2 * n,
            r <= dim,
            m@.len() == r,
            forall|k: int| 0 <= k < r ==> #[trigger] m@[k]@.len() == dim,
            forall|k: int, c: int|
                0 <= k < r && 0 <= c < dim ==> #[trigger] m@[k]@[c] as int == canonical_entry(
                    n as int,
                    k,
                    c,
                ),
        decreases dim - r,
    {
        let mut row: Vec<i8> = Vec::new();
        let mut c: usize = 0;
        while c < dim
            invariant
                dim == 2 * n,
                r < dim,
                c <= dim,
                row@.len() == c,
                forall|k: int| 0 <= k < c ==> #[trigger] row@[k] as int == canonical_entry(n as int, r as int, k),
            decreases dim - c,
        {
            let v: i8 = if r < n && c == r + n {
                1
            } else if r >= n && c == r - n {
                -1
            } else {
                0
            };
            row.push(v);
            c += 1;
        }
        m.push(row);
        r += 1;
    }
    m
}

/// Why a matrix cannot represent a symplectic form or a symplectic matrix.
#[derive(Debug, Clone, Copy, PartialEq, Eq)]
pub enum ShapeError {
    /// The matrix is not square.
    NotSquare,
    /// The matrix is square of odd size, not 2n.
    OddDimension,
}

/// Check that a nrows × ncols matrix has the shape 2n × 2n and return n.
/// A non-square matrix is refused before an odd one.
pub fn half_dim_of_square(nrows: usize, ncols: usize) -> (res: Result<usize, ShapeError>)
    ensures
        nrows != ncols ==> res == Err::<usize, ShapeError>(ShapeError::NotSquare),
        nrows == ncols && nrows % 2 == 1 ==> res == Err::<usize, ShapeError>(
            ShapeError::OddDimension,
        ),
        nrows == ncols && nrows % 2 == 0 ==> res == Ok::<usize, ShapeError>(nrows / 2),
{
    if nrows != ncols {
        return Err(ShapeError::NotSquare);
    }
    if nrows % 2 != 0 {
        return Err(ShapeError::OddDimension);
    }
    Ok(nrows / 2)
}

/// Σ_{k < m} f(k) = 0 when every term is 0.
proof fn lemma_sum_zero(f: spec_fn(int) -> int, m: nat)
    requires
        forall|k: int| 0 <= k < m ==> #[trigger] f(k) == 0,
    ensures
        sum_to(f, m) == 0,
    decreases m,
{
    if m > 0 {
        lemma_sum_zero(f, (m - 1) as nat);
    }
}

/// Σ_{k < m} f(k) = f(k0) when every other term is 0.
proof fn lemma_sum_single(f: spec_fn(int) -> int, m: nat, k0: int)
    requires
        0 <= k0 < m,
        forall|k: int| 0 <= k < m && k != k0 ==> #[trigger] f(k) == 0,
    ensures
        sum_to(f, m) == f(k0),
    decreases m,
{
    if k0 == m - 1 {
        lemma_sum_zero(f, (m - 1) as nat);
    } else {
        lemma_sum_single(f, (m - 1) as nat, k0);
    }
}

/// The index paired with r by J: r + n in the upper half, r - n in the lower.
spec fn partner(n: int, r: int) -> int {
    if r < n {
        r + n
    } else {
        r - n
    }
}

/// Row r of J has its only nonzero entry at the partner column.
proof fn lemma_canonical_row(n: int, r: int)
    requires
        0 <= r < 2 * n,
    ensures
        0 <= partner(n, r) < 2 * n,
        partner(n, partner(n, r)) == r,
        canonical_entry(n, r, partner(n, r)) == (if r < n { 1int } else { -1int }),
        forall|c: int| c != partner(n, r) ==> #[trigger] canonical_entry(n, r, c) == 0,
{
}

/// J is skew-symmetric: Jᵀ = -J.
pub proof fn lemma_canonical_skew_symmetric(n: int, r: int, c: int)
    requires
        0 <= n,
    ensures
        canonical_entry(n, c, r) == -canonical_entry(n, r, c),
{
}

/// J² = -I on R^{2n}.
pub proof fn lemma_canonical_square_is_minus_identity(n: nat)
    ensures
        forall|r: int, c: int|
            0 <= r < 2 * n && 0 <= c < 2 * n ==> #[trigger] product_entry(
                canonical_matrix(n as int),
                canonical_matrix(n as int),
                2 * n,
                r,
                c,
            ) == -kronecker(r, c),
{
    let j = canonical_matrix(n as int);
    assert forall|r: int, c: int| 0 <= r < 2 * n && 0 <= c < 2 * n implies #[trigger] product_entry(
        j,
        j,
        2 * n,
        r,
        c,
    ) == -kronecker(r, c) by {
        let ni = n as int;
        lemma_canonical_row(ni, r);
        let p = partner(ni, r);
        lemma_canonical_row(ni, p);
        let f = |k: int| j(r, k) * j(k, c);
        assert forall|k: int| 0 <= k < 2 * n && k != p implies #[trigger] f(k) == 0 by {
            assert(canonical_entry(ni, r, k) == 0);
        }
        lemma_sum_single(f, 2 * n, p);
        if c != r {
            assert(canonical_entry(ni, p, c) == 0);
        }
    }
}

/// JᵀJ = I on R^{2n}.
pub proof fn lemma_canonical_orthogonal(n: nat)
    ensures
        forall|r: int, c: int|
            0 <= r < 2 * n && 0 <= c < 2 * n ==> #[trigger] product_entry(
                transpose(canonical_matrix(n as int)),
                canonical_matrix(n as int),
                2 * n,
                r,
                c,
            ) == kronecker(r, c),
{
    let j = canonical_matrix(n as int);
    let jt = transpose(j);
    assert forall|r: int, c: int| 0 <= r < 2 * n && 0 <= c < 2 * n implies #[trigger] product_entry(
        jt,
        j,
        2 * n,
        r,
        c,
    ) == kronecker(r, c) by {
        let ni = n as int;
        lemma_canonical_row(ni, r);
        let p = partner(ni, r);
        lemma_canonical_row(ni, p);
        let f = |k: int| jt(r, k) * j(k, c);
        assert forall|k: int| 0 <= k < 2 * n && k != p implies #[trigger] f(k) == 0 by {
            lemma_canonical_row(ni, k);
            lemma_canonical_skew_symmetric(ni, r, k);
            assert(canonical_entry(ni, r, k) == 0);
        }
        lemma_sum_single(f, 2 * n, p);
        if c != r {
            assert(canonical_entry(ni, p, c) == 0);
        }
    }
}

/// J is itself symplectic: Jᵀ J J = J on R^{2n}.
pub proof fn lemma_canonical_is_symplectic(n: nat)
    ensures
        forall|r: int, c: int|
            0 <= r < 2 * n && 0 <= c < 2 * n ==> #[trigger] product_entry(
                product(transpose(canonical_matrix(n as int)), canonical_matrix(n as int), 2 * n),
                canonical_matrix(n as int),
                2 * n,
                r,
                c,
            ) == canonical_entry(n as int, r, c),
{
    let j = canonical_matrix(n as int);
    let a = product(transpose(j), j, 2 * n);
    lemma_canonical_orthogonal(n);
    assert forall|r: int, c: int| 0 <= r < 2 * n && 0 <= c < 2 * n implies #[trigger] product_entry(
        a,
        j,
        2 * n,
        r,
        c,
    ) == canonical_entry(n as int, r, c) by {
        let f = |k: int| a(r, k) * j(k, c);
        assert forall|k: int| 0 <= k < 2 * n && k != r implies #[trigger] f(k) == 0 by {
            assert(product_entry(transpose(j), j, 2 * n, r, k) == kronecker(r, k));
        }
        assert(product_entry(transpose(j), j, 2 * n, r, r) == kronecker(r, r));
        lemma_sum_single(f, 2 * n, r);
    }
}

/// J has the block form [0 I_n; -I_n 0]: the diagonal blocks vanish, the
/// upper right block is the identity and the lower left block is minus the
/// identity.
pub proof fn lemma_canonical_blocks(n: nat)
    ensures
        forall|i: int, j: int|
            0 <= i < n && 0 <= j < n ==> {
                &&& #[trigger] canonical_entry(n as int, i, j) == 0
                &&& canonical_entry(n as int, i, n + j) == (if i == j { 1int } else { 0int })
                &&& canonical_entry(n as int, n + i, j) == (if i == j { -1int } else { 0int })
                &&& canonical_entry(n as int, n + i, n + j) == 0
            },
{
}

} // verus!
