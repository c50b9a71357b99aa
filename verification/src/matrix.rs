//! Dense row-major matrix product with validated dimensions. The
//! accumulation runs in row–contraction–column (i-k-j) loop order, so the
//! innermost loop sweeps a full row of the right factor contiguously.

use vstd::prelude::*;

verus! {

use crate::Error;

/// Largest magnitude an input entry may have; together with the bound on
/// the contraction length it keeps every intermediate `i64` sum well below
/// overflow.
pub const ENTRY_LIMIT: i64 = 1048576;

/// Every entry of `s` lies in `[-bound, bound]`.
pub open spec fn entries_bounded(s: Seq<i64>, bound: int) -> bool {
    forall|k: int| 0 <= k < s.len() ==> -bound <= #[trigger] s[k] <= bound
}

/// The `(i, j)` entry of the product of row-major `a` (`ca` columns) and
/// row-major `b` (`cb` columns), contracted over the first `kk` indices.
pub open spec fn dot(a: Seq<i64>, b: Seq<i64>, i: int, j: int, ca: int, cb: int, kk: int) -> int
    decreases kk,
{
    if kk <= 0 {
        0
    } else {
        dot(a, b, i, j, ca, cb, kk - 1) + a[i * ca + (kk - 1)] * b[(kk - 1) * cb + j]
    }
}

/// A partial dot product over `kk <= ca` bounded entries is bounded by
/// `kk * bound * bound`.
proof fn lemma_dot_bound(a: Seq<i64>, b: Seq<i64>, i: int, j: int, ca: int, cb: int, kk: int, bound: int)
    requires
        entries_bounded(a, bound),
        entries_bounded(b, bound),
        bound >= 0,
        kk >= 0,
        forall|k: int| 0 <= k < kk ==> 0 <= #[trigger] (i * ca + k) < a.len(),
        forall|k: int| 0 <= k < kk ==> 0 <= #[trigger] (k * cb + j) < b.len(),
    ensures
        -(kk * bound * bound) <= dot(a, b, i, j, ca, cb, kk) <= kk * bound * bound,
    decreases kk,
{
    if kk > 0 {
        lemma_dot_bound(a, b, i, j, ca, cb, kk - 1, bound);
        let x = a[i * ca + (kk - 1)] as int;
        let y = b[(kk - 1) * cb + j] as int;
        assert(-(bound * bound) <= x * y <= bound * bound) by (nonlinear_arith)
            requires
                -bound <= x <= bound,
                -bound <= y <= bound,
                bound >= 0,
        {
        }
        assert(kk * bound * bound == (kk - 1) * bound * bound + bound * bound)
            by (nonlinear_arith)
        {
        }
    }
}

/// Row-major flattening is injective: distinct in-range coordinate pairs
/// give distinct flat indices.
proof fn lemma_flat_index_injective(i1: int, j1: int, i2: int, j2: int, cb: int)
    requires
        0 <= j1 < cb,
        0 <= j2 < cb,
        0 <= i1,
        0 <= i2,
        i1 * cb + j1 == i2 * cb + j2,
    ensures
        i1 == i2 && j1 == j2,
{
    assert(i1 == i2 && j1 == j2) by (nonlinear_arith)
        requires
            0 <= j1 < cb,
            0 <= j2 < cb,
            0 <= i1,
            0 <= i2,
            i1 * cb + j1 == i2 * cb + j2,
    {
    }
}

/// In-range coordinates give an in-range flat index.
proof fn lemma_flat_index_range(i: int, j: int, rows: int, cols: int)
    requires
        0 <= i < rows,
        0 <= j < cols,
    ensures
        0 <= i * cols + j < rows * cols,
        i * cols + j < rows * cols,
    {
    assert(0 <= i * cols + j < rows * cols) by (nonlinear_arith)
        requires
            0 <= i < rows,
            0 <= j < cols,
    {
    }
}

/// Computes the dense product of the `rows_a x cols_a` matrix `a` and the
/// `cols_a x cols_b` matrix `b`, both row-major flat vectors, returning a
/// row-major `rows_a x cols_b` result; fails with `InvalidArgument`, before
/// any computation, exactly when a supplied length does not match its
/// declared dimensions.
#[verifier::loop_isolation(false)]
pub fn matrix_multiply(
    a: &Vec<i64>,
    b: &Vec<i64>,
    rows_a: usize,
    cols_a: usize,
    cols_b: usize,
) -> (r: Result<Vec<i64>, Error>)
    requires
        entries_bounded(a@, ENTRY_LIMIT as int),
        entries_bounded(b@, ENTRY_LIMIT as int),
        cols_a <= ENTRY_LIMIT,
        rows_a * cols_b <= usize::MAX,
    ensures
        r is Ok <==> (a@.len() == rows_a * cols_a && b@.len() == cols_a * cols_b),
        r matches Err(e) ==> e == Error::InvalidArgument,
        r matches Ok(v) ==> {
            &&& v@.len() == rows_a * cols_b
            &&& forall|i: int, j: int| 0 <= i < rows_a && 0 <= j < cols_b
                ==> #[trigger] v@[i * cols_b + j]
                    == dot(a@, b@, i, j, cols_a as int, cols_b as int, cols_a as int)
        },
{
    let a_len = a.len();
    let b_len = b.len();
    let size_a_ok = match rows_a.checked_mul(cols_a) {
        Some(p) => p == a_len,
        None => false,
    };
    if !size_a_ok {
        return Err(Error::InvalidArgument);
    }
    let size_b_ok = match cols_a.checked_mul(cols_b) {
        Some(p) => p == b_len,
        None => false,
    };
    if !size_b_ok {
        return Err(Error::InvalidArgument);
    }
    let size = rows_a * cols_b;
    let mut result: Vec<i64> = Vec::new();
    while result.len() < size
        invariant
            result@.len() <= size,
            forall|t: int| 0 <= t < result@.len() ==> result@[t] == 0,
        decreases size - result.len(),
    {
        result.push(0);
    }
    proof {
        assert forall|ii: int, jj: int| 0 <= ii < rows_a && 0 <= jj < cols_b
            implies #[trigger] result@[ii * cols_b + jj] == 0 by {
            lemma_flat_index_range(ii, jj, rows_a as int, cols_b as int);
        }
    }
    let mut i: usize = 0;
    while i < rows_a
        invariant
            i <= rows_a,
            result@.len() == rows_a * cols_b,
            forall|ii: int, jj: int| 0 <= ii < i && 0 <= jj < cols_b
                ==> #[trigger] result@[ii * cols_b + jj]
                    == dot(a@, b@, ii, jj, cols_a as int, cols_b as int, cols_a as int),
            forall|ii: int, jj: int| i <= ii < rows_a && 0 <= jj < cols_b
                ==> #[trigger] result@[ii * cols_b + jj] == 0,
        decreases rows_a - i,
    {
        let mut k: usize = 0;
        while k < cols_a
            invariant
                i < rows_a,
                k <= cols_a,
                result@.len() == rows_a * cols_b,
                forall|ii: int, jj: int| 0 <= ii < i && 0 <= jj < cols_b
                    ==> #[trigger] result@[ii * cols_b + jj]
                        == dot(a@, b@, ii, jj, cols_a as int, cols_b as int, cols_a as int),
                forall|ii: int, jj: int| i < ii < rows_a && 0 <= jj < cols_b
                    ==> #[trigger] result@[ii * cols_b + jj] == 0,
                forall|jj: int| 0 <= jj < cols_b
                    ==> #[trigger] result@[i as int * cols_b + jj]
                        == dot(a@, b@, i as int, jj, cols_a as int, cols_b as int, k as int),
            decreases cols_a - k,
        {
            proof {
                lemma_flat_index_range(i as int, k as int, rows_a as int, cols_a as int);
            }
            let a_ik = a[i * cols_a + k];
            let mut j: usize = 0;
            while j < cols_b
                invariant
                    i < rows_a,
                    k < cols_a,
                    j <= cols_b,
                    a_ik == a@[i as int * cols_a + k as int],
                    result@.len() == rows_a * cols_b,
                    forall|ii: int, jj: int| 0 <= ii < i && 0 <= jj < cols_b
                        ==> #[trigger] result@[ii * cols_b + jj]
                            == dot(a@, b@, ii, jj, cols_a as int, cols_b as int, cols_a as int),
                    forall|ii: int, jj: int| i < ii < rows_a && 0 <= jj < cols_b
                        ==> #[trigger] result@[ii * cols_b + jj] == 0,
                    forall|jj: int| j <= jj < cols_b
                        ==> #[trigger] result@[i as int * cols_b + jj]
                            == dot(a@, b@, i as int, jj, cols_a as int, cols_b as int, k as int),
                    forall|jj: int| 0 <= jj < j
                        ==> #[trigger] result@[i as int * cols_b + jj]
                            == dot(a@, b@, i as int, jj, cols_a as int, cols_b as int, k as int + 1),
                decreases cols_b - j,
            {
                proof {
                    lemma_flat_index_range(i as int, j as int, rows_a as int, cols_b as int);
                    lemma_flat_index_range(k as int, j as int, cols_a as int, cols_b as int);
                    assert forall|kx: int| 0 <= kx < k implies 0 <= #[trigger] (i as int * cols_a + kx) < a@.len() by {
                        lemma_flat_index_range(i as int, kx, rows_a as int, cols_a as int);
                    }
                    assert forall|kx: int| 0 <= kx < k implies 0 <= #[trigger] (kx * cols_b + j as int) < b@.len() by {
                        lemma_flat_index_range(kx, j as int, cols_a as int, cols_b as int);
                    }
                    lemma_dot_bound(
                        a@, b@, i as int, j as int, cols_a as int, cols_b as int,
                        k as int, ENTRY_LIMIT as int,
                    );
                    assert(k as int * (ENTRY_LIMIT as int) * (ENTRY_LIMIT as int)
                        <= (ENTRY_LIMIT as int) * (ENTRY_LIMIT as int) * (ENTRY_LIMIT as int))
                        by (nonlinear_arith)
                        requires
                            0 <= k as int <= ENTRY_LIMIT as int,
                    {
                    }
                    assert(-(ENTRY_LIMIT as int) * (ENTRY_LIMIT as int)
                        <= a_ik as int * b@[k as int * cols_b + j as int] as int
                        <= (ENTRY_LIMIT as int) * (ENTRY_LIMIT as int)) by (nonlinear_arith)
                        requires
                            -(ENTRY_LIMIT as int) <= a_ik as int <= ENTRY_LIMIT as int,
                            -(ENTRY_LIMIT as int) <= b@[k as int * cols_b + j as int] as int
                                <= ENTRY_LIMIT as int,
                    {
                    }
                }
                let idx = i * cols_b + j;
                let b_kj = b[k * cols_b + j];
                let ghost before = result@;
                result[idx] = result[idx] + a_ik * b_kj;
                proof {
                    assert forall|ii: int, jj: int|
                        0 <= ii < rows_a && 0 <= jj < cols_b
                            && !(ii == i as int && jj == j as int)
                        implies #[trigger] result@[ii * cols_b + jj] == before[ii * cols_b + jj] by {
                        lemma_flat_index_range(ii, jj, rows_a as int, cols_b as int);
                        if ii * cols_b + jj == idx as int {
                            lemma_flat_index_injective(ii, jj, i as int, j as int, cols_b as int);
                        }
                    }
                }
                j = j + 1;
            }
            k = k + 1;
        }
        i = i + 1;
    }
    Ok(result)
}

/// Law of the identity: multiplying the 2x2 identity matrix by any 2x2
/// matrix `b` reproduces `b` entry for entry.
pub proof fn lemma_identity_multiply(b: Seq<i64>, i: int, j: int)
    requires
        b.len() == 4,
        0 <= i < 2,
        0 <= j < 2,
    ensures
        dot(seq![1i64, 0i64, 0i64, 1i64], b, i, j, 2, 2, 2) == b[i * 2 + j],
{
    reveal_with_fuel(dot, 3);
    let ident = seq![1i64, 0i64, 0i64, 1i64];
    assert(ident[0] == 1 && ident[1] == 0 && ident[2] == 0 && ident[3] == 1);
    assert(dot(ident, b, i, j, 2, 2, 2)
        == ident[i * 2] * b[j] + ident[i * 2 + 1] * b[2 + j]);
    if i == 0 {
        assert(dot(ident, b, i, j, 2, 2, 2) == 1 * b[j] + 0 * b[2 + j]);
    } else {
        assert(dot(ident, b, i, j, 2, 2, 2) == 0 * b[j] + 1 * b[2 + j]);
    }
}

} // verus!
