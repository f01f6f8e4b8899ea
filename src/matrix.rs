//! Dense matrices of `u32` and their product over a fixed `ROWS` by `COLS`
//! window: entries beyond it are neither read nor required.
use vstd::prelude::*;
use crate::random::{gen_below, thread_rng};

verus! {

/// Rows of the product (and of the window read from the left matrix).
pub const ROWS: usize = 100;
/// Columns of the product, and the inner dimension of the product.
pub const COLS: usize = 100;
/// Exclusive upper bound of a generated entry.
pub const ENTRY_BOUND: u32 = 1000;

/// Sum of `a[t] * b[t]` over the first `k` positions.
pub open spec fn dot_prefix(a: Seq<u32>, b: Seq<u32>, k: int) -> int
    decreases k,
{
    if k <= 0 {
        0
    } else {
        dot_prefix(a, b, k - 1) + a[k - 1] * b[k - 1]
    }
}

/// Column `j` of a matrix given as its rows.
pub open spec fn column_spec(m: Seq<Vec<u32>>, j: int) -> Seq<u32> {
    Seq::new(m.len(), |i: int| m[i]@[j])
}

/// Entry `(i, j)` of the product of `m1` and `m2`: row `i` of `m1` times
/// column `j` of `m2`, over the first `COLS` terms.
pub open spec fn product_entry(m1: Seq<Vec<u32>>, m2: Seq<Vec<u32>>, i: int, j: int) -> int {
    dot_prefix(m1[i]@, column_spec(m2, j), COLS as int)
}

/// `m` has exactly `rows` rows of exactly `cols` entries each.
pub open spec fn has_shape(m: Seq<Vec<u32>>, rows: int, cols: int) -> bool {
    &&& m.len() == rows
    &&& forall|i: int| 0 <= i < rows ==> #[trigger] m[i]@.len() == cols
}

/// `m` has at least `rows` rows, and each of the first `rows` has at least
/// `cols` entries.
pub open spec fn covers(m: Seq<Vec<u32>>, rows: int, cols: int) -> bool {
    &&& m.len() >= rows
    &&& forall|i: int| 0 <= i < rows ==> #[trigger] m[i]@.len() >= cols
}

/// Every entry of the product of `m1` and `m2` fits in a `u32`.
pub open spec fn product_fits(m1: Seq<Vec<u32>>, m2: Seq<Vec<u32>>) -> bool {
    forall|i: int, j: int|
        0 <= i < ROWS && 0 <= j < COLS ==> #[trigger] product_entry(m1, m2, i, j) <= u32::MAX
}

proof fn lemma_dot_prefix_monotone(a: Seq<u32>, b: Seq<u32>, k: int, m: int)
    requires
        0 <= k <= m,
    ensures
        0 <= dot_prefix(a, b, k) <= dot_prefix(a, b, m),
    decreases m,
{
    if m > k {
        lemma_dot_prefix_monotone(a, b, k, m - 1);
        assert(0 <= a[m - 1] * b[m - 1]) by (nonlinear_arith);
    } else if k > 0 {
        lemma_dot_prefix_monotone(a, b, k - 1, k - 1);
        assert(0 <= a[k - 1] * b[k - 1]) by (nonlinear_arith);
    }
}

/// The dot product of the first `len` entries of `a` and `b`.
pub fn dot(a: &[u32], b: &[u32], len: usize) -> (r: u32)
    requires
        len <= a@.len(),
        len <= b@.len(),
        dot_prefix(a@, b@, len as int) <= u32::MAX,
    ensures
        r == dot_prefix(a@, b@, len as int),
{
    let mut sum: u32 = 0;
    let mut k: usize = 0;
    while k < len
        invariant
            k <= len <= a@.len(),
            len <= b@.len(),
            dot_prefix(a@, b@, len as int) <= u32::MAX,
            sum == dot_prefix(a@, b@, k as int),
        decreases len - k,
    {
        proof {
            lemma_dot_prefix_monotone(a@, b@, k as int + 1, len as int);
            lemma_dot_prefix_monotone(a@, b@, k as int, k as int);
        }
        sum = sum + a[k] * b[k];
        k = k + 1;
    }
    sum
}

/// The dot product of the first `len` entries of `a` and `b`, or `None`
/// where it does not fit in a `u32`.
pub fn checked_dot(a: &[u32], b: &[u32], len: usize) -> (r: Option<u32>)
    requires
        len <= a@.len(),
        len <= b@.len(),
    ensures
        r == (if dot_prefix(a@, b@, len as int) <= u32::MAX {
            Some(dot_prefix(a@, b@, len as int) as u32)
        } else {
            None::<u32>
        }),
{
    let mut sum: u32 = 0;
    let mut k: usize = 0;
    while k < len
        invariant
            k <= len <= a@.len(),
            len <= b@.len(),
            sum == dot_prefix(a@, b@, k as int),
        decreases len - k,
    {
        proof {
            lemma_dot_prefix_monotone(a@, b@, k as int + 1, len as int);
            lemma_dot_prefix_monotone(a@, b@, k as int, k as int);
        }
        match a[k].checked_mul(b[k]) {
            None => return None,
            Some(p) => match sum.checked_add(p) {
                None => return None,
                Some(s) => sum = s,
            },
        }
        k = k + 1;
    }
    Some(sum)
}

/// Column `j` of `m`, taken from every row.
pub fn column_of(m: &[Vec<u32>], j: usize) -> (r: Vec<u32>)
    requires
        forall|i: int| 0 <= i < m@.len() ==> j < (#[trigger] m@[i])@.len(),
    ensures
        r@ == column_spec(m@, j as int),
{
    let mut r: Vec<u32> = Vec::new();
    let mut i: usize = 0;
    while i < m.len()
        invariant
            i <= m@.len(),
            forall|t: int| 0 <= t < m@.len() ==> j < (#[trigger] m@[t])@.len(),
            r@ == column_spec(m@, j as int).take(i as int),
        decreases m@.len() - i,
    {
        r.push(m[i][j]);
        i = i + 1;
        assert(r@ =~= column_spec(m@, j as int).take(i as int));
    }
    assert(r@ =~= column_spec(m@, j as int));
    r
}

/// Entry `(i, j)` of the product of `m1` and `m2`, or `None` where it does
/// not fit in a `u32`.
pub fn checked_entry(m1: &[Vec<u32>], m2: &[Vec<u32>], i: usize, j: usize) -> (r: Option<u32>)
    requires
        covers(m1@, ROWS as int, COLS as int),
        covers(m2@, COLS as int, COLS as int),
        i < ROWS,
        j < COLS,
    ensures
        r == (if product_entry(m1@, m2@, i as int, j as int) <= u32::MAX {
            Some(product_entry(m1@, m2@, i as int, j as int) as u32)
        } else {
            None::<u32>
        }),
{
    let ghost a = m1@[i as int]@;
    let ghost c = column_spec(m2@, j as int);
    let mut sum: u32 = 0;
    let mut k: usize = 0;
    while k < COLS
        invariant
            i < ROWS,
            j < COLS,
            k <= COLS,
            covers(m1@, ROWS as int, COLS as int),
            covers(m2@, COLS as int, COLS as int),
            a == m1@[i as int]@,
            c == column_spec(m2@, j as int),
            sum == dot_prefix(a, c, k as int),
        decreases COLS - k,
    {
        proof {
            lemma_dot_prefix_monotone(a, c, k as int + 1, COLS as int);
            lemma_dot_prefix_monotone(a, c, k as int, k as int);
        }
        match m1[i][k].checked_mul(m2[k][j]) {
            None => return None,
            Some(p) => match sum.checked_add(p) {
                None => return None,
                Some(s) => sum = s,
            },
        }
        k = k + 1;
    }
    Some(sum)
}

/// Whether every entry of the product of `m1` and `m2` fits in a `u32`.
pub fn products_fit(m1: &[Vec<u32>], m2: &[Vec<u32>]) -> (r: bool)
    requires
        covers(m1@, ROWS as int, COLS as int),
        covers(m2@, COLS as int, COLS as int),
    ensures
        r == product_fits(m1@, m2@),
{
    let mut i: usize = 0;
    while i < ROWS
        invariant
            i <= ROWS,
            covers(m1@, ROWS as int, COLS as int),
            covers(m2@, COLS as int, COLS as int),
            forall|a: int, b: int|
                0 <= a < i && 0 <= b < COLS ==> #[trigger] product_entry(m1@, m2@, a, b) <= u32::MAX,
        decreases ROWS - i,
    {
        let mut j: usize = 0;
        while j < COLS
            invariant
                i < ROWS,
                j <= COLS,
                covers(m1@, ROWS as int, COLS as int),
                covers(m2@, COLS as int, COLS as int),
                forall|a: int, b: int|
                    0 <= a < i && 0 <= b < COLS ==> #[trigger] product_entry(m1@, m2@, a, b) <= u32::MAX,
                forall|b: int| 0 <= b < j ==> #[trigger] product_entry(m1@, m2@, i as int, b) <= u32::MAX,
            decreases COLS - j,
        {
            if checked_entry(m1, m2, i, j).is_none() {
                return false;
            }
            j = j + 1;
        }
        i = i + 1;
    }
    true
}

/// The `ROWS` by `COLS` product of `matrix1` and `matrix2`.
pub fn multiply_matrices(matrix1: &[Vec<u32>], matrix2: &[Vec<u32>]) -> (product: Vec<Vec<u32>>)
    requires
        covers(matrix1@, ROWS as int, COLS as int),
        covers(matrix2@, COLS as int, COLS as int),
        product_fits(matrix1@, matrix2@),
    ensures
        has_shape(product@, ROWS as int, COLS as int),
        forall|i: int, j: int|
            0 <= i < ROWS && 0 <= j < COLS ==> #[trigger] product@[i]@[j] == product_entry(
                matrix1@,
                matrix2@,
                i,
                j,
            ),
{
    let mut product: Vec<Vec<u32>> = Vec::with_capacity(ROWS);
    let mut i: usize = 0;
    while i < ROWS
        invariant
            i <= ROWS,
            covers(matrix1@, ROWS as int, COLS as int),
            covers(matrix2@, COLS as int, COLS as int),
            product_fits(matrix1@, matrix2@),
            has_shape(product@, i as int, COLS as int),
            forall|a: int, b: int|
                0 <= a < i && 0 <= b < COLS ==> #[trigger] product@[a]@[b] == product_entry(
                    matrix1@,
                    matrix2@,
                    a,
                    b,
                ),
        decreases ROWS - i,
    {
        let mut row: Vec<u32> = Vec::with_capacity(COLS);
        let mut j: usize = 0;
        while j < COLS
            invariant
                i < ROWS,
                j <= COLS,
                covers(matrix1@, ROWS as int, COLS as int),
                covers(matrix2@, COLS as int, COLS as int),
                product_fits(matrix1@, matrix2@),
                row@.len() == j,
                forall|b: int| 0 <= b < j ==> #[trigger] row@[b] == product_entry(
                    matrix1@,
                    matrix2@,
                    i as int,
                    b,
                ),
            decreases COLS - j,
        {
            let ghost a = matrix1@[i as int]@;
            let ghost c = column_spec(matrix2@, j as int);
            assert(product_entry(matrix1@, matrix2@, i as int, j as int) <= u32::MAX);
            let mut sum: u32 = 0;
            let mut k: usize = 0;
            while k < COLS
                invariant
                    i < ROWS,
                    j < COLS,
                    k <= COLS,
                    covers(matrix1@, ROWS as int, COLS as int),
                    covers(matrix2@, COLS as int, COLS as int),
                    a == matrix1@[i as int]@,
                    c == column_spec(matrix2@, j as int),
                    dot_prefix(a, c, COLS as int) <= u32::MAX,
                    sum == dot_prefix(a, c, k as int),
                decreases COLS - k,
            {
                proof {
                    lemma_dot_prefix_monotone(a, c, k as int + 1, COLS as int);
                    lemma_dot_prefix_monotone(a, c, k as int, k as int);
                }
                sum = sum + matrix1[i][k] * matrix2[k][j];
                k = k + 1;
            }
            row.push(sum);
            j = j + 1;
        }
        product.push(row);
        i = i + 1;
    }
    product
}

/// The `ROWS` by `COLS` matrix filled row by row from `draws`.
pub fn matrix_from_draws(draws: &Vec<u32>) -> (m: Vec<Vec<u32>>)
    requires
        draws@.len() == ROWS * COLS,
    ensures
        has_shape(m@, ROWS as int, COLS as int),
        forall|i: int, j: int|
            0 <= i < ROWS && 0 <= j < COLS ==> #[trigger] m@[i]@[j] == draws@[i * COLS + j],
{
    let mut m: Vec<Vec<u32>> = Vec::with_capacity(ROWS);
    let mut i: usize = 0;
    while i < ROWS
        invariant
            i <= ROWS,
            draws@.len() == ROWS * COLS,
            has_shape(m@, i as int, COLS as int),
            forall|a: int, b: int|
                0 <= a < i && 0 <= b < COLS ==> #[trigger] m@[a]@[b] == draws@[a * COLS + b],
        decreases ROWS - i,
    {
        let mut row: Vec<u32> = Vec::with_capacity(COLS);
        let mut j: usize = 0;
        while j < COLS
            invariant
                i < ROWS,
                j <= COLS,
                draws@.len() == ROWS * COLS,
                row@.len() == j,
                forall|b: int| 0 <= b < j ==> #[trigger] row@[b] == draws@[i * COLS + b],
            decreases COLS - j,
        {
            row.push(draws[i * COLS + j]);
            j = j + 1;
        }
        m.push(row);
        i = i + 1;
    }
    m
}

/// A `ROWS` by `COLS` matrix of random entries below `ENTRY_BOUND`, drawn
/// in row-major order.
pub fn generate_matrix() -> (matrix: Vec<Vec<u32>>)
    ensures
        has_shape(matrix@, ROWS as int, COLS as int),
        forall|i: int, j: int|
            0 <= i < ROWS && 0 <= j < COLS ==> #[trigger] matrix@[i]@[j] < ENTRY_BOUND,
{
    let mut rng = thread_rng();
    let mut draws: Vec<u32> = Vec::with_capacity(ROWS * COLS);
    let mut t: usize = 0;
    while t < ROWS * COLS
        invariant
            t <= ROWS * COLS,
            draws@.len() == t,
            forall|s: int| 0 <= s < t ==> #[trigger] draws@[s] < ENTRY_BOUND,
        decreases ROWS * COLS - t,
    {
        draws.push(gen_below(&mut rng, ENTRY_BOUND));
        t = t + 1;
    }
    let matrix = matrix_from_draws(&draws);
    assert forall|i: int, j: int| 0 <= i < ROWS && 0 <= j < COLS implies #[trigger] matrix@[i]@[j]
        < ENTRY_BOUND by {
        assert(0 <= i * COLS + j < ROWS * COLS);
        assert(draws@[i * COLS + j] < ENTRY_BOUND);
    }
    matrix
}

} // verus!
