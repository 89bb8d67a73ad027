//! The cells of the review grid, counted in rows and columns.
use vstd::prelude::*;

verus! {

/// Row and column of the `i`-th item in a grid of `cols` columns.
pub fn place(i: usize, cols: usize) -> (r: (usize, usize))
    requires
        cols >= 1,
    ensures
        r.1 < cols,
        r.0 * cols + r.1 == i,
{
    assert((i / cols) * cols + i % cols == i && i % cols < cols) by (nonlinear_arith)
        requires
            cols >= 1,
    ;
    (i / cols, i % cols)
}

/// Number of rows that `n` items take in `cols` columns.
pub fn row_count(n: usize, cols: usize) -> (r: usize)
    requires
        cols >= 1,
    ensures
        r * cols >= n,
        n > 0 ==> (r - 1) * cols < n,
        n == 0 ==> r == 0,
{
    let full: usize = n / cols;
    assert(full * cols <= n && n < full * cols + cols && full <= n && (n % cols == n - full * cols))
        by (nonlinear_arith)
        requires
            cols >= 1,
            full == n / cols,
    ;
    if n % cols == 0 {
        assert(n > 0 ==> (full - 1) * cols < n) by (nonlinear_arith)
            requires
                full * cols <= n,
                cols >= 1,
        ;
        assert(n == 0 ==> full == 0);
        full
    } else {
        assert((full + 1) * cols == full * cols + cols) by (nonlinear_arith);
        assert(full < n) by (nonlinear_arith)
            requires
                full * cols < n,
                cols >= 1,
        ;
        full + 1
    }
}

/// The item of `n` in the given row and column, if there is one.
pub fn index_at(row: usize, col: usize, cols: usize, n: usize) -> (r: Option<usize>)
    ensures
        match r {
            Some(i) => col < cols && i == row * cols + col && i < n,
            None => col >= cols || row * cols + col >= n,
        },
{
    if col >= cols {
        return None;
    }
    match row.checked_mul(cols) {
        Some(first) => {
            if first >= n || col >= n - first {
                None
            } else {
                Some(first + col)
            }
        },
        None => None,
    }
}

} // verus!
