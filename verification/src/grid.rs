//! The layout of the grid: which cells make up which group.
//!
//! In a puzzle of degree `d` the grid has `d * d` rows and columns. Cell
//! `c` lies in row `c / (d * d)` and column `c % (d * d)`. The groups are
//! numbered rows first, then columns, then boxes; the boxes are numbered
//! row by row.

use vstd::arithmetic::div_mod::{lemma_fundamental_div_mod, lemma_fundamental_div_mod_converse};
use vstd::prelude::*;

verus! {

/// The number of rows, of columns, of boxes, and of symbols.
pub open spec fn side(d: int) -> int {
    d * d
}

/// The row of cell `c`.
pub open spec fn row_of(d: int, c: int) -> int {
    c / side(d)
}

/// The column of cell `c`.
pub open spec fn column_of(d: int, c: int) -> int {
    c % side(d)
}

/// The box of cell `c`.
pub open spec fn box_of(d: int, c: int) -> int {
    (row_of(d, c) / d) * d + column_of(d, c) / d
}

/// The cell in row `x` and column `y`.
pub open spec fn cell_at(d: int, x: int, y: int) -> int {
    x * side(d) + y
}

/// The cell at position `k` of group `b`.
pub open spec fn member_of(d: int, b: int, k: int) -> int {
    if b < side(d) {
        cell_at(d, b, k)
    } else if b < 2 * side(d) {
        cell_at(d, k, b - side(d))
    } else {
        let g = b - 2 * side(d);
        cell_at(d, (g / d) * d + k / d, (g % d) * d + k % d)
    }
}

/// The position of cell `c` in group `b`, for a group that `c` is in.
pub open spec fn position_in(d: int, b: int, c: int) -> int {
    if b < side(d) {
        column_of(d, c)
    } else if b < 2 * side(d) {
        row_of(d, c)
    } else {
        (row_of(d, c) % d) * d + column_of(d, c) % d
    }
}

/// Whether cell `c` is in group `b`.
pub open spec fn in_group(d: int, b: int, c: int) -> bool {
    ||| b == row_of(d, c)
    ||| b == side(d) + column_of(d, c)
    ||| b == 2 * side(d) + box_of(d, c)
}

/// Two numbers below `d` make a number below `d * d`, from which division
/// by `d` gets them back.
pub proof fn lemma_digits(d: int, q: int, r: int)
    requires
        0 <= q < d,
        0 <= r < d,
    ensures
        0 <= q * d + r < side(d),
        (q * d + r) / d == q,
        (q * d + r) % d == r,
{
    lemma_fundamental_div_mod_converse(q * d + r, d, q, r);
    assert(0 <= q * d && q * d + d <= d * d) by (nonlinear_arith)
        requires
            0 <= q < d,
    ;
}

/// A number below `m * d` splits into a quotient below `m` and a remainder
/// below `d`.
pub proof fn lemma_split(d: int, m: int, x: int)
    requires
        0 < d,
        0 <= x < m * d,
    ensures
        0 <= x / d < m,
        0 <= x % d < d,
        x == (x / d) * d + x % d,
{
    lemma_fundamental_div_mod(x, d);
    let q = x / d;
    assert(0 <= q < m) by (nonlinear_arith)
        requires
            0 < d,
            0 <= x < m * d,
            x == d * q + x % d,
            0 <= x % d < d,
    ;
    assert(d * q == q * d) by (nonlinear_arith);
}

/// Every position of every group is a cell of the grid; the cell is in that
/// group, at that position.
pub proof fn lemma_member(d: int, b: int, k: int)
    requires
        0 < d,
        0 <= b < 3 * side(d),
        0 <= k < side(d),
    ensures
        0 <= member_of(d, b, k) < side(d) * side(d),
        in_group(d, b, member_of(d, b, k)),
        position_in(d, b, member_of(d, b, k)) == k,
{
    let n = side(d);
    assert(0 < n) by (nonlinear_arith)
        requires
            0 < d,
            n == d * d,
    ;
    if b < n {
        lemma_digits(n, b, k);
    } else if b < 2 * n {
        lemma_digits(n, k, b - n);
    } else {
        let g = b - 2 * n;
        lemma_split(d, d, g);
        lemma_split(d, d, k);
        let x = (g / d) * d + k / d;
        let y = (g % d) * d + k % d;
        lemma_digits(d, g / d, k / d);
        lemma_digits(d, g % d, k % d);
        lemma_digits(n, x, y);
    }
}

/// Every cell of the grid is in three groups: its row, its column and its
/// box. It is at the position in each that `position_in` gives.
pub proof fn lemma_cell(d: int, c: int)
    requires
        0 < d,
        0 <= c < side(d) * side(d),
    ensures
        0 <= row_of(d, c) < side(d),
        0 <= column_of(d, c) < side(d),
        0 <= box_of(d, c) < side(d),
        cell_at(d, row_of(d, c), column_of(d, c)) == c,
        forall|b: int|
            0 <= b < 3 * side(d) && in_group(d, b, c) ==> 0 <= #[trigger] position_in(d, b, c) < side(
                d,
            ) && member_of(d, b, position_in(d, b, c)) == c,
{
    let n = side(d);
    assert(0 < n) by (nonlinear_arith)
        requires
            0 < d,
            n == d * d,
    ;
    lemma_split(n, n, c);
    let x = row_of(d, c);
    let y = column_of(d, c);
    lemma_split(d, d, x);
    lemma_split(d, d, y);
    lemma_digits(d, x / d, y / d);
    lemma_digits(d, x % d, y % d);
}

} // verus!
