//! The spiral as mathematics: which number each cell receives, and the path
//! that numbers 1, 2, 3, ... trace through the grid.
//!
//! The grid of side `n` is a set of nested square rings. Ring `k` (counting
//! from the outside, starting at 0) has side `n - 2k` and is entered at its
//! top-left corner; the `4k(n - k)` cells of the rings outside it come first.
use vstd::prelude::*;
use crate::direction::{col_delta, row_delta, turned};

verus! {

pub open spec fn min2(a: int, b: int) -> int {
    if a <= b {
        a
    } else {
        b
    }
}

/// `(i, j)` lies inside the grid of side `n`.
pub open spec fn in_grid(n: int, i: int, j: int) -> bool {
    0 <= i < n && 0 <= j < n
}

/// The ring of cell `(i, j)`: its distance to the nearest edge.
pub open spec fn ring(n: int, i: int, j: int) -> int {
    min2(min2(i, j), min2(n - 1 - i, n - 1 - j))
}

/// How many cells lie in the rings outside ring `k`.
pub open spec fn cells_outside(n: int, k: int) -> int {
    4 * k * (n - k)
}

/// Position (from 0) of the cell at row `r`, column `c` on the border of a
/// square of side `m`, walking clockwise from the top-left corner.
pub open spec fn along_ring(m: int, r: int, c: int) -> int {
    if r == 0 {
        c
    } else if c == m - 1 {
        (m - 1) + r
    } else if r == m - 1 {
        3 * (m - 1) - c
    } else {
        4 * (m - 1) - r
    }
}

/// The number that the spiral writes into cell `(i, j)` of a grid of side `n`.
pub open spec fn spiral_value(n: int, i: int, j: int) -> int {
    let k = ring(n, i, j);
    cells_outside(n, k) + along_ring(n - 2 * k, i - k, j - k) + 1
}

/// The heading with which the spiral enters cell `(i, j)` (Right for the
/// first cell).
pub open spec fn heading(n: int, i: int, j: int) -> int {
    let k = ring(n, i, j);
    let m = n - 2 * k;
    let r = i - k;
    let c = j - k;
    if r == 0 {
        0
    } else if c == m - 1 {
        1
    } else if r == m - 1 {
        2
    } else {
        3
    }
}

/// The spiral turns in cell `(i, j)`: it leaves it with another heading than
/// the one it came in with.
pub open spec fn turns_at(n: int, i: int, j: int) -> bool {
    let k = ring(n, i, j);
    let m = n - 2 * k;
    let r = i - k;
    let c = j - k;
    ||| r == 0 && c == m - 1
    ||| r > 0 && r == m - 1 && c == m - 1
    ||| r > 0 && r == m - 1 && c == 0
    ||| m >= 3 && r == 1 && c == 0
}

/// The heading with which the spiral leaves cell `(i, j)`.
pub open spec fn departure(n: int, i: int, j: int) -> int {
    if turns_at(n, i, j) {
        turned(heading(n, i, j))
    } else {
        heading(n, i, j)
    }
}

/// A move from `(i, j)` with heading `d` is blocked at the moment when the
/// cell `(i, j)` has just been filled: it would leave the grid, or land on a
/// cell with a smaller number.
pub open spec fn blocked(n: int, i: int, j: int, d: int) -> bool {
    let a = i + row_delta(d);
    let b = j + col_delta(d);
    !in_grid(n, a, b) || spiral_value(n, a, b) <= spiral_value(n, i, j)
}

pub proof fn lemma_cells_outside_zero(n: int)
    ensures
        cells_outside(n, 0) == 0,
{
    assert(4 * 0 * (n - 0) == 0) by (nonlinear_arith);
}

pub proof fn lemma_cells_outside_total(n: int, k: int)
    ensures
        cells_outside(n, k) + (n - 2 * k) * (n - 2 * k) == n * n,
{
    assert(4 * k * (n - k) + (n - 2 * k) * (n - 2 * k) == n * n) by (nonlinear_arith);
}

pub proof fn lemma_cells_outside_next(n: int, k: int)
    ensures
        cells_outside(n, k + 1) == cells_outside(n, k) + 4 * (n - 2 * k - 1),
{
    assert(4 * (k + 1) * (n - (k + 1)) == 4 * k * (n - k) + 4 * (n - 2 * k - 1))
        by (nonlinear_arith);
}

pub proof fn lemma_cells_outside_mono(n: int, k1: int, k2: int)
    requires
        0 <= k1 <= k2,
        k1 + k2 <= n,
    ensures
        0 <= cells_outside(n, k1) <= cells_outside(n, k2),
{
    assert(0 <= 4 * k1 * (n - k1)) by (nonlinear_arith)
        requires
            0 <= k1 <= n,
    ;
    assert(4 * k2 * (n - k2) - 4 * k1 * (n - k1) == 4 * (k2 - k1) * (n - k2 - k1))
        by (nonlinear_arith);
    assert(0 <= 4 * (k2 - k1) * (n - k2 - k1)) by (nonlinear_arith)
        requires
            0 <= k2 - k1,
            0 <= n - k2 - k1,
    ;
}

/// The numbers of ring `k` follow those of the rings outside it, and the
/// last ring ends with `n * n`.
pub proof fn lemma_ring_bounds(n: int, i: int, j: int)
    requires
        in_grid(n, i, j),
    ensures
        ({
            let k = ring(n, i, j);
            let m = n - 2 * k;
            &&& 0 <= k
            &&& 1 <= m
            &&& cells_outside(n, k) < spiral_value(n, i, j)
            &&& m >= 2 ==> spiral_value(n, i, j) <= cells_outside(n, k + 1)
            &&& m == 1 ==> spiral_value(n, i, j) == n * n
            &&& spiral_value(n, i, j) <= n * n
        }),
{
    let k = ring(n, i, j);
    let m = n - 2 * k;
    lemma_cells_outside_total(n, k);
    lemma_cells_outside_next(n, k);
    lemma_cells_outside_mono(n, 0, k);
    assert(0 <= (m - 2) * (m - 2)) by (nonlinear_arith);
    assert((m - 2) * (m - 2) == m * m - 4 * m + 4) by (nonlinear_arith);
}

/// From every cell but the last, the spiral moves one step with its departure
/// heading to the cell with the next number. Where it turns, going on with the
/// old heading is blocked.
pub proof fn lemma_step(n: int, i: int, j: int)
    requires
        in_grid(n, i, j),
        spiral_value(n, i, j) < n * n,
    ensures
        ({
            let d = departure(n, i, j);
            let a = i + row_delta(d);
            let b = j + col_delta(d);
            &&& in_grid(n, a, b)
            &&& spiral_value(n, a, b) == spiral_value(n, i, j) + 1
            &&& heading(n, a, b) == d
        }),
        0 <= heading(n, i, j) < 4,
        turns_at(n, i, j) ==> blocked(n, i, j, heading(n, i, j)),
{
    let k = ring(n, i, j);
    let m = n - 2 * k;
    let r = i - k;
    let c = j - k;
    lemma_ring_bounds(n, i, j);
    lemma_cells_outside_next(n, k);
    lemma_cells_outside_total(n, k);
    if m == 1 {
        assert(false);
    }
    if m == 2 && r == 1 && c == 0 {
        assert((n - 2 * k) * (n - 2 * k) == 4) by (nonlinear_arith)
            requires
                n - 2 * k == 2,
        ;
        assert(false);
    }
    if m >= 3 && r == 1 && c == 0 {
        assert(ring(n, i, j + 1) == k + 1);
        assert(spiral_value(n, i, j + 1) == spiral_value(n, i, j) + 1);
        assert(ring(n, i - 1, j) == k);
    } else if turns_at(n, i, j) {
        let h = heading(n, i, j);
        let a = i + row_delta(h);
        let b = j + col_delta(h);
        if in_grid(n, a, b) {
            assert(ring(n, a, b) == k - 1);
            lemma_ring_bounds(n, a, b);
            lemma_cells_outside_next(n, k - 1);
        }
        let d = departure(n, i, j);
        assert(ring(n, i + row_delta(d), j + col_delta(d)) == k);
    } else {
        let d = departure(n, i, j);
        assert(ring(n, i + row_delta(d), j + col_delta(d)) == k);
    }
}

/// No two cells receive the same number.
pub proof fn lemma_injective(n: int, i1: int, j1: int, i2: int, j2: int)
    requires
        in_grid(n, i1, j1),
        in_grid(n, i2, j2),
        spiral_value(n, i1, j1) == spiral_value(n, i2, j2),
    ensures
        i1 == i2 && j1 == j2,
{
    let k1 = ring(n, i1, j1);
    let k2 = ring(n, i2, j2);
    lemma_ring_bounds(n, i1, j1);
    lemma_ring_bounds(n, i2, j2);
    if k1 < k2 {
        lemma_cells_outside_mono(n, k1 + 1, k2);
    } else if k2 < k1 {
        lemma_cells_outside_mono(n, k2 + 1, k1);
    }
}

/// Some cell of the grid of side `n` receives the number `v`.
pub open spec fn is_written(n: int, v: int) -> bool {
    exists|i: int, j: int| in_grid(n, i, j) && #[trigger] spiral_value(n, i, j) == v
}

/// Every number from 1 up to `n * n` is written into some cell.
pub proof fn lemma_value_reached(n: int, v: int)
    requires
        n >= 1,
        1 <= v <= n * n,
    ensures
        is_written(n, v),
    decreases v,
{
    if v == 1 {
        lemma_cells_outside_zero(n);
        assert(spiral_value(n, 0, 0) == 1);
    } else {
        lemma_value_reached(n, v - 1);
        let (i, j) = choose|i: int, j: int|
            in_grid(n, i, j) && #[trigger] spiral_value(n, i, j) == v - 1;
        lemma_step(n, i, j);
        let d = departure(n, i, j);
        assert(spiral_value(n, i + row_delta(d), j + col_delta(d)) == v);
    }
}

/// The filled grid holds each of the numbers 1 to `n * n` exactly once: every
/// cell gets a number in that range, no two cells get the same one, and each
/// number of the range is written somewhere.
pub proof fn lemma_spiral_is_permutation(n: int)
    requires
        n >= 1,
    ensures
        forall|i: int, j: int|
            in_grid(n, i, j) ==> 1 <= #[trigger] spiral_value(n, i, j) <= n * n,
        forall|i1: int, j1: int, i2: int, j2: int|
            in_grid(n, i1, j1) && in_grid(n, i2, j2) && #[trigger] spiral_value(n, i1, j1)
                == #[trigger] spiral_value(n, i2, j2) ==> i1 == i2 && j1 == j2,
        forall|v: int| 1 <= v <= n * n ==> #[trigger] is_written(n, v),
{
    assert forall|i: int, j: int| in_grid(n, i, j) implies 1 <= #[trigger] spiral_value(
        n,
        i,
        j,
    ) <= n * n by {
        lemma_ring_bounds(n, i, j);
        lemma_cells_outside_mono(n, 0, ring(n, i, j));
    }
    assert forall|i1: int, j1: int, i2: int, j2: int|
        in_grid(n, i1, j1) && in_grid(n, i2, j2) && #[trigger] spiral_value(n, i1, j1)
            == #[trigger] spiral_value(n, i2, j2) implies i1 == i2 && j1 == j2 by {
        lemma_injective(n, i1, j1, i2, j2);
    }
    assert forall|v: int| 1 <= v <= n * n implies #[trigger] is_written(n, v) by {
        lemma_value_reached(n, v);
    }
}

/// The cell where a spiral of side `n` ends: the middle cell for odd `n`,
/// the lower left of the four middle cells for even `n`.
pub open spec fn center(n: int) -> (int, int) {
    if n % 2 == 1 {
        ((n - 1) / 2, (n - 1) / 2)
    } else {
        (n / 2, n / 2 - 1)
    }
}

/// The spiral starts with 1 in the top-left cell, heading right, and ends with
/// `n * n` in the middle of the grid.
pub proof fn lemma_first_and_last(n: int)
    requires
        n >= 1,
    ensures
        spiral_value(n, 0, 0) == 1,
        heading(n, 0, 0) == 0,
        in_grid(n, center(n).0, center(n).1),
        spiral_value(n, center(n).0, center(n).1) == n * n,
{
    lemma_cells_outside_zero(n);
    let (a, b) = center(n);
    lemma_ring_bounds(n, a, b);
    let k = ring(n, a, b);
    lemma_cells_outside_total(n, k);
    if n % 2 == 0 {
        assert((n - 2 * k) * (n - 2 * k) == 4) by (nonlinear_arith)
            requires
                n - 2 * k == 2,
        ;
    }
}

/// Read along the path 1, 2, 3, ..., each step moves one cell with the
/// heading of the cell it reaches; that heading is the previous one or the
/// next one clockwise, and it changes exactly where going on straight is
/// blocked by the edge of the grid or by a cell already filled.
pub proof fn lemma_path_headings(n: int, i: int, j: int, a: int, b: int)
    requires
        in_grid(n, i, j),
        in_grid(n, a, b),
        spiral_value(n, a, b) == spiral_value(n, i, j) + 1,
    ensures
        a == i + row_delta(heading(n, a, b)),
        b == j + col_delta(heading(n, a, b)),
        heading(n, a, b) == heading(n, i, j) || heading(n, a, b) == turned(heading(n, i, j)),
        heading(n, a, b) != heading(n, i, j) <==> blocked(n, i, j, heading(n, i, j)),
{
    lemma_ring_bounds(n, a, b);
    lemma_step(n, i, j);
    let d = departure(n, i, j);
    lemma_injective(n, a, b, i + row_delta(d), j + col_delta(d));
}

} // verus!
