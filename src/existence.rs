use vstd::prelude::*;
use vstd::arithmetic::div_mod::{lemma_fundamental_div_mod, lemma_fundamental_div_mod_converse};
use crate::grid::{shaped, values_in_range};
use crate::rules::{complete, extends, in_grid, is_solution, same_unit, solvable, solves};

verus! {

/// The row of the shifted-rows grid that row `r` starts from: the digits of `r`
/// in base `side`, swapped.
pub open spec fn row_shift(side: int, r: int) -> int {
    (r % side) * side + r / side
}

/// A complete legal grid of `side * side` rows: each row is `1..=size` rotated
/// by `row_shift`.
pub open spec fn shifted_rows(side: int) -> Seq<Seq<usize>> {
    Seq::new(
        (side * side) as nat,
        |r: int|
            Seq::new(
                (side * side) as nat,
                |c: int| ((row_shift(side, r) + c) % (side * side) + 1) as usize,
            ),
    )
}

/// Two numbers less than `n` apart, but not equal, leave different remainders.
proof fn lemma_mod_distinct(x: int, y: int, n: int)
    requires
        n > 0,
        x >= 0,
        y >= 0,
        x != y,
        -n < x - y < n,
    ensures
        x % n != y % n,
{
    lemma_fundamental_div_mod(x, n);
    lemma_fundamental_div_mod(y, n);
    let qx = x / n;
    let qy = y / n;
    if x % n == y % n {
        assert(x - y == n * (qx - qy)) by (nonlinear_arith)
            requires
                x == n * qx + x % n,
                y == n * qy + y % n,
                x % n == y % n,
        ;
        assert(false) by (nonlinear_arith)
            requires
                x - y == n * (qx - qy),
                x != y,
                -n < x - y < n,
                n > 0,
        ;
    }
}

/// `row_shift` sends the rows `0..side * side` to distinct values in the same range.
proof fn lemma_row_shift(side: int, r: int)
    requires
        side >= 1,
        0 <= r < side * side,
    ensures
        0 <= r / side < side,
        0 <= r % side < side,
        0 <= row_shift(side, r) < side * side,
        row_shift(side, r) / side == r % side,
        row_shift(side, r) % side == r / side,
        r == (r / side) * side + r % side,
{
    lemma_fundamental_div_mod(r, side);
    let a = r / side;
    let b = r % side;
    assert(0 <= a < side) by (nonlinear_arith)
        requires
            r == side * a + b,
            0 <= b < side,
            0 <= r < side * side,
    ;
    assert(r == a * side + b) by (nonlinear_arith)
        requires
            r == side * a + b,
    ;
    assert(0 <= b * side + a < side * side) by (nonlinear_arith)
        requires
            0 <= a < side,
            0 <= b < side,
    ;
    lemma_fundamental_div_mod_converse(b * side + a, side, b, a);
}

/// Every size has a complete legal grid.
pub proof fn lemma_shifted_rows_is_solution(side: int)
    requires
        side >= 1,
        side * side <= usize::MAX,
    ensures
        shifted_rows(side).len() == side * side,
        is_solution(shifted_rows(side), side),
{
    let n = side * side;
    let g = shifted_rows(side);
    assert(n >= 1) by (nonlinear_arith)
        requires
            side >= 1,
            n == side * side,
    ;
    assert forall|r: int, c: int| in_grid(g, r, c) implies #[trigger] g[r][c] == (row_shift(side, r) + c)
        % n + 1 && 1 <= g[r][c] <= n by {
        lemma_row_shift(side, r);
        lemma_fundamental_div_mod(row_shift(side, r) + c, n);
    }
    assert(shaped(g));
    assert(values_in_range(g));
    assert(complete(g));
    assert forall|r1: int, c1: int, r2: int, c2: int|
        in_grid(g, r1, c1) && in_grid(g, r2, c2) && !(r1 == r2 && c1 == c2) && same_unit(
            side,
            r1,
            c1,
            r2,
            c2,
        ) && g[r1][c1] != 0 implies #[trigger] g[r1][c1] != #[trigger] g[r2][c2] by {
        lemma_row_shift(side, r1);
        lemma_row_shift(side, r2);
        let f1 = row_shift(side, r1);
        let f2 = row_shift(side, r2);
        let x1 = f1 + c1;
        let x2 = f2 + c2;
        assert(g[r1][c1] == x1 % n + 1);
        assert(g[r2][c2] == x2 % n + 1);
        if r1 == r2 {
            lemma_mod_distinct(x1, x2, n);
        } else if c1 == c2 {
            if f1 == f2 {
                assert(r1 == r2);
            }
            lemma_mod_distinct(x1, x2, n);
        } else {
            lemma_row_shift(side, c1);
            lemma_row_shift(side, c2);
            let i1 = r1 % side;
            let i2 = r2 % side;
            let j1 = c1 % side;
            let j2 = c2 % side;
            let a = r1 / side;
            let b = c1 / side;
            assert(i1 != i2);
            assert(x1 - x2 == (i1 - i2) * side + (j1 - j2)) by (nonlinear_arith)
                requires
                    x1 == i1 * side + a + b * side + j1,
                    x2 == i2 * side + a + b * side + j2,
            ;
            assert(x1 != x2 && -n < x1 - x2 < n) by (nonlinear_arith)
                requires
                    x1 - x2 == (i1 - i2) * side + (j1 - j2),
                    i1 != i2,
                    0 <= i1 < side,
                    0 <= i2 < side,
                    0 <= j1 < side,
                    0 <= j2 < side,
                    n == side * side,
            ;
            lemma_mod_distinct(x1, x2, n);
        }
    }
}

/// A grid with no filled cell has a completion.
pub proof fn lemma_empty_grid_solvable(g: Seq<Seq<usize>>, side: int)
    requires
        side >= 1,
        side * side <= usize::MAX,
        g.len() == side * side,
        forall|r: int, c: int| in_grid(g, r, c) ==> #[trigger] g[r][c] == 0,
    ensures
        solvable(g, side),
{
    lemma_shifted_rows_is_solution(side);
    let s = shifted_rows(side);
    assert(extends(s, g));
    assert(solves(s, g, side));
}

} // verus!
