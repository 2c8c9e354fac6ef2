use vstd::prelude::*;
use crate::grid::{Grid, shaped, values_in_range};

verus! {

/// Cells `(r1, c1)` and `(r2, c2)` share a row, a column or a block.
pub open spec fn same_unit(side: int, r1: int, c1: int, r2: int, c2: int) -> bool {
    r1 == r2 || c1 == c2 || (r1 / side == r2 / side && c1 / side == c2 / side)
}

/// `(r, c)` is a cell of `g`.
pub open spec fn in_grid(g: Seq<Seq<usize>>, r: int, c: int) -> bool {
    0 <= r < g.len() && 0 <= c < g.len()
}

/// No cell sharing a unit with `(r, c)`, the cell itself included, holds `v`.
pub open spec fn legal(g: Seq<Seq<usize>>, side: int, r: int, c: int, v: int) -> bool {
    forall|i: int, j: int|
        in_grid(g, i, j) && same_unit(side, r, c, i, j) ==> #[trigger] g[i][j] != v
}

/// No two distinct filled cells of one unit hold the same value.
pub open spec fn consistent(g: Seq<Seq<usize>>, side: int) -> bool {
    forall|r1: int, c1: int, r2: int, c2: int|
        in_grid(g, r1, c1) && in_grid(g, r2, c2) && !(r1 == r2 && c1 == c2) && same_unit(
            side,
            r1,
            c1,
            r2,
            c2,
        ) && g[r1][c1] != 0 ==> #[trigger] g[r1][c1] != #[trigger] g[r2][c2]
}

/// Every cell of `g` is filled.
pub open spec fn complete(g: Seq<Seq<usize>>) -> bool {
    forall|r: int, c: int| in_grid(g, r, c) ==> #[trigger] g[r][c] != 0
}

/// `g` is a complete legal grid.
pub open spec fn is_solution(g: Seq<Seq<usize>>, side: int) -> bool {
    shaped(g) && values_in_range(g) && complete(g) && consistent(g, side)
}

/// `s` keeps every filled cell of `g`.
pub open spec fn extends(s: Seq<Seq<usize>>, g: Seq<Seq<usize>>) -> bool {
    s.len() == g.len() && forall|r: int, c: int|
        in_grid(g, r, c) && #[trigger] g[r][c] != 0 ==> s[r][c] == g[r][c]
}

/// `s` is a complete legal grid that keeps every filled cell of `g`.
pub open spec fn solves(s: Seq<Seq<usize>>, g: Seq<Seq<usize>>, side: int) -> bool {
    is_solution(s, side) && extends(s, g)
}

/// Some complete legal grid extends `g`.
pub open spec fn solvable(g: Seq<Seq<usize>>, side: int) -> bool {
    exists|s: Seq<Seq<usize>>| #[trigger] solves(s, g, side)
}

/// Two different complete legal grids extend `g`.
pub open spec fn ambiguous(g: Seq<Seq<usize>>, side: int) -> bool {
    exists|s1: Seq<Seq<usize>>, s2: Seq<Seq<usize>>|
        #[trigger] solves(s1, g, side) && #[trigger] solves(s2, g, side) && s1 != s2
}

/// Exactly one complete legal grid extends `g`.
pub open spec fn uniquely_solvable(g: Seq<Seq<usize>>, side: int) -> bool {
    solvable(g, side) && !ambiguous(g, side)
}

/// The number of completions of `g`, capped at two.
pub open spec fn solution_count_capped(g: Seq<Seq<usize>>, side: int) -> nat {
    if ambiguous(g, side) {
        2
    } else if solvable(g, side) {
        1
    } else {
        0
    }
}

/// The values of `1..=m`, ascending, that are legal at `(r, c)`.
pub open spec fn candidates_upto(g: Seq<Seq<usize>>, side: int, r: int, c: int, m: int) -> Seq<
    usize,
>
    decreases m,
{
    if m <= 0 {
        Seq::empty()
    } else if legal(g, side, r, c, m) {
        candidates_upto(g, side, r, c, m - 1).push(m as usize)
    } else {
        candidates_upto(g, side, r, c, m - 1)
    }
}

/// The values legal at `(r, c)`, ascending.
pub open spec fn candidates(g: Seq<Seq<usize>>, side: int, r: int, c: int) -> Seq<usize> {
    candidates_upto(g, side, r, c, g.len() as int)
}

/// Cells `i` and `x` lie in the same band of width `side` exactly when `i` falls in
/// the band that starts at `(x / side) * side`.
pub proof fn lemma_block_range(side: int, x: int, i: int)
    requires
        side > 0,
        x >= 0,
        i >= 0,
    ensures
        (i / side == x / side) <==> ((x / side) * side <= i < (x / side) * side + side),
{
    let q = x / side;
    let qi = i / side;
    let rem = i % side;
    vstd::arithmetic::div_mod::lemma_fundamental_div_mod(i, side);
    assert(0 <= rem < side);
    assert(i == side * qi + rem);
    if qi == q {
        assert(q * side <= i < q * side + side) by (nonlinear_arith)
            requires
                i == side * qi + rem,
                0 <= rem < side,
                qi == q,
        ;
    }
    if q * side <= i < q * side + side {
        assert(qi == q) by (nonlinear_arith)
            requires
                i == side * qi + rem,
                0 <= rem < side,
                q * side <= i < q * side + side,
                side > 0,
        ;
    }
}

/// A block that starts at `(x / side) * side` ends inside a grid of `side * side` rows.
proof fn lemma_block_fits(side: int, x: int)
    requires
        side > 0,
        0 <= x < side * side,
    ensures
        0 <= (x / side) * side,
        (x / side) * side + side <= side * side,
        (x / side) * side <= x,
{
    lemma_block_range(side, x, x);
    vstd::arithmetic::div_mod::lemma_fundamental_div_mod(x, side);
    let q = x / side;
    assert(0 <= q) by {
        vstd::arithmetic::div_mod::lemma_div_pos_is_pos(x, side);
    }
    assert(q < side) by {
        vstd::arithmetic::div_mod::lemma_div_by_multiple_is_strongly_ordered(x, side * side, side, side);
        assert(side * side / side == side) by {
            vstd::arithmetic::div_mod::lemma_div_by_multiple(side, side);
        }
    }
    assert(0 <= q * side) by (nonlinear_arith)
        requires
            0 <= q,
            side > 0,
    ;
    assert(q * side + side <= side * side) by (nonlinear_arith)
        requires
            q < side,
            side > 0,
    ;
}

/// Whether `value` may be placed at row `x`, column `y`: it appears nowhere in
/// that row, that column, or that block, the cell itself included.
pub fn is_valid(grid: &Grid, x: usize, y: usize, value: usize) -> (r: bool)
    requires
        grid.wf(),
        x < grid.size,
        y < grid.size,
    ensures
        r == legal(grid@, grid.side as int, x as int, y as int, value as int),
{
    let ghost g = grid@;
    let ghost side = grid.side as int;
    let n = grid.size;
    let mut i: usize = 0;
    while i < n
        invariant
            grid.wf(),
            g == grid@,
            n == grid.size,
            x < n,
            y < n,
            i <= n,
            forall|k: int| 0 <= k < i ==> #[trigger] g[x as int][k] != value,
            forall|k: int| 0 <= k < i ==> #[trigger] g[k][y as int] != value,
        decreases n - i,
    {
        if grid.get(x, i) == value || grid.get(i, y) == value {
            assert(same_unit(side, x as int, y as int, x as int, i as int));
            assert(same_unit(side, x as int, y as int, i as int, y as int));
            return false;
        }
        i += 1;
    }
    let s = grid.side;
    proof {
        lemma_block_fits(side, x as int);
        lemma_block_fits(side, y as int);
    }
    let x_start = (x / s) * s;
    let y_start = (y / s) * s;
    let mut i: usize = x_start;
    while i < x_start + s
        invariant
            grid.wf(),
            g == grid@,
            n == grid.size,
            s == grid.side,
            x < n,
            y < n,
            x_start == (x as int / side) * side,
            y_start == (y as int / side) * side,
            x_start + s <= n,
            y_start + s <= n,
            x_start <= i <= x_start + s,
            side == s as int,
            forall|k: int| 0 <= k < n ==> #[trigger] g[x as int][k] != value,
            forall|k: int| 0 <= k < n ==> #[trigger] g[k][y as int] != value,
            forall|a: int, b: int|
                x_start <= a < i && y_start <= b < y_start + s ==> #[trigger] g[a][b] != value,
        decreases x_start + s - i,
    {
        let mut j: usize = y_start;
        while j < y_start + s
            invariant
                grid.wf(),
                g == grid@,
                n == grid.size,
                s == grid.side,
                side == s as int,
                x < n,
                y < n,
                x_start == (x as int / side) * side,
                y_start == (y as int / side) * side,
                x_start + s <= n,
                y_start + s <= n,
                x_start <= i < x_start + s,
                y_start <= j <= y_start + s,
                forall|a: int, b: int|
                    x_start <= a < i && y_start <= b < y_start + s ==> #[trigger] g[a][b] != value,
                forall|b: int| y_start <= b < j ==> #[trigger] g[i as int][b] != value,
            decreases y_start + s - j,
        {
            if grid.get(i, j) == value {
                assert(g[i as int][j as int] == value);
                proof {
                    lemma_block_range(side, x as int, i as int);
                    lemma_block_range(side, y as int, j as int);
                }
                assert(same_unit(side, x as int, y as int, i as int, j as int));
                return false;
            }
            j += 1;
        }
        i += 1;
    }
    assert forall|a: int, b: int|
        in_grid(g, a, b) && same_unit(side, x as int, y as int, a, b) implies #[trigger] g[a][b]
        != value by {
        lemma_block_range(side, x as int, a);
        lemma_block_range(side, y as int, b);
    }
    true
}

/// What `candidates_upto` holds: exactly the legal values of `1..=m`, each once.
pub proof fn lemma_candidates_upto(g: Seq<Seq<usize>>, side: int, r: int, c: int, m: int)
    requires
        0 <= m <= usize::MAX,
    ensures
        candidates_upto(g, side, r, c, m).no_duplicates(),
        candidates_upto(g, side, r, c, m).len() <= m,
        forall|v: usize| #[trigger]
            candidates_upto(g, side, r, c, m).contains(v) <==> (1 <= v <= m && legal(
                g,
                side,
                r,
                c,
                v as int,
            )),
        forall|k: int|
            0 <= k < candidates_upto(g, side, r, c, m).len() ==> 1 <= #[trigger] candidates_upto(
                g,
                side,
                r,
                c,
                m,
            )[k] <= m,
    decreases m,
{
    if m > 0 {
        lemma_candidates_upto(g, side, r, c, m - 1);
        let prev = candidates_upto(g, side, r, c, m - 1);
        if legal(g, side, r, c, m) {
            let cur = prev.push(m as usize);
            assert forall|v: usize| #[trigger] cur.contains(v) <==> (1 <= v <= m && legal(
                g,
                side,
                r,
                c,
                v as int,
            )) by {
                if v == m {
                    assert(cur[prev.len() as int] == v);
                } else if cur.contains(v) {
                    let k = choose|k: int| 0 <= k < cur.len() && cur[k] == v;
                    assert(prev[k] == v);
                    assert(prev.contains(v));
                } else if 1 <= v <= m && legal(g, side, r, c, v as int) {
                    assert(prev.contains(v));
                    let k = choose|k: int| 0 <= k < prev.len() && prev[k] == v;
                    assert(cur[k] == v);
                }
            }
        }
    }
}

/// A grid's size leaves room for one more.
pub proof fn lemma_size_bound(grid: &Grid)
    requires
        grid.wf(),
    ensures
        grid.size < usize::MAX,
{
    let n = grid.size as int;
    let s = grid.side as int;
    assert(n < usize::MAX) by (nonlinear_arith)
        requires
            n * n <= usize::MAX,
            n == s * s,
            s >= 1,
    ;
}

/// The values that may be placed at row `x`, column `y`, ascending.
pub fn find_available_positions(grid: &Grid, x: usize, y: usize) -> (r: Vec<usize>)
    requires
        grid.wf(),
        x < grid.size,
        y < grid.size,
    ensures
        r@ == candidates(grid@, grid.side as int, x as int, y as int),
{
    let mut available_positions: Vec<usize> = Vec::new();
    proof {
        lemma_size_bound(grid);
    }
    let mut value: usize = 1;
    while value <= grid.size
        invariant
            grid.wf(),
            x < grid.size,
            y < grid.size,
            grid.size < usize::MAX,
            1 <= value <= grid.size + 1,
            available_positions@ == candidates_upto(
                grid@,
                grid.side as int,
                x as int,
                y as int,
                value - 1,
            ),
        decreases grid.size + 1 - value,
    {
        if is_valid(grid, x, y, value) {
            available_positions.push(value);
        }
        value += 1;
    }
    available_positions
}

/// Cell `(r, c)` comes before cell `(x, y)` in row-major order.
pub open spec fn before(r: int, c: int, x: int, y: int) -> bool {
    r < x || (r == x && c < y)
}

/// The empty cell with the fewest legal values (the first in row-major order
/// among equals) and those values, ascending; `(0, 0)` and no values when no
/// cell is empty.
pub fn get_next(grid: &Grid) -> (r: (usize, usize, Vec<usize>))
    requires
        grid.wf(),
    ensures
        complete(grid@) ==> r.0 == 0 && r.1 == 0 && r.2@.len() == 0,
        !complete(grid@) ==> {
            let (x, y) = (r.0 as int, r.1 as int);
            &&& in_grid(grid@, x, y)
            &&& grid@[x][y] == 0
            &&& r.2@ == candidates(grid@, grid.side as int, x, y)
            &&& forall|i: int, j: int|
                in_grid(grid@, i, j) && #[trigger] grid@[i][j] == 0 ==> candidates(
                    grid@,
                    grid.side as int,
                    i,
                    j,
                ).len() >= r.2@.len()
            &&& forall|i: int, j: int|
                in_grid(grid@, i, j) && #[trigger] grid@[i][j] == 0 && before(i, j, x, y)
                    ==> candidates(grid@, grid.side as int, i, j).len() > r.2@.len()
        },
{
    let ghost g = grid@;
    let ghost side = grid.side as int;
    let n = grid.size;
    let mut smallest_space = usize::MAX;
    let mut best_x: usize = 0;
    let mut best_y: usize = 0;
    let mut best_available_positions: Vec<usize> = Vec::new();
    let mut x: usize = 0;
    proof {
        lemma_size_bound(grid);
    }
    while x < n
        invariant
            grid.wf(),
            g == grid@,
            side == grid.side,
            n == grid.size,
            n < usize::MAX,
            x <= n,
            smallest_space == usize::MAX ==> best_x == 0 && best_y == 0
                && best_available_positions@.len() == 0 && forall|i: int, j: int|
                0 <= i < x && 0 <= j < n ==> #[trigger] g[i][j] != 0,
            smallest_space < usize::MAX ==> {
                &&& best_x < n && best_y < n
                &&& before(best_x as int, best_y as int, x as int, 0)
                &&& g[best_x as int][best_y as int] == 0
                &&& best_available_positions@ == candidates(g, side, best_x as int, best_y as int)
                &&& smallest_space == best_available_positions@.len()
                &&& forall|i: int, j: int|
                    0 <= i < x && 0 <= j < n && #[trigger] g[i][j] == 0 ==> candidates(g, side, i, j).len()
                        >= smallest_space
                &&& forall|i: int, j: int|
                    0 <= i < x && 0 <= j < n && #[trigger] g[i][j] == 0 && before(
                        i,
                        j,
                        best_x as int,
                        best_y as int,
                    ) ==> candidates(g, side, i, j).len() > smallest_space
            },
        decreases n - x,
    {
        let mut y: usize = 0;
        while y < n
            invariant
                grid.wf(),
                g == grid@,
                side == grid.side,
                n == grid.size,
                n < usize::MAX,
                x < n,
                y <= n,
                smallest_space == usize::MAX ==> best_x == 0 && best_y == 0
                    && best_available_positions@.len() == 0 && forall|i: int, j: int|
                    0 <= i < n && 0 <= j < n && before(i, j, x as int, y as int) ==> #[trigger] g[i][j]
                        != 0,
                smallest_space < usize::MAX ==> {
                    &&& best_x < n && best_y < n
                    &&& before(best_x as int, best_y as int, x as int, y as int)
                    &&& g[best_x as int][best_y as int] == 0
                    &&& best_available_positions@ == candidates(
                        g,
                        side,
                        best_x as int,
                        best_y as int,
                    )
                    &&& smallest_space == best_available_positions@.len()
                    &&& forall|i: int, j: int|
                        0 <= i < n && 0 <= j < n && before(i, j, x as int, y as int) && #[trigger] g[i][j]
                            == 0 ==> candidates(g, side, i, j).len() >= smallest_space
                    &&& forall|i: int, j: int|
                        0 <= i < n && 0 <= j < n && #[trigger] g[i][j] == 0 && before(
                            i,
                            j,
                            best_x as int,
                            best_y as int,
                        ) ==> candidates(g, side, i, j).len() > smallest_space
                },
            decreases n - y,
        {
            if grid.get(x, y) == 0 {
                let available_positions = find_available_positions(grid, x, y);
                proof {
                    lemma_candidates_upto(g, side, x as int, y as int, n as int);
                }
                if available_positions.len() < smallest_space {
                    smallest_space = available_positions.len();
                    best_x = x;
                    best_y = y;
                    best_available_positions = available_positions;
                }
            }
            y += 1;
        }
        x += 1;
    }
    (best_x, best_y, best_available_positions)
}

} // verus!
