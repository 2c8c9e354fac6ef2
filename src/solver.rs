use vstd::prelude::*;
use rand::rngs::StdRng;
use crate::grid::{Grid, GridError, shaped, valid_size, with_cell};
use crate::existence::lemma_empty_grid_solvable;
use crate::random::shuffle;
use crate::rules::{
    ambiguous, candidates, complete, consistent, extends, find_available_positions, in_grid,
    is_solution, is_valid, legal, lemma_candidates_upto, same_unit, solution_count_capped,
    solvable, solves, uniquely_solvable,
};

verus! {

broadcast use vstd::seq_lib::to_multiset_contains;

/// Every cell before `(x, y)` in row-major order is filled.
pub open spec fn filled_before(g: Seq<Seq<usize>>, x: int, y: int) -> bool {
    forall|r: int, c: int|
        in_grid(g, r, c) && (r < x || (r == x && c < y)) ==> #[trigger] g[r][c] != 0
}

/// `(x, y)` is a cell of an `n` x `n` grid, or the position just past its last cell.
pub open spec fn scan_position(n: int, x: int, y: int) -> bool {
    (0 <= x < n && 0 <= y < n) || (x == n && y == 0)
}

/// Placing a legal value in an empty cell keeps the filled cells legal.
pub proof fn lemma_place_keeps_consistent(
    g: Seq<Seq<usize>>,
    side: int,
    x: int,
    y: int,
    v: usize,
)
    requires
        shaped(g),
        in_grid(g, x, y),
        g[x][y] == 0,
        consistent(g, side),
        legal(g, side, x, y, v as int),
        1 <= v,
    ensures
        consistent(with_cell(g, x, y, v), side),
{
    let h = with_cell(g, x, y, v);
    assert forall|r1: int, c1: int, r2: int, c2: int|
        in_grid(h, r1, c1) && in_grid(h, r2, c2) && !(r1 == r2 && c1 == c2) && same_unit(
            side,
            r1,
            c1,
            r2,
            c2,
        ) && h[r1][c1] != 0 implies #[trigger] h[r1][c1] != #[trigger] h[r2][c2] by {
        if r1 == x && c1 == y {
            assert(h[r2][c2] == g[r2][c2]);
        } else if r2 == x && c2 == y {
            assert(h[r1][c1] == g[r1][c1]);
            assert(same_unit(side, x, y, r1, c1));
        } else {
            assert(h[r1][c1] == g[r1][c1]);
            assert(h[r2][c2] == g[r2][c2]);
        }
    }
}

/// The value that a completion puts into an empty cell is legal there.
pub proof fn lemma_solution_value_legal(
    s: Seq<Seq<usize>>,
    g: Seq<Seq<usize>>,
    side: int,
    x: int,
    y: int,
)
    requires
        solves(s, g, side),
        in_grid(g, x, y),
        g[x][y] == 0,
    ensures
        legal(g, side, x, y, s[x][y] as int),
        1 <= s[x][y] <= g.len(),
{
    assert(s[x][y] != 0);
    assert forall|i: int, j: int| in_grid(g, i, j) && same_unit(side, x, y, i, j) implies #[trigger] g[i][j]
        != s[x][y] as int by {
        if !(i == x && j == y) && g[i][j] != 0 {
            assert(s[i][j] == g[i][j]);
            assert(s[x][y] != s[i][j]);
        }
    }
}

/// With `(x, y)` empty in `g`, the completions of `g` with `v` placed there are
/// the completions of `g` that hold `v` there.
pub proof fn lemma_solves_with_cell(
    s: Seq<Seq<usize>>,
    g: Seq<Seq<usize>>,
    side: int,
    x: int,
    y: int,
    v: usize,
)
    requires
        shaped(g),
        in_grid(g, x, y),
        g[x][y] == 0,
        1 <= v,
    ensures
        solves(s, with_cell(g, x, y, v), side) <==> (solves(s, g, side) && s[x][y] == v),
{
    let h = with_cell(g, x, y, v);
    if solves(s, h, side) {
        assert(h[x][y] == v);
        assert forall|r: int, c: int| in_grid(g, r, c) && #[trigger] g[r][c] != 0 implies s[r][c]
            == g[r][c] by {
            assert(h[r][c] == g[r][c]);
        }
    }
    if solves(s, g, side) && s[x][y] == v {
        assert forall|r: int, c: int| in_grid(h, r, c) && #[trigger] h[r][c] != 0 implies s[r][c]
            == h[r][c] by {
            if !(r == x && c == y) {
                assert(h[r][c] == g[r][c]);
            }
        }
    }
}

/// A complete legal grid is its own completion, and its only one.
pub proof fn lemma_complete_unique(g: Seq<Seq<usize>>, side: int)
    requires
        is_solution(g, side),
    ensures
        solves(g, g, side),
        forall|s: Seq<Seq<usize>>| #[trigger] solves(s, g, side) ==> s == g,
        solvable(g, side),
        !ambiguous(g, side),
        uniquely_solvable(g, side),
        solution_count_capped(g, side) == 1,
{
    assert(solves(g, g, side));
    assert forall|s: Seq<Seq<usize>>| #[trigger] solves(s, g, side) implies s == g by {
        assert forall|r: int| 0 <= r < g.len() implies s[r] =~= g[r] by {
            assert forall|c: int| 0 <= c < g.len() implies s[r][c] == g[r][c] by {
                assert(g[r][c] != 0);
            }
        }
        assert(s =~~= g);
    }
}

/// A grid with a completion has no two filled cells of one unit that clash.
pub proof fn lemma_solvable_consistent(s: Seq<Seq<usize>>, g: Seq<Seq<usize>>, side: int)
    requires
        solves(s, g, side),
    ensures
        consistent(g, side),
{
    assert forall|r1: int, c1: int, r2: int, c2: int|
        in_grid(g, r1, c1) && in_grid(g, r2, c2) && !(r1 == r2 && c1 == c2) && same_unit(
            side,
            r1,
            c1,
            r2,
            c2,
        ) && g[r1][c1] != 0 implies #[trigger] g[r1][c1] != #[trigger] g[r2][c2] by {
        assert(s[r1][c1] == g[r1][c1]);
        assert(s[r1][c1] != s[r2][c2]);
    }
}

/// Fills the empty cells from `(x, y)` on, in row-major order, trying the legal
/// values of each cell in a random order and undoing a placement that leads to
/// a dead end. Returns whether the grid was completed; on failure it is left as
/// it was.
pub fn sudoku_solver(grid: &mut Grid, x: usize, y: usize, rng: &mut StdRng) -> (r: bool)
    requires
        old(grid).wf(),
        consistent(old(grid)@, old(grid).side as int),
        scan_position(old(grid).size as int, x as int, y as int),
        filled_before(old(grid)@, x as int, y as int),
    ensures
        final(grid).wf(),
        final(grid).size == old(grid).size,
        final(grid).side == old(grid).side,
        r == solvable(old(grid)@, old(grid).side as int),
        r ==> solves(final(grid)@, old(grid)@, old(grid).side as int),
        !r ==> final(grid)@ == old(grid)@,
    decreases old(grid).size - x, old(grid).size - y,
{
    let ghost g0 = grid@;
    let ghost side = grid.side as int;
    let n = grid.size;
    if x == n {
        proof {
            lemma_complete_unique(g0, side);
        }
        return true;
    }
    let nx: usize = if y == n - 1 { x + 1 } else { x };
    let ny: usize = if y == n - 1 { 0 } else { y + 1 };
    if grid.get(x, y) != 0 {
        return sudoku_solver(grid, nx, ny, rng);
    }
    let mut available_positions = find_available_positions(grid, x, y);
    proof {
        lemma_candidates_upto(g0, side, x as int, y as int, n as int);
    }
    let ghost ascending = available_positions@;
    shuffle(&mut available_positions, rng);
    assert forall|v: usize| #[trigger]
        available_positions@.contains(v) <==> (1 <= v <= n && legal(
            g0,
            side,
            x as int,
            y as int,
            v as int,
        )) by {
        assert(available_positions@.to_multiset().count(v) == ascending.to_multiset().count(v));
    }
    let mut i: usize = 0;
    while i < available_positions.len()
        invariant
            grid.wf(),
            grid.size == n,
            grid.side == side,
            n == old(grid).size,
            side == old(grid).side,
            g0 == old(grid)@,
            g0.len() == n,
            x < n,
            y < n,
            scan_position(n as int, nx as int, ny as int),
            nx == (if y == n - 1 { x + 1 } else { x as int }),
            ny == (if y == n - 1 { 0 } else { y + 1 }),
            shaped(g0),
            consistent(g0, side),
            filled_before(g0, x as int, y as int),
            g0[x as int][y as int] == 0,
            grid@.len() == n,
            forall|r: int, c: int|
                in_grid(g0, r, c) && !(r == x && c == y) ==> #[trigger] grid@[r][c] == g0[r][c],
            forall|v: usize| #[trigger]
                available_positions@.contains(v) <==> (1 <= v <= n && legal(
                    g0,
                    side,
                    x as int,
                    y as int,
                    v as int,
                )),
            forall|j: int|
                0 <= j < i ==> !solvable(
                    with_cell(g0, x as int, y as int, #[trigger] available_positions@[j]),
                    side,
                ),
        decreases available_positions.len() - i,
    {
        let value = available_positions[i];
        assert(available_positions@.contains(value));
        grid.set(x, y, value);
        let ghost h = with_cell(g0, x as int, y as int, value);
        assert(grid@ =~~= h);
        proof {
            lemma_place_keeps_consistent(g0, side, x as int, y as int, value);
            assert forall|r: int, c: int|
                in_grid(h, r, c) && (r < nx || (r == nx && c < ny)) implies #[trigger] h[r][c]
                != 0 by {
                if !(r == x && c == y) {
                    assert(h[r][c] == g0[r][c]);
                }
            }
        }
        if sudoku_solver(grid, nx, ny, rng) {
            proof {
                lemma_solves_with_cell(grid@, g0, side, x as int, y as int, value);
            }
            return true;
        }
        i += 1;
    }
    grid.set(x, y, 0);
    assert(grid@ =~~= g0);
    proof {
        if solvable(g0, side) {
            let s = choose|s: Seq<Seq<usize>>| solves(s, g0, side);
            lemma_solution_value_legal(s, g0, side, x as int, y as int);
            let v = s[x as int][y as int];
            assert(available_positions@.contains(v));
            let j = choose|j: int| 0 <= j < available_positions@.len() && available_positions@[j] == v;
            lemma_solves_with_cell(s, g0, side, x as int, y as int, v);
            assert(solvable(with_cell(g0, x as int, y as int, available_positions@[j]), side));
        }
    }
    false
}

/// Some completion of `g` holds one of `vals` at `(x, y)`.
pub open spec fn solvable_within(g: Seq<Seq<usize>>, side: int, x: int, y: int, vals: Seq<usize>) -> bool {
    exists|s: Seq<Seq<usize>>| #[trigger] solves(s, g, side) && vals.contains(s[x][y])
}

/// Two different completions of `g` hold one of `vals` at `(x, y)`.
pub open spec fn ambiguous_within(g: Seq<Seq<usize>>, side: int, x: int, y: int, vals: Seq<usize>) -> bool {
    exists|s1: Seq<Seq<usize>>, s2: Seq<Seq<usize>>|
        #[trigger] solves(s1, g, side) && #[trigger] solves(s2, g, side) && s1 != s2 && vals.contains(
            s1[x][y],
        ) && vals.contains(s2[x][y])
}

/// The number of completions of `g` with one of `vals` at `(x, y)`, capped at two.
pub open spec fn count_within(g: Seq<Seq<usize>>, side: int, x: int, y: int, vals: Seq<usize>) -> nat {
    if ambiguous_within(g, side, x, y, vals) {
        2
    } else if solvable_within(g, side, x, y, vals) {
        1
    } else {
        0
    }
}

/// `a + b`, capped at two.
pub open spec fn capped_sum(a: int, b: int) -> int {
    if a + b >= 2 {
        2
    } else {
        a + b
    }
}

/// Counting the completions with `v` at `(x, y)` adds those of the grid with `v`
/// placed there.
proof fn lemma_count_within_push(
    g: Seq<Seq<usize>>,
    side: int,
    x: int,
    y: int,
    vals: Seq<usize>,
    v: usize,
)
    requires
        shaped(g),
        in_grid(g, x, y),
        g[x][y] == 0,
        1 <= v,
        !vals.contains(v),
    ensures
        count_within(g, side, x, y, vals.push(v)) == capped_sum(
            count_within(g, side, x, y, vals) as int,
            solution_count_capped(with_cell(g, x, y, v), side) as int,
        ),
{
    let h = with_cell(g, x, y, v);
    let more = vals.push(v);
    assert forall|s: Seq<Seq<usize>>| #[trigger] solves(s, h, side) <==> (solves(s, g, side) && s[x][y] == v) by {
        lemma_solves_with_cell(s, g, side, x, y, v);
    }
    assert forall|u: usize| #[trigger] more.contains(u) <==> (vals.contains(u) || u == v) by {
        if more.contains(u) && u != v {
            let k = choose|k: int| 0 <= k < more.len() && more[k] == u;
            assert(vals[k] == u);
        }
        if vals.contains(u) {
            let k = choose|k: int| 0 <= k < vals.len() && vals[k] == u;
            assert(more[k] == u);
        }
        if u == v {
            assert(more[vals.len() as int] == u);
        }
    }
    if ambiguous(h, side) {
        let (s1, s2) = choose|s1: Seq<Seq<usize>>, s2: Seq<Seq<usize>>|
            solves(s1, h, side) && solves(s2, h, side) && s1 != s2;
        assert(more.contains(s1[x][y]) && more.contains(s2[x][y]));
        assert(ambiguous_within(g, side, x, y, more));
    } else if ambiguous_within(g, side, x, y, vals) {
        let (s1, s2) = choose|s1: Seq<Seq<usize>>, s2: Seq<Seq<usize>>|
            solves(s1, g, side) && solves(s2, g, side) && s1 != s2 && vals.contains(s1[x][y])
                && vals.contains(s2[x][y]);
        assert(more.contains(s1[x][y]) && more.contains(s2[x][y]));
        assert(ambiguous_within(g, side, x, y, more));
    } else if solvable(h, side) && solvable_within(g, side, x, y, vals) {
        let s1 = choose|s1: Seq<Seq<usize>>| solves(s1, h, side);
        let s2 = choose|s2: Seq<Seq<usize>>| solves(s2, g, side) && vals.contains(s2[x][y]);
        assert(s1[x][y] != s2[x][y]);
        assert(more.contains(s1[x][y]) && more.contains(s2[x][y]));
        assert(ambiguous_within(g, side, x, y, more));
    } else if solvable(h, side) {
        let s1 = choose|s1: Seq<Seq<usize>>| solves(s1, h, side);
        assert(more.contains(s1[x][y]));
        assert(solvable_within(g, side, x, y, more));
        if ambiguous_within(g, side, x, y, more) {
            let (t1, t2) = choose|t1: Seq<Seq<usize>>, t2: Seq<Seq<usize>>|
                solves(t1, g, side) && solves(t2, g, side) && t1 != t2 && more.contains(t1[x][y])
                    && more.contains(t2[x][y]);
            if vals.contains(t1[x][y]) {
                assert(solvable_within(g, side, x, y, vals));
            } else if vals.contains(t2[x][y]) {
                assert(solvable_within(g, side, x, y, vals));
            } else {
                assert(solves(t1, h, side) && solves(t2, h, side));
            }
        }
    } else {
        if solvable_within(g, side, x, y, more) {
            let t = choose|t: Seq<Seq<usize>>| solves(t, g, side) && more.contains(t[x][y]);
            if !vals.contains(t[x][y]) {
                assert(solves(t, h, side));
            }
            assert(solvable_within(g, side, x, y, vals));
        }
        if ambiguous_within(g, side, x, y, more) {
            let (t1, t2) = choose|t1: Seq<Seq<usize>>, t2: Seq<Seq<usize>>|
                solves(t1, g, side) && solves(t2, g, side) && t1 != t2 && more.contains(t1[x][y])
                    && more.contains(t2[x][y]);
            if !vals.contains(t1[x][y]) {
                assert(solves(t1, h, side));
            }
            if !vals.contains(t2[x][y]) {
                assert(solves(t2, h, side));
            }
            assert(ambiguous_within(g, side, x, y, vals));
        }
    }
}

/// Counting within a part of the values never exceeds the capped count, and
/// within every legal value it is that count.
proof fn lemma_count_within_bound(g: Seq<Seq<usize>>, side: int, x: int, y: int, vals: Seq<usize>)
    requires
        in_grid(g, x, y),
        g[x][y] == 0,
    ensures
        count_within(g, side, x, y, vals) <= solution_count_capped(g, side),
        (forall|v: usize| 1 <= v <= g.len() && legal(g, side, x, y, v as int) ==> #[trigger] vals.contains(v))
            ==> count_within(g, side, x, y, vals) == solution_count_capped(g, side),
{
    if ambiguous_within(g, side, x, y, vals) {
        let (s1, s2) = choose|s1: Seq<Seq<usize>>, s2: Seq<Seq<usize>>|
            solves(s1, g, side) && solves(s2, g, side) && s1 != s2 && vals.contains(s1[x][y])
                && vals.contains(s2[x][y]);
        assert(ambiguous(g, side));
    }
    if solvable_within(g, side, x, y, vals) {
        let s = choose|s: Seq<Seq<usize>>| solves(s, g, side) && vals.contains(s[x][y]);
        assert(solvable(g, side));
    }
    if forall|v: usize| 1 <= v <= g.len() && legal(g, side, x, y, v as int) ==> #[trigger] vals.contains(v) {
        if ambiguous(g, side) {
            let (s1, s2) = choose|s1: Seq<Seq<usize>>, s2: Seq<Seq<usize>>|
                solves(s1, g, side) && solves(s2, g, side) && s1 != s2;
            lemma_solution_value_legal(s1, g, side, x, y);
            lemma_solution_value_legal(s2, g, side, x, y);
            assert(vals.contains(s1[x][y]) && vals.contains(s2[x][y]));
            assert(ambiguous_within(g, side, x, y, vals));
        }
        if solvable(g, side) {
            let s = choose|s: Seq<Seq<usize>>| solves(s, g, side);
            lemma_solution_value_legal(s, g, side, x, y);
            assert(vals.contains(s[x][y]));
            assert(solvable_within(g, side, x, y, vals));
        }
    }
}

/// Counts the completions of the empty cells from `(x, y)` on, adding them to
/// `solutions` and stopping as soon as it exceeds one. The grid is left as it was.
pub fn collect_sudoku_solutions(grid: &mut Grid, x: usize, y: usize, solutions: &mut usize)
    requires
        old(grid).wf(),
        consistent(old(grid)@, old(grid).side as int),
        scan_position(old(grid).size as int, x as int, y as int),
        filled_before(old(grid)@, x as int, y as int),
        *old(solutions) <= 2,
    ensures
        final(grid).wf(),
        final(grid).size == old(grid).size,
        final(grid).side == old(grid).side,
        final(grid)@ == old(grid)@,
        *final(solutions) == capped_sum(
            *old(solutions) as int,
            solution_count_capped(old(grid)@, old(grid).side as int) as int,
        ),
    decreases old(grid).size - x, old(grid).size - y,
{
    let ghost g0 = grid@;
    let ghost side = grid.side as int;
    let n = grid.size;
    if *solutions > 1 {
        return;
    }
    if x == n {
        proof {
            lemma_complete_unique(g0, side);
        }
        *solutions += 1;
        return;
    }
    let nx: usize = if y == n - 1 { x + 1 } else { x };
    let ny: usize = if y == n - 1 { 0 } else { y + 1 };
    if grid.get(x, y) != 0 {
        collect_sudoku_solutions(grid, nx, ny, solutions);
        return;
    }
    let available_positions = find_available_positions(grid, x, y);
    proof {
        lemma_candidates_upto(g0, side, x as int, y as int, n as int);
    }
    let ghost c0 = *solutions as int;
    let mut i: usize = 0;
    assert(available_positions@.take(0) =~= Seq::<usize>::empty());
    while i < available_positions.len() && *solutions <= 1
        invariant
            grid.wf(),
            grid.size == n,
            grid.side == side,
            n == old(grid).size,
            side == old(grid).side,
            g0 == old(grid)@,
            g0.len() == n,
            x < n,
            y < n,
            0 <= c0 <= 1,
            scan_position(n as int, nx as int, ny as int),
            nx == (if y == n - 1 { x + 1 } else { x as int }),
            ny == (if y == n - 1 { 0 } else { y + 1 }),
            shaped(g0),
            consistent(g0, side),
            filled_before(g0, x as int, y as int),
            g0[x as int][y as int] == 0,
            grid@.len() == n,
            forall|r: int, c: int|
                in_grid(g0, r, c) && !(r == x && c == y) ==> #[trigger] grid@[r][c] == g0[r][c],
            available_positions@ == candidates(g0, side, x as int, y as int),
            available_positions@.no_duplicates(),
            forall|v: usize| #[trigger]
                available_positions@.contains(v) <==> (1 <= v <= n && legal(
                    g0,
                    side,
                    x as int,
                    y as int,
                    v as int,
                )),
            i <= available_positions@.len(),
            *solutions == capped_sum(
                c0,
                count_within(g0, side, x as int, y as int, available_positions@.take(i as int)) as int,
            ),
        decreases available_positions.len() - i,
    {
        let value = available_positions[i];
        assert(available_positions@.contains(value));
        grid.set(x, y, value);
        let ghost h = with_cell(g0, x as int, y as int, value);
        assert(grid@ =~~= h);
        proof {
            lemma_place_keeps_consistent(g0, side, x as int, y as int, value);
            assert forall|r: int, c: int|
                in_grid(h, r, c) && (r < nx || (r == nx && c < ny)) implies #[trigger] h[r][c]
                != 0 by {
                if !(r == x && c == y) {
                    assert(h[r][c] == g0[r][c]);
                }
            }
            let prefix = available_positions@.take(i as int);
            assert(available_positions@.take(i + 1) =~= prefix.push(value));
            if prefix.contains(value) {
                let k = choose|k: int| 0 <= k < prefix.len() && prefix[k] == value;
                assert(available_positions@[k] == available_positions@[i as int]);
            }
            lemma_count_within_push(g0, side, x as int, y as int, prefix, value);
        }
        collect_sudoku_solutions(grid, nx, ny, solutions);
        i += 1;
    }
    grid.set(x, y, 0);
    assert(grid@ =~~= g0);
    proof {
        lemma_count_within_bound(g0, side, x as int, y as int, available_positions@.take(i as int));
        if i == available_positions.len() {
            assert(available_positions@.take(i as int) =~= available_positions@);
        }
    }
}

/// The cell `(r, c)` is empty, or its value clashes with no other cell of its units.
pub open spec fn clue_ok(g: Seq<Seq<usize>>, side: int, r: int, c: int) -> bool {
    g[r][c] == 0 || legal(with_cell(g, r, c, 0), side, r, c, g[r][c] as int)
}

/// Whether no two filled cells of one unit hold the same value. The grid is
/// cleared and restored cell by cell while checking, and left as it was.
fn filled_cells_legal(grid: &mut Grid) -> (r: bool)
    requires
        old(grid).wf(),
    ensures
        final(grid).wf(),
        final(grid).size == old(grid).size,
        final(grid).side == old(grid).side,
        final(grid)@ == old(grid)@,
        r == consistent(old(grid)@, old(grid).side as int),
{
    let ghost g0 = grid@;
    let ghost side = grid.side as int;
    let n = grid.size;
    let mut x: usize = 0;
    while x < n
        invariant
            grid.wf(),
            grid.size == n,
            grid.side == side,
            grid@ == g0,
            g0 == old(grid)@,
            n == old(grid).size,
            side == old(grid).side,
            x <= n,
            forall|r: int, c: int| 0 <= r < x && 0 <= c < n ==> #[trigger] clue_ok(g0, side, r, c),
        decreases n - x,
    {
        let mut y: usize = 0;
        while y < n
            invariant
                grid.wf(),
                grid.size == n,
                grid.side == side,
                grid@ == g0,
                g0 == old(grid)@,
                n == old(grid).size,
                side == old(grid).side,
                x < n,
                y <= n,
                forall|r: int, c: int|
                    (0 <= r < x && 0 <= c < n) || (r == x && 0 <= c < y) ==> #[trigger] clue_ok(
                        g0,
                        side,
                        r,
                        c,
                    ),
            decreases n - y,
        {
            let v = grid.get(x, y);
            if v != 0 {
                grid.set(x, y, 0);
                let ok = is_valid(grid, x, y, v);
                grid.set(x, y, v);
                assert(grid@ =~~= g0);
                if !ok {
                    proof {
                        let h = with_cell(g0, x as int, y as int, 0);
                        let (i, j) = choose|i: int, j: int|
                            in_grid(h, i, j) && same_unit(side, x as int, y as int, i, j) && h[i][j]
                                == v as int;
                        assert(h[x as int][y as int] == 0);
                        assert(h[i][j] == g0[i][j]);
                        assert(g0[x as int][y as int] == g0[i][j]);
                    }
                    return false;
                }
            }
            y += 1;
        }
        x += 1;
    }
    assert forall|r1: int, c1: int, r2: int, c2: int|
        in_grid(g0, r1, c1) && in_grid(g0, r2, c2) && !(r1 == r2 && c1 == c2) && same_unit(
            side,
            r1,
            c1,
            r2,
            c2,
        ) && g0[r1][c1] != 0 implies #[trigger] g0[r1][c1] != #[trigger] g0[r2][c2] by {
        assert(clue_ok(g0, side, r1, c1));
        let h = with_cell(g0, r1, c1, 0);
        assert(h[r2][c2] == g0[r2][c2]);
    }
    true
}

/// Whether exactly one complete legal grid extends `grid`. The grid is left as it was.
pub fn sudoku_unique(grid: &mut Grid) -> (r: bool)
    requires
        old(grid).wf(),
    ensures
        final(grid).wf(),
        final(grid).size == old(grid).size,
        final(grid).side == old(grid).side,
        final(grid)@ == old(grid)@,
        r == uniquely_solvable(old(grid)@, old(grid).side as int),
{
    let ghost g0 = grid@;
    let ghost side = grid.side as int;
    if !filled_cells_legal(grid) {
        proof {
            if solvable(g0, side) {
                let s = choose|s: Seq<Seq<usize>>| solves(s, g0, side);
                lemma_solvable_consistent(s, g0, side);
            }
        }
        return false;
    }
    let mut solutions: usize = 0;
    collect_sudoku_solutions(grid, 0, 0, &mut solutions);
    solutions == 1
}

/// Completes `grid` in place, trying candidate values in a random order.
/// Returns whether a completion exists; on `false` the grid is left as it was.
pub fn solve(grid: &mut Grid, rng: &mut StdRng) -> (r: bool)
    requires
        old(grid).wf(),
    ensures
        final(grid).wf(),
        final(grid).size == old(grid).size,
        final(grid).side == old(grid).side,
        r == solvable(old(grid)@, old(grid).side as int),
        r ==> solves(final(grid)@, old(grid)@, old(grid).side as int),
        !r ==> final(grid)@ == old(grid)@,
        is_solution(old(grid)@, old(grid).side as int) ==> r && final(grid)@ == old(grid)@,
{
    let ghost g0 = grid@;
    let ghost side = grid.side as int;
    proof {
        if is_solution(g0, side) {
            lemma_complete_unique(g0, side);
        }
    }
    if !filled_cells_legal(grid) {
        proof {
            if solvable(g0, side) {
                let s = choose|s: Seq<Seq<usize>>| solves(s, g0, side);
                lemma_solvable_consistent(s, g0, side);
            }
        }
        return false;
    }
    sudoku_solver(grid, 0, 0, rng)
}

/// A complete legal grid of `size` rows, its values placed in a random order,
/// or `InvalidSize` when `size` is zero, not a perfect square, or too large.
/// The search cannot fail on an empty grid of a valid size; were it to,
/// `NoSolution` would be returned.
pub fn fill_random(size: usize, rng: &mut StdRng) -> (r: Result<Grid, GridError>)
    ensures
        r is Ok <==> valid_size(size as int),
        r matches Err(e) ==> e == GridError::InvalidSize,
        r matches Ok(g) ==> g.wf() && g.size == size && is_solution(g@, g.side as int),
{
    let mut grid = match Grid::new(size) {
        Ok(g) => g,
        Err(e) => {
            return Err(e);
        },
    };
    proof {
        lemma_empty_grid_solvable(grid@, grid.side as int);
    }
    if sudoku_solver(&mut grid, 0, 0, rng) {
        Ok(grid)
    } else {
        Err(GridError::NoSolution)
    }
}

} // verus!
