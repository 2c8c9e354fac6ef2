use vstd::prelude::*;
use rand::rngs::StdRng;
use crate::grid::{Grid, shaped, with_cell};
use crate::random::shuffle;
use crate::rules::{ambiguous, complete, in_grid, is_solution, solvable, solves, uniquely_solvable};
use crate::solver::{lemma_complete_unique, sudoku_unique};

verus! {

broadcast use vstd::seq_lib::to_multiset_contains;

/// Every cell of `g` keeps its value in `orig` or is empty.
pub open spec fn cleared_from(g: Seq<Seq<usize>>, orig: Seq<Seq<usize>>) -> bool {
    g.len() == orig.len() && forall|r: int, c: int|
        in_grid(orig, r, c) ==> #[trigger] g[r][c] == orig[r][c] || g[r][c] == 0
}

/// The number of empty cells of `row`.
pub open spec fn zeros_in_row(row: Seq<usize>) -> nat
    decreases row.len(),
{
    if row.len() == 0 {
        0
    } else {
        zeros_in_row(row.drop_last()) + if row.last() == 0 {
            1nat
        } else {
            0nat
        }
    }
}

/// The number of empty cells of `g`.
pub open spec fn empty_cells(g: Seq<Seq<usize>>) -> nat
    decreases g.len(),
{
    if g.len() == 0 {
        0
    } else {
        empty_cells(g.drop_last()) + zeros_in_row(g.last())
    }
}

/// How many cells digging tries to clear: `difficulty * size`, at most every cell.
pub open spec fn removal_target(difficulty: int, size: int) -> int {
    if difficulty * size >= size * size {
        size * size
    } else {
        difficulty * size
    }
}

/// Clearing any filled cell of `g` leaves more than one completion.
pub open spec fn every_clue_needed(g: Seq<Seq<usize>>, side: int) -> bool {
    forall|r: int, c: int|
        in_grid(g, r, c) && #[trigger] g[r][c] != 0 ==> ambiguous(with_cell(g, r, c, 0), side)
}

/// Emptying a filled entry of a row adds one empty entry.
proof fn lemma_row_clear(row: Seq<usize>, c: int)
    requires
        0 <= c < row.len(),
        row[c] != 0,
    ensures
        zeros_in_row(row.update(c, 0)) == zeros_in_row(row) + 1,
    decreases row.len(),
{
    let u = row.update(c, 0);
    if c == row.len() - 1 {
        assert(u.drop_last() =~= row.drop_last());
    } else {
        assert(u.drop_last() =~= row.drop_last().update(c, 0));
        lemma_row_clear(row.drop_last(), c);
    }
}

/// Emptying a filled cell adds one empty cell.
proof fn lemma_grid_clear(g: Seq<Seq<usize>>, r: int, c: int)
    requires
        0 <= r < g.len(),
        0 <= c < g[r].len(),
        g[r][c] != 0,
    ensures
        empty_cells(with_cell(g, r, c, 0)) == empty_cells(g) + 1,
    decreases g.len(),
{
    let u = with_cell(g, r, c, 0);
    lemma_row_clear(g[r], c);
    if r == g.len() - 1 {
        assert(u.drop_last() =~= g.drop_last());
    } else {
        assert(u.drop_last() =~= with_cell(g.drop_last(), r, c, 0));
        lemma_grid_clear(g.drop_last(), r, c);
    }
}

/// A row with no empty entry counts none, and a row that counts none has none.
proof fn lemma_row_no_zero(row: Seq<usize>)
    ensures
        zeros_in_row(row) == 0 <==> forall|c: int| 0 <= c < row.len() ==> #[trigger] row[c] != 0,
    decreases row.len(),
{
    if row.len() > 0 {
        lemma_row_no_zero(row.drop_last());
        if zeros_in_row(row) == 0 {
            assert forall|c: int| 0 <= c < row.len() implies #[trigger] row[c] != 0 by {
                if c < row.len() - 1 {
                    assert(row.drop_last()[c] == row[c]);
                }
            }
        }
        if forall|c: int| 0 <= c < row.len() ==> #[trigger] row[c] != 0 {
            assert forall|c: int| 0 <= c < row.drop_last().len() implies #[trigger] row.drop_last()[c]
                != 0 by {
                assert(row.drop_last()[c] == row[c]);
            }
            assert(row[row.len() - 1] != 0);
        }
    }
}

/// A square grid counts no empty cell exactly when it is complete.
proof fn lemma_no_empty_cells(g: Seq<Seq<usize>>)
    requires
        shaped(g),
    ensures
        empty_cells(g) == 0 <==> complete(g),
{
    lemma_rows_no_zero(g, g.len() as int);
}

/// The rows of `g` (each `n` long) count no empty cell exactly when they hold none.
proof fn lemma_rows_no_zero(g: Seq<Seq<usize>>, n: int)
    requires
        forall|r: int| 0 <= r < g.len() ==> #[trigger] g[r].len() == n,
    ensures
        empty_cells(g) == 0 <==> forall|r: int, c: int|
            0 <= r < g.len() && 0 <= c < n ==> #[trigger] g[r][c] != 0,
    decreases g.len(),
{
    if g.len() > 0 {
        let init = g.drop_last();
        lemma_rows_no_zero(init, n);
        lemma_row_no_zero(g.last());
        if empty_cells(g) == 0 {
            assert forall|r: int, c: int| 0 <= r < g.len() && 0 <= c < n implies #[trigger] g[r][c]
                != 0 by {
                if r < g.len() - 1 {
                    assert(init[r][c] == g[r][c]);
                } else {
                    assert(g.last()[c] == g[r][c]);
                }
            }
        }
        if forall|r: int, c: int| 0 <= r < g.len() && 0 <= c < n ==> #[trigger] g[r][c] != 0 {
            assert forall|r: int, c: int| 0 <= r < init.len() && 0 <= c < n implies #[trigger] init[r][c]
                != 0 by {
                assert(init[r][c] == g[r][c]);
            }
            assert forall|c: int| 0 <= c < g.last().len() implies #[trigger] g.last()[c] != 0 by {
                assert(g[g.len() - 1][c] != 0);
            }
        }
    }
}

/// A complete legal grid completes every grid cleared from it.
pub proof fn lemma_cleared_solved_by_origin(g: Seq<Seq<usize>>, orig: Seq<Seq<usize>>, side: int)
    requires
        is_solution(orig, side),
        cleared_from(g, orig),
    ensures
        solves(orig, g, side),
        solvable(g, side),
{
    assert forall|r: int, c: int| in_grid(g, r, c) && #[trigger] g[r][c] != 0 implies orig[r][c]
        == g[r][c] by {
        assert(in_grid(orig, r, c));
    }
    assert(solves(orig, g, side));
}

/// A grid with fewer clues than an ambiguous grid is ambiguous too.
pub proof fn lemma_fewer_clues_ambiguous(a: Seq<Seq<usize>>, b: Seq<Seq<usize>>, side: int)
    requires
        cleared_from(a, b),
        ambiguous(b, side),
    ensures
        ambiguous(a, side),
{
    let (s1, s2) = choose|s1: Seq<Seq<usize>>, s2: Seq<Seq<usize>>|
        solves(s1, b, side) && solves(s2, b, side) && s1 != s2;
    assert forall|s: Seq<Seq<usize>>| solves(s, b, side) implies #[trigger] solves(s, a, side) by {
        assert forall|r: int, c: int| in_grid(a, r, c) && #[trigger] a[r][c] != 0 implies s[r][c]
            == a[r][c] by {
            assert(in_grid(b, r, c));
            assert(b[r][c] != 0);
        }
    }
    assert(solves(s1, a, side) && solves(s2, a, side));
}

/// Every cell of an `n` x `n` grid once, in a random order.
fn shuffled_cells(n: usize, rng: &mut StdRng) -> (cells: Vec<(usize, usize)>)
    requires
        n * n <= usize::MAX,
    ensures
        cells@.len() == n * n,
        cells@.no_duplicates(),
        forall|p: (usize, usize)| #[trigger] cells@.contains(p) <==> (p.0 < n && p.1 < n),
{
    let mut cells: Vec<(usize, usize)> = Vec::new();
    let mut x: usize = 0;
    while x < n
        invariant
            x <= n,
            n * n <= usize::MAX,
            cells@.len() == x * n,
            cells@.no_duplicates(),
            forall|p: (usize, usize)| #[trigger] cells@.contains(p) <==> (p.0 < x && p.1 < n),
        decreases n - x,
    {
        let mut y: usize = 0;
        while y < n
            invariant
                x < n,
                y <= n,
                n * n <= usize::MAX,
                cells@.len() == x * n + y,
                cells@.no_duplicates(),
                forall|p: (usize, usize)| #[trigger]
                    cells@.contains(p) <==> ((p.0 < x && p.1 < n) || (p.0 == x && p.1 < y)),
            decreases n - y,
        {
            let ghost before = cells@;
            assert(!before.contains((x, y)));
            cells.push((x, y));
            assert forall|p: (usize, usize)| #[trigger]
                cells@.contains(p) <==> ((p.0 < x && p.1 < n) || (p.0 == x && p.1 < y + 1)) by {
                if cells@.contains(p) && p != (x, y) {
                    let k = choose|k: int| 0 <= k < cells@.len() && cells@[k] == p;
                    assert(before[k] == p);
                    assert(before.contains(p));
                }
                if (p.0 < x && p.1 < n) || (p.0 == x && p.1 < y) {
                    assert(before.contains(p));
                    let k = choose|k: int| 0 <= k < before.len() && before[k] == p;
                    assert(cells@[k] == p);
                }
                if p == (x, y) {
                    assert(cells@[before.len() as int] == p);
                }
            }
            y += 1;
        }
        assert(x * n + n == (x + 1) * n) by (nonlinear_arith);
        x += 1;
    }
    let ghost ordered = cells@;
    proof {
        ordered.lemma_multiset_has_no_duplicates();
    }
    shuffle(&mut cells, rng);
    proof {
        assert forall|p: (usize, usize)| cells@.to_multiset().contains(p) implies cells@.to_multiset().count(p)
            == 1 by {
            assert(ordered.to_multiset().count(p) == cells@.to_multiset().count(p));
        }
        cells@.lemma_multiset_has_no_duplicates_conv();
        vstd::seq_lib::to_multiset_len(ordered);
        vstd::seq_lib::to_multiset_len(cells@);
        assert forall|p: (usize, usize)| #[trigger] cells@.contains(p) <==> (p.0 < n && p.1 < n) by {
            assert(ordered.to_multiset().count(p) == cells@.to_multiset().count(p));
        }
    }
    cells
}

/// `difficulty * size`, at most `size * size`.
fn removal_count(difficulty: usize, size: usize) -> (k: usize)
    requires
        size * size <= usize::MAX,
    ensures
        k == removal_target(difficulty as int, size as int),
{
    let total = size * size;
    match difficulty.checked_mul(size) {
        Some(p) => {
            if p >= total {
                total
            } else {
                p
            }
        },
        None => total,
    }
}

/// Turns a complete legal grid into a puzzle: visits its cells in a random
/// order, clearing each one while the grid keeps exactly one completion and
/// putting the value back otherwise, until `difficulty * size` cells (at most
/// every cell) are cleared or every cell was visited.
pub fn generate_unique(grid: &mut Grid, difficulty: usize, rng: &mut StdRng)
    requires
        old(grid).wf(),
        is_solution(old(grid)@, old(grid).side as int),
    ensures
        final(grid).wf(),
        final(grid).size == old(grid).size,
        final(grid).side == old(grid).side,
        cleared_from(final(grid)@, old(grid)@),
        uniquely_solvable(final(grid)@, old(grid).side as int),
        empty_cells(final(grid)@) <= removal_target(difficulty as int, old(grid).size as int),
        empty_cells(final(grid)@) == removal_target(difficulty as int, old(grid).size as int)
            || every_clue_needed(final(grid)@, old(grid).side as int),
        difficulty == 0 ==> final(grid)@ == old(grid)@,
{
    let ghost g0 = grid@;
    let ghost side = grid.side as int;
    let n = grid.size;
    let target = removal_count(difficulty, n);
    let mut eraser = target;
    let cells = shuffled_cells(n, rng);
    proof {
        lemma_complete_unique(g0, side);
        lemma_no_empty_cells(g0);
        assert forall|j: int| 0 <= j < cells@.len() implies #[trigger] g0[cells@[j].0 as int][cells@[j].1 as int] != 0 by {
            assert(cells@.contains(cells@[j]));
        }
        assert(cleared_from(g0, g0));
    }
    let mut i: usize = 0;
    while eraser > 0 && i < cells.len()
        invariant
            grid.wf(),
            grid.size == n,
            grid.side == side,
            n == old(grid).size,
            side == old(grid).side,
            g0 == old(grid)@,
            is_solution(g0, side),
            cleared_from(grid@, g0),
            uniquely_solvable(grid@, side),
            empty_cells(grid@) + eraser == target,
            cells@.len() == n * n,
            cells@.no_duplicates(),
            forall|p: (usize, usize)| #[trigger] cells@.contains(p) <==> (p.0 < n && p.1 < n),
            i <= cells@.len(),
            forall|j: int|
                0 <= j < i ==> (#[trigger] grid@[cells@[j].0 as int][cells@[j].1 as int] == 0
                    || ambiguous(
                    with_cell(grid@, cells@[j].0 as int, cells@[j].1 as int, 0),
                    side,
                )),
            forall|j: int|
                i <= j < cells@.len() ==> #[trigger] grid@[cells@[j].0 as int][cells@[j].1 as int]
                    != 0,
        decreases cells@.len() - i,
    {
        let (x, y) = cells[i];
        assert(cells@.contains(cells@[i as int]));
        let ghost g = grid@;
        let temp = grid.get(x, y);
        grid.set(x, y, 0);
        let ghost h = grid@;
        proof {
            assert(cleared_from(h, g0));
            lemma_cleared_solved_by_origin(h, g0, side);
        }
        if !sudoku_unique(grid) {
            grid.set(x, y, temp);
            assert(grid@ =~~= g);
            assert(with_cell(g, x as int, y as int, 0) == h);
        } else {
            proof {
                lemma_grid_clear(g, x as int, y as int);
                assert forall|j: int| 0 <= j < cells@.len() && j != i implies (cells@[j].0 != x
                    || cells@[j].1 != y) by {
                    assert(cells@[j] != cells@[i as int]);
                }
                assert forall|j: int| 0 <= j < i implies (#[trigger] h[cells@[j].0 as int][cells@[j].1 as int]
                    == 0 || ambiguous(
                    with_cell(h, cells@[j].0 as int, cells@[j].1 as int, 0),
                    side,
                )) by {
                    let a = cells@[j].0 as int;
                    let b = cells@[j].1 as int;
                    assert(cells@.contains(cells@[j]));
                    assert(cells@[j] != cells@[i as int]);
                    assert(h[a][b] == g[a][b]);
                    if g[a][b] != 0 {
                        let wide = with_cell(g, a, b, 0);
                        let narrow = with_cell(h, a, b, 0);
                        assert forall|r: int, c: int| in_grid(wide, r, c) implies #[trigger] narrow[r][c]
                            == wide[r][c] || narrow[r][c] == 0 by {
                        }
                        lemma_fewer_clues_ambiguous(narrow, wide, side);
                    }
                }
                assert forall|j: int| i < j < cells@.len() implies #[trigger] h[cells@[j].0 as int][cells@[j].1 as int]
                    != 0 by {
                    assert(cells@.contains(cells@[j]));
                    assert(cells@[j] != cells@[i as int]);
                    assert(h[cells@[j].0 as int][cells@[j].1 as int] == g[cells@[j].0 as int][cells@[j].1 as int]);
                }
            }
            eraser -= 1;
        }
        i += 1;
    }
    proof {
        let g = grid@;
        if eraser > 0 {
            assert forall|r: int, c: int| in_grid(g, r, c) && #[trigger] g[r][c] != 0 implies ambiguous(
                with_cell(g, r, c, 0),
                side,
            ) by {
                let p = (r as usize, c as usize);
                assert(cells@.contains(p));
                let j = choose|j: int| 0 <= j < cells@.len() && cells@[j] == p;
                assert(g[cells@[j].0 as int][cells@[j].1 as int] != 0);
            }
        }
        if difficulty == 0 {
            let sd = side;
            let nn = n as int;
            assert(nn * nn >= 1 && 0 * nn == 0) by (nonlinear_arith)
                requires
                    nn == sd * sd,
                    sd >= 1,
            ;
            assert(target == 0);
            lemma_no_empty_cells(g);
            assert forall|r: int| 0 <= r < n implies #[trigger] g[r] =~= g0[r] by {
                assert forall|c: int| 0 <= c < n implies g[r][c] == g0[r][c] by {
                    assert(in_grid(g, r, c));
                    assert(g[r][c] != 0);
                }
            }
            assert(g =~~= g0);
        }
    }
}

/// Clears `difficulty * size` cells (at most every cell) of a complete grid,
/// chosen at random, without regard to how many completions remain.
pub fn anakin(grid: &mut Grid, difficulty: usize, rng: &mut StdRng)
    requires
        old(grid).wf(),
        complete(old(grid)@),
    ensures
        final(grid).wf(),
        final(grid).size == old(grid).size,
        final(grid).side == old(grid).side,
        cleared_from(final(grid)@, old(grid)@),
        empty_cells(final(grid)@) == removal_target(difficulty as int, old(grid).size as int),
{
    let ghost g0 = grid@;
    let n = grid.size;
    let eraser = removal_count(difficulty, n);
    let cells = shuffled_cells(n, rng);
    let total = n * n;
    proof {
        lemma_no_empty_cells(g0);
        assert forall|j: int| 0 <= j < cells@.len() implies #[trigger] g0[cells@[j].0 as int][cells@[j].1 as int] != 0 by {
            assert(cells@.contains(cells@[j]));
        }
        assert(cleared_from(g0, g0));
    }
    let start = total - eraser;
    let mut i: usize = start;
    while i < total
        invariant
            grid.wf(),
            grid.size == n,
            grid.side == old(grid).side,
            n == old(grid).size,
            g0 == old(grid)@,
            total == n * n,
            start <= i <= total,
            start + eraser == total,
            cleared_from(grid@, g0),
            empty_cells(grid@) + start == i,
            cells@.len() == total,
            cells@.no_duplicates(),
            forall|p: (usize, usize)| #[trigger] cells@.contains(p) <==> (p.0 < n && p.1 < n),
            forall|j: int|
                i <= j < cells@.len() ==> #[trigger] grid@[cells@[j].0 as int][cells@[j].1 as int]
                    != 0,
        decreases total - i,
    {
        let (x, y) = cells[i];
        assert(cells@.contains(cells@[i as int]));
        let ghost g = grid@;
        proof {
            lemma_grid_clear(g, x as int, y as int);
        }
        grid.set(x, y, 0);
        assert forall|j: int| i < j < cells@.len() implies #[trigger] grid@[cells@[j].0 as int][cells@[j].1 as int]
            != 0 by {
            assert(cells@.contains(cells@[j]));
            assert(cells@[j] != cells@[i as int]);
            assert(grid@[cells@[j].0 as int][cells@[j].1 as int] == g[cells@[j].0 as int][cells@[j].1 as int]);
        }
        i += 1;
    }
}

} // verus!
