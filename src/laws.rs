use vstd::prelude::*;
use vstd::set_lib::{lemma_int_range, lemma_subset_equality, set_int_range};
use crate::digger::{cleared_from, lemma_cleared_solved_by_origin};
use crate::rules::{ambiguous, in_grid, is_solution, same_unit, solvable, solves, uniquely_solvable};

verus! {

broadcast use vstd::seq_lib::seq_to_set_is_finite;

/// The values of row `r`.
pub open spec fn row_values(g: Seq<Seq<usize>>, r: int) -> Seq<int> {
    Seq::new(g.len(), |c: int| g[r][c] as int)
}

/// The values of column `c`.
pub open spec fn column_values(g: Seq<Seq<usize>>, c: int) -> Seq<int> {
    Seq::new(g.len(), |r: int| g[r][c] as int)
}

/// The values of the block in block row `br` and block column `bc`, row by row.
pub open spec fn block_values(g: Seq<Seq<usize>>, side: int, br: int, bc: int) -> Seq<int> {
    Seq::new(g.len(), |k: int| g[br * side + k / side][bc * side + k % side] as int)
}

/// `s` holds each of `1..=n` exactly once and nothing else.
pub open spec fn is_permutation_of_range(s: Seq<int>, n: int) -> bool {
    &&& s.len() == n
    &&& s.no_duplicates()
    &&& forall|v: int| #[trigger] s.contains(v) <==> 1 <= v <= n
}

/// `n` distinct values drawn from `1..=n` are all of them.
proof fn lemma_pigeonhole(s: Seq<int>, n: int)
    requires
        s.len() == n,
        s.no_duplicates(),
        forall|k: int| 0 <= k < n ==> 1 <= #[trigger] s[k] <= n,
    ensures
        is_permutation_of_range(s, n),
{
    s.unique_seq_to_set();
    lemma_int_range(1, n + 1);
    let range = set_int_range(1, n + 1);
    assert(s.to_set().subset_of(range));
    lemma_subset_equality(s.to_set(), range);
    assert forall|v: int| #[trigger] s.contains(v) <==> 1 <= v <= n by {
        if 1 <= v <= n {
            assert(range.contains(v));
            assert(s.to_set().contains(v));
        }
    }
}

/// The `k`-th cell of block row `br`, in row-major order within the block, lies
/// in that block row.
proof fn lemma_block_cell(side: int, br: int, k: int)
    requires
        0 <= br < side,
        0 <= k < side * side,
    ensures
        0 <= k / side < side,
        0 <= k % side < side,
        k == (k / side) * side + k % side,
        (br * side + k / side) / side == br,
        0 <= br * side + k / side < side * side,
        (br * side + k % side) / side == br,
        0 <= br * side + k % side < side * side,
{
    let a = k / side;
    let b = k % side;
    vstd::arithmetic::div_mod::lemma_fundamental_div_mod(k, side);
    assert(0 <= a < side) by (nonlinear_arith)
        requires
            k == side * a + b,
            0 <= b < side,
            0 <= k < side * side,
    ;
    vstd::arithmetic::div_mod::lemma_fundamental_div_mod_converse(br * side + a, side, br, a);
    vstd::arithmetic::div_mod::lemma_fundamental_div_mod_converse(br * side + b, side, br, b);
    assert(0 <= br * side + a < side * side) by (nonlinear_arith)
        requires
            0 <= br < side,
            0 <= a < side,
    ;
    assert(0 <= br * side + b < side * side) by (nonlinear_arith)
        requires
            0 <= br < side,
            0 <= b < side,
    ;
    assert(k == a * side + b) by (nonlinear_arith)
        requires
            k == side * a + b,
    ;
}

/// In a complete legal grid every row, every column and every block holds each
/// of `1..=size` exactly once.
pub proof fn lemma_solution_units_are_permutations(g: Seq<Seq<usize>>, side: int)
    requires
        is_solution(g, side),
        side >= 1,
        g.len() == side * side,
    ensures
        forall|r: int|
            0 <= r < g.len() ==> is_permutation_of_range(#[trigger] row_values(g, r), g.len() as int),
        forall|c: int|
            0 <= c < g.len() ==> is_permutation_of_range(
                #[trigger] column_values(g, c),
                g.len() as int,
            ),
        forall|br: int, bc: int|
            0 <= br < side && 0 <= bc < side ==> is_permutation_of_range(
                #[trigger] block_values(g, side, br, bc),
                g.len() as int,
            ),
{
    let n = g.len() as int;
    assert forall|r: int| 0 <= r < n implies is_permutation_of_range(#[trigger] row_values(g, r), n) by {
        let s = row_values(g, r);
        assert forall|k: int| 0 <= k < n implies 1 <= #[trigger] s[k] <= n by {
            assert(in_grid(g, r, k));
            assert(g[r][k] != 0);
        }
        assert forall|i: int, j: int| 0 <= i < n && 0 <= j < n && i != j implies s[i] != s[j] by {
            assert(same_unit(side, r, i, r, j));
            assert(g[r][i] != 0);
        }
        lemma_pigeonhole(s, n);
    }
    assert forall|c: int| 0 <= c < n implies is_permutation_of_range(#[trigger] column_values(g, c), n) by {
        let s = column_values(g, c);
        assert forall|k: int| 0 <= k < n implies 1 <= #[trigger] s[k] <= n by {
            assert(in_grid(g, k, c));
            assert(g[k][c] != 0);
        }
        assert forall|i: int, j: int| 0 <= i < n && 0 <= j < n && i != j implies s[i] != s[j] by {
            assert(same_unit(side, i, c, j, c));
            assert(g[i][c] != 0);
        }
        lemma_pigeonhole(s, n);
    }
    assert forall|br: int, bc: int| 0 <= br < side && 0 <= bc < side implies is_permutation_of_range(
        #[trigger] block_values(g, side, br, bc),
        n,
    ) by {
        let s = block_values(g, side, br, bc);
        assert forall|k: int| 0 <= k < n implies 1 <= #[trigger] s[k] <= n by {
            lemma_block_cell(side, br, k);
            lemma_block_cell(side, bc, k);
            let (r, c) = (br * side + k / side, bc * side + k % side);
            assert(in_grid(g, r, c));
            assert(g[r][c] != 0);
        }
        assert forall|i: int, j: int| 0 <= i < n && 0 <= j < n && i != j implies s[i] != s[j] by {
            lemma_block_cell(side, br, i);
            lemma_block_cell(side, bc, i);
            lemma_block_cell(side, br, j);
            lemma_block_cell(side, bc, j);
            let (r1, c1) = (br * side + i / side, bc * side + i % side);
            let (r2, c2) = (br * side + j / side, bc * side + j % side);
            assert(!(r1 == r2 && c1 == c2));
            assert(same_unit(side, r1, c1, r2, c2));
            assert(in_grid(g, r1, c1) && in_grid(g, r2, c2));
            assert(g[r1][c1] != 0);
        }
        lemma_pigeonhole(s, n);
    }
}

/// A puzzle dug out of a complete legal grid, with exactly one completion,
/// completes only to that grid: solving it gives the grid back.
pub proof fn lemma_dig_then_solve(
    g: Seq<Seq<usize>>,
    dug: Seq<Seq<usize>>,
    s: Seq<Seq<usize>>,
    side: int,
)
    requires
        is_solution(g, side),
        cleared_from(dug, g),
        uniquely_solvable(dug, side),
        solves(s, dug, side),
    ensures
        solvable(dug, side),
        s == g,
{
    lemma_cleared_solved_by_origin(dug, g, side);
    if s != g {
        assert(ambiguous(dug, side));
    }
}

} // verus!
