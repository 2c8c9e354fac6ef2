use vstd::prelude::*;
use crate::grid::Grid;

verus! {

/// The character of the decimal digit `d`.
pub open spec fn digit_char(d: int) -> char {
    seq!['0', '1', '2', '3', '4', '5', '6', '7', '8', '9'][d]
}

/// The decimal digits of `v`, most significant first, without leading zeros.
pub open spec fn decimal(v: nat) -> Seq<char>
    decreases v,
{
    if v < 10 {
        seq![digit_char(v as int)]
    } else {
        decimal(v / 10) + seq![digit_char((v % 10) as int)]
    }
}

/// A cell as text: `.` when empty, its value in decimal otherwise.
pub open spec fn cell_text(v: usize) -> Seq<char> {
    if v == 0 {
        seq!['.']
    } else {
        decimal(v as nat)
    }
}

/// The cells of `row`, one after another.
pub open spec fn row_text(row: Seq<usize>) -> Seq<char>
    decreases row.len(),
{
    if row.len() == 0 {
        Seq::empty()
    } else {
        row_text(row.drop_last()) + cell_text(row.last())
    }
}

/// The rows of `g`, one after another, with no separators.
pub open spec fn grid_text(g: Seq<Seq<usize>>) -> Seq<char>
    decreases g.len(),
{
    if g.len() == 0 {
        Seq::empty()
    } else {
        grid_text(g.drop_last()) + row_text(g.last())
    }
}

/// The one-character string of the decimal digit `d`.
fn digit_str(d: usize) -> (r: &'static str)
    requires
        d < 10,
    ensures
        r@ == seq![digit_char(d as int)],
{
    if d == 0 {
        proof { reveal_strlit("0"); }
        "0"
    } else if d == 1 {
        proof { reveal_strlit("1"); }
        "1"
    } else if d == 2 {
        proof { reveal_strlit("2"); }
        "2"
    } else if d == 3 {
        proof { reveal_strlit("3"); }
        "3"
    } else if d == 4 {
        proof { reveal_strlit("4"); }
        "4"
    } else if d == 5 {
        proof { reveal_strlit("5"); }
        "5"
    } else if d == 6 {
        proof { reveal_strlit("6"); }
        "6"
    } else if d == 7 {
        proof { reveal_strlit("7"); }
        "7"
    } else if d == 8 {
        proof { reveal_strlit("8"); }
        "8"
    } else {
        proof { reveal_strlit("9"); }
        "9"
    }
}

/// Appends the decimal digits of `v` to `out`.
fn push_decimal(out: &mut String, v: usize)
    ensures
        final(out)@ == old(out)@ + decimal(v as nat),
    decreases v,
{
    if v >= 10 {
        push_decimal(out, v / 10);
    }
    out.append(digit_str(v % 10));
    assert(final(out)@ =~= old(out)@ + decimal(v as nat)) by {
        if v >= 10 {
            assert(old(out)@ + decimal(v as nat) =~= old(out)@ + decimal((v / 10) as nat) + seq![digit_char((v % 10) as int)]);
        }
    }
}

/// The grid as one line of text, row after row: `.` for an empty cell and the
/// decimal value for a filled one.
pub fn sudoku_string(grid: &Grid) -> (r: String)
    requires
        grid.wf(),
    ensures
        r@ == grid_text(grid@),
{
    let ghost g = grid@;
    let n = grid.size;
    let mut output = String::new();
    let mut x: usize = 0;
    while x < n
        invariant
            grid.wf(),
            g == grid@,
            n == grid.size,
            x <= n,
            output@ == grid_text(g.take(x as int)),
        decreases n - x,
    {
        let mut y: usize = 0;
        while y < n
            invariant
                grid.wf(),
                g == grid@,
                n == grid.size,
                x < n,
                y <= n,
                output@ == grid_text(g.take(x as int)) + row_text(g[x as int].take(y as int)),
            decreases n - y,
        {
            let value = grid.get(x, y);
            if value == 0 {
                proof { reveal_strlit("."); }
                output.append(".");
            } else {
                push_decimal(&mut output, value);
            }
            assert(g[x as int].take(y + 1).drop_last() =~= g[x as int].take(y as int));
            assert(output@ =~= grid_text(g.take(x as int)) + row_text(g[x as int].take(y + 1)));
            y += 1;
        }
        assert(g.take(x + 1).drop_last() =~= g.take(x as int));
        assert(g[x as int].take(n as int) =~= g[x as int]);
        x += 1;
    }
    assert(g.take(n as int) =~= g);
    output
}

/// The width of the horizontal rule between bands of blocks: three columns per
/// cell (four once values can have two digits) and one per vertical bar.
pub open spec fn rule_width(n: int, side: int) -> int {
    if n > 9 {
        n * 4 + side - 1
    } else {
        n * 3 + side - 1
    }
}

/// What stands before cell `j` of a row: a bar at a block boundary, two spaces otherwise.
pub open spec fn cell_lead(side: int, j: int) -> Seq<char> {
    if j % side == 0 && j != 0 {
        seq![' ', '|', ' ']
    } else {
        seq![' ', ' ']
    }
}

/// A value as shown on the board: its decimal digits, padded to two columns
/// once the grid has more than nine rows.
pub open spec fn shown_value(n: int, v: usize) -> Seq<char> {
    if n > 9 && v < 10 {
        decimal(v as nat) + seq![' ']
    } else {
        decimal(v as nat)
    }
}

/// The cells of `row`, each after its lead.
pub open spec fn shown_cells(row: Seq<usize>, n: int, side: int) -> Seq<char>
    decreases row.len(),
{
    if row.len() == 0 {
        Seq::empty()
    } else {
        shown_cells(row.drop_last(), n, side) + cell_lead(side, row.len() - 1) + shown_value(
            n,
            row.last(),
        )
    }
}

/// The line that goes above row `i`: a rule at a band boundary, nothing otherwise.
pub open spec fn band_rule(n: int, side: int, i: int) -> Seq<char> {
    if i % side == 0 && i != 0 {
        seq![' '] + Seq::new(rule_width(n, side) as nat, |k: int| '-') + seq!['\n']
    } else {
        Seq::empty()
    }
}

/// The rows of `g` as board lines, with rules between bands.
pub open spec fn shown_rows(g: Seq<Seq<usize>>, n: int, side: int) -> Seq<char>
    decreases g.len(),
{
    if g.len() == 0 {
        Seq::empty()
    } else {
        shown_rows(g.drop_last(), n, side) + band_rule(n, side, g.len() - 1) + shown_cells(
            g.last(),
            n,
            side,
        ) + seq!['\n']
    }
}

/// The grid drawn as a board: one line per row, bars between blocks of a row,
/// and dashed rules between bands of rows. Empty cells show as `0`.
pub fn render_board(grid: &Grid) -> (r: String)
    requires
        grid.wf(),
    ensures
        r@ == shown_rows(grid@, grid.size as int, grid.side as int),
{
    let ghost g = grid@;
    let n = grid.size;
    let side = grid.side;
    let ghost ni = n as int;
    let ghost si = side as int;
    assert(ni * 4 + si <= usize::MAX) by (nonlinear_arith)
        requires
            ni == si * si,
            si >= 1,
            ni * ni <= usize::MAX,
    ;
    let width: usize = if n > 9 { n * 4 + side - 1 } else { n * 3 + side - 1 };
    let mut output = String::new();
    let mut i: usize = 0;
    assert(g.take(0) =~= Seq::<Seq<usize>>::empty());
    while i < n
        invariant
            grid.wf(),
            g == grid@,
            n == grid.size,
            side == grid.side,
            width == rule_width(n as int, side as int),
            i <= n,
            output@ == shown_rows(g.take(i as int), n as int, side as int),
        decreases n - i,
    {
        let ghost before_row = output@;
        proof {
            reveal_strlit(" ");
            reveal_strlit("\n");
        }
        if i % side == 0 && i != 0 {
            output.append(" ");
            assert(output@ =~= before_row + seq![' '] + Seq::new(0, |t: int| '-'));
            let mut k: usize = 0;
            while k < width
                invariant
                    k <= width,
                    output@ == before_row + seq![' '] + Seq::new(k as nat, |t: int| '-'),
                decreases width - k,
            {
                proof {
                    reveal_strlit("-");
                }
                output.append("-");
                assert(output@ =~= before_row + seq![' '] + Seq::new((k + 1) as nat, |t: int| '-'));
                k += 1;
            }
            output.append("\n");
        }
        assert(output@ =~= before_row + band_rule(n as int, side as int, i as int));
        let ghost after_rule = output@;
        let mut j: usize = 0;
        assert(g[i as int].take(0) =~= Seq::<usize>::empty());
        while j < n
            invariant
                grid.wf(),
                g == grid@,
                n == grid.size,
                side == grid.side,
                i < n,
                j <= n,
                output@ == after_rule + shown_cells(g[i as int].take(j as int), n as int, side as int),
            decreases n - j,
        {
            proof {
                reveal_strlit(" ");
                reveal_strlit(" | ");
                reveal_strlit("  ");
            }
            if j % side == 0 && j != 0 {
                output.append(" | ");
            } else {
                output.append("  ");
            }
            let cell = grid.get(i, j);
            push_decimal(&mut output, cell);
            if n > 9 && cell < 10 {
                output.append(" ");
            }
            assert(g[i as int].take(j + 1).drop_last() =~= g[i as int].take(j as int));
            assert(output@ =~= after_rule + shown_cells(g[i as int].take(j + 1), n as int, side as int));
            j += 1;
        }
        output.append("\n");
        assert(g[i as int].take(n as int) =~= g[i as int]);
        assert(g.take(i + 1).drop_last() =~= g.take(i as int));
        assert(output@ =~= shown_rows(g.take(i + 1), n as int, side as int));
        i += 1;
    }
    assert(g.take(n as int) =~= g);
    output
}

} // verus!
