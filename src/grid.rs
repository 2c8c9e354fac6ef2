use vstd::prelude::*;

verus! {

/// Why a grid could not be built or filled.
#[derive(Debug, Clone, Copy, PartialEq, Eq, Structural)]
pub enum GridError {
    /// The size is zero or not a perfect square.
    InvalidSize,
    /// The rows do not form a square of a valid size, or a value exceeds the size.
    InvalidCells,
    /// No complete legal grid extends the given one.
    NoSolution,
}

/// An `size` x `size` board; `0` marks an empty cell, `1..=size` a placed value.
/// `side` is the side of a block, so `size == side * side`.
pub struct Grid {
    pub size: usize,
    pub side: usize,
    pub cells: Vec<Vec<usize>>,
}

/// Every row of `g` is as long as `g` has rows.
pub open spec fn shaped(g: Seq<Seq<usize>>) -> bool {
    forall|r: int| 0 <= r < g.len() ==> #[trigger] g[r].len() == g.len()
}

/// Every value of `g` lies in `0..=g.len()`.
pub open spec fn values_in_range(g: Seq<Seq<usize>>) -> bool {
    forall|r: int, c: int| 0 <= r < g.len() && 0 <= c < g.len() ==> #[trigger] g[r][c] <= g.len()
}

/// `size` is a positive perfect square whose square also fits in a `usize`.
pub open spec fn valid_size(size: int) -> bool {
    exists|k: int| 1 <= k && #[trigger] (k * k) == size && size * size <= usize::MAX
}

/// The grid `g` with the cell `(r, c)` set to `v`.
pub open spec fn with_cell(g: Seq<Seq<usize>>, r: int, c: int, v: usize) -> Seq<Seq<usize>> {
    g.update(r, g[r].update(c, v))
}

impl View for Grid {
    type V = Seq<Seq<usize>>;

    open spec fn view(&self) -> Seq<Seq<usize>> {
        self.cells@.map_values(|row: Vec<usize>| row@)
    }
}

/// No square of a whole number from `k` on can be `size` once `k * k` exceeds it.
proof fn lemma_no_root_from(k: int, size: int)
    requires
        1 <= k,
        k * k > size,
    ensures
        forall|j: int| k <= j ==> #[trigger] (j * j) > size,
{
    assert forall|j: int| k <= j implies #[trigger] (j * j) > size by {
        assert(j * j >= k * k) by (nonlinear_arith)
            requires
                k <= j,
                1 <= k,
        ;
    }
}

/// The block side of a grid of `size` rows: `Some(k)` with `k * k == size`
/// exactly when `size` is a valid size.
pub fn block_side(size: usize) -> (r: Option<usize>)
    ensures
        r is Some <==> valid_size(size as int),
        r matches Some(k) ==> 1 <= k && k * k == size,
{
    if size == 0 {
        proof {
            lemma_no_root_from(1, 0);
        }
        return None;
    }
    match size.checked_mul(size) {
        None => {
            return None;
        },
        Some(_) => {},
    }
    let mut k: usize = 1;
    assert(1 * 1 <= size * size) by (nonlinear_arith)
        requires
            1 <= size,
    ;
    while k * k < size
        invariant
            1 <= k <= size,
            size * size <= usize::MAX,
            k * k <= size * size,
            forall|j: int| 1 <= j < k ==> #[trigger] (j * j) < size,
        decreases size - k,
    {
        assert(k * k <= size * size) by (nonlinear_arith)
            requires
                1 <= k <= size,
        ;
        assert forall|j: int| 1 <= j < k + 1 implies #[trigger] (j * j) < size by {
            assert(j * j <= k * k) by (nonlinear_arith)
                requires
                    1 <= j <= k,
            ;
        }
        assert(k + 1 <= size) by (nonlinear_arith)
            requires
                k * k < size,
                1 <= k,
        ;
        k += 1;
        assert(k * k <= size * size) by (nonlinear_arith)
            requires
                1 <= k <= size,
        ;
    }
    if k * k == size {
        Some(k)
    } else {
        proof {
            lemma_no_root_from(k as int, size as int);
            assert forall|j: int| 1 <= j implies #[trigger] (j * j) != size by {
                if j < k {
                    assert(j * j < size);
                } else {
                    assert(j * j > size);
                }
            }
        }
        None
    }
}

impl Grid {
    /// The grid is square, of a valid size with the right block side, and holds
    /// values in `0..=size` only.
    pub open spec fn wf(&self) -> bool {
        &&& 1 <= self.side
        &&& self.size == self.side * self.side
        &&& self.size * self.size <= usize::MAX
        &&& self@.len() == self.size
        &&& shaped(self@)
        &&& values_in_range(self@)
    }

    /// An empty grid of `size` rows, or `InvalidSize` when `size` is zero, not a
    /// perfect square, or so large that its cells cannot be counted in a `usize`.
    pub fn new(size: usize) -> (r: Result<Grid, GridError>)
        ensures
            r is Ok <==> valid_size(size as int),
            r matches Err(e) ==> e == GridError::InvalidSize,
            r matches Ok(g) ==> g.wf() && g.size == size && forall|i: int, j: int|
                0 <= i < size && 0 <= j < size ==> #[trigger] g@[i][j] == 0,
    {
        let side = match block_side(size) {
            Some(k) => k,
            None => {
                return Err(GridError::InvalidSize);
            },
        };
        let mut cells: Vec<Vec<usize>> = Vec::new();
        let mut i: usize = 0;
        while i < size
            invariant
                i <= size,
                cells@.len() == i,
                forall|a: int| 0 <= a < i ==> #[trigger] cells@[a]@ == Seq::new(size as nat, |j: int| 0usize),
            decreases size - i,
        {
            let mut row: Vec<usize> = Vec::new();
            let mut j: usize = 0;
            while j < size
                invariant
                    j <= size,
                    row@ == Seq::new(j as nat, |b: int| 0usize),
                decreases size - j,
            {
                row.push(0);
                j += 1;
                assert(row@ =~= Seq::new(j as nat, |b: int| 0usize));
            }
            cells.push(row);
            i += 1;
        }
        let g = Grid { size, side, cells };
        assert(g@.len() == size);
        Ok(g)
    }

    /// A grid with the given rows, or `InvalidSize` when their number is not a
    /// valid size, or `InvalidCells` when a row has another length or a value
    /// exceeds the number of rows.
    pub fn from_rows(rows: Vec<Vec<usize>>) -> (r: Result<Grid, GridError>)
        ensures
            r matches Err(e) ==> (e == GridError::InvalidSize <==> !valid_size(rows@.len() as int)),
            r matches Err(e) ==> (e == GridError::InvalidSize || e == GridError::InvalidCells),
            r is Ok <==> valid_size(rows@.len() as int) && shaped(rows@.map_values(|row: Vec<usize>| row@))
                && values_in_range(rows@.map_values(|row: Vec<usize>| row@)),
            r matches Ok(g) ==> g.wf() && g.size == rows@.len() && g@ == rows@.map_values(
                |row: Vec<usize>| row@,
            ),
    {
        let ghost v = rows@.map_values(|row: Vec<usize>| row@);
        let size = rows.len();
        let side = match block_side(size) {
            Some(k) => k,
            None => {
                return Err(GridError::InvalidSize);
            },
        };
        let mut i: usize = 0;
        while i < size
            invariant
                size == rows@.len(),
                valid_size(size as int),
                v == rows@.map_values(|row: Vec<usize>| row@),
                i <= size,
                forall|a: int| 0 <= a < i ==> #[trigger] v[a].len() == size,
                forall|a: int, b: int| 0 <= a < i && 0 <= b < size ==> #[trigger] v[a][b] <= size,
            decreases size - i,
        {
            assert(v[i as int] == rows@[i as int]@);
            if rows[i].len() != size {
                return Err(GridError::InvalidCells);
            }
            let mut j: usize = 0;
            while j < size
                invariant
                    size == rows@.len(),
                    valid_size(size as int),
                    v == rows@.map_values(|row: Vec<usize>| row@),
                    i < size,
                    j <= size,
                    v[i as int].len() == size,
                    forall|a: int, b: int| 0 <= a < i && 0 <= b < size ==> #[trigger] v[a][b] <= size,
                    forall|b: int| 0 <= b < j ==> #[trigger] v[i as int][b] <= size,
                decreases size - j,
            {
                assert(v[i as int] == rows@[i as int]@);
                if rows[i][j] > size {
                    return Err(GridError::InvalidCells);
                }
                j += 1;
            }
            i += 1;
        }
        let g = Grid { size, side, cells: rows };
        assert(g@ == v);
        Ok(g)
    }

    /// The value at row `r`, column `c`.
    pub fn get(&self, r: usize, c: usize) -> (v: usize)
        requires
            self.wf(),
            r < self.size,
            c < self.size,
        ensures
            v == self@[r as int][c as int],
    {
        assert(self@[r as int] == self.cells@[r as int]@);
        self.cells[r][c]
    }

    /// Sets the cell at row `r`, column `c` to `v`.
    pub fn set(&mut self, r: usize, c: usize, v: usize)
        requires
            old(self).wf(),
            r < old(self).size,
            c < old(self).size,
            v <= old(self).size,
        ensures
            final(self).wf(),
            final(self).size == old(self).size,
            final(self).side == old(self).side,
            final(self)@ == with_cell(old(self)@, r as int, c as int, v),
    {
        assert(self@[r as int] == self.cells@[r as int]@);
        self.cells[r][c] = v;
        assert(self@ =~~= with_cell(old(self)@, r as int, c as int, v));
    }
}

} // verus!
