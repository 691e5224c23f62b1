use vstd::prelude::*;

use crate::error::SudokuError;
use crate::values::values_distinct;

verus! {

/// Flat position, in row-major order, of the cell at `row` and `column`.
pub open spec fn cell_index(row: int, column: int) -> int {
    9 * row + column
}

/// Every value of `cells` lies in `0..=9`.
pub open spec fn values_in_range(cells: Seq<u8>) -> bool {
    forall|x: int| 0 <= x < cells.len() ==> #[trigger] cells[x] <= 9
}

/// `cells` is a whole grid: 81 cells in row-major order, each in `0..=9`.
pub open spec fn is_grid(cells: Seq<u8>) -> bool {
    cells.len() == 81 && values_in_range(cells)
}

/// No cell of the grid is blank.
pub open spec fn board_filled(cells: Seq<u8>) -> bool {
    forall|x: int| 0 <= x < 81 ==> #[trigger] cells[x] != 0
}

/// Row of the `j`-th cell, in row-major order, of box `k`.
pub open spec fn box_row(k: int, j: int) -> int {
    3 * (k / 3) + j / 3
}

/// Column of the `j`-th cell, in row-major order, of box `k`.
pub open spec fn box_column(k: int, j: int) -> int {
    3 * (k % 3) + j % 3
}

/// The index of the box that holds the cell at `row` and `column`.
pub open spec fn box_of(row: int, column: int) -> int {
    3 * (row / 3) + column / 3
}

/// The 9 values of row `i`, left to right.
pub open spec fn row_values(cells: Seq<u8>, i: int) -> Seq<u8> {
    Seq::new(9, |j: int| cells[cell_index(i, j)])
}

/// The 9 values of column `j`, top to bottom.
pub open spec fn column_values(cells: Seq<u8>, j: int) -> Seq<u8> {
    Seq::new(9, |i: int| cells[cell_index(i, j)])
}

/// The 9 values of box `k`, in row-major order inside the box.
pub open spec fn box_values(cells: Seq<u8>, k: int) -> Seq<u8> {
    Seq::new(9, |j: int| cells[cell_index(box_row(k, j), box_column(k, j))])
}

/// No non-zero value occurs twice in `values`; blanks may repeat.
pub open spec fn distinct_when_filled(values: Seq<u8>) -> bool {
    forall|a: int, b: int|
        0 <= a < values.len() && 0 <= b < values.len() && a != b && #[trigger] values[a] != 0
            ==> values[a] != #[trigger] values[b]
}

/// No row, column or box of the grid holds the same non-zero value twice.
pub open spec fn board_valid(cells: Seq<u8>) -> bool {
    &&& forall|i: int| 0 <= i < 9 ==> #[trigger] distinct_when_filled(row_values(cells, i))
    &&& forall|j: int| 0 <= j < 9 ==> #[trigger] distinct_when_filled(column_values(cells, j))
    &&& forall|k: int| 0 <= k < 9 ==> #[trigger] distinct_when_filled(box_values(cells, k))
}

/// The rows hold exactly 9 rows of 9 cells each.
pub open spec fn is_nine_by_nine(rows: Seq<Vec<u8>>) -> bool {
    rows.len() == 9 && forall|i: int| 0 <= i < 9 ==> (#[trigger] rows[i])@.len() == 9
}

/// The cells of 9 rows of 9, in row-major order.
pub open spec fn flatten_rows(rows: Seq<Vec<u8>>) -> Seq<u8> {
    Seq::new(81, |x: int| rows[x / 9]@[x % 9])
}

/// Coordinates of the blank cells among the first `n` cells, in row-major
/// order.
pub open spec fn unsolved_before(cells: Seq<u8>, n: int) -> Seq<(usize, usize)>
    decreases n,
{
    if n <= 0 {
        Seq::empty()
    } else {
        let earlier = unsolved_before(cells, n - 1);
        if cells[n - 1] == 0 {
            earlier.push((((n - 1) / 9) as usize, ((n - 1) % 9) as usize))
        } else {
            earlier
        }
    }
}

/// Number of non-blank cells among the first `n` cells.
pub open spec fn filled_before(cells: Seq<u8>, n: int) -> int
    decreases n,
{
    if n <= 0 {
        0
    } else {
        filled_before(cells, n - 1) + if cells[n - 1] != 0 {
            1int
        } else {
            0int
        }
    }
}

/// Number of non-blank cells of the grid.
pub open spec fn filled_count(cells: Seq<u8>) -> int {
    filled_before(cells, 81)
}

/// At most `n` of the first `n` cells are filled.
pub proof fn lemma_filled_before_bounds(cells: Seq<u8>, n: int)
    requires
        0 <= n,
    ensures
        0 <= filled_before(cells, n) <= n,
    decreases n,
{
    if n > 0 {
        lemma_filled_before_bounds(cells, n - 1);
    }
}

/// Flat position, in row-major order, of a `(row, column)` coordinate.
pub open spec fn space_index(space: (usize, usize)) -> int {
    cell_index(space.0 as int, space.1 as int)
}

/// The blank cells among the first `n` are listed once each, in strictly
/// increasing position, and with the filled ones they make up all `n`.
pub proof fn lemma_unsolved_before(cells: Seq<u8>, n: int)
    requires
        0 <= n <= cells.len(),
        n <= 81,
    ensures
        forall|j: int|
            0 <= j < unsolved_before(cells, n).len() ==> {
                let space = #[trigger] unsolved_before(cells, n)[j];
                &&& space.0 < 9
                &&& space.1 < 9
                &&& 0 <= space_index(space) < n
                &&& cells[space_index(space)] == 0
            },
        forall|i: int, j: int|
            0 <= i < j < unsolved_before(cells, n).len() ==> space_index(
                #[trigger] unsolved_before(cells, n)[i],
            ) < space_index(#[trigger] unsolved_before(cells, n)[j]),
        forall|x: int|
            0 <= x < n && #[trigger] cells[x] == 0 ==> exists|j: int|
                0 <= j < unsolved_before(cells, n).len() && space_index(
                    #[trigger] unsolved_before(cells, n)[j],
                ) == x,
        unsolved_before(cells, n).len() + filled_before(cells, n) == n,
    decreases n,
{
    if n > 0 {
        lemma_unsolved_before(cells, n - 1);
        let p = unsolved_before(cells, n - 1);
        let s = unsolved_before(cells, n);
        let m = n - 1;
        assert(0 <= m / 9 < 9 && 0 <= m % 9 < 9 && cell_index(m / 9, m % 9) == m);
        assert forall|j: int| 0 <= j < p.len() implies s[j] == p[j] by {}
        if cells[m] == 0 {
            assert(space_index(s[p.len() as int]) == m);
        }
        assert forall|x: int| 0 <= x < n && #[trigger] cells[x] == 0 implies exists|j: int|
            0 <= j < s.len() && space_index(#[trigger] s[j]) == x by {
            if x < m {
                let j = choose|j: int| 0 <= j < p.len() && space_index(#[trigger] p[j]) == x;
                assert(s[j] == p[j]);
            } else {
                assert(space_index(s[p.len() as int]) == x);
            }
        }
    }
}

/// Coordinates `(row, column)` of every blank cell, in row-major order.
pub open spec fn unsolved_spaces(cells: Seq<u8>) -> Seq<(usize, usize)> {
    unsolved_before(cells, 81)
}

/// Overwrites one element of `cells`.
fn store(cells: &mut Vec<u8>, i: usize, value: u8)
    requires
        i < old(cells)@.len(),
    ensures
        final(cells)@ == old(cells)@.update(i as int, value),
    no_unwind
{
    cells[i] = value;
}

/// A 9×9 grid of values in `0..=9`, where 0 marks a blank cell.
///
/// Its view is the sequence of its 81 cells in row-major order.
pub struct SudokuBoard {
    cells: Vec<u8>,
}

impl View for SudokuBoard {
    type V = Seq<u8>;

    closed spec fn view(&self) -> Seq<u8> {
        self.cells@
    }
}

impl SudokuBoard {
    /// Holds of every board: 81 cells, each in `0..=9`.
    #[verifier::type_invariant]
    pub open spec fn well_formed(&self) -> bool {
        is_grid(self@)
    }

    /// Builds a board from its 81 cells in row-major order; fails with
    /// `InvalidValue` when a cell holds a value above 9.
    pub fn new(sudoku_puzzle: &[u8; 81]) -> (r: Result<SudokuBoard, SudokuError>)
        ensures
            match r {
                Ok(b) => values_in_range(sudoku_puzzle@) && b@ == sudoku_puzzle@,
                Err(e) => !values_in_range(sudoku_puzzle@) && e == SudokuError::InvalidValue,
            },
    {
        let mut cells: Vec<u8> = Vec::new();
        let mut i: usize = 0;
        while i < 81
            invariant
                i <= 81,
                sudoku_puzzle@.len() == 81,
                cells@ == sudoku_puzzle@.take(i as int),
                values_in_range(cells@),
            decreases 81 - i,
        {
            let value = sudoku_puzzle[i];
            if value > 9 {
                return Err(SudokuError::InvalidValue);
            }
            cells.push(value);
            i = i + 1;
            assert(cells@ == sudoku_puzzle@.take(i as int));
        }
        assert(cells@ == sudoku_puzzle@);
        Ok(SudokuBoard { cells })
    }

    /// Builds a board from 9 rows of 9 cells; fails with `InvalidDimensions`
    /// when the rows are not 9 by 9, else with `InvalidValue` when a cell
    /// holds a value above 9.
    pub fn from_rows(rows: &Vec<Vec<u8>>) -> (r: Result<SudokuBoard, SudokuError>)
        ensures
            match r {
                Ok(b) => is_nine_by_nine(rows@) && values_in_range(flatten_rows(rows@)) && b@
                    == flatten_rows(rows@),
                Err(e) => if is_nine_by_nine(rows@) {
                    !values_in_range(flatten_rows(rows@)) && e == SudokuError::InvalidValue
                } else {
                    e == SudokuError::InvalidDimensions
                },
            },
    {
        if rows.len() != 9 {
            return Err(SudokuError::InvalidDimensions);
        }
        let mut i: usize = 0;
        while i < 9
            invariant
                i <= 9,
                rows@.len() == 9,
                forall|k: int| 0 <= k < i ==> (#[trigger] rows@[k])@.len() == 9,
            decreases 9 - i,
        {
            if rows[i].len() != 9 {
                return Err(SudokuError::InvalidDimensions);
            }
            i = i + 1;
        }
        let ghost flat = flatten_rows(rows@);
        let mut cells: Vec<u8> = Vec::new();
        let mut row: usize = 0;
        while row < 9
            invariant
                row <= 9,
                is_nine_by_nine(rows@),
                flat == flatten_rows(rows@),
                cells@ == flat.take(9 * row as int),
                values_in_range(cells@),
            decreases 9 - row,
        {
            let mut column: usize = 0;
            while column < 9
                invariant
                    row < 9,
                    column <= 9,
                    is_nine_by_nine(rows@),
                    flat == flatten_rows(rows@),
                    cells@ == flat.take(9 * row + column),
                    values_in_range(cells@),
                decreases 9 - column,
            {
                let value = rows[row][column];
                assert(flat[9 * row + column] == value);
                if value > 9 {
                    return Err(SudokuError::InvalidValue);
                }
                cells.push(value);
                column = column + 1;
                assert(cells@ == flat.take(9 * row + column));
            }
            row = row + 1;
        }
        assert(cells@ == flat);
        Ok(SudokuBoard { cells })
    }

    /// A board holding the same cells as `other`.
    pub fn copy(other: &SudokuBoard) -> (r: SudokuBoard)
        ensures
            r@ == other@,
    {
        proof {
            use_type_invariant(other);
        }
        let mut cells: Vec<u8> = Vec::new();
        let mut i: usize = 0;
        while i < 81
            invariant
                i <= 81,
                is_grid(other.cells@),
                cells@ == other.cells@.take(i as int),
            decreases 81 - i,
        {
            cells.push(other.cells[i]);
            i = i + 1;
            assert(cells@ == other.cells@.take(i as int));
        }
        assert(cells@ == other.cells@);
        SudokuBoard { cells }
    }

    /// The 81 cells in row-major order.
    pub fn get_board(&self) -> (r: Vec<u8>)
        ensures
            r@ == self@,
            is_grid(r@),
    {
        proof {
            use_type_invariant(self);
        }
        let mut cells: Vec<u8> = Vec::new();
        let mut i: usize = 0;
        while i < 81
            invariant
                i <= 81,
                is_grid(self.cells@),
                cells@ == self.cells@.take(i as int),
            decreases 81 - i,
        {
            cells.push(self.cells[i]);
            i = i + 1;
            assert(cells@ == self.cells@.take(i as int));
        }
        assert(cells@ == self.cells@);
        cells
    }

    /// The values of row `i`, left to right.
    pub(crate) fn row_at(&self, i: usize) -> (r: Vec<u8>)
        requires
            i < 9,
        ensures
            r@ == row_values(self@, i as int),
    {
        proof {
            use_type_invariant(self);
        }
        let mut values: Vec<u8> = Vec::new();
        let mut j: usize = 0;
        while j < 9
            invariant
                i < 9,
                j <= 9,
                is_grid(self.cells@),
                values@ == row_values(self.cells@, i as int).take(j as int),
            decreases 9 - j,
        {
            values.push(self.cells[9 * i + j]);
            j = j + 1;
            assert(values@ == row_values(self.cells@, i as int).take(j as int));
        }
        assert(values@ == row_values(self.cells@, i as int));
        values
    }

    /// The values of column `j`, top to bottom.
    pub(crate) fn column_at(&self, j: usize) -> (r: Vec<u8>)
        requires
            j < 9,
        ensures
            r@ == column_values(self@, j as int),
    {
        proof {
            use_type_invariant(self);
        }
        let mut values: Vec<u8> = Vec::new();
        let mut i: usize = 0;
        while i < 9
            invariant
                j < 9,
                i <= 9,
                is_grid(self.cells@),
                values@ == column_values(self.cells@, j as int).take(i as int),
            decreases 9 - i,
        {
            values.push(self.cells[9 * i + j]);
            i = i + 1;
            assert(values@ == column_values(self.cells@, j as int).take(i as int));
        }
        assert(values@ == column_values(self.cells@, j as int));
        values
    }

    /// The values of box `k`, in row-major order inside the box.
    pub(crate) fn box_at(&self, k: usize) -> (r: Vec<u8>)
        requires
            k < 9,
        ensures
            r@ == box_values(self@, k as int),
    {
        proof {
            use_type_invariant(self);
        }
        let starting_row = 3 * (k / 3);
        let starting_column = 3 * (k % 3);
        let mut values: Vec<u8> = Vec::new();
        let mut j: usize = 0;
        while j < 9
            invariant
                k < 9,
                j <= 9,
                starting_row == 3 * (k / 3),
                starting_column == 3 * (k % 3),
                is_grid(self.cells@),
                values@ == box_values(self.cells@, k as int).take(j as int),
            decreases 9 - j,
        {
            let row = starting_row + j / 3;
            let column = starting_column + j % 3;
            values.push(self.cells[9 * row + column]);
            j = j + 1;
            assert(values@ == box_values(self.cells@, k as int).take(j as int));
        }
        assert(values@ == box_values(self.cells@, k as int));
        values
    }

    /// The values of row `row_index`, left to right; fails with
    /// `InvalidIndex` unless the index lies in `0..=8`.
    pub fn get_row(&self, row_index: usize) -> (r: Result<Vec<u8>, SudokuError>)
        ensures
            match r {
                Ok(values) => row_index < 9 && values@ == row_values(self@, row_index as int),
                Err(e) => row_index >= 9 && e == SudokuError::InvalidIndex,
            },
    {
        if row_index > 8 {
            Err(SudokuError::InvalidIndex)
        } else {
            Ok(self.row_at(row_index))
        }
    }

    /// The values of column `column_index`, top to bottom; fails with
    /// `InvalidIndex` unless the index lies in `0..=8`.
    pub fn get_column(&self, column_index: usize) -> (r: Result<Vec<u8>, SudokuError>)
        ensures
            match r {
                Ok(values) => column_index < 9 && values@ == column_values(self@, column_index as int),
                Err(e) => column_index >= 9 && e == SudokuError::InvalidIndex,
            },
    {
        if column_index > 8 {
            Err(SudokuError::InvalidIndex)
        } else {
            Ok(self.column_at(column_index))
        }
    }

    /// The values of box `nonet_index` (boxes are numbered 0 to 8 in
    /// row-major order of the 3×3 blocks), in row-major order inside the
    /// box; fails with `InvalidIndex` unless the index lies in `0..=8`.
    pub fn get_nonet(&self, nonet_index: usize) -> (r: Result<Vec<u8>, SudokuError>)
        ensures
            match r {
                Ok(values) => nonet_index < 9 && values@ == box_values(self@, nonet_index as int),
                Err(e) => nonet_index >= 9 && e == SudokuError::InvalidIndex,
            },
    {
        if nonet_index > 8 {
            Err(SudokuError::InvalidIndex)
        } else {
            Ok(self.box_at(nonet_index))
        }
    }

    /// Whether every row, every column and every box holds each non-zero
    /// value at most once. Blank cells take no part in the check.
    pub fn all_spaces_valid(&self) -> (r: bool)
        ensures
            r == board_valid(self@),
    {
        let mut i: usize = 0;
        while i < 9
            invariant
                i <= 9,
                forall|k: int| 0 <= k < i ==> #[trigger] distinct_when_filled(row_values(self@, k)),
            decreases 9 - i,
        {
            let row = self.row_at(i);
            if !values_distinct(&row) {
                return false;
            }
            i = i + 1;
        }
        let mut j: usize = 0;
        while j < 9
            invariant
                j <= 9,
                forall|k: int| 0 <= k < 9 ==> #[trigger] distinct_when_filled(row_values(self@, k)),
                forall|k: int| 0 <= k < j ==> #[trigger] distinct_when_filled(column_values(self@, k)),
            decreases 9 - j,
        {
            let column = self.column_at(j);
            if !values_distinct(&column) {
                return false;
            }
            j = j + 1;
        }
        let mut k: usize = 0;
        while k < 9
            invariant
                k <= 9,
                forall|m: int| 0 <= m < 9 ==> #[trigger] distinct_when_filled(row_values(self@, m)),
                forall|m: int| 0 <= m < 9 ==> #[trigger] distinct_when_filled(column_values(self@, m)),
                forall|m: int| 0 <= m < k ==> #[trigger] distinct_when_filled(box_values(self@, m)),
            decreases 9 - k,
        {
            let nonet = self.box_at(k);
            if !values_distinct(&nonet) {
                return false;
            }
            k = k + 1;
        }
        true
    }

    /// Coordinates `(row, column)` of every blank cell, in row-major order.
    pub fn get_unsolved_spaces(&self) -> (r: Vec<(usize, usize)>)
        ensures
            r@ == unsolved_spaces(self@),
    {
        proof {
            use_type_invariant(self);
        }
        let mut spaces: Vec<(usize, usize)> = Vec::new();
        let mut row: usize = 0;
        while row < 9
            invariant
                row <= 9,
                is_grid(self.cells@),
                spaces@ == unsolved_before(self.cells@, 9 * row as int),
            decreases 9 - row,
        {
            let mut column: usize = 0;
            while column < 9
                invariant
                    row < 9,
                    column <= 9,
                    is_grid(self.cells@),
                    spaces@ == unsolved_before(self.cells@, 9 * row + column),
                decreases 9 - column,
            {
                assert((9 * row + column) / 9 == row && (9 * row + column) % 9 == column);
                if self.cells[9 * row + column] == 0 {
                    spaces.push((row, column));
                }
                column = column + 1;
            }
            row = row + 1;
        }
        spaces
    }

    /// Writes `value` into the cell at `row` and `column`.
    pub fn set_value(&mut self, row: usize, column: usize, value: u8)
        requires
            row < 9,
            column < 9,
            value <= 9,
        ensures
            final(self)@ == old(self)@.update(cell_index(row as int, column as int), value),
    {
        proof {
            use_type_invariant(&*self);
            assert(is_grid(self.cells@.update(cell_index(row as int, column as int), value)));
        }
        store(&mut self.cells, 9 * row + column, value);
    }

    /// Whether no cell is blank.
    pub fn all_spaces_solved(&self) -> (r: bool)
        ensures
            r == board_filled(self@),
    {
        proof {
            use_type_invariant(self);
        }
        let mut i: usize = 0;
        while i < 81
            invariant
                i <= 81,
                is_grid(self.cells@),
                forall|x: int| 0 <= x < i ==> #[trigger] self.cells@[x] != 0,
            decreases 81 - i,
        {
            if self.cells[i] == 0 {
                return false;
            }
            i = i + 1;
        }
        true
    }
}


/// The `j`-th cell of box `k` lies on the grid, in box `k`, and at place
/// `j` of it.
pub proof fn lemma_box_cell(k: int, j: int)
    requires
        0 <= k < 9,
        0 <= j < 9,
    ensures
        0 <= box_row(k, j) < 9,
        0 <= box_column(k, j) < 9,
        box_of(box_row(k, j), box_column(k, j)) == k,
        3 * (box_row(k, j) % 3) + box_column(k, j) % 3 == j,
{
}

/// The cell at `row` and `column` is the `3 * (row % 3) + column % 3`-th
/// cell of box `box_of(row, column)`.
pub proof fn lemma_cell_in_box(row: int, column: int)
    requires
        0 <= row < 9,
        0 <= column < 9,
    ensures
        0 <= box_of(row, column) < 9,
        0 <= 3 * (row % 3) + column % 3 < 9,
        box_row(box_of(row, column), 3 * (row % 3) + column % 3) == row,
        box_column(box_of(row, column), 3 * (row % 3) + column % 3) == column,
{
}

/// Filling a blank with a value that the sequence lacks, or blanking a
/// cell, repeats no non-zero value.
proof fn lemma_distinct_update(s: Seq<u8>, j: int, v: u8)
    requires
        distinct_when_filled(s),
        0 <= j < s.len(),
        v == 0 || (s[j] == 0 && !s.contains(v)),
    ensures
        distinct_when_filled(s.update(j, v)),
{
    let t = s.update(j, v);
    assert forall|a: int, b: int|
        0 <= a < t.len() && 0 <= b < t.len() && a != b && #[trigger] t[a] != 0 implies t[a]
        != #[trigger] t[b] by {
        if a == j {
            assert(s[b] == t[b]);
        } else if b == j {
            assert(s[a] == t[a]);
        } else {
            assert(s[a] == t[a] && s[b] == t[b]);
        }
    }
}

/// Writing a value into cell `x` of a legal grid keeps it legal when the
/// value is 0, or when the cell was blank and its row, column and box lack
/// the value.
pub proof fn lemma_board_update(w: Seq<u8>, x: int, v: u8)
    requires
        w.len() == 81,
        board_valid(w),
        0 <= x < 81,
        v == 0 || {
            &&& w[x] == 0
            &&& !row_values(w, x / 9).contains(v)
            &&& !column_values(w, x % 9).contains(v)
            &&& !box_values(w, box_of(x / 9, x % 9)).contains(v)
        },
    ensures
        board_valid(w.update(x, v)),
{
    lemma_rows_update(w, x, v);
    lemma_columns_update(w, x, v);
    lemma_boxes_update(w, x, v);
}

proof fn lemma_rows_update(w: Seq<u8>, x: int, v: u8)
    requires
        w.len() == 81,
        forall|i: int| 0 <= i < 9 ==> #[trigger] distinct_when_filled(row_values(w, i)),
        0 <= x < 81,
        v == 0 || (w[x] == 0 && !row_values(w, x / 9).contains(v)),
    ensures
        forall|i: int| 0 <= i < 9 ==> #[trigger] distinct_when_filled(row_values(w.update(x, v), i)),
{
    let u = w.update(x, v);
    let r = x / 9;
    let c = x % 9;
    assert forall|i: int| 0 <= i < 9 implies #[trigger] distinct_when_filled(row_values(u, i)) by {
        if i == r {
            assert(row_values(u, i) =~= row_values(w, i).update(c, v));
            lemma_distinct_update(row_values(w, i), c, v);
        } else {
            assert(row_values(u, i) =~= row_values(w, i));
        }
    }
}

proof fn lemma_columns_update(w: Seq<u8>, x: int, v: u8)
    requires
        w.len() == 81,
        forall|j: int| 0 <= j < 9 ==> #[trigger] distinct_when_filled(column_values(w, j)),
        0 <= x < 81,
        v == 0 || (w[x] == 0 && !column_values(w, x % 9).contains(v)),
    ensures
        forall|j: int|
            0 <= j < 9 ==> #[trigger] distinct_when_filled(column_values(w.update(x, v), j)),
{
    let u = w.update(x, v);
    let r = x / 9;
    let c = x % 9;
    assert forall|j: int| 0 <= j < 9 implies #[trigger] distinct_when_filled(column_values(u, j)) by {
        if j == c {
            assert(column_values(u, j) =~= column_values(w, j).update(r, v));
            lemma_distinct_update(column_values(w, j), r, v);
        } else {
            assert(column_values(u, j) =~= column_values(w, j));
        }
    }
}

/// Cell `x` is the `j`-th cell of box `k` exactly when `k` is its box and
/// `j` its place there.
proof fn lemma_box_place(k: int, x: int)
    requires
        0 <= k < 9,
        0 <= x < 81,
    ensures
        forall|j: int|
            0 <= j < 9 ==> (cell_index(#[trigger] box_row(k, j), box_column(k, j)) == x <==> k
                == box_of(x / 9, x % 9) && j == 3 * ((x / 9) % 3) + (x % 9) % 3),
{
    lemma_cell_in_box(x / 9, x % 9);
    assert forall|j: int|
        0 <= j < 9 implies (cell_index(#[trigger] box_row(k, j), box_column(k, j)) == x <==> k
        == box_of(x / 9, x % 9) && j == 3 * ((x / 9) % 3) + (x % 9) % 3) by {
        lemma_box_cell(k, j);
    }
}

proof fn lemma_boxes_update(w: Seq<u8>, x: int, v: u8)
    requires
        w.len() == 81,
        forall|k: int| 0 <= k < 9 ==> #[trigger] distinct_when_filled(box_values(w, k)),
        0 <= x < 81,
        v == 0 || (w[x] == 0 && !box_values(w, box_of(x / 9, x % 9)).contains(v)),
    ensures
        forall|k: int| 0 <= k < 9 ==> #[trigger] distinct_when_filled(box_values(w.update(x, v), k)),
{
    let u = w.update(x, v);
    let r = x / 9;
    let c = x % 9;
    let jx = 3 * (r % 3) + c % 3;
    lemma_cell_in_box(r, c);
    assert forall|k: int| 0 <= k < 9 implies #[trigger] distinct_when_filled(box_values(u, k)) by {
        lemma_box_place(k, x);
        if k == box_of(r, c) {
            assert(box_values(u, k) =~= box_values(w, k).update(jx, v));
            lemma_distinct_update(box_values(w, k), jx, v);
        } else {
            assert(box_values(u, k) =~= box_values(w, k));
        }
    }
}

/// A legal filled grid `t` that keeps every value of `w`: the value `t`
/// puts in a cell that is blank in `w` occurs nowhere in that cell's row,
/// column or box of `w`.
pub proof fn lemma_completion_excludes(t: Seq<u8>, w: Seq<u8>, x: int)
    requires
        t.len() == 81,
        w.len() == 81,
        board_valid(t),
        forall|y: int| 0 <= y < 81 && #[trigger] w[y] != 0 ==> t[y] == w[y],
        0 <= x < 81,
        w[x] == 0,
        t[x] != 0,
    ensures
        !row_values(w, x / 9).contains(t[x]),
        !column_values(w, x % 9).contains(t[x]),
        !box_values(w, box_of(x / 9, x % 9)).contains(t[x]),
{
    let r = x / 9;
    let c = x % 9;
    lemma_cell_in_box(r, c);
    if row_values(w, r).contains(t[x]) {
        let j = choose|j: int| 0 <= j < 9 && row_values(w, r)[j] == t[x];
        assert(w[cell_index(r, j)] != 0);
        assert(row_values(t, r)[j] == row_values(t, r)[c]);
        assert(distinct_when_filled(row_values(t, r)));
    }
    if column_values(w, c).contains(t[x]) {
        let i = choose|i: int| 0 <= i < 9 && column_values(w, c)[i] == t[x];
        assert(w[cell_index(i, c)] != 0);
        assert(column_values(t, c)[i] == column_values(t, c)[r]);
        assert(distinct_when_filled(column_values(t, c)));
    }
    let k = box_of(r, c);
    let jx = 3 * (r % 3) + c % 3;
    if box_values(w, k).contains(t[x]) {
        let j = choose|j: int| 0 <= j < 9 && box_values(w, k)[j] == t[x];
        lemma_box_cell(k, j);
        assert(w[cell_index(box_row(k, j), box_column(k, j))] != 0);
        assert(box_values(t, k)[j] == box_values(t, k)[jx]);
        assert(distinct_when_filled(box_values(t, k)));
    }
}


/// Every blank cell is listed once, in strictly increasing row-major
/// position, and the blank and the filled cells together make up all 81.
pub proof fn lemma_unsolved_spaces_partition(cells: Seq<u8>)
    requires
        is_grid(cells),
    ensures
        unsolved_spaces(cells).len() + filled_count(cells) == 81,
        forall|i: int, j: int|
            0 <= i < j < unsolved_spaces(cells).len() ==> space_index(
                #[trigger] unsolved_spaces(cells)[i],
            ) < space_index(#[trigger] unsolved_spaces(cells)[j]),
        forall|j: int|
            0 <= j < unsolved_spaces(cells).len() ==> {
                let space = #[trigger] unsolved_spaces(cells)[j];
                space.0 < 9 && space.1 < 9 && cells[space_index(space)] == 0
            },
        forall|x: int|
            0 <= x < 81 && #[trigger] cells[x] == 0 ==> exists|j: int|
                0 <= j < unsolved_spaces(cells).len() && space_index(
                    #[trigger] unsolved_spaces(cells)[j],
                ) == x,
{
    lemma_unsolved_before(cells, 81);
    let s = unsolved_spaces(cells);
    assert forall|x: int| 0 <= x < 81 && #[trigger] cells[x] == 0 implies exists|j: int|
        0 <= j < s.len() && space_index(#[trigger] s[j]) == x by {
        let j = choose|j: int|
            0 <= j < unsolved_before(cells, 81).len() && space_index(
                #[trigger] unsolved_before(cells, 81)[j],
            ) == x;
        assert(space_index(s[j]) == x);
    }
}

/// Row `i` and column `j` meet in the cell at `i` and `j`: the `j`-th value
/// of the row and the `i`-th value of the column are that cell's value.
pub proof fn lemma_row_column_meet(cells: Seq<u8>, i: int, j: int)
    requires
        is_grid(cells),
        0 <= i < 9,
        0 <= j < 9,
    ensures
        row_values(cells, i)[j] == column_values(cells, j)[i],
        row_values(cells, i)[j] == cells[cell_index(i, j)],
{
}

/// The `(row, column)` coordinates of the cells of box `k`.
pub open spec fn box_coordinates(k: int) -> Set<(int, int)> {
    Set::new(|p: (int, int)| exists|j: int| 0 <= j < 9 && p == (box_row(k, j), box_column(k, j)))
}

/// The nine boxes split the grid: no two share a cell, and together they
/// cover exactly the 81 cells. Within a box, no two places name one cell.
pub proof fn lemma_boxes_partition_grid()
    ensures
        forall|k1: int, k2: int|
            0 <= k1 < 9 && 0 <= k2 < 9 && k1 != k2 ==> #[trigger] box_coordinates(k1).disjoint(
                #[trigger] box_coordinates(k2),
            ),
        forall|k: int, p: (int, int)|
            0 <= k < 9 && #[trigger] box_coordinates(k).contains(p) ==> 0 <= p.0 < 9 && 0 <= p.1
                < 9,
        forall|row: int, column: int|
            0 <= row < 9 && 0 <= column < 9 ==> 0 <= #[trigger] box_of(row, column) < 9
                && box_coordinates(box_of(row, column)).contains((row, column)),
        forall|k: int, j1: int, j2: int|
            0 <= k < 9 && 0 <= j1 < 9 && 0 <= j2 < 9 && j1 != j2 ==> (#[trigger] box_row(k, j1),
            box_column(k, j1)) != (#[trigger] box_row(k, j2), box_column(k, j2)),
{
    assert forall|k1: int, k2: int|
        0 <= k1 < 9 && 0 <= k2 < 9 && k1 != k2 implies #[trigger] box_coordinates(k1).disjoint(
        #[trigger] box_coordinates(k2),
    ) by {
        assert forall|p: (int, int)| box_coordinates(k1).contains(p) implies !box_coordinates(
            k2,
        ).contains(p) by {
            let j1 = choose|j: int| 0 <= j < 9 && p == (box_row(k1, j), box_column(k1, j));
            lemma_box_cell(k1, j1);
            if box_coordinates(k2).contains(p) {
                let j2 = choose|j: int| 0 <= j < 9 && p == (box_row(k2, j), box_column(k2, j));
                lemma_box_cell(k2, j2);
            }
        }
    }
    assert forall|k: int, p: (int, int)|
        0 <= k < 9 && #[trigger] box_coordinates(k).contains(p) implies 0 <= p.0 < 9 && 0 <= p.1
        < 9 by {
        let j = choose|j: int| 0 <= j < 9 && p == (box_row(k, j), box_column(k, j));
        lemma_box_cell(k, j);
    }
    assert forall|row: int, column: int| 0 <= row < 9 && 0 <= column < 9 implies 0
        <= #[trigger] box_of(row, column) < 9 && box_coordinates(box_of(row, column)).contains(
        (row, column),
    ) by {
        lemma_cell_in_box(row, column);
        let j = 3 * (row % 3) + column % 3;
        assert((row, column) == (box_row(box_of(row, column), j), box_column(box_of(row, column), j)));
    }
    assert forall|k: int, j1: int, j2: int|
        0 <= k < 9 && 0 <= j1 < 9 && 0 <= j2 < 9 && j1 != j2 implies (#[trigger] box_row(k, j1),
        box_column(k, j1)) != (#[trigger] box_row(k, j2), box_column(k, j2)) by {
        lemma_box_cell(k, j1);
        lemma_box_cell(k, j2);
    }
}

} // verus!
