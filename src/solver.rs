use vstd::prelude::*;

use crate::board::{
    board_filled, board_valid, flatten_rows, is_nine_by_nine, unsolved_spaces, values_in_range,
    SudokuBoard,
};
use crate::error::SudokuError;
use crate::search::search;

verus! {

/// `a` and `b` hold the same values in their first `n` cells.
pub open spec fn agree_before(a: Seq<u8>, b: Seq<u8>, n: int) -> bool {
    forall|m: int| 0 <= m < n ==> a[m] == b[m]
}

/// `a` comes before `b` when their cells are read in row-major order.
pub open spec fn lex_less(a: Seq<u8>, b: Seq<u8>) -> bool {
    exists|k: int| 0 <= k < 81 && #[trigger] agree_before(a, b, k) && a[k] < b[k]
}

/// `s` completes `puzzle`: it keeps every filled cell of `puzzle`, fills
/// every cell with a value in `1..=9`, and breaks no rule.
pub open spec fn is_solution(puzzle: Seq<u8>, s: Seq<u8>) -> bool {
    &&& s.len() == 81
    &&& forall|x: int| 0 <= x < 81 && puzzle[x] != 0 ==> #[trigger] s[x] == puzzle[x]
    &&& forall|x: int| 0 <= x < 81 ==> 1 <= #[trigger] s[x] <= 9
    &&& board_valid(s)
}

/// `s` is the first completion of `puzzle` in row-major order.
pub open spec fn is_least_solution(puzzle: Seq<u8>, s: Seq<u8>) -> bool {
    &&& is_solution(puzzle, s)
    &&& forall|t: Seq<u8>| #[trigger] is_solution(puzzle, t) ==> !lex_less(t, s)
}

/// `puzzle` has a completion.
pub open spec fn solvable(puzzle: Seq<u8>) -> bool {
    exists|s: Seq<u8>| #[trigger] is_solution(puzzle, s)
}

/// Two grids that differ have a first cell where they differ.
proof fn lemma_first_difference(a: Seq<u8>, b: Seq<u8>, n: int)
    requires
        0 <= n <= a.len(),
        n <= b.len(),
    ensures
        agree_before(a, b, n) || exists|k: int|
            0 <= k < n && #[trigger] agree_before(a, b, k) && a[k] != b[k],
    decreases n,
{
    if n > 0 {
        lemma_first_difference(a, b, n - 1);
        if agree_before(a, b, n - 1) && a[n - 1] != b[n - 1] {
            assert(agree_before(a, b, n - 1));
        }
    }
}

/// A puzzle has at most one first completion: so solving the same puzzle
/// again, by the same solver or by another, gives the same grid.
pub proof fn lemma_least_solution_unique(puzzle: Seq<u8>, a: Seq<u8>, b: Seq<u8>)
    requires
        is_least_solution(puzzle, a),
        is_least_solution(puzzle, b),
    ensures
        a == b,
{
    lemma_first_difference(a, b, 81);
    if !agree_before(a, b, 81) {
        let k = choose|k: int| 0 <= k < 81 && #[trigger] agree_before(a, b, k) && a[k] != b[k];
        assert(agree_before(b, a, k));
        if a[k] < b[k] {
            assert(lex_less(a, b));
        } else {
            assert(lex_less(b, a));
        }
    }
    assert(a =~= b);
}

/// What `solve` returns passes both checks of the board: it breaks no rule
/// and has no blank cell.
pub proof fn lemma_solution_passes_checks(puzzle: Seq<u8>, s: Seq<u8>)
    requires
        is_solution(puzzle, s),
    ensures
        board_valid(s),
        board_filled(s),
{
    assert forall|x: int| 0 <= x < 81 implies #[trigger] s[x] != 0 by {}
}

/// Solves one puzzle: the board it was built from, whose blank cells are
/// the search order, and the completion once the search has found it.
pub struct SudokuSolver {
    board: SudokuBoard,
    unsolved_spaces: Vec<(usize, usize)>,
    solved_board: Option<SudokuBoard>,
}

impl SudokuSolver {
    /// The puzzle breaks no rule, the search order lists its blank cells,
    /// and a stored completion is its first one.
    #[verifier::type_invariant]
    spec fn well_formed(&self) -> bool {
        &&& board_valid(self.board@)
        &&& self.unsolved_spaces@ == unsolved_spaces(self.board@)
        &&& match self.solved_board {
            Some(b) => is_least_solution(self.board@, b@),
            None => true,
        }
    }

    /// The cells of the puzzle being solved.
    pub closed spec fn puzzle(&self) -> Seq<u8> {
        self.board@
    }

    /// The completion found by an earlier call of `solve`, if any.
    pub closed spec fn cached(&self) -> Option<Seq<u8>> {
        match self.solved_board {
            Some(b) => Some(b@),
            None => None,
        }
    }

    /// A solver for `sudoku_board`, which it copies; fails with
    /// `InvalidPuzzle` when some row, column or box holds the same non-zero
    /// value twice.
    pub fn new(sudoku_board: &SudokuBoard) -> (r: Result<SudokuSolver, SudokuError>)
        ensures
            match r {
                Ok(solver) => board_valid(sudoku_board@) && solver.puzzle() == sudoku_board@
                    && solver.cached() is None,
                Err(e) => !board_valid(sudoku_board@) && e == SudokuError::InvalidPuzzle,
            },
    {
        if !sudoku_board.all_spaces_valid() {
            return Err(SudokuError::InvalidPuzzle);
        }
        let unsolved_spaces = sudoku_board.get_unsolved_spaces();
        Ok(SudokuSolver { board: SudokuBoard::copy(sudoku_board), unsolved_spaces, solved_board: None })
    }

    /// A solver for the puzzle given as 9 rows of 9 cells. Fails with
    /// `InvalidDimensions` when the rows are not 9 by 9, else with
    /// `InvalidValue` when a cell holds a value above 9, else with
    /// `InvalidPuzzle` when some row, column or box holds the same non-zero
    /// value twice.
    pub fn from_rows(sudoku_puzzle: &Vec<Vec<u8>>) -> (r: Result<SudokuSolver, SudokuError>)
        ensures
            match r {
                Ok(solver) => {
                    &&& is_nine_by_nine(sudoku_puzzle@)
                    &&& values_in_range(flatten_rows(sudoku_puzzle@))
                    &&& board_valid(flatten_rows(sudoku_puzzle@))
                    &&& solver.puzzle() == flatten_rows(sudoku_puzzle@)
                    &&& solver.cached() is None
                },
                Err(e) => if !is_nine_by_nine(sudoku_puzzle@) {
                    e == SudokuError::InvalidDimensions
                } else if !values_in_range(flatten_rows(sudoku_puzzle@)) {
                    e == SudokuError::InvalidValue
                } else {
                    !board_valid(flatten_rows(sudoku_puzzle@)) && e == SudokuError::InvalidPuzzle
                },
            },
    {
        match SudokuBoard::from_rows(sudoku_puzzle) {
            Ok(board) => SudokuSolver::new(&board),
            Err(e) => Err(e),
        }
    }

    /// The puzzle as it was given.
    pub fn board(&self) -> (r: &SudokuBoard)
        ensures
            r@ == self.puzzle(),
    {
        &self.board
    }

    /// The coordinates of the puzzle's blank cells, in row-major order: the
    /// order in which the search fills them.
    pub fn unsolved_spaces(&self) -> (r: &Vec<(usize, usize)>)
        ensures
            r@ == unsolved_spaces(self.puzzle()),
    {
        proof {
            use_type_invariant(self);
        }
        &self.unsolved_spaces
    }

    /// The completion kept by an earlier call of `solve`, if any.
    pub fn solved_board(&self) -> (r: Option<&SudokuBoard>)
        ensures
            match r {
                Some(b) => self.cached() == Some(b@),
                None => self.cached() is None,
            },
    {
        match &self.solved_board {
            Some(b) => Some(b),
            None => None,
        }
    }

    /// The first completion of the puzzle in row-major order, found by
    /// backtracking search and kept, so that later calls return a copy of it
    /// without searching again; fails with `Unsolvable` when the puzzle has
    /// no completion.
    pub fn solve(&mut self) -> (r: Result<SudokuBoard, SudokuError>)
        ensures
            final(self).puzzle() == old(self).puzzle(),
            match r {
                Ok(b) => is_least_solution(old(self).puzzle(), b@) && final(self).cached() == Some(
                    b@,
                ),
                Err(e) => e == SudokuError::Unsolvable && !solvable(old(self).puzzle())
                    && final(self).cached() == old(self).cached(),
            },
            old(self).cached() matches Some(c) ==> r matches Ok(b) && b@ == c,
    {
        proof {
            use_type_invariant(&*self);
        }
        match &self.solved_board {
            Some(b) => {
                return Ok(SudokuBoard::copy(b));
            },
            None => {},
        }
        match search(&self.board, &self.unsolved_spaces) {
            Ok(solved) => {
                self.solved_board = Some(SudokuBoard::copy(&solved));
                Ok(solved)
            },
            Err(e) => Err(e),
        }
    }
}

} // verus!
