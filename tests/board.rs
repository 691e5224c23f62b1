use sudoku::SudokuBoard;
use sudoku::SudokuError;

const SOLVED: [u8; 81] = [
    6, 7, 3, 8, 9, 4, 5, 1, 2,
    9, 1, 2, 7, 3, 5, 4, 8, 6,
    8, 4, 5, 6, 1, 2, 9, 7, 3,
    7, 9, 8, 2, 6, 1, 3, 5, 4,
    5, 2, 6, 4, 7, 3, 8, 9, 1,
    1, 3, 4, 5, 8, 9, 2, 6, 7,
    4, 6, 9, 1, 2, 8, 7, 3, 5,
    2, 8, 7, 3, 5, 6, 1, 4, 9,
    3, 5, 1, 9, 4, 7, 6, 2, 8,
];

fn solved_rows() -> Vec<Vec<u8>> {
    vec![
        vec![6, 7, 3, 8, 9, 4, 5, 1, 2],
        vec![9, 1, 2, 7, 3, 5, 4, 8, 6],
        vec![8, 4, 5, 6, 1, 2, 9, 7, 3],
        vec![7, 9, 8, 2, 6, 1, 3, 5, 4],
        vec![5, 2, 6, 4, 7, 3, 8, 9, 1],
        vec![1, 3, 4, 5, 8, 9, 2, 6, 7],
        vec![4, 6, 9, 1, 2, 8, 7, 3, 5],
        vec![2, 8, 7, 3, 5, 6, 1, 4, 9],
        vec![3, 5, 1, 9, 4, 7, 6, 2, 8],
    ]
}

fn expected_columns() -> Vec<Vec<u8>> {
    vec![
        vec![6, 9, 8, 7, 5, 1, 4, 2, 3],
        vec![7, 1, 4, 9, 2, 3, 6, 8, 5],
        vec![3, 2, 5, 8, 6, 4, 9, 7, 1],
        vec![8, 7, 6, 2, 4, 5, 1, 3, 9],
        vec![9, 3, 1, 6, 7, 8, 2, 5, 4],
        vec![4, 5, 2, 1, 3, 9, 8, 6, 7],
        vec![5, 4, 9, 3, 8, 2, 7, 1, 6],
        vec![1, 8, 7, 5, 9, 6, 3, 4, 2],
        vec![2, 6, 3, 4, 1, 7, 5, 9, 8],
    ]
}

fn expected_nonets() -> Vec<Vec<u8>> {
    vec![
        vec![6, 7, 3, 9, 1, 2, 8, 4, 5],
        vec![8, 9, 4, 7, 3, 5, 6, 1, 2],
        vec![5, 1, 2, 4, 8, 6, 9, 7, 3],
        vec![7, 9, 8, 5, 2, 6, 1, 3, 4],
        vec![2, 6, 1, 4, 7, 3, 5, 8, 9],
        vec![3, 5, 4, 8, 9, 1, 2, 6, 7],
        vec![4, 6, 9, 2, 8, 7, 3, 5, 1],
        vec![1, 2, 8, 3, 5, 6, 9, 4, 7],
        vec![7, 3, 5, 1, 4, 9, 6, 2, 8],
    ]
}

#[test]
fn sudoku_board_constructor_works_valid_board() {
    let valid_configuration = [
        0, 0, 0, 0, 0, 0, 0, 0, 0,
        0, 0, 2, 0, 0, 5, 0, 4, 0,
        1, 0, 8, 0, 4, 0, 0, 0, 0,
        0, 0, 0, 0, 0, 0, 4, 0, 3,
        0, 0, 6, 0, 5, 0, 0, 0, 1,
        0, 0, 0, 0, 2, 0, 0, 0, 6,
        3, 0, 1, 0, 0, 0, 0, 8, 0,
        2, 0, 7, 0, 0, 0, 6, 0, 0,
        0, 0, 0, 0, 0, 6, 1, 3, 9,
    ];

    let valid_board = SudokuBoard::new(&valid_configuration).unwrap();

    assert_eq!(valid_board.get_board(), valid_configuration.to_vec());
}

#[test]
fn constructor_rejects_value_ten() {
    let invalid_board_value = [
        0, 0, 0, 0, 0, 0, 0, 0, 0,
        0, 0, 2, 0, 0, 5, 0, 4, 0,
        1, 0, 8, 0, 4, 0, 0, 0, 0,
        0, 0, 0, 0, 0, 0, 4, 0, 3,
        0, 0, 6, 0, 5, 0, 0, 0, 10,
        0, 0, 0, 0, 2, 0, 0, 0, 6,
        3, 0, 1, 0, 0, 0, 0, 8, 0,
        2, 0, 7, 0, 0, 0, 6, 0, 0,
        0, 0, 0, 0, 0, 6, 1, 3, 9,
    ];
    assert!(matches!(SudokuBoard::new(&invalid_board_value), Err(SudokuError::InvalidValue)));
}

#[test]
fn from_rows_rejects_eight_rows() {
    let mut rows = solved_rows();
    rows.pop();
    assert!(matches!(SudokuBoard::from_rows(&rows), Err(SudokuError::InvalidDimensions)));
}

#[test]
fn from_rows_rejects_short_row() {
    let mut rows = solved_rows();
    rows[3].pop();
    assert!(matches!(SudokuBoard::from_rows(&rows), Err(SudokuError::InvalidDimensions)));
}

#[test]
fn from_rows_rejects_value_ten() {
    let mut rows = solved_rows();
    rows[4][8] = 10;
    assert!(matches!(SudokuBoard::from_rows(&rows), Err(SudokuError::InvalidValue)));
}

#[test]
fn from_rows_reads_row_major() {
    let board = SudokuBoard::from_rows(&solved_rows()).unwrap();
    assert_eq!(board.get_board(), SOLVED.to_vec());
}

#[test]
fn get_unsolved_spaces_works() {
    let board_with_zeroes = SudokuBoard::new(&[
        0, 7, 3, 8, 9, 4, 5, 1, 2,
        9, 1, 2, 7, 3, 5, 4, 8, 6,
        8, 4, 5, 6, 1, 2, 9, 7, 3,
        7, 9, 8, 2, 6, 1, 3, 5, 4,
        5, 2, 6, 4, 7, 3, 8, 9, 1,
        1, 3, 4, 5, 8, 9, 2, 6, 7,
        4, 6, 9, 0, 2, 8, 7, 3, 5,
        2, 8, 7, 3, 5, 6, 1, 4, 9,
        3, 5, 1, 9, 4, 7, 6, 2, 0,
    ])
    .unwrap();

    let unsolved_spaces = board_with_zeroes.get_unsolved_spaces();

    assert_eq!(unsolved_spaces, vec![(0, 0), (6, 3), (8, 8)]);
}

#[test]
fn unsolved_and_filled_cells_make_up_the_grid() {
    let mut cells = SOLVED;
    for x in [0usize, 1, 10, 40, 41, 79, 80] {
        cells[x] = 0;
    }
    let board = SudokuBoard::new(&cells).unwrap();
    let spaces = board.get_unsolved_spaces();
    let filled = board.get_board().iter().filter(|v| **v != 0).count();
    assert_eq!(spaces.len() + filled, 81);
    assert_eq!(spaces, vec![(0, 0), (0, 1), (1, 1), (4, 4), (4, 5), (8, 7), (8, 8)]);
    for pair in spaces.windows(2) {
        assert!(9 * pair[0].0 + pair[0].1 < 9 * pair[1].0 + pair[1].1);
    }
}

#[test]
fn all_spaces_valid_works() {
    let invalid_board_spaces = [
        6, 7, 3, 8, 9, 4, 5, 1, 2,
        9, 1, 2, 7, 3, 5, 4, 8, 6,
        8, 4, 5, 6, 1, 2, 9, 7, 3,
        7, 9, 8, 2, 6, 1, 3, 5, 4,
        5, 2, 6, 4, 7, 3, 9, 9, 1,
        1, 3, 4, 5, 8, 9, 2, 6, 7,
        4, 6, 9, 1, 2, 8, 7, 3, 5,
        2, 8, 7, 3, 5, 6, 1, 4, 9,
        3, 5, 1, 9, 4, 7, 6, 2, 8,
    ];

    let invalid_board = SudokuBoard::new(&invalid_board_spaces).unwrap();
    let valid_board = SudokuBoard::new(&SOLVED).unwrap();

    assert_eq!(invalid_board.all_spaces_valid(), false);
    assert_eq!(valid_board.all_spaces_valid(), true);
}

fn single_value(x: usize, value: u8) -> SudokuBoard {
    let mut cells = [0u8; 81];
    cells[x] = value;
    SudokuBoard::new(&cells).unwrap()
}

fn two_values(x: usize, y: usize, value: u8) -> SudokuBoard {
    let mut cells = [0u8; 81];
    cells[x] = value;
    cells[y] = value;
    SudokuBoard::new(&cells).unwrap()
}

#[test]
fn all_spaces_valid_finds_each_kind_of_repeat() {
    // same row, different column and box
    assert!(!two_values(9 * 2 + 0, 9 * 2 + 7, 4).all_spaces_valid());
    // same column, different row and box
    assert!(!two_values(9 * 0 + 5, 9 * 8 + 5, 4).all_spaces_valid());
    // same box, different row and column
    assert!(!two_values(9 * 3 + 3, 9 * 5 + 5, 4).all_spaces_valid());
    // no shared row, column or box
    assert!(two_values(9 * 0 + 0, 9 * 4 + 4, 4).all_spaces_valid());
    // repeated blanks are no repeat
    assert!(SudokuBoard::new(&[0u8; 81]).unwrap().all_spaces_valid());
}

#[test]
fn all_spaces_solved_works() {
    let board_with_zeroes = SudokuBoard::from_rows(&vec![
        vec![0, 7, 3, 8, 9, 4, 5, 1, 2],
        vec![9, 1, 2, 7, 3, 5, 4, 8, 6],
        vec![8, 4, 5, 6, 1, 2, 9, 7, 3],
        vec![7, 9, 8, 2, 6, 1, 3, 5, 4],
        vec![5, 2, 6, 4, 7, 3, 8, 9, 1],
        vec![1, 3, 4, 5, 8, 9, 2, 6, 7],
        vec![4, 6, 9, 0, 2, 8, 7, 3, 5],
        vec![2, 8, 7, 3, 5, 6, 1, 4, 9],
        vec![3, 5, 1, 9, 4, 7, 6, 2, 0],
    ])
    .unwrap();
    let board_without_zeroes = SudokuBoard::from_rows(&solved_rows()).unwrap();

    assert_eq!(board_with_zeroes.all_spaces_solved(), false);
    assert_eq!(board_without_zeroes.all_spaces_solved(), true);
}

#[test]
fn lib_get_row_works() {
    let valid_board = SudokuBoard::from_rows(&solved_rows()).unwrap();

    let mut all_rows: Vec<Vec<u8>> = Vec::new();
    for row_index in 0..=8 {
        all_rows.push(valid_board.get_row(row_index).unwrap());
    }

    assert_eq!(all_rows, solved_rows());
}

#[test]
fn lib_get_column_works() {
    let valid_board = SudokuBoard::from_rows(&solved_rows()).unwrap();

    let mut all_columns: Vec<Vec<u8>> = Vec::new();
    for column_index in 0..=8 {
        all_columns.push(valid_board.get_column(column_index).unwrap());
    }

    assert_eq!(all_columns, expected_columns());
}

#[test]
fn lib_get_nonet_works() {
    let valid_board = SudokuBoard::from_rows(&solved_rows()).unwrap();

    let mut all_nonets: Vec<Vec<u8>> = Vec::new();
    for nonet_index in 0..=8 {
        all_nonets.push(valid_board.get_nonet(nonet_index).unwrap());
    }

    assert_eq!(all_nonets, expected_nonets());
}

#[test]
fn sudoku_board_get_row_works() {
    let valid_board = SudokuBoard::new(&SOLVED).unwrap();

    let mut all_rows: Vec<Vec<u8>> = Vec::new();
    for row_index in 0..=8 {
        all_rows.push(valid_board.get_row(row_index).unwrap());
    }

    assert_eq!(all_rows, solved_rows());
}

#[test]
fn sudoku_board_get_column_works() {
    let valid_board = SudokuBoard::new(&SOLVED).unwrap();

    let mut all_columns: Vec<Vec<u8>> = Vec::new();
    for column_index in 0..=8 {
        all_columns.push(valid_board.get_column(column_index).unwrap());
    }

    assert_eq!(all_columns, expected_columns());
}

#[test]
fn sudoku_board_get_nonet_works() {
    let valid_board = SudokuBoard::new(&SOLVED).unwrap();

    let mut all_nonets: Vec<Vec<u8>> = Vec::new();
    for nonet_index in 0..=8 {
        all_nonets.push(valid_board.get_nonet(nonet_index).unwrap());
    }

    // each box is read in row-major order inside the box
    assert_eq!(all_nonets, expected_nonets());
}

#[test]
fn accessors_reject_index_nine() {
    let board = SudokuBoard::new(&SOLVED).unwrap();
    assert!(matches!(board.get_row(9), Err(SudokuError::InvalidIndex)));
    assert!(matches!(board.get_column(9), Err(SudokuError::InvalidIndex)));
    assert!(matches!(board.get_nonet(9), Err(SudokuError::InvalidIndex)));
    assert!(matches!(board.get_nonet(usize::MAX), Err(SudokuError::InvalidIndex)));
}

#[test]
fn row_and_column_meet_at_the_cell() {
    let board = SudokuBoard::new(&SOLVED).unwrap();
    for i in 0..9 {
        let row = board.get_row(i).unwrap();
        for j in 0..9 {
            let column = board.get_column(j).unwrap();
            assert_eq!(row[j], column[i]);
            assert_eq!(row[j], SOLVED[9 * i + j]);
        }
    }
}

#[test]
fn boxes_partition_the_grid() {
    for x in 0..81 {
        let board = single_value(x, 5);
        let mut places = Vec::new();
        for k in 0..9 {
            let nonet = board.get_nonet(k).unwrap();
            for j in 0..9 {
                if nonet[j] == 5 {
                    places.push((k, j));
                }
            }
        }
        let (row, column) = (x / 9, x % 9);
        assert_eq!(places, vec![(3 * (row / 3) + column / 3, 3 * (row % 3) + column % 3)]);
    }
}

#[test]
fn set_value_and_copy() {
    let mut board = SudokuBoard::new(&SOLVED).unwrap();
    let copy = SudokuBoard::copy(&board);
    board.set_value(4, 7, 0);
    assert_eq!(board.get_row(4).unwrap(), vec![5, 2, 6, 4, 7, 3, 8, 0, 1]);
    assert_eq!(board.get_unsolved_spaces(), vec![(4, 7)]);
    assert_eq!(copy.get_board(), SOLVED.to_vec());
}
