use bingo::board::Board;
use bingo::error::BingoError;

fn rows(strs: &[&str]) -> Vec<String> {
    strs.iter().map(|s| s.to_string()).collect()
}

#[test]
fn from_string_builds_cells_row_major() {
    let b = Board::from_string(&rows(&["1 2", "3 4"])).unwrap();
    assert_eq!(b.cells, vec![1, 2, 3, 4]);
    assert_eq!(b.size, 2);
    assert_eq!(b.marked, vec![false, false, false, false]);
}

#[test]
fn from_string_tolerates_extra_spaces() {
    let b = Board::from_string(&rows(&["22 13 17 11  0", " 8  2 23  4 24", "21  9 14 16  7",
        " 6 10  3 18  5", " 1 12 20 15 19"]))
        .unwrap();
    assert_eq!(b.size, 5);
    assert_eq!(b.cells[4], 0);
    assert_eq!(b.cells[5], 8);
}

#[test]
fn from_string_bad_token_is_parse_error() {
    let r = Board::from_string(&rows(&["1 x", "3 4"]));
    assert_eq!(r.unwrap_err(), BingoError::ParseError);
}

#[test]
fn from_string_huge_token_is_parse_error() {
    let r = Board::from_string(&rows(&["4294967296 1", "2 3"]));
    assert_eq!(r.unwrap_err(), BingoError::ParseError);
}

#[test]
fn from_string_takes_the_largest_cell_value() {
    let b = Board::from_string(&rows(&["4294967295 1", "2 3"])).unwrap();
    assert_eq!(b.cells, vec![4294967295, 1, 2, 3]);
}

#[test]
fn from_string_ragged_rows_is_shape_error() {
    let r = Board::from_string(&rows(&["1 2 3", "4 5"]));
    assert_eq!(r.unwrap_err(), BingoError::ShapeError);
}

#[test]
fn from_string_non_square_is_shape_error() {
    let r = Board::from_string(&rows(&["1 2 3", "4 5 6"]));
    assert_eq!(r.unwrap_err(), BingoError::ShapeError);
}

#[test]
fn from_string_no_rows_is_shape_error() {
    let r = Board::from_string(&Vec::new());
    assert_eq!(r.unwrap_err(), BingoError::ShapeError);
}

#[test]
fn fresh_board_is_no_winner_and_sums_all_cells() {
    let b = Board::from_string(&rows(&["1 2", "3 4"])).unwrap();
    assert!(!b.is_winner());
    assert_eq!(b.sum_unmarked(), 10);
}

#[test]
fn mark_sets_matching_cell() {
    let mut b = Board::from_string(&rows(&["1 2", "3 4"])).unwrap();
    b.mark(3);
    assert_eq!(b.marked, vec![false, false, true, false]);
    assert_eq!(b.sum_unmarked(), 7);
}

#[test]
fn mark_absent_value_changes_nothing() {
    let mut b = Board::from_string(&rows(&["1 2", "3 4"])).unwrap();
    b.mark(9);
    assert_eq!(b.marked, vec![false, false, false, false]);
    assert_eq!(b.sum_unmarked(), 10);
}

#[test]
fn mark_twice_changes_nothing_after_the_first() {
    let mut b = Board::from_string(&rows(&["1 2", "3 4"])).unwrap();
    b.mark(2);
    let once = b.marked.clone();
    b.mark(2);
    assert_eq!(b.marked, once);
}

#[test]
fn mark_duplicate_value_marks_first_occurrence_only() {
    let mut b = Board::from_string(&rows(&["5 5", "5 1"])).unwrap();
    b.mark(5);
    assert_eq!(b.marked, vec![true, false, false, false]);
}

#[test]
fn full_row_wins() {
    let mut b = Board::from_string(&rows(&["1 2 3", "4 5 6", "7 8 9"])).unwrap();
    b.mark(4);
    b.mark(5);
    assert!(!b.is_winner());
    b.mark(6);
    assert!(b.is_winner());
}

#[test]
fn full_column_wins() {
    let mut b = Board::from_string(&rows(&["1 2 3", "4 5 6", "7 8 9"])).unwrap();
    b.mark(2);
    b.mark(5);
    b.mark(8);
    assert!(b.is_winner());
}

#[test]
fn almost_full_everywhere_does_not_win() {
    // every cell except the main diagonal: each row and each column is one short
    let mut b = Board::from_string(&rows(&["1 2 3", "4 5 6", "7 8 9"])).unwrap();
    for v in [2, 3, 4, 6, 7, 8] {
        b.mark(v);
    }
    assert!(!b.is_winner());
    assert_eq!(b.sum_unmarked(), 1 + 5 + 9);
}
