use bingo::board::Board;
use bingo::error::BingoError;
use bingo::game::{play_round, run_game, score, solve};

fn rows(strs: &[&str]) -> Vec<String> {
    strs.iter().map(|s| s.to_string()).collect()
}

fn classic_boards() -> Vec<Board> {
    let b1 = Board::from_string(&rows(&["22 13 17 11  0", " 8  2 23  4 24", "21  9 14 16  7",
        " 6 10  3 18  5", " 1 12 20 15 19"]))
        .unwrap();
    let b2 = Board::from_string(&rows(&[" 3 15  0  2 22", " 9 18 13 17  5", "19  8  7 25 23",
        "20 11 10 24  4", "14 21 16 12  6"]))
        .unwrap();
    let b3 = Board::from_string(&rows(&["14 21 17 24  4", "10 16 15  9 19", "18  8 23 26 20",
        "22 11 13  6  5", " 2  0 12  3  7"]))
        .unwrap();
    vec![b1, b2, b3]
}

fn classic_draws() -> Vec<u32> {
    vec![7, 4, 9, 5, 11, 17, 23, 2, 0, 14, 21, 24, 10, 16, 13, 6, 15, 25, 12, 22, 18, 20, 8,
        19, 3, 26, 1]
}

#[test]
fn score_is_unmarked_sum_times_draw() {
    let mut b = Board::from_string(&rows(&["1 2", "3 4"])).unwrap();
    b.mark(1);
    b.mark(2);
    // unmarked sum is 3 + 4 = 7
    assert_eq!(score(&b, 2), 14);
}

#[test]
fn first_winner_of_the_classic_puzzle() {
    let draws: Vec<u32> = vec![7, 4, 9, 5, 11, 17, 23, 2, 0, 14, 21, 24];
    let (live, result) = run_game(classic_boards(), &draws);
    assert_eq!(result.first_win_score, Some(4512));
    assert_eq!(result.last_win_score, Some(4512));
    assert_eq!(live.len(), 2);
}

#[test]
fn last_winner_of_the_classic_puzzle() {
    let (live, result) = run_game(classic_boards(), &classic_draws());
    assert_eq!(result.first_win_score, Some(4512));
    assert_eq!(result.last_win_score, Some(1924));
    assert_eq!(live.len(), 0);
}

#[test]
fn solve_returns_both_scores() {
    let r = solve(classic_boards(), &classic_draws());
    assert_eq!(r.unwrap(), (4512, 1924));
}

#[test]
fn solve_without_any_winner_is_an_error() {
    let draws: Vec<u32> = vec![7, 4, 9];
    let r = solve(classic_boards(), &draws);
    assert_eq!(r.unwrap_err(), BingoError::NoWinnerError);
}

#[test]
fn winners_leave_and_the_rest_keep_their_order() {
    // boards at indices 1 and 3 win on the same draw
    let boards = vec![
        Board::from_string(&rows(&["1"])).unwrap(),
        Board::from_string(&rows(&["7"])).unwrap(),
        Board::from_string(&rows(&["2"])).unwrap(),
        Board::from_string(&rows(&["7"])).unwrap(),
    ];
    let (live, scores) = play_round(boards, 7);
    assert_eq!(scores.len(), 2);
    assert_eq!(live.len(), 2);
    assert_eq!(live[0].cells, vec![1]);
    assert_eq!(live[1].cells, vec![2]);
}

#[test]
fn a_board_winning_several_lines_at_once_scores_once() {
    // draw 1 completes the first row and the first column at once;
    // only one score is recorded
    let boards = vec![Board::from_string(&rows(&["1 2", "3 4"])).unwrap()];
    let draws: Vec<u32> = vec![2, 3, 1];
    let (live, result) = run_game(boards, &draws);
    assert_eq!(result.first_win_score, Some(4));
    assert_eq!(result.last_win_score, Some(4));
    assert_eq!(live.len(), 0);
}

#[test]
fn two_winners_in_one_round_record_the_later_one_last() {
    let boards = vec![
        Board::from_string(&rows(&["1 2", "3 4"])).unwrap(),
        Board::from_string(&rows(&["1 2", "5 6"])).unwrap(),
    ];
    let draws: Vec<u32> = vec![1, 2];
    let (_, result) = run_game(boards, &draws);
    assert_eq!(result.first_win_score, Some((3 + 4) * 2));
    assert_eq!(result.last_win_score, Some((5 + 6) * 2));
}

#[test]
fn the_same_input_always_gives_the_same_result() {
    let (_, first_run) = run_game(classic_boards(), &classic_draws());
    let (_, second_run) = run_game(classic_boards(), &classic_draws());
    assert_eq!(first_run.first_win_score, second_run.first_win_score);
    assert_eq!(first_run.last_win_score, second_run.last_win_score);
}
