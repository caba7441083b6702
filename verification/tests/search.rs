use alamos::board::{evaluate_board, make_move};
use alamos::codec::{int_to_string_board, string_to_int_board};
use alamos::geometry::get_moves;
use alamos::piece::Piece;
use alamos::search::{belongs_to, holds, negamax, HIGH_VALUE, SEARCH_DEPTH};

fn position(rows: [&str; 6]) -> [Piece; 36] {
    string_to_int_board(&rows.concat())
}

fn best_answered(board: &[Piece], depth: i32, color: i32) -> Option<i32> {
    let mut best: Option<i32> = None;
    for idx in 0..36 {
        if belongs_to(board[idx], color) {
            for to in get_moves(idx as isize, board[idx], board) {
                let child = make_move(board, ((idx / 6) as isize, (idx % 6) as isize), to);
                let value = -negamax(&child, depth - 1, -HIGH_VALUE, HIGH_VALUE, -color).1;
                if best.map_or(true, |b| value > b) {
                    best = Some(value);
                }
            }
        }
    }
    best
}

#[test]
fn constants_are_the_sentinel_and_the_depth() {
    assert_eq!(HIGH_VALUE, 100000);
    assert_eq!(SEARCH_DEPTH, 6);
}

#[test]
fn holds_finds_a_piece_anywhere_on_the_board() {
    let board = position(["K.....", "......", "......", "......", "......", ".....q"]);
    assert!(holds(&board, Piece::WK));
    assert!(holds(&board, Piece::BQ));
    assert!(holds(&board, Piece::Empty));
    assert!(!holds(&board, Piece::BK));
    assert!(!holds(&[], Piece::Empty));
}

#[test]
fn colour_one_owns_white_and_minus_one_owns_black() {
    assert!(belongs_to(Piece::WP, 1));
    assert!(belongs_to(Piece::WK, 1));
    assert!(!belongs_to(Piece::BK, 1));
    assert!(belongs_to(Piece::BN, -1));
    assert!(!belongs_to(Piece::WN, -1));
    assert!(!belongs_to(Piece::Empty, 1));
    assert!(!belongs_to(Piece::Empty, -1));
    assert!(!belongs_to(Piece::WQ, 0));
    assert!(!belongs_to(Piece::BQ, 2));
}

#[test]
fn depth_zero_returns_the_board_and_its_material_for_the_mover() {
    let board = position(["K..Q..", "......", "......", "......", "......", "k....."]);
    assert_eq!(negamax(&board, 0, -HIGH_VALUE, HIGH_VALUE, 1), (board.to_vec(), 900));
    assert_eq!(negamax(&board, 0, -HIGH_VALUE, HIGH_VALUE, -1), (board.to_vec(), -900));
    assert_eq!(negamax(&board, 0, 5, -5, 1), (board.to_vec(), 900));
}

#[test]
fn missing_king_ends_the_search_at_any_depth() {
    let no_black_king = position(["K..Q..", "......", "......", "......", "......", "p....."]);
    for depth in [0, 1, 3, SEARCH_DEPTH] {
        assert_eq!(
            negamax(&no_black_king, depth, -HIGH_VALUE, HIGH_VALUE, 1),
            (no_black_king.to_vec(), 10800)
        );
        assert_eq!(
            negamax(&no_black_king, depth, -HIGH_VALUE, HIGH_VALUE, -1),
            (no_black_king.to_vec(), -10800)
        );
    }
    let no_white_king = position(["R.....", "......", "......", "......", "......", "k....."]);
    assert_eq!(
        negamax(&no_white_king, SEARCH_DEPTH, -HIGH_VALUE, HIGH_VALUE, 1),
        (no_white_king.to_vec(), -9500)
    );
    let no_kings = [Piece::Empty; 36];
    assert_eq!(negamax(&no_kings, SEARCH_DEPTH, -1, 1, -1), (no_kings.to_vec(), 0));
}

#[test]
fn first_of_equal_moves_is_kept() {
    let board = position(["K.....", "......", "......", "......", "......", ".....k"]);
    let (after, score) = negamax(&board, 1, -HIGH_VALUE, HIGH_VALUE, 1);
    assert_eq!(score, 0);
    assert_eq!(
        after,
        position(["......", "K.....", "......", "......", "......", ".....k"]).to_vec()
    );
    let (after, score) = negamax(&board, 1, -HIGH_VALUE, HIGH_VALUE, -1);
    assert_eq!(score, 0);
    assert_eq!(
        after,
        position(["K.....", "......", "......", "......", ".....k", "......"]).to_vec()
    );
}

#[test]
fn squares_are_scanned_by_ascending_index() {
    let board = position(["..N...", "......", "......", ".K....", "......", ".....k"]);
    let (after, score) = negamax(&board, 1, -HIGH_VALUE, HIGH_VALUE, 1);
    assert_eq!(score, 300);
    assert_eq!(
        after,
        position(["......", "......", "...N..", ".K....", "......", ".....k"]).to_vec()
    );
}

#[test]
fn best_capture_is_chosen_at_depth_one() {
    let board = position(["Kq....", "p.....", "......", "......", "......", ".....k"]);
    let (after, score) = negamax(&board, 1, -HIGH_VALUE, HIGH_VALUE, 1);
    assert_eq!(score, -100);
    assert_eq!(
        after,
        position([".K....", "p.....", "......", "......", "......", ".....k"]).to_vec()
    );
}

#[test]
fn scan_stops_after_the_move_that_reaches_beta() {
    let board = position(["Kq....", "p.....", "......", "......", "......", ".....k"]);
    let (after, score) = negamax(&board, 1, -2000, -950, 1);
    assert_eq!(score, -900);
    assert_eq!(
        after,
        position([".q....", "K.....", "......", "......", "......", ".....k"]).to_vec()
    );
}

#[test]
fn first_move_is_tried_even_in_an_empty_window() {
    let board = position(["K.....", "......", "......", "......", "......", ".....k"]);
    let (after, score) = negamax(&board, 1, 50, -50, 1);
    assert_eq!(score, 0);
    assert_eq!(
        after,
        position(["......", "K.....", "......", "......", "......", ".....k"]).to_vec()
    );
}

#[test]
fn side_without_a_move_keeps_the_board_with_the_sentinel_score() {
    let board = position(["...k..", "......", "......", "......", "PP....", "KP...."]);
    for depth in [1, 2, 3] {
        assert_eq!(
            negamax(&board, depth, -HIGH_VALUE, HIGH_VALUE, 1),
            (board.to_vec(), -HIGH_VALUE)
        );
    }
}

#[test]
fn opponent_without_an_answer_scores_the_sentinel_for_the_mover() {
    let board = position(["...k..", "......", "......", "......", "PP....", "KP...."]);
    let (after, score) = negamax(&board, 2, -HIGH_VALUE, HIGH_VALUE, -1);
    assert_eq!(score, HIGH_VALUE);
    assert_eq!(
        after,
        position(["......", "...k..", "......", "......", "PP....", "KP...."]).to_vec()
    );
}

#[test]
fn king_is_captured_when_it_can_be() {
    let board = position(["K.....", "......", "......", "......", "......", "R....k"]);
    let (after, score) = negamax(&board, 3, -HIGH_VALUE, HIGH_VALUE, 1);
    assert_eq!(score, 10500);
    assert_eq!(
        after,
        position(["K.....", "......", "......", "......", "......", ".....R"]).to_vec()
    );
}

#[test]
fn king_may_be_left_where_it_is_captured() {
    let board = position(["K.....", "......", "......", "......", "......", "kP...R"]);
    let (after, score) = negamax(&board, 1, -HIGH_VALUE, HIGH_VALUE, -1);
    assert_eq!(
        after,
        position(["K.....", "......", "......", "......", "......", ".k...R"]).to_vec()
    );
    assert_eq!(score, -500);
    let (last, score) = negamax(&after, 1, -HIGH_VALUE, HIGH_VALUE, 1);
    assert_eq!(
        last,
        position(["K.....", "......", "......", "......", "......", ".R...."]).to_vec()
    );
    assert_eq!(score, 10500);
}

#[test]
fn two_plies_see_the_recapture() {
    let board = position(["K....k", "......", "......", "..r...", ".p....", "..Q..."]);
    let (after, greedy) = negamax(&board, 1, -HIGH_VALUE, HIGH_VALUE, 1);
    assert_eq!(greedy, 900 - 100);
    assert_eq!(
        after,
        position(["K....k", "......", "......", "..Q...", ".p....", "......"]).to_vec()
    );
    let (after, score) = negamax(&board, 2, -HIGH_VALUE, HIGH_VALUE, 1);
    assert_eq!(score, 900 - 500);
    assert_eq!(
        after,
        position(["K....k", "......", "......", "..r...", ".Q....", "......"]).to_vec()
    );
}

#[test]
fn full_window_score_is_the_maximum_over_all_moves() {
    let boards = [
        position(["K.....", "......", "......", "......", "......", ".....k"]),
        position(["Kq....", "p.....", "......", "......", "......", ".....k"]),
        position(["K..R..", ".P....", "......", "..n...", "....p.", "q....k"]),
        position(["RNQKNR", "PPPPPP", "......", "......", "pppppp", "rnqknr"]),
        position(["...k..", "......", "......", "......", "PP....", "KP...."]),
    ];
    for board in boards.iter() {
        for depth in [1, 2, 3] {
            for color in [1, -1] {
                let score = negamax(board, depth, -HIGH_VALUE, HIGH_VALUE, color).1;
                assert_eq!(score, best_answered(board, depth, color).unwrap_or(-HIGH_VALUE));
            }
        }
    }
}

#[test]
fn same_inputs_give_the_same_board_and_score() {
    let board = position(["K..R..", ".P....", "......", "..n...", "....p.", "q....k"]);
    let first = negamax(&board, 4, -HIGH_VALUE, HIGH_VALUE, 1);
    let second = negamax(&board, 4, -HIGH_VALUE, HIGH_VALUE, 1);
    assert_eq!(first, second);
    let copy = string_to_int_board(&int_to_string_board(&board));
    assert_eq!(negamax(&copy, 4, -HIGH_VALUE, HIGH_VALUE, 1), first);
}

#[test]
fn search_returns_a_board_one_move_away() {
    let board = position(["K..R..", ".P....", "......", "..n...", "....p.", "q....k"]);
    let (after, _) = negamax(&board, 3, -HIGH_VALUE, HIGH_VALUE, -1);
    let mut reachable = false;
    for idx in 0..36 {
        if belongs_to(board[idx], -1) {
            for to in get_moves(idx as isize, board[idx], &board) {
                let from = ((idx / 6) as isize, (idx % 6) as isize);
                reachable = reachable || make_move(&board, from, to) == after;
            }
        }
    }
    assert!(reachable);
    assert_eq!(after.len(), 36);
    assert!(evaluate_board(&after) <= evaluate_board(&board));
}

#[test]
fn search_leaves_the_board_it_was_given_untouched() {
    let board = position(["K..R..", ".P....", "......", "..n...", "....p.", "q....k"]);
    let before = board;
    let _ = negamax(&board, 3, -HIGH_VALUE, HIGH_VALUE, 1);
    assert_eq!(board, before);
}

#[test]
fn pawn_is_promoted_when_that_is_the_best_move() {
    let board = position(["K.....", "......", "......", "......", "...P..", ".....k"]);
    for depth in [1, 2] {
        let (after, score) = negamax(&board, depth, -HIGH_VALUE, HIGH_VALUE, 1);
        assert_eq!(after[33], Piece::WQ);
        assert_eq!(after[27], Piece::Empty);
        assert!(!holds(&after, Piece::WP));
        assert!(score >= 0);
    }
    assert_eq!(negamax(&board, 1, -HIGH_VALUE, HIGH_VALUE, 1).1, 900);
}

#[test]
fn rook_takes_the_queen_it_attacks() {
    let board = position(["K.....", "......", "R....q", "......", "......", ".....k"]);
    for depth in [1, 2, 3] {
        let (after, _) = negamax(&board, depth, -HIGH_VALUE, HIGH_VALUE, 1);
        assert!(!holds(&after, Piece::BQ));
        assert_eq!(after[17], Piece::WR);
        assert_eq!(after[12], Piece::Empty);
    }
}
