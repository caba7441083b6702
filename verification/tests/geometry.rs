use alamos::codec::string_to_int_board;
use alamos::geometry::{
    get_king_moves, get_knight_moves, get_moves, get_pawn_moves, get_queen_moves, get_rook_moves,
    offset_moves, vector_moves,
};
use alamos::piece::{Piece, Side};

fn layout(rows: [&str; 6]) -> [Piece; 36] {
    string_to_int_board(&rows.concat())
}

fn side_at(board: &[Piece], square: (isize, isize)) -> Option<Side> {
    board[(square.0 * 6 + square.1) as usize].side()
}

#[test]
fn knight_in_the_middle_jumps_to_eight_squares_in_order() {
    let board = layout(["......", "......", "..N...", "......", "......", "......"]);
    assert_eq!(
        get_knight_moves((2, 2), &board),
        vec![(4, 3), (3, 4), (0, 3), (1, 4), (4, 1), (3, 0), (0, 1), (1, 0)]
    );
}

#[test]
fn knight_in_the_corner_stays_on_the_board() {
    let board = layout(["N.....", "......", "......", "......", "......", "......"]);
    assert_eq!(get_knight_moves((0, 0), &board), vec![(2, 1), (1, 2)]);
    let board = layout(["......", "......", "......", "......", "......", ".....n"]);
    assert_eq!(get_knight_moves((5, 5), &board), vec![(3, 4), (4, 3)]);
}

#[test]
fn knight_takes_an_opponent_but_not_a_friend() {
    let board = layout(["N.....", "..p...", ".P....", "......", "......", "......"]);
    assert_eq!(get_knight_moves((0, 0), &board), vec![(1, 2)]);
}

#[test]
fn knight_jumps_over_pieces_in_between() {
    let board = layout(["NP....", "PP....", "......", "......", "......", "......"]);
    assert_eq!(get_knight_moves((0, 0), &board), vec![(2, 1), (1, 2)]);
}

#[test]
fn king_steps_to_its_neighbours_in_order() {
    let board = layout(["......", "......", "......", "...k..", "......", "......"]);
    assert_eq!(
        get_king_moves((3, 3), &board),
        vec![(4, 3), (3, 4), (2, 3), (3, 2), (4, 4), (4, 2), (2, 4), (2, 2)]
    );
}

#[test]
fn king_in_the_corner_has_three_steps() {
    let board = layout(["K.....", "......", "......", "......", "......", "......"]);
    assert_eq!(get_king_moves((0, 0), &board), vec![(1, 0), (0, 1), (1, 1)]);
}

#[test]
fn king_may_step_next_to_the_other_king() {
    let board = layout(["K.k...", "......", "......", "......", "......", "......"]);
    assert_eq!(get_king_moves((0, 0), &board), vec![(1, 0), (0, 1), (1, 1)]);
}

#[test]
fn king_is_blocked_by_friends_and_takes_opponents() {
    let board = layout(["KP....", "pN....", "......", "......", "......", "......"]);
    assert_eq!(get_king_moves((0, 0), &board), vec![(1, 0)]);
}

#[test]
fn offsets_beyond_the_machine_range_give_no_square() {
    let board = layout(["......", "......", "..N...", "......", "......", "......"]);
    let offsets = [(isize::MAX, 0), (0, isize::MIN), (1, 1), (isize::MIN, isize::MAX)];
    assert_eq!(offset_moves((2, 2), &board, &offsets), vec![(3, 3)]);
}

#[test]
fn offsets_are_tried_in_the_order_given() {
    let board = layout(["......", "......", "..N...", "......", "......", "......"]);
    let offsets = [(0, 3), (-2, 0), (4, 0), (3, 3)];
    assert_eq!(offset_moves((2, 2), &board, &offsets), vec![(2, 5), (0, 2), (5, 5)]);
    assert_eq!(offset_moves((2, 2), &board, &[]), vec![]);
}

#[test]
fn stepping_from_an_empty_square_reaches_empty_squares_only() {
    let board = layout(["......", "......", "...p..", "...P..", "......", "......"]);
    assert_eq!(offset_moves((2, 2), &board, &[(0, 1), (1, 1), (1, 0)]), vec![(3, 2)]);
}

#[test]
fn rook_on_an_open_board_runs_to_the_edges() {
    let board = layout(["......", "......", "..R...", "......", "......", "......"]);
    assert_eq!(
        get_rook_moves((2, 2), &board),
        vec![(2, 3), (2, 4), (2, 5), (3, 2), (4, 2), (5, 2), (2, 1), (2, 0), (1, 2), (0, 2)]
    );
}

#[test]
fn rook_stops_before_a_friend_and_on_an_opponent() {
    let board = layout(["..p...", "......", ".PR.N.", "......", "..q...", "..k..."]);
    assert_eq!(
        get_rook_moves((2, 2), &board),
        vec![(2, 3), (3, 2), (4, 2), (1, 2), (0, 2)]
    );
}

#[test]
fn black_rook_takes_white_and_is_blocked_by_black() {
    let board = layout(["r.P..K", "p.....", "......", "......", "......", "......"]);
    assert_eq!(get_rook_moves((0, 0), &board), vec![(0, 1), (0, 2)]);
}

#[test]
fn queen_moves_like_a_rook_and_then_along_the_diagonals() {
    let board = layout(["......", ".Q....", "......", "......", "......", "......"]);
    assert_eq!(
        get_queen_moves((1, 1), &board),
        vec![
            (1, 2),
            (1, 3),
            (1, 4),
            (1, 5),
            (2, 1),
            (3, 1),
            (4, 1),
            (5, 1),
            (1, 0),
            (0, 1),
            (2, 2),
            (3, 3),
            (4, 4),
            (5, 5),
            (2, 0),
            (0, 2),
            (0, 0),
        ]
    );
}

#[test]
fn queen_rays_end_at_the_first_piece() {
    let board = layout(["p.P...", ".q.R..", "n.....", "...K..", "......", "......"]);
    assert_eq!(
        get_queen_moves((1, 1), &board),
        vec![(1, 2), (1, 3), (2, 1), (3, 1), (4, 1), (5, 1), (1, 0), (0, 1), (2, 2), (3, 3), (0, 2)]
    );
}

#[test]
fn rays_follow_any_direction_and_the_zero_direction_gives_nothing() {
    let board = layout(["R.....", "......", "......", "......", "......", "......"]);
    assert_eq!(vector_moves((0, 0), &board, &[(0, 0)]), vec![]);
    assert_eq!(vector_moves((0, 0), &board, &[(2, 1)]), vec![(2, 1), (4, 2)]);
    assert_eq!(vector_moves((0, 0), &board, &[(isize::MAX, 1), (0, 4)]), vec![(0, 4)]);
    assert_eq!(vector_moves((0, 0), &board, &[]), vec![]);
}

#[test]
fn sliding_from_an_empty_square_never_captures() {
    let board = layout(["...p..", "......", "......", "P.....", "......", "......"]);
    assert_eq!(
        vector_moves((0, 0), &board, &[(0, 1), (1, 0)]),
        vec![(0, 1), (0, 2), (1, 0), (2, 0)]
    );
}

#[test]
fn white_pawn_advances_towards_row_five() {
    let board = layout(["......", "..P...", "......", "......", "......", "......"]);
    assert_eq!(get_pawn_moves((1, 2), &board), vec![(2, 2)]);
}

#[test]
fn black_pawn_advances_towards_row_zero() {
    let board = layout(["......", "......", "......", "......", "..p...", "......"]);
    assert_eq!(get_pawn_moves((4, 2), &board), vec![(3, 2)]);
}

#[test]
fn pawn_has_no_double_step_from_its_first_row() {
    let board = layout(["P.....", "......", "......", "......", "......", ".....p"]);
    assert_eq!(get_pawn_moves((0, 0), &board), vec![(1, 0)]);
    assert_eq!(get_pawn_moves((5, 5), &board), vec![(4, 5)]);
}

#[test]
fn pawn_captures_diagonally_left_then_right() {
    let board = layout(["......", "..P...", ".n.q..", "......", "......", "......"]);
    assert_eq!(get_pawn_moves((1, 2), &board), vec![(2, 2), (2, 1), (2, 3)]);
    let board = layout(["......", "......", ".N.Q..", "..p...", "......", "......"]);
    assert_eq!(get_pawn_moves((3, 2), &board), vec![(2, 2), (2, 1), (2, 3)]);
}

#[test]
fn pawn_is_blocked_straight_ahead_by_any_piece() {
    let board = layout(["......", "..P...", "..p...", "......", "......", "......"]);
    assert_eq!(get_pawn_moves((1, 2), &board), vec![]);
    assert_eq!(get_pawn_moves((2, 2), &board), vec![]);
    let board = layout(["......", "..P...", ".NRN..", "......", "......", "......"]);
    assert_eq!(get_pawn_moves((1, 2), &board), vec![]);
}

#[test]
fn pawn_on_the_edge_column_captures_on_one_side_only() {
    let board = layout(["......", "P.....", "pp....", "......", "......", "......"]);
    assert_eq!(get_pawn_moves((1, 0), &board), vec![(2, 1)]);
    let board = layout(["......", ".....P", "....rk", "......", "......", "......"]);
    assert_eq!(get_pawn_moves((1, 5), &board), vec![(2, 4)]);
}

#[test]
fn pawn_on_its_far_row_has_no_move() {
    let board = layout(["p.....", "......", "......", "......", "......", "..P..."]);
    assert_eq!(get_pawn_moves((5, 2), &board), vec![]);
    assert_eq!(get_pawn_moves((0, 0), &board), vec![]);
}

#[test]
fn moves_are_dispatched_by_the_kind_of_piece() {
    let board = layout(["K.....", ".P....", "..N...", "...R..", "....Q.", ".....k"]);
    assert_eq!(get_moves(0, Piece::WK, &board), get_king_moves((0, 0), &board));
    assert_eq!(get_moves(7, Piece::WP, &board), get_pawn_moves((1, 1), &board));
    assert_eq!(get_moves(14, Piece::WN, &board), get_knight_moves((2, 2), &board));
    assert_eq!(get_moves(21, Piece::WR, &board), get_rook_moves((3, 3), &board));
    assert_eq!(get_moves(28, Piece::WQ, &board), get_queen_moves((4, 4), &board));
    assert_eq!(get_moves(35, Piece::BK, &board), get_king_moves((5, 5), &board));
    assert_eq!(get_moves(35, Piece::BK, &board), vec![(4, 5), (5, 4), (4, 4)]);
    assert_eq!(get_moves(3, Piece::Empty, &board), vec![]);
    assert_eq!(get_moves(14, Piece::BN, &board), get_knight_moves((2, 2), &board));
}

#[test]
fn every_destination_is_on_the_board_and_not_on_a_friend() {
    let boards = [
        layout(["KNRQ.P", "PPPPPP", "......", "......", "pppppp", "p.qrnk"]),
        layout(["R..q.K", ".P.n..", "..Q...", "p..N.r", "..P..p", "k....R"]),
        layout(["Q....q", ".N..n.", "..Kk..", "..Pp..", ".R..r.", "P....p"]),
    ];
    for board in boards.iter() {
        for idx in 0..36 {
            let piece = board[idx];
            let from = ((idx / 6) as isize, (idx % 6) as isize);
            for to in get_moves(idx as isize, piece, board) {
                assert!(0 <= to.0 && to.0 < 6 && 0 <= to.1 && to.1 < 6);
                assert!(piece == Piece::Empty || side_at(board, to) != side_at(board, from));
            }
        }
    }
}
