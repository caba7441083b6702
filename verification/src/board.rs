//! The board: 36 squares in row-major order, its material balance, and the
//! execution of a move.

use vstd::prelude::*;
use crate::piece::Piece;

verus! {

/// A board is a sequence of exactly 36 squares.
pub open spec fn is_board(board: Seq<Piece>) -> bool {
    board.len() == 36
}

/// Both coordinates lie in `0..6`.
pub open spec fn on_board(pos: (int, int)) -> bool {
    0 <= pos.0 < 6 && 0 <= pos.1 < 6
}

/// The index of the square at row `pos.0`, column `pos.1`.
pub open spec fn square_index(pos: (int, int)) -> int {
    pos.0 * 6 + pos.1
}

/// What stands on the square at `pos`.
pub open spec fn piece_at(board: Seq<Piece>, pos: (int, int)) -> Piece {
    board[square_index(pos)]
}

/// An executable position read as a pair of mathematical integers.
pub open spec fn coord(pos: (isize, isize)) -> (int, int) {
    (pos.0 as int, pos.1 as int)
}

/// A list of executable positions read as pairs of mathematical integers.
pub open spec fn coords(list: Seq<(isize, isize)>) -> Seq<(int, int)> {
    list.map_values(|p: (isize, isize)| coord(p))
}

/// The sum of the material weights of all squares, from White's point of view.
pub open spec fn material(board: Seq<Piece>) -> int
    decreases board.len(),
{
    if board.len() == 0 {
        0
    } else {
        material(board.drop_last()) + board.last().weight_of()
    }
}

/// The material balance of any run of squares is bounded by 10000 a square.
pub proof fn lemma_material_bounds(board: Seq<Piece>)
    ensures
        -10000 * board.len() <= material(board) <= 10000 * board.len(),
    decreases board.len(),
{
    if board.len() > 0 {
        lemma_material_bounds(board.drop_last());
    }
}

/// Material balance of the board, positive where White is ahead.
pub fn evaluate_board(board: &[Piece]) -> (score: i32)
    requires
        is_board(board@),
    ensures
        score == material(board@),
{
    let mut score: i32 = 0;
    let mut i: usize = 0;
    while i < board.len()
        invariant
            i <= board.len(),
            board@.len() == 36,
            score == material(board@.take(i as int)),
            -10000 * i <= score <= 10000 * i,
        decreases board.len() - i,
    {
        proof {
            assert(board@.take(i + 1).drop_last() =~= board@.take(i as int));
        }
        score = score + board[i].weight();
        i = i + 1;
    }
    proof {
        assert(board@.take(i as int) =~= board@);
    }
    score
}

/// The piece that arrives when `piece` lands on row `row`: a pawn that
/// reaches the far row of its side becomes a queen of its side.
pub open spec fn arriving(piece: Piece, row: int) -> Piece {
    if piece == Piece::WP && row == 5 {
        Piece::WQ
    } else if piece == Piece::BP && row == 0 {
        Piece::BQ
    } else {
        piece
    }
}

/// The board after the piece on `from` has moved to `to`.
pub open spec fn moved(board: Seq<Piece>, from: (int, int), to: (int, int)) -> Seq<Piece> {
    board.update(square_index(from), Piece::Empty).update(
        square_index(to),
        arriving(piece_at(board, from), to.0),
    )
}

/// Moves the piece on `position` to `move_to` on a fresh copy of the board.
/// Whatever stood on the destination is overwritten, and a pawn that
/// arrives on the far row of its side is promoted to a queen.
pub fn make_move(board: &[Piece], position: (isize, isize), move_to: (isize, isize)) -> (new_board:
    Vec<Piece>)
    requires
        is_board(board@),
        on_board(coord(position)),
        on_board(coord(move_to)),
    ensures
        new_board@ == moved(board@, coord(position), coord(move_to)),
        is_board(new_board@),
        piece_at(board@, coord(position)) == Piece::WP && move_to.0 == 5 ==> piece_at(
            new_board@,
            coord(move_to),
        ) == Piece::WQ,
        piece_at(board@, coord(position)) == Piece::BP && move_to.0 == 0 ==> piece_at(
            new_board@,
            coord(move_to),
        ) == Piece::BQ,
{
    let mut new_board = vstd::slice::slice_to_vec(board);
    let pos_idx = (position.0 * 6 + position.1) as usize;
    let move_idx = (move_to.0 * 6 + move_to.1) as usize;
    let piece = new_board[pos_idx];

    new_board.set(pos_idx, Piece::Empty);
    new_board.set(move_idx, piece);

    if piece == Piece::WP && move_to.0 == 5 {
        new_board.set(move_idx, Piece::WQ);
    } else if piece == Piece::BP && move_to.0 == 0 {
        new_board.set(move_idx, Piece::BQ);
    }
    proof {
        assert(new_board@ =~= moved(board@, coord(position), coord(move_to)));
    }
    new_board
}

/// The board with the side of every piece swapped, kinds and squares kept.
pub open spec fn mirror_colors(board: Seq<Piece>) -> Seq<Piece> {
    board.map_values(|piece: Piece| piece.mirrored())
}

/// Swapping the sides of all pieces negates the material balance.
pub proof fn lemma_material_mirrored(board: Seq<Piece>)
    ensures
        material(board) == -material(mirror_colors(board)),
    decreases board.len(),
{
    if board.len() > 0 {
        lemma_material_mirrored(board.drop_last());
        assert(mirror_colors(board).drop_last() =~= mirror_colors(board.drop_last()));
    }
}

/// How many squares of the board hold `piece`.
pub open spec fn count_of(board: Seq<Piece>, piece: Piece) -> nat
    decreases board.len(),
{
    if board.len() == 0 {
        0
    } else if board.last() == piece {
        count_of(board.drop_last(), piece) + 1
    } else {
        count_of(board.drop_last(), piece)
    }
}

/// A board on which each side has at most one king.
pub open spec fn kings_at_most_one(board: Seq<Piece>) -> bool {
    is_board(board) && count_of(board, Piece::WK) <= 1 && count_of(board, Piece::BK) <= 1
}

/// A piece is on the board exactly if its count is not zero.
pub proof fn lemma_count_of_contains(board: Seq<Piece>, piece: Piece)
    ensures
        board.contains(piece) <==> count_of(board, piece) > 0,
    decreases board.len(),
{
    if board.len() > 0 {
        let front = board.drop_last();
        lemma_count_of_contains(front, piece);
        if board.contains(piece) && board.last() != piece {
            let i = choose|i: int| 0 <= i < board.len() && board[i] == piece;
            assert(front[i] == piece);
        }
        if front.contains(piece) {
            let i = choose|i: int| 0 <= i < front.len() && front[i] == piece;
            assert(board[i] == piece);
        }
        if board.last() == piece {
            assert(board[board.len() - 1] == piece);
        }
    }
}

/// Replacing the content of one square takes one from the count of what
/// stood there and adds one to the count of what stands there now.
pub proof fn lemma_count_of_update(board: Seq<Piece>, i: int, now: Piece, piece: Piece)
    requires
        0 <= i < board.len(),
    ensures
        count_of(board.update(i, now), piece) == count_of(board, piece) + (if now == piece {
            1int
        } else {
            0int
        }) - (if board[i] == piece {
            1int
        } else {
            0int
        }),
    decreases board.len(),
{
    if i == board.len() - 1 {
        assert(board.update(i, now).drop_last() =~= board.drop_last());
    } else {
        lemma_count_of_update(board.drop_last(), i, now, piece);
        assert(board.update(i, now).drop_last() =~= board.drop_last().update(i, now));
    }
}

/// Apart from the kings no piece weighs more than a queen: the material
/// balance is bounded by 900 a square and 9100 more for each king.
pub proof fn lemma_material_by_kings(board: Seq<Piece>)
    ensures
        material(board) <= 900 * board.len() + 9100 * count_of(board, Piece::WK),
        material(board) >= -900 * board.len() - 9100 * count_of(board, Piece::BK),
    decreases board.len(),
{
    if board.len() > 0 {
        lemma_material_by_kings(board.drop_last());
    }
}

/// A move creates no king: no side has more kings after it than before.
pub proof fn lemma_moved_keeps_kings(board: Seq<Piece>, from: (int, int), to: (int, int))
    requires
        is_board(board),
        on_board(from),
        on_board(to),
    ensures
        is_board(moved(board, from, to)),
        count_of(moved(board, from, to), Piece::WK) <= count_of(board, Piece::WK),
        count_of(moved(board, from, to), Piece::BK) <= count_of(board, Piece::BK),
{
    let lifted = board.update(square_index(from), Piece::Empty);
    let placed = arriving(piece_at(board, from), to.0);
    lemma_count_of_update(board, square_index(from), Piece::Empty, Piece::WK);
    lemma_count_of_update(board, square_index(from), Piece::Empty, Piece::BK);
    lemma_count_of_update(lifted, square_index(to), placed, Piece::WK);
    lemma_count_of_update(lifted, square_index(to), placed, Piece::BK);
}

} // verus!
