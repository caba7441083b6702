//! The text form of a board, of the side to move and of a reply.

use vstd::prelude::*;
use crate::board::is_board;
use crate::piece::Piece;

verus! {

/// The piece a character stands for. Every character without a piece of its
/// own stands for an empty square.
pub open spec fn piece_of_char(ch: char) -> Piece {
    if ch == 'P' {
        Piece::WP
    } else if ch == 'p' {
        Piece::BP
    } else if ch == 'R' {
        Piece::WR
    } else if ch == 'r' {
        Piece::BR
    } else if ch == 'N' {
        Piece::WN
    } else if ch == 'n' {
        Piece::BN
    } else if ch == 'Q' {
        Piece::WQ
    } else if ch == 'q' {
        Piece::BQ
    } else if ch == 'K' {
        Piece::WK
    } else if ch == 'k' {
        Piece::BK
    } else {
        Piece::Empty
    }
}

/// The character that stands for a piece: upper case for White, lower case
/// for Black, a dot for an empty square.
pub open spec fn char_of_piece(piece: Piece) -> char {
    match piece {
        Piece::WP => 'P',
        Piece::BP => 'p',
        Piece::WR => 'R',
        Piece::BR => 'r',
        Piece::WN => 'N',
        Piece::BN => 'n',
        Piece::WQ => 'Q',
        Piece::BQ => 'q',
        Piece::WK => 'K',
        Piece::BK => 'k',
        Piece::Empty => '.',
    }
}

/// The board that a text describes: square `i` holds the piece of
/// character `i`; squares beyond the end of the text are empty, and
/// characters beyond the 36th are ignored.
pub open spec fn decoded(text: Seq<char>) -> Seq<Piece> {
    Seq::new(
        36,
        |i: int|
            if i < text.len() {
                piece_of_char(text[i])
            } else {
                Piece::Empty
            },
    )
}

/// The text of a board: one character for each square, in order.
pub open spec fn encoded(board: Seq<Piece>) -> Seq<char> {
    board.map_values(|piece: Piece| char_of_piece(piece))
}

/// The piece that `ch` stands for.
pub fn piece_from_char(ch: char) -> (piece: Piece)
    ensures
        piece == piece_of_char(ch),
{
    match ch {
        'P' => Piece::WP,
        'p' => Piece::BP,
        'R' => Piece::WR,
        'r' => Piece::BR,
        'N' => Piece::WN,
        'n' => Piece::BN,
        'Q' => Piece::WQ,
        'q' => Piece::BQ,
        'K' => Piece::WK,
        'k' => Piece::BK,
        _ => Piece::Empty,
    }
}

/// The one-character text that stands for `piece`.
pub fn piece_symbol(piece: Piece) -> (symbol: &'static str)
    ensures
        symbol@ == seq![char_of_piece(piece)],
{
    proof {
        reveal_strlit("P");
        reveal_strlit("p");
        reveal_strlit("R");
        reveal_strlit("r");
        reveal_strlit("N");
        reveal_strlit("n");
        reveal_strlit("Q");
        reveal_strlit("q");
        reveal_strlit("K");
        reveal_strlit("k");
        reveal_strlit(".");
    }
    let symbol = match piece {
        Piece::WP => "P",
        Piece::BP => "p",
        Piece::WR => "R",
        Piece::BR => "r",
        Piece::WN => "N",
        Piece::BN => "n",
        Piece::WQ => "Q",
        Piece::BQ => "q",
        Piece::WK => "K",
        Piece::BK => "k",
        Piece::Empty => ".",
    };
    assert(symbol@ =~= seq![char_of_piece(piece)]);
    symbol
}

/// Reads a board from its text. A text of fewer than 36 characters leaves
/// the remaining squares empty; of a longer one only the first 36
/// characters count. No text is rejected.
pub fn string_to_int_board(s: &str) -> (board: [Piece; 36])
    ensures
        board@ == decoded(s@),
        is_board(board@),
{
    let mut board = [Piece::Empty;36];
    let len = s.unicode_len();
    let mut idx: usize = 0;
    while idx < 36 && idx < len
        invariant
            idx <= 36,
            idx <= len,
            len == s@.len(),
            board@.len() == 36,
            forall|k: int| 0 <= k < idx ==> board@[k] == piece_of_char(s@[k]),
            forall|k: int| idx <= k < 36 ==> board@[k] == Piece::Empty,
        decreases 36 - idx,
    {
        board[idx] = piece_from_char(s.get_char(idx));
        idx = idx + 1;
    }
    proof {
        assert(board@ =~= decoded(s@));
    }
    board
}

/// Writes a board as text: one character for each square, in order.
pub fn int_to_string_board(board: &[Piece]) -> (text: String)
    ensures
        text@ == encoded(board@),
        text@.len() == board@.len(),
{
    let mut text = String::new();
    let mut idx: usize = 0;
    while idx < board.len()
        invariant
            idx <= board.len(),
            text@ == encoded(board@.take(idx as int)),
        decreases board.len() - idx,
    {
        text.append(piece_symbol(board[idx]));
        proof {
            assert(text@ =~= encoded(board@.take(idx + 1)));
        }
        idx = idx + 1;
    }
    proof {
        assert(board@.take(idx as int) =~= board@);
    }
    text
}

/// Reading the text of a board gives the board back.
pub proof fn lemma_decoded_encoded(board: Seq<Piece>)
    requires
        is_board(board),
    ensures
        decoded(encoded(board)) == board,
{
    assert(decoded(encoded(board)) =~= board);
}

} // verus!
