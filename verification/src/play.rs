//! One turn of play: from the text of a position and of the side to move
//! to the text of the position after the chosen move.

use vstd::prelude::*;
use crate::codec::{decoded, encoded, int_to_string_board, string_to_int_board};
use crate::search::{negamax, search, HIGH_VALUE, SEARCH_DEPTH};

verus! {

/// The colour that a side token names: 1, White, for exactly `w`; -1,
/// Black, for any other text.
pub open spec fn color_of(token: Seq<char>) -> int {
    if token == seq!['w'] {
        1
    } else {
        -1
    }
}

/// The token of the side that moves after `color` has moved.
pub open spec fn next_token(color: int) -> char {
    if color == 1 {
        'b'
    } else {
        'w'
    }
}

/// The answer to a position: the text of the board that a search of
/// `SEARCH_DEPTH` plies in the full window chooses for the side to move, a
/// space, and the token of the other side.
pub open spec fn reply_text(board: Seq<char>, side: Seq<char>) -> Seq<char> {
    encoded(
        search(
            decoded(board),
            SEARCH_DEPTH as nat,
            -HIGH_VALUE,
            HIGH_VALUE as int,
            color_of(side),
        ).0,
    ) + seq![' ', next_token(color_of(side))]
}

/// The colour of the side to move: 1 if `token` is exactly `w`, else -1.
pub fn side_color(token: &str) -> (color: i32)
    ensures
        color == color_of(token@),
{
    if token.unicode_len() == 1 && token.get_char(0) == 'w' {
        assert(token@ =~= seq!['w']);
        1
    } else {
        -1
    }
}

/// Answers a position. `board` is read as 36 squares, with missing squares
/// empty and characters beyond the 36th ignored; `side` names White if it is
/// exactly `w` and Black otherwise. The result is the board after the move
/// that the search chooses, as 36 characters, then a space and the token of
/// the side that moves next.
pub fn reply(board: &str, side: &str) -> (line: String)
    ensures
        line@ == reply_text(board@, side@),
        line@.len() == 38,
{
    let initial_board = string_to_int_board(board);
    let color = side_color(side);
    let (final_board, _) = negamax(
        initial_board.as_slice(),
        SEARCH_DEPTH,
        -HIGH_VALUE,
        HIGH_VALUE,
        color,
    );
    let mut line = int_to_string_board(final_board.as_slice());
    let ghost text = line@;
    proof {
        reveal_strlit(" ");
        reveal_strlit("b");
        reveal_strlit("w");
    }
    line.append(" ");
    line.append(
        if color == 1 {
            "b"
        } else {
            "w"
        },
    );
    proof {
        assert(line@ =~= text + seq![' ', next_token(color as int)]);
    }
    line
}

} // verus!
