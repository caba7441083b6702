//! Fixed-depth negamax search with alpha-beta pruning.

use vstd::prelude::*;
use crate::board::{
    coord, evaluate_board, is_board, lemma_material_bounds, make_move, material, moved, on_board,
    piece_at,
};
use crate::geometry::{get_moves, lemma_piece_targets_admissible, piece_targets, position_of};
use crate::piece::{Piece, Side};

verus! {

/// Larger than any score a board with at most one king a side can reach:
/// the score of a node at which nothing has been found yet is its negation.
pub const HIGH_VALUE: i32 = 100000;

/// The depth, in plies, of the search behind a reply.
pub const SEARCH_DEPTH: i32 = 6;

/// A move: the square a piece leaves and the square it goes to.
pub struct Step {
    pub from: (int, int),
    pub to: (int, int),
}

/// What a node knows after it has looked at some of its moves: the raised
/// lower bound, the best score found and the board that gave it.
pub struct Best {
    pub alpha: int,
    pub value: int,
    pub board: Seq<Piece>,
}

/// The side with colour `color` (1 for White, -1 for Black) owns `piece`.
pub open spec fn owns(color: int, piece: Piece) -> bool {
    (color == 1 && piece.side_of() == Some(Side::White)) || (color == -1 && piece.side_of()
        == Some(Side::Black))
}

/// The moves of the piece on the square with index `idx`, if the side to
/// move owns it, in the order of its destinations.
pub open spec fn square_steps(board: Seq<Piece>, color: int, idx: int) -> Seq<Step> {
    if owns(color, board[idx]) {
        piece_targets(board[idx], board, position_of(idx)).map_values(
            |to: (int, int)| (Step { from: position_of(idx), to }),
        )
    } else {
        Seq::empty()
    }
}

/// The moves of the side to move from the squares with an index below
/// `upto`, by ascending index of the square left.
pub open spec fn steps_before(board: Seq<Piece>, color: int, upto: int) -> Seq<Step> {
    Seq::new(upto as nat, |idx: int| square_steps(board, color, idx)).flatten()
}

/// All moves of the side to move, in the order in which the search tries
/// them: by ascending index of the square left, then in the order of the
/// piece's destinations.
pub open spec fn legal_steps(board: Seq<Piece>, color: int) -> Seq<Step> {
    steps_before(board, color, 36)
}

/// A node at which the search stops whatever the depth: a king is missing.
pub open spec fn king_missing(board: Seq<Piece>) -> bool {
    !board.contains(Piece::WK) || !board.contains(Piece::BK)
}

/// What a node knows before it has looked at any move: nothing found, the
/// node's own board as the fallback.
pub open spec fn nothing_found(board: Seq<Piece>, alpha: int) -> Best {
    Best { alpha, value: -HIGH_VALUE, board }
}

/// Takes the answer to one move into account. `reply` is the score of the
/// board `child` from the opponent's point of view. Only a strictly better
/// score replaces the best move so far, and the lower bound never falls.
pub open spec fn consider(so_far: Best, child: Seq<Piece>, reply: int) -> Best {
    let value = -reply;
    let best_value = if value > so_far.value {
        value
    } else {
        so_far.value
    };
    Best {
        alpha: if best_value > so_far.alpha {
            best_value
        } else {
            so_far.alpha
        },
        value: best_value,
        board: if value > so_far.value {
            child
        } else {
            so_far.board
        },
    }
}

/// The result of the search at one node: the board after the chosen move
/// and its score for the side to move.
///
/// At depth 0, or where a king is missing, this is the board itself with
/// its material balance seen from the side to move. Elsewhere the moves
/// are scanned in order; see [`scan`].
pub open spec fn search(board: Seq<Piece>, depth: nat, alpha: int, beta: int, color: int) -> (
    Seq<Piece>,
    int,
)
    decreases depth, 1int, 0nat,
{
    if depth == 0 || king_missing(board) {
        (board, color * material(board))
    } else {
        let best = scan(board, depth, alpha, beta, color, legal_steps(board, color));
        (best.board, best.value)
    }
}

/// What a node at depth `depth` knows after the moves `steps`, tried in
/// order. Each move is answered by a search one ply less deep, for the other
/// side, in the window `(-beta, -alpha)` with `alpha` as raised so far. The
/// scan stops after the first move that raises the lower bound to `beta` or
/// above; later moves change nothing.
pub open spec fn scan(
    board: Seq<Piece>,
    depth: nat,
    alpha: int,
    beta: int,
    color: int,
    steps: Seq<Step>,
) -> Best
    decreases depth, 0int, steps.len(),
{
    if depth == 0 || steps.len() == 0 {
        nothing_found(board, alpha)
    } else {
        let so_far = scan(board, depth, alpha, beta, color, steps.drop_last());
        if steps.len() > 1 && so_far.alpha >= beta {
            so_far
        } else {
            let child = moved(board, steps.last().from, steps.last().to);
            let reply = search(child, (depth - 1) as nat, -beta, -so_far.alpha, -color).1;
            consider(so_far, child, reply)
        }
    }
}

/// The scan has stopped: a move has been tried and the lower bound has
/// reached `beta`.
pub open spec fn cut_off(so_far: Best, tried: nat, beta: int) -> bool {
    tried > 0 && so_far.alpha >= beta
}

/// One square more adds the moves of its piece at the end.
pub proof fn lemma_steps_before_next(board: Seq<Piece>, color: int, idx: int)
    requires
        0 <= idx,
    ensures
        steps_before(board, color, idx + 1) == steps_before(board, color, idx) + square_steps(
            board,
            color,
            idx,
        ),
{
    let per_square = |idx: int| square_steps(board, color, idx);
    assert(Seq::new((idx + 1) as nat, per_square) =~= Seq::new(idx as nat, per_square).push(
        per_square(idx),
    ));
    Seq::new(idx as nat, per_square).lemma_flatten_push(per_square(idx));
}

/// One move more at the end of the list: unless the scan had stopped, the
/// move is answered and taken into account.
pub proof fn lemma_scan_push(
    board: Seq<Piece>,
    depth: nat,
    alpha: int,
    beta: int,
    color: int,
    steps: Seq<Step>,
    step: Step,
)
    requires
        depth > 0,
    ensures
        scan(board, depth, alpha, beta, color, steps.push(step)) == ({
            let so_far = scan(board, depth, alpha, beta, color, steps);
            if cut_off(so_far, steps.len(), beta) {
                so_far
            } else {
                let child = moved(board, step.from, step.to);
                consider(
                    so_far,
                    child,
                    search(child, (depth - 1) as nat, -beta, -so_far.alpha, -color).1,
                )
            }
        }),
{
    assert(steps.push(step).drop_last() =~= steps);
}

/// Once the scan has stopped, further moves change nothing.
pub proof fn lemma_scan_cut_off(
    board: Seq<Piece>,
    depth: nat,
    alpha: int,
    beta: int,
    color: int,
    tried: Seq<Step>,
    rest: Seq<Step>,
)
    requires
        depth > 0,
        cut_off(scan(board, depth, alpha, beta, color, tried), tried.len(), beta),
    ensures
        scan(board, depth, alpha, beta, color, tried + rest) == scan(
            board,
            depth,
            alpha,
            beta,
            color,
            tried,
        ),
    decreases rest.len(),
{
    if rest.len() == 0 {
        assert(tried + rest =~= tried);
    } else {
        lemma_scan_cut_off(board, depth, alpha, beta, color, tried, rest.drop_last());
        assert(tried + rest =~= (tried + rest.drop_last()).push(rest.last()));
        lemma_scan_push(board, depth, alpha, beta, color, tried + rest.drop_last(), rest.last());
    }
}

/// The moves from the squares below `lower` are the first of the moves from
/// the squares below `upper`.
pub proof fn lemma_steps_before_prefix(board: Seq<Piece>, color: int, lower: int, upper: int)
    requires
        0 <= lower <= upper,
    ensures
        steps_before(board, color, lower).is_prefix_of(steps_before(board, color, upper)),
    decreases upper - lower,
{
    if lower < upper {
        lemma_steps_before_prefix(board, color, lower, upper - 1);
        lemma_steps_before_next(board, color, upper - 1);
    }
}

/// Whether some square of the board holds `piece`.
pub fn holds(board: &[Piece], piece: Piece) -> (found: bool)
    ensures
        found == board@.contains(piece),
{
    let mut i: usize = 0;
    while i < board.len()
        invariant
            i <= board.len(),
            forall|k: int| 0 <= k < i ==> board@[k] != piece,
        decreases board.len() - i,
    {
        if board[i] == piece {
            return true;
        }
        i = i + 1;
    }
    false
}

/// Whether the side with colour `color` (1 for White, -1 for Black) owns
/// `piece`.
pub fn belongs_to(piece: Piece, color: i32) -> (own: bool)
    ensures
        own == owns(color as int, piece),
{
    match piece.side() {
        Some(Side::White) => color == 1,
        Some(Side::Black) => color == -1,
        None => false,
    }
}

/// Searches `depth` plies deep for the best move of the side `color` (1 for
/// White, -1 for Black) and returns the board after that move with its
/// score for that side.
///
/// At depth 0, and on a board that lacks a king, the board comes back as it
/// is, with its material balance seen from the side to move. Otherwise the
/// moves are tried by ascending index of the square left, then in the
/// order of the piece's destinations; each is answered by a search one ply
/// less deep in the window `(-beta, -alpha)`, and only a strictly better
/// score replaces the move chosen so far. After a move that raises `alpha`
/// to `beta` or above no further move is tried. A side without a move keeps
/// the board, with the score `-HIGH_VALUE`.
pub fn negamax(board: &[Piece], depth: i32, alpha: i32, beta: i32, color: i32) -> (result: (
    Vec<Piece>,
    i32,
))
    requires
        is_board(board@),
        depth >= 0,
        alpha > i32::MIN,
        beta > i32::MIN,
        color == 1 || color == -1,
    ensures
        result.0@ == search(board@, depth as nat, alpha as int, beta as int, color as int).0,
        result.1 == search(board@, depth as nat, alpha as int, beta as int, color as int).1,
        depth == 0 || king_missing(board@) ==> result.0@ == board@ && result.1 == color
            * material(board@),
        is_board(result.0@),
        -360000 <= result.1 <= 360000,
    decreases depth,
{
    if depth == 0 || !holds(board, Piece::WK) || !holds(board, Piece::BK) {
        proof {
            lemma_material_bounds(board@);
        }
        let score = evaluate_board(board);
        return (vstd::slice::slice_to_vec(board), color * score);
    }
    let mut best_value: i32 = -HIGH_VALUE;
    let mut best_board = vstd::slice::slice_to_vec(board);
    let mut lower = alpha;
    let ghost plies = depth as nat;
    let ghost all = legal_steps(board@, color as int);
    let mut idx: usize = 0;
    proof {
        assert(steps_before(board@, color as int, 0) =~= Seq::empty());
    }
    while idx < 36
        invariant
            idx <= 36,
            is_board(board@),
            depth > 0,
            plies == depth,
            !king_missing(board@),
            lower > i32::MIN,
            beta > i32::MIN,
            color == 1 || color == -1,
            all == legal_steps(board@, color as int),
            scan(
                board@,
                plies,
                alpha as int,
                beta as int,
                color as int,
                steps_before(board@, color as int, idx as int),
            ) == (Best { alpha: lower as int, value: best_value as int, board: best_board@ }),
            !cut_off(
                Best { alpha: lower as int, value: best_value as int, board: best_board@ },
                steps_before(board@, color as int, idx as int).len(),
                beta as int,
            ),
            is_board(best_board@),
            -360000 <= best_value <= 360000,
        decreases 36 - idx,
    {
        let piece = board[idx];
        let ghost done = steps_before(board@, color as int, idx as int);
        let ghost here = square_steps(board@, color as int, idx as int);
        proof {
            lemma_steps_before_next(board@, color as int, idx as int);
        }
        if belongs_to(piece, color) {
            let moves = get_moves(idx as isize, piece, board);
            let mut j: usize = 0;
            proof {
                assert(done + here.take(0) =~= done);
            }
            while j < moves.len()
                invariant
                    j <= moves.len(),
                    idx < 36,
                    is_board(board@),
                    depth > 0,
                    plies == depth,
                    !king_missing(board@),
                    lower > i32::MIN,
                    beta > i32::MIN,
                    color == 1 || color == -1,
                    all == legal_steps(board@, color as int),
                    done == steps_before(board@, color as int, idx as int),
                    here == square_steps(board@, color as int, idx as int),
                    steps_before(board@, color as int, idx + 1) == done + here,
                    here.len() == moves@.len(),
                    forall|k: int|
                        0 <= k < moves@.len() ==> on_board(coord(#[trigger] moves@[k])) && here[k]
                            == (Step { from: position_of(idx as int), to: coord(moves@[k]) }),
                    scan(
                        board@,
                        plies,
                        alpha as int,
                        beta as int,
                        color as int,
                        done + here.take(j as int),
                    ) == (Best {
                        alpha: lower as int,
                        value: best_value as int,
                        board: best_board@,
                    }),
                    !cut_off(
                        Best { alpha: lower as int, value: best_value as int, board: best_board@ },
                        (done + here.take(j as int)).len(),
                        beta as int,
                    ),
                    is_board(best_board@),
                    -360000 <= best_value <= 360000,
                decreases moves.len() - j,
            {
                let ghost tried = done + here.take(j as int);
                let move_to = moves[j];
                let new_board = make_move(
                    board,
                    ((idx / 6) as isize, (idx % 6) as isize),
                    move_to,
                );
                let (_, reply) = negamax(new_board.as_slice(), depth - 1, -beta, -lower, -color);
                let move_value = -reply;
                proof {
                    lemma_scan_push(
                        board@,
                        plies,
                        alpha as int,
                        beta as int,
                        color as int,
                        tried,
                        here[j as int],
                    );
                    assert(done + here.take(j + 1) =~= tried.push(here[j as int]));
                }
                if move_value > best_value {
                    best_value = move_value;
                    best_board = new_board;
                }
                if best_value > lower {
                    lower = best_value;
                }
                j = j + 1;
                if lower >= beta {
                    proof {
                        let tried = done + here.take(j as int);
                        lemma_steps_before_prefix(board@, color as int, idx + 1, 36);
                        let rest = all.skip(tried.len() as int);
                        assert(tried.is_prefix_of(done + here));
                        assert(all =~= tried + rest);
                        lemma_scan_cut_off(
                            board@,
                            plies,
                            alpha as int,
                            beta as int,
                            color as int,
                            tried,
                            rest,
                        );
                    }
                    return (best_board, best_value);
                }
            }
            proof {
                assert(here.take(j as int) =~= here);
            }
        } else {
            proof {
                assert(done + here =~= done);
            }
        }
        idx = idx + 1;
    }
    (best_board, best_value)
}

/// Every move of the list leaves a square of the board that holds a piece
/// of the side to move, and goes to a square of the board that holds no
/// piece of that side.
pub open spec fn all_playable(board: Seq<Piece>, color: int, steps: Seq<Step>) -> bool {
    forall|i: int|
        0 <= i < steps.len() ==> {
            &&& on_board((#[trigger] steps[i]).from)
            &&& on_board(steps[i].to)
            &&& owns(color, piece_at(board, steps[i].from))
            &&& !piece_at(board, steps[i].from).allied(piece_at(board, steps[i].to))
        }
}

/// The moves from the squares below `upto` are playable.
pub proof fn lemma_steps_before_playable(board: Seq<Piece>, color: int, upto: int)
    requires
        0 <= upto <= 36,
    ensures
        all_playable(board, color, steps_before(board, color, upto)),
    decreases upto,
{
    if upto == 0 {
        assert(steps_before(board, color, 0) =~= Seq::empty());
    } else {
        let idx = upto - 1;
        let done = steps_before(board, color, idx);
        let here = square_steps(board, color, idx);
        lemma_steps_before_playable(board, color, idx);
        lemma_steps_before_next(board, color, idx);
        lemma_piece_targets_admissible(board[idx], board, position_of(idx));
        assert forall|i: int| 0 <= i < (done + here).len() implies {
            &&& on_board((#[trigger] (done + here)[i]).from)
            &&& on_board((done + here)[i].to)
            &&& owns(color, piece_at(board, (done + here)[i].from))
            &&& !piece_at(board, (done + here)[i].from).allied(
                piece_at(board, (done + here)[i].to),
            )
        } by {
            if i < done.len() {
                assert((done + here)[i] == done[i]);
            } else {
                let k = i - done.len();
                assert((done + here)[i] == here[k]);
                let targets = piece_targets(board[idx], board, position_of(idx));
                assert(on_board(targets[k]));
            }
        }
    }
}

/// Every move that the search tries is playable: it stays on the board
/// and never captures a piece of the side that moves.
pub proof fn lemma_legal_steps_playable(board: Seq<Piece>, color: int)
    ensures
        all_playable(board, color, legal_steps(board, color)),
{
    lemma_steps_before_playable(board, color, 36);
}

/// The search is a function of its inputs alone: two boards that agree
/// square by square, searched to the same depth in the same window for the
/// same side, give the same board and the same score.
pub proof fn lemma_search_is_deterministic(
    first: Seq<Piece>,
    second: Seq<Piece>,
    depth: nat,
    alpha: int,
    beta: int,
    color: int,
)
    requires
        first.len() == second.len(),
        forall|i: int| 0 <= i < first.len() ==> first[i] == second[i],
    ensures
        search(first, depth, alpha, beta, color) == search(second, depth, alpha, beta, color),
{
    assert(first =~= second);
}

/// At depth 0, or where a king is missing, the search returns the board as
/// it is with its material balance seen from the side to move, whatever
/// the window.
pub proof fn lemma_search_stops_at_once(
    board: Seq<Piece>,
    depth: nat,
    alpha: int,
    beta: int,
    color: int,
)
    requires
        depth == 0 || king_missing(board),
    ensures
        search(board, depth, alpha, beta, color) == (board, color * material(board)),
{
}

} // verus!
