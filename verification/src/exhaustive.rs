//! Plain negamax without a window, and the proof that the pruned search
//! agrees with it.

use vstd::prelude::*;
use crate::board::{
    count_of, is_board, kings_at_most_one, lemma_count_of_contains, lemma_material_by_kings,
    lemma_moved_keeps_kings, material, moved,
};
use crate::piece::Piece;
use crate::search::{
    all_playable, king_missing, legal_steps, lemma_legal_steps_playable, scan, search, Step,
    HIGH_VALUE,
};

verus! {

/// The score of a node for the side to move when every move is tried and
/// answered in full: the material balance at depth 0 or where a king is
/// missing, else the best of the negated scores of the boards after each
/// move, and `-HIGH_VALUE` where nothing is better.
pub open spec fn exhaustive(board: Seq<Piece>, depth: nat, color: int) -> int
    decreases depth, 1int, 0nat,
{
    if depth == 0 || king_missing(board) {
        color * material(board)
    } else {
        best_of(board, depth, color, legal_steps(board, color))
    }
}

/// The best score among the moves `steps` of a node at depth `depth`,
/// each answered in full, starting from `-HIGH_VALUE`.
pub open spec fn best_of(board: Seq<Piece>, depth: nat, color: int, steps: Seq<Step>) -> int
    decreases depth, 0int, steps.len(),
{
    if depth == 0 || steps.len() == 0 {
        -HIGH_VALUE
    } else {
        let before = best_of(board, depth, color, steps.drop_last());
        let value = -exhaustive(
            moved(board, steps.last().from, steps.last().to),
            (depth - 1) as nat,
            -color,
        );
        if value > before {
            value
        } else {
            before
        }
    }
}

/// A score `found` by a search in the window `(alpha, beta)` stands in the
/// right relation to the true score `truth`: inside the window it is exact,
/// at or below `alpha` it is an upper bound, at or above `beta` a lower
/// bound.
pub open spec fn bounds_truth(found: int, truth: int, alpha: int, beta: int) -> bool {
    &&& found <= alpha ==> truth <= found
    &&& found >= beta ==> truth >= found
    &&& alpha < found < beta ==> truth == found
}

/// In a window with `alpha < beta` the pruned search bounds the score of
/// plain negamax as a window search should.
pub proof fn lemma_search_bounds_truth(
    board: Seq<Piece>,
    depth: nat,
    alpha: int,
    beta: int,
    color: int,
)
    requires
        alpha < beta,
    ensures
        bounds_truth(
            search(board, depth, alpha, beta, color).1,
            exhaustive(board, depth, color),
            alpha,
            beta,
        ),
    decreases depth, 1int, 0nat,
{
    if depth == 0 || king_missing(board) {
    } else {
        lemma_scan_bounds_truth(board, depth, alpha, beta, color, legal_steps(board, color));
    }
}

/// The same for a scan of the first moves of a node: what it has found
/// bounds the best of those moves, its lower bound is `alpha` raised to the
/// best score found, and that score is never below `-HIGH_VALUE`.
pub proof fn lemma_scan_bounds_truth(
    board: Seq<Piece>,
    depth: nat,
    alpha: int,
    beta: int,
    color: int,
    steps: Seq<Step>,
)
    requires
        depth > 0,
        alpha < beta,
    ensures
        ({
            let found = scan(board, depth, alpha, beta, color, steps);
            let truth = best_of(board, depth, color, steps);
            &&& bounds_truth(found.value, truth, alpha, beta)
            &&& found.value >= -HIGH_VALUE
            &&& steps.len() == 0 ==> found.alpha == alpha && found.value == truth
            &&& steps.len() > 0 ==> found.alpha == if found.value > alpha {
                found.value
            } else {
                alpha
            }
        }),
    decreases depth, 0int, steps.len(),
{
    if steps.len() > 0 {
        let front = steps.drop_last();
        lemma_scan_bounds_truth(board, depth, alpha, beta, color, front);
        let so_far = scan(board, depth, alpha, beta, color, front);
        if steps.len() > 1 && so_far.alpha >= beta {
        } else {
            let child = moved(board, steps.last().from, steps.last().to);
            lemma_search_bounds_truth(child, (depth - 1) as nat, -beta, -so_far.alpha, -color);
        }
    }
}

/// On a board with at most one king a side, no score of plain negamax lies
/// beyond `HIGH_VALUE` in either direction.
pub proof fn lemma_exhaustive_within_high(board: Seq<Piece>, depth: nat, color: int)
    requires
        kings_at_most_one(board),
        color == 1 || color == -1,
    ensures
        -HIGH_VALUE <= exhaustive(board, depth, color) <= HIGH_VALUE,
    decreases depth, 1int, 0nat,
{
    if depth == 0 || king_missing(board) {
        lemma_material_by_kings(board);
    } else {
        lemma_legal_steps_playable(board, color);
        lemma_best_of_within_high(board, depth, color, legal_steps(board, color));
    }
}

/// The same for the best of some playable moves.
pub proof fn lemma_best_of_within_high(board: Seq<Piece>, depth: nat, color: int, steps: Seq<Step>)
    requires
        kings_at_most_one(board),
        color == 1 || color == -1,
        depth > 0,
        all_playable(board, color, steps),
    ensures
        -HIGH_VALUE <= best_of(board, depth, color, steps) <= HIGH_VALUE,
    decreases depth, 0int, steps.len(),
{
    if steps.len() > 0 {
        let last = steps.last();
        assert(all_playable(board, color, steps.drop_last())) by {
            assert forall|i: int| 0 <= i < steps.drop_last().len() implies steps.drop_last()[i]
                == steps[i] by {}
        }
        lemma_best_of_within_high(board, depth, color, steps.drop_last());
        lemma_moved_keeps_kings(board, last.from, last.to);
        lemma_exhaustive_within_high(moved(board, last.from, last.to), (depth - 1) as nat, -color);
    }
}

/// On a board with at most one king a side, the search in the full window
/// from `-HIGH_VALUE` to `HIGH_VALUE` finds the score of plain negamax:
/// pruning changes nothing.
pub proof fn lemma_full_window_is_exhaustive(board: Seq<Piece>, depth: nat, color: int)
    requires
        kings_at_most_one(board),
        color == 1 || color == -1,
    ensures
        search(board, depth, -HIGH_VALUE, HIGH_VALUE as int, color).1 == exhaustive(
            board,
            depth,
            color,
        ),
{
    lemma_search_bounds_truth(board, depth, -HIGH_VALUE, HIGH_VALUE as int, color);
    lemma_exhaustive_within_high(board, depth, color);
    if depth == 0 || king_missing(board) {
    } else {
        lemma_scan_bounds_truth(
            board,
            depth,
            -HIGH_VALUE,
            HIGH_VALUE as int,
            color,
            legal_steps(board, color),
        );
    }
}

/// The score, for the side `color`, of the `i`-th move of that side when
/// it is answered by a search of `depth` plies in the full window.
pub open spec fn answered(board: Seq<Piece>, depth: nat, color: int, i: int) -> int {
    let step = legal_steps(board, color)[i];
    -search(moved(board, step.from, step.to), depth, -HIGH_VALUE, HIGH_VALUE as int, -color).1
}

/// The best of some moves is at least the score of each, and is the score
/// of one of them unless it is `-HIGH_VALUE`.
pub proof fn lemma_best_of_is_maximum(board: Seq<Piece>, depth: nat, color: int, steps: Seq<Step>)
    requires
        depth > 0,
    ensures
        forall|i: int|
            0 <= i < steps.len() ==> -exhaustive(
                moved(board, (#[trigger] steps[i]).from, steps[i].to),
                (depth - 1) as nat,
                -color,
            ) <= best_of(board, depth, color, steps),
        best_of(board, depth, color, steps) == -HIGH_VALUE || exists|i: int|
            0 <= i < steps.len() && -exhaustive(
                moved(board, (#[trigger] steps[i]).from, steps[i].to),
                (depth - 1) as nat,
                -color,
            ) == best_of(board, depth, color, steps),
    decreases steps.len(),
{
    if steps.len() > 0 {
        let front = steps.drop_last();
        lemma_best_of_is_maximum(board, depth, color, front);
        assert forall|i: int| 0 <= i < steps.len() implies -exhaustive(
            moved(board, (#[trigger] steps[i]).from, steps[i].to),
            (depth - 1) as nat,
            -color,
        ) <= best_of(board, depth, color, steps) by {
            if i < front.len() {
                assert(front[i] == steps[i]);
            }
        }
        let top = best_of(board, depth, color, steps);
        if top != -HIGH_VALUE {
            if top == best_of(board, depth, color, front) {
                let i = choose|i: int|
                    0 <= i < front.len() && -exhaustive(
                        moved(board, (#[trigger] front[i]).from, front[i].to),
                        (depth - 1) as nat,
                        -color,
                    ) == best_of(board, depth, color, front);
                assert(front[i] == steps[i]);
            } else {
                assert(steps[steps.len() - 1] == steps.last());
            }
        }
    }
}

/// At a node with one king a side and at least one ply to go, the score of
/// the search in the full window is the maximum, over all moves of the side
/// to move, of the negated score with which a search of one ply less in the
/// full window answers the move: no move scores higher, and some move
/// scores as much. Where the side has no move the score is `-HIGH_VALUE`.
pub proof fn lemma_root_is_maximum_over_moves(board: Seq<Piece>, depth: nat, color: int)
    requires
        is_board(board),
        count_of(board, Piece::WK) == 1,
        count_of(board, Piece::BK) == 1,
        depth > 0,
        color == 1 || color == -1,
    ensures
        forall|i: int|
            0 <= i < legal_steps(board, color).len() ==> #[trigger] answered(
                board,
                (depth - 1) as nat,
                color,
                i,
            ) <= search(board, depth, -HIGH_VALUE, HIGH_VALUE as int, color).1,
        legal_steps(board, color).len() > 0 ==> exists|i: int|
            0 <= i < legal_steps(board, color).len() && #[trigger] answered(
                board,
                (depth - 1) as nat,
                color,
                i,
            ) == search(board, depth, -HIGH_VALUE, HIGH_VALUE as int, color).1,
        legal_steps(board, color).len() == 0 ==> search(
            board,
            depth,
            -HIGH_VALUE,
            HIGH_VALUE as int,
            color,
        ).1 == -HIGH_VALUE,
{
    let steps = legal_steps(board, color);
    let below = (depth - 1) as nat;
    let score = search(board, depth, -HIGH_VALUE, HIGH_VALUE as int, color).1;
    lemma_count_of_contains(board, Piece::WK);
    lemma_count_of_contains(board, Piece::BK);
    lemma_full_window_is_exhaustive(board, depth, color);
    lemma_legal_steps_playable(board, color);
    lemma_best_of_is_maximum(board, depth, color, steps);
    assert forall|i: int| 0 <= i < steps.len() implies answered(board, below, color, i)
        == -exhaustive(moved(board, steps[i].from, steps[i].to), below, -color) && -HIGH_VALUE
        <= #[trigger] answered(board, below, color, i) by {
        lemma_moved_keeps_kings(board, steps[i].from, steps[i].to);
        lemma_full_window_is_exhaustive(moved(board, steps[i].from, steps[i].to), below, -color);
        lemma_exhaustive_within_high(moved(board, steps[i].from, steps[i].to), below, -color);
    }
    if steps.len() > 0 {
        if score == -HIGH_VALUE {
            assert(answered(board, below, color, 0) == score);
        } else {
            let i = choose|i: int|
                0 <= i < steps.len() && -exhaustive(
                    moved(board, (#[trigger] steps[i]).from, steps[i].to),
                    below,
                    -color,
                ) == best_of(board, depth, color, steps);
            assert(answered(board, below, color, i) == score);
        }
    }
}

} // verus!
