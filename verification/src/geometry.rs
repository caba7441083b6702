//! Move geometry: the squares a piece may move to, kind by kind.

use vstd::prelude::*;
use crate::board::{coord, coords, is_board, on_board, piece_at};
use crate::piece::{Piece, Side};

verus! {

/// The square reached from `from` by the displacement `by`.
pub open spec fn shifted(from: (int, int), by: (int, int)) -> (int, int) {
    (from.0 + by.0, from.1 + by.1)
}

/// The piece on `from` may come to rest on `to`: the square is on the board
/// and is empty or holds a piece of the other side.
pub open spec fn can_land(board: Seq<Piece>, from: (int, int), to: (int, int)) -> bool {
    on_board(to) && (piece_at(board, to) == Piece::Empty || piece_at(board, from).opposes(
        piece_at(board, to),
    ))
}

/// Every listed square is on the board and none holds a piece of the side
/// that owns the piece on `from`.
pub open spec fn all_admissible(board: Seq<Piece>, from: (int, int), list: Seq<(int, int)>) -> bool {
    forall|i: int|
        0 <= i < list.len() ==> on_board(#[trigger] list[i]) && !piece_at(board, from).allied(
            piece_at(board, list[i]),
        )
}

/// The destinations of a stepping piece: each offset applied to `from`, in
/// the order given, keeping those on which the piece may land.
pub open spec fn offset_targets(board: Seq<Piece>, from: (int, int), offsets: Seq<(int, int)>) -> Seq<
    (int, int),
> {
    offsets.map_values(|by: (int, int)| shifted(from, by)).filter(
        |to: (int, int)| can_land(board, from, to),
    )
}

/// Adding one offset at the end adds its square at the end, if the piece may
/// land there.
pub proof fn lemma_offset_targets_push(
    board: Seq<Piece>,
    from: (int, int),
    offsets: Seq<(int, int)>,
    by: (int, int),
)
    ensures
        offset_targets(board, from, offsets.push(by)) == if can_land(
            board,
            from,
            shifted(from, by),
        ) {
            offset_targets(board, from, offsets).push(shifted(from, by))
        } else {
            offset_targets(board, from, offsets)
        },
{
    let step = |by: (int, int)| shifted(from, by);
    let keep = |to: (int, int)| can_land(board, from, to);
    offsets.lemma_push_map_commute(step, by);
    offsets.map_values(step).lemma_filter_push(step(by), keep);
}

/// Stepping destinations are on the board and never on a piece of the
/// mover's side.
pub proof fn lemma_offset_targets_admissible(
    board: Seq<Piece>,
    from: (int, int),
    offsets: Seq<(int, int)>,
)
    ensures
        all_admissible(board, from, offset_targets(board, from, offsets)),
{
    let keep = |to: (int, int)| can_land(board, from, to);
    let all = offsets.map_values(|by: (int, int)| shifted(from, by));
    assert forall|i: int| 0 <= i < all.filter(keep).len() implies on_board(
        #[trigger] all.filter(keep)[i],
    ) && !piece_at(board, from).allied(piece_at(board, all.filter(keep)[i])) by {
        all.lemma_filter_pred(keep, i);
        assert(keep(all.filter(keep)[i]));
    }
}

/// Destinations of a stepping piece on `position`: for each offset in turn,
/// the square it leads to, where that square is on the board and is empty or
/// holds a piece of the other side.
pub fn offset_moves(position: (isize, isize), board: &[Piece], offsets: &[(isize, isize)]) -> (moves:
    Vec<(isize, isize)>)
    requires
        is_board(board@),
        on_board(coord(position)),
    ensures
        coords(moves@) == offset_targets(board@, coord(position), coords(offsets@)),
        all_admissible(board@, coord(position), coords(moves@)),
{
    let mut moves: Vec<(isize, isize)> = Vec::new();
    let here = board[(position.0 * 6 + position.1) as usize];
    let mut i: usize = 0;
    proof {
        assert(coords(offsets@).take(0) =~= Seq::empty());
        assert(coords(moves@) =~= Seq::empty());
        lemma_offset_targets_admissible(board@, coord(position), Seq::empty());
        assert(offset_targets(board@, coord(position), Seq::empty()).len() == 0) by {
            Seq::<(int, int)>::empty().map_values(|by: (int, int)| shifted(coord(position), by))
                .lemma_filter_len(|to: (int, int)| can_land(board@, coord(position), to));
        }
        assert(offset_targets(board@, coord(position), Seq::empty()) =~= Seq::empty());
    }
    while i < offsets.len()
        invariant
            i <= offsets.len(),
            is_board(board@),
            on_board(coord(position)),
            here == piece_at(board@, coord(position)),
            coords(moves@) == offset_targets(
                board@,
                coord(position),
                coords(offsets@).take(i as int),
            ),
        decreases offsets.len() - i,
    {
        let (dx, dy) = offsets[i];
        let ghost before = coords(moves@);
        proof {
            assert(coords(offsets@).take(i + 1) =~= coords(offsets@).take(i as int).push(
                coord(offsets@[i as int]),
            ));
            lemma_offset_targets_push(
                board@,
                coord(position),
                coords(offsets@).take(i as int),
                coord(offsets@[i as int]),
            );
        }
        match (position.0.checked_add(dx), position.1.checked_add(dy)) {
            (Some(nx), Some(ny)) => {
                if nx >= 0 && ny >= 0 && nx < 6 && ny < 6 {
                    let there = board[(nx * 6 + ny) as usize];
                    if there == Piece::Empty || here.is_opponent_of(there) {
                        moves.push((nx, ny));
                        proof {
                            assert(coords(moves@) =~= before.push((nx as int, ny as int)));
                        }
                    }
                }
            },
            _ => {},
        }
        i = i + 1;
    }
    proof {
        assert(coords(offsets@).take(i as int) =~= coords(offsets@));
        lemma_offset_targets_admissible(board@, coord(position), coords(offsets@));
    }
    moves
}

/// The eight knight jumps, in the order in which they are tried.
pub open spec fn knight_offsets() -> Seq<(int, int)> {
    seq![(2, 1), (1, 2), (-2, 1), (-1, 2), (2, -1), (1, -2), (-2, -1), (-1, -2)]
}

/// The eight king steps, in the order in which they are tried.
pub open spec fn king_offsets() -> Seq<(int, int)> {
    seq![(1, 0), (0, 1), (-1, 0), (0, -1), (1, 1), (1, -1), (-1, 1), (-1, -1)]
}

/// Destinations of a knight on `position`.
pub fn get_knight_moves(position: (isize, isize), board: &[Piece]) -> (moves: Vec<(isize, isize)>)
    requires
        is_board(board@),
        on_board(coord(position)),
    ensures
        coords(moves@) == offset_targets(board@, coord(position), knight_offsets()),
        all_admissible(board@, coord(position), coords(moves@)),
{
    let offsets: [(isize, isize); 8] = [
        (2, 1),
        (1, 2),
        (-2, 1),
        (-1, 2),
        (2, -1),
        (1, -2),
        (-2, -1),
        (-1, -2),
    ];
    proof {
        assert(coords(offsets@) =~= knight_offsets());
    }
    offset_moves(position, board, offsets.as_slice())
}

/// Destinations of a king on `position`. A square on which the king could
/// be captured is a destination like any other.
pub fn get_king_moves(position: (isize, isize), board: &[Piece]) -> (moves: Vec<(isize, isize)>)
    requires
        is_board(board@),
        on_board(coord(position)),
    ensures
        coords(moves@) == offset_targets(board@, coord(position), king_offsets()),
        all_admissible(board@, coord(position), coords(moves@)),
{
    let offsets: [(isize, isize); 8] = [
        (1, 0),
        (0, 1),
        (-1, 0),
        (0, -1),
        (1, 1),
        (1, -1),
        (-1, 1),
        (-1, -1),
    ];
    proof {
        assert(coords(offsets@) =~= king_offsets());
    }
    offset_moves(position, board, offsets.as_slice())
}

/// How many more squares a ray that stands on `at` can cover in direction
/// `dir` before it leaves the board.
pub open spec fn ray_room(at: (int, int), dir: (int, int)) -> int {
    if dir.0 > 0 {
        5 - at.0
    } else if dir.0 < 0 {
        at.0
    } else if dir.1 > 0 {
        5 - at.1
    } else {
        at.1
    }
}

/// The destinations of a sliding piece that came from `from`, along the ray
/// that leaves `at` in direction `dir`, nearest first. The ray runs over
/// empty squares and ends before the edge of the board; the first occupied
/// square ends it, and is a destination only if it holds a piece of the
/// other side. The zero direction gives no ray.
pub open spec fn ray_targets(
    board: Seq<Piece>,
    from: (int, int),
    at: (int, int),
    dir: (int, int),
) -> Seq<(int, int)>
    decreases ray_room(at, dir),
{
    let next = shifted(at, dir);
    if dir == (0int, 0int) || !on_board(at) || !on_board(next) {
        Seq::empty()
    } else if piece_at(board, next) == Piece::Empty {
        seq![next] + ray_targets(board, from, next, dir)
    } else if piece_at(board, from).opposes(piece_at(board, next)) {
        seq![next]
    } else {
        Seq::empty()
    }
}

/// The destinations of a sliding piece on `from`: its rays, one direction
/// after the other in the order given.
pub open spec fn sweep_targets(board: Seq<Piece>, from: (int, int), dirs: Seq<(int, int)>) -> Seq<
    (int, int),
> {
    dirs.map_values(|dir: (int, int)| ray_targets(board, from, from, dir)).flatten()
}

/// Adding one direction at the end adds its ray at the end.
pub proof fn lemma_sweep_targets_push(
    board: Seq<Piece>,
    from: (int, int),
    dirs: Seq<(int, int)>,
    dir: (int, int),
)
    ensures
        sweep_targets(board, from, dirs.push(dir)) == sweep_targets(board, from, dirs)
            + ray_targets(board, from, from, dir),
{
    let ray = |dir: (int, int)| ray_targets(board, from, from, dir);
    dirs.lemma_push_map_commute(ray, dir);
    dirs.map_values(ray).lemma_flatten_push(ray(dir));
}

/// The squares of a ray are on the board and never hold a piece of the
/// mover's side.
pub proof fn lemma_ray_targets_admissible(
    board: Seq<Piece>,
    from: (int, int),
    at: (int, int),
    dir: (int, int),
)
    ensures
        all_admissible(board, from, ray_targets(board, from, at, dir)),
    decreases ray_room(at, dir),
{
    let next = shifted(at, dir);
    if dir == (0int, 0int) || !on_board(at) || !on_board(next) {
    } else if piece_at(board, next) == Piece::Empty {
        lemma_ray_targets_admissible(board, from, next, dir);
    }
}

/// Two admissible lists joined are admissible.
pub proof fn lemma_all_admissible_add(
    board: Seq<Piece>,
    from: (int, int),
    a: Seq<(int, int)>,
    b: Seq<(int, int)>,
)
    requires
        all_admissible(board, from, a),
        all_admissible(board, from, b),
    ensures
        all_admissible(board, from, a + b),
{
    assert forall|i: int| 0 <= i < (a + b).len() implies on_board(#[trigger] (a + b)[i])
        && !piece_at(board, from).allied(piece_at(board, (a + b)[i])) by {
        if i < a.len() {
            assert((a + b)[i] == a[i]);
        } else {
            assert((a + b)[i] == b[i - a.len()]);
        }
    }
}

/// Sliding destinations are on the board and never on a piece of the
/// mover's side.
pub proof fn lemma_sweep_targets_admissible(
    board: Seq<Piece>,
    from: (int, int),
    dirs: Seq<(int, int)>,
)
    ensures
        all_admissible(board, from, sweep_targets(board, from, dirs)),
    decreases dirs.len(),
{
    if dirs.len() == 0 {
        assert(sweep_targets(board, from, dirs) =~= Seq::empty());
    } else {
        assert(dirs =~= dirs.drop_last().push(dirs.last()));
        lemma_sweep_targets_push(board, from, dirs.drop_last(), dirs.last());
        lemma_sweep_targets_admissible(board, from, dirs.drop_last());
        lemma_ray_targets_admissible(board, from, from, dirs.last());
        lemma_all_admissible_add(
            board,
            from,
            sweep_targets(board, from, dirs.drop_last()),
            ray_targets(board, from, from, dirs.last()),
        );
    }
}

/// Destinations of a sliding piece on `position`: for each direction in
/// turn, the squares of its ray from the nearest outwards. A ray covers
/// empty squares up to the edge of the board; the first occupied square
/// ends it, and is included only if it holds a piece of the other side.
pub fn vector_moves(position: (isize, isize), board: &[Piece], vectors: &[(isize, isize)]) -> (moves:
    Vec<(isize, isize)>)
    requires
        is_board(board@),
        on_board(coord(position)),
    ensures
        coords(moves@) == sweep_targets(board@, coord(position), coords(vectors@)),
        all_admissible(board@, coord(position), coords(moves@)),
{
    let mut moves: Vec<(isize, isize)> = Vec::new();
    let here = board[(position.0 * 6 + position.1) as usize];
    let ghost from = coord(position);
    let mut i: usize = 0;
    proof {
        assert(coords(vectors@).take(0) =~= Seq::empty());
        assert(sweep_targets(board@, from, Seq::empty()) =~= Seq::empty());
        assert(coords(moves@) =~= Seq::empty());
    }
    while i < vectors.len()
        invariant
            i <= vectors.len(),
            is_board(board@),
            on_board(from),
            from == coord(position),
            here == piece_at(board@, from),
            coords(moves@) == sweep_targets(board@, from, coords(vectors@).take(i as int)),
        decreases vectors.len() - i,
    {
        let (dx, dy) = vectors[i];
        let ghost dir = coord(vectors@[i as int]);
        let ghost whole = coords(moves@) + ray_targets(board@, from, from, dir);
        proof {
            assert(coords(vectors@).take(i + 1) =~= coords(vectors@).take(i as int).push(dir));
            lemma_sweep_targets_push(board@, from, coords(vectors@).take(i as int), dir);
        }
        let mut nx = position.0;
        let mut ny = position.1;
        let mut open = dx != 0 || dy != 0;
        while open
            invariant
                is_board(board@),
                on_board(from),
                here == piece_at(board@, from),
                dir == (dx as int, dy as int),
                on_board((nx as int, ny as int)),
                !open ==> whole == coords(moves@),
                open ==> dir != (0int, 0int) && whole == coords(moves@) + ray_targets(
                    board@,
                    from,
                    (nx as int, ny as int),
                    dir,
                ),
            decreases (if open { 1int } else { 0int }), ray_room((nx as int, ny as int), dir),
        {
            let ghost before = coords(moves@);
            let ghost at = (nx as int, ny as int);
            open = false;
            match (nx.checked_add(dx), ny.checked_add(dy)) {
                (Some(sx), Some(sy)) => {
                    if 0 <= sx && sx < 6 && 0 <= sy && sy < 6 {
                        let target = board[(sx * 6 + sy) as usize];
                        if target == Piece::Empty {
                            moves.push((sx, sy));
                            nx = sx;
                            ny = sy;
                            open = true;
                            proof {
                                assert(coords(moves@) =~= before.push((sx as int, sy as int)));
                                assert(whole =~= coords(moves@) + ray_targets(
                                    board@,
                                    from,
                                    (sx as int, sy as int),
                                    dir,
                                ));
                            }
                        } else if here.is_opponent_of(target) {
                            moves.push((sx, sy));
                            proof {
                                assert(coords(moves@) =~= before.push((sx as int, sy as int)));
                                assert(whole =~= coords(moves@));
                            }
                        } else {
                            proof {
                                assert(whole =~= coords(moves@));
                            }
                        }
                    } else {
                        proof {
                            assert(whole =~= coords(moves@));
                        }
                    }
                },
                _ => {
                    proof {
                        assert(whole =~= coords(moves@));
                    }
                },
            }
        }
        i = i + 1;
    }
    proof {
        assert(coords(vectors@).take(i as int) =~= coords(vectors@));
        lemma_sweep_targets_admissible(board@, from, coords(vectors@));
    }
    moves
}

/// The four rook directions, in the order in which they are followed.
pub open spec fn rook_directions() -> Seq<(int, int)> {
    seq![(0, 1), (1, 0), (0, -1), (-1, 0)]
}

/// The four diagonal directions, in the order in which they are followed.
pub open spec fn diagonal_directions() -> Seq<(int, int)> {
    seq![(1, 1), (1, -1), (-1, 1), (-1, -1)]
}

/// The destinations of a rook on `from`.
pub open spec fn rook_targets(board: Seq<Piece>, from: (int, int)) -> Seq<(int, int)> {
    sweep_targets(board, from, rook_directions())
}

/// The destinations of a queen on `from`: those of a rook, then the
/// diagonal rays.
pub open spec fn queen_targets(board: Seq<Piece>, from: (int, int)) -> Seq<(int, int)> {
    rook_targets(board, from) + sweep_targets(board, from, diagonal_directions())
}

/// Destinations of a rook on `position`.
pub fn get_rook_moves(position: (isize, isize), board: &[Piece]) -> (moves: Vec<(isize, isize)>)
    requires
        is_board(board@),
        on_board(coord(position)),
    ensures
        coords(moves@) == rook_targets(board@, coord(position)),
        all_admissible(board@, coord(position), coords(moves@)),
{
    let vectors: [(isize, isize); 4] = [(0, 1), (1, 0), (0, -1), (-1, 0)];
    proof {
        assert(coords(vectors@) =~= rook_directions());
    }
    vector_moves(position, board, vectors.as_slice())
}

/// Destinations of a queen on `position`.
pub fn get_queen_moves(position: (isize, isize), board: &[Piece]) -> (moves: Vec<(isize, isize)>)
    requires
        is_board(board@),
        on_board(coord(position)),
    ensures
        coords(moves@) == queen_targets(board@, coord(position)),
        all_admissible(board@, coord(position), coords(moves@)),
{
    let mut moves = get_rook_moves(position, board);
    let diagonal_vectors: [(isize, isize); 4] = [(1, 1), (1, -1), (-1, 1), (-1, -1)];
    proof {
        assert(coords(diagonal_vectors@) =~= diagonal_directions());
    }
    let mut diagonal = vector_moves(position, board, diagonal_vectors.as_slice());
    let ghost straight = coords(moves@);
    let ghost slanted = coords(diagonal@);
    moves.append(&mut diagonal);
    proof {
        assert(coords(moves@) =~= straight + slanted);
        lemma_all_admissible_add(board@, coord(position), straight, slanted);
    }
    moves
}

/// The row direction in which the pawns of a piece's side advance: Black
/// towards row 0, White towards row 5.
pub open spec fn pawn_step(piece: Piece) -> int {
    if piece.side_of() == Some(Side::Black) {
        -1
    } else {
        1
    }
}

/// `to`, if it is on the board and `wanted` holds of it.
pub open spec fn square_if(to: (int, int), wanted: bool) -> Seq<(int, int)> {
    if on_board(to) && wanted {
        seq![to]
    } else {
        Seq::empty()
    }
}

/// The destinations of a pawn on `from`: the square straight ahead if it is
/// empty, then the square ahead one column to the left and the square ahead
/// one column to the right, each only if it holds a piece of the other
/// side.
pub open spec fn pawn_targets(board: Seq<Piece>, from: (int, int)) -> Seq<(int, int)> {
    let pawn = piece_at(board, from);
    let row = from.0 + pawn_step(pawn);
    let ahead = (row, from.1);
    let left = (row, from.1 - 1);
    let right = (row, from.1 + 1);
    square_if(ahead, piece_at(board, ahead) == Piece::Empty) + square_if(
        left,
        pawn.opposes(piece_at(board, left)),
    ) + square_if(right, pawn.opposes(piece_at(board, right)))
}

/// Destinations of a pawn on `position`. The side of the piece on
/// `position` gives the direction of advance: increasing rows for White,
/// decreasing rows for Black. There is no double step.
pub fn get_pawn_moves(position: (isize, isize), board: &[Piece]) -> (moves: Vec<(isize, isize)>)
    requires
        is_board(board@),
        on_board(coord(position)),
    ensures
        coords(moves@) == pawn_targets(board@, coord(position)),
        all_admissible(board@, coord(position), coords(moves@)),
{
    let mut moves: Vec<(isize, isize)> = Vec::new();
    let x = position.0;
    let y = position.1;
    let here = board[(x * 6 + y) as usize];
    let dx: isize = match here.side() {
        Some(Side::Black) => -1,
        _ => 1,
    };
    proof {
        assert(coords(moves@) =~= Seq::empty());
    }
    if x + dx >= 0 && x + dx < 6 {
        if board[((x + dx) * 6 + y) as usize] == Piece::Empty {
            moves.push((x + dx, y));
        }
        let ghost first = coords(moves@);
        proof {
            assert(first =~= square_if(
                (x + dx, y as int),
                piece_at(board@, (x + dx, y as int)) == Piece::Empty,
            ));
        }
        if y - 1 >= 0 {
            let target = board[((x + dx) * 6 + (y - 1)) as usize];
            if here.is_opponent_of(target) {
                moves.push((x + dx, y - 1));
            }
        }
        let ghost second = coords(moves@);
        proof {
            assert(second =~= first + square_if(
                (x + dx, y - 1),
                here.opposes(piece_at(board@, (x + dx, y - 1))),
            ));
        }
        if y + 1 < 6 {
            let target = board[((x + dx) * 6 + (y + 1)) as usize];
            if here.is_opponent_of(target) {
                moves.push((x + dx, y + 1));
            }
        }
        proof {
            assert(coords(moves@) =~= second + square_if(
                (x + dx, y + 1),
                here.opposes(piece_at(board@, (x + dx, y + 1))),
            ));
        }
    }
    proof {
        assert(coords(moves@) =~= pawn_targets(board@, coord(position)));
    }
    moves
}

/// The destinations of a piece of the kind of `piece` that stands on
/// `from`. An empty square has none.
pub open spec fn piece_targets(piece: Piece, board: Seq<Piece>, from: (int, int)) -> Seq<(int, int)> {
    match piece {
        Piece::WP | Piece::BP => pawn_targets(board, from),
        Piece::WR | Piece::BR => rook_targets(board, from),
        Piece::WN | Piece::BN => offset_targets(board, from, knight_offsets()),
        Piece::WQ | Piece::BQ => queen_targets(board, from),
        Piece::WK | Piece::BK => offset_targets(board, from, king_offsets()),
        Piece::Empty => Seq::empty(),
    }
}

/// The position of the square with index `idx`.
pub open spec fn position_of(idx: int) -> (int, int) {
    (idx / 6, idx % 6)
}

/// Destinations of the piece on the square with index `idx`, by the kind of
/// `piece`. Every destination is on the board, and none holds a piece of
/// the side that owns the piece on that square.
pub fn get_moves(idx: isize, piece: Piece, board: &[Piece]) -> (moves: Vec<(isize, isize)>)
    requires
        is_board(board@),
        0 <= idx < 36,
    ensures
        coords(moves@) == piece_targets(piece, board@, position_of(idx as int)),
        all_admissible(board@, position_of(idx as int), coords(moves@)),
        forall|i: int| 0 <= i < moves@.len() ==> on_board(coord(#[trigger] moves@[i])),
{
    let x = idx / 6;
    let y = idx % 6;

    let moves = match piece {
        Piece::WP | Piece::BP => get_pawn_moves((x, y), board),
        Piece::WR | Piece::BR => get_rook_moves((x, y), board),
        Piece::WN | Piece::BN => get_knight_moves((x, y), board),
        Piece::WQ | Piece::BQ => get_queen_moves((x, y), board),
        Piece::WK | Piece::BK => get_king_moves((x, y), board),
        Piece::Empty => Vec::new(),
    };
    proof {
        if piece == Piece::Empty {
            assert(coords(moves@) =~= Seq::empty());
        }
        assert forall|i: int| 0 <= i < moves@.len() implies on_board(coord(#[trigger] moves@[i])) by {
            assert(coords(moves@)[i] == coord(moves@[i]));
        }
    }
    moves
}

/// Whatever the kind of the piece, its destinations are on the board and
/// none holds a piece of the side that owns the piece on `from`.
pub proof fn lemma_piece_targets_admissible(piece: Piece, board: Seq<Piece>, from: (int, int))
    ensures
        all_admissible(board, from, piece_targets(piece, board, from)),
{
    match piece {
        Piece::WP | Piece::BP => {},
        Piece::WR | Piece::BR => {
            lemma_sweep_targets_admissible(board, from, rook_directions());
        },
        Piece::WN | Piece::BN => {
            lemma_offset_targets_admissible(board, from, knight_offsets());
        },
        Piece::WQ | Piece::BQ => {
            lemma_sweep_targets_admissible(board, from, rook_directions());
            lemma_sweep_targets_admissible(board, from, diagonal_directions());
            lemma_all_admissible_add(
                board,
                from,
                rook_targets(board, from),
                sweep_targets(board, from, diagonal_directions()),
            );
        },
        Piece::WK | Piece::BK => {
            lemma_offset_targets_admissible(board, from, king_offsets());
        },
        Piece::Empty => {},
    }
}

/// The shape of a ray: its `k`-th square lies `k + 1` steps from the start,
/// every square before the last one is empty, and every square is empty or
/// holds a piece of the other side.
pub proof fn lemma_ray_targets_shape(
    board: Seq<Piece>,
    from: (int, int),
    at: (int, int),
    dir: (int, int),
    k: int,
)
    requires
        0 <= k < ray_targets(board, from, at, dir).len(),
    ensures
        ray_targets(board, from, at, dir)[k] == (at.0 + (k + 1) * dir.0, at.1 + (k + 1) * dir.1),
        can_land(board, from, ray_targets(board, from, at, dir)[k]),
        k + 1 < ray_targets(board, from, at, dir).len() ==> piece_at(
            board,
            ray_targets(board, from, at, dir)[k],
        ) == Piece::Empty,
    decreases k,
{
    let next = shifted(at, dir);
    if k > 0 {
        lemma_ray_targets_shape(board, from, next, dir, k - 1);
        assert(ray_targets(board, from, at, dir)[k] == ray_targets(board, from, next, dir)[k - 1]);
        assert(at.0 + dir.0 + k * dir.0 == at.0 + (k + 1) * dir.0) by (nonlinear_arith);
        assert(at.1 + dir.1 + k * dir.1 == at.1 + (k + 1) * dir.1) by (nonlinear_arith);
    }
}

/// A ray is as long as it can be: unless it ends on a capture, the square
/// one step beyond its last is off the board or holds a piece that the
/// mover cannot take.
pub proof fn lemma_ray_targets_end(
    board: Seq<Piece>,
    from: (int, int),
    at: (int, int),
    dir: (int, int),
)
    requires
        on_board(at),
        dir != (0int, 0int),
    ensures
        ({
            let ray = ray_targets(board, from, at, dir);
            let beyond = (at.0 + (ray.len() + 1) * dir.0, at.1 + (ray.len() + 1) * dir.1);
            ||| ray.len() > 0 && piece_at(board, ray.last()) != Piece::Empty
            ||| !on_board(beyond)
            ||| piece_at(board, beyond) != Piece::Empty && !piece_at(board, from).opposes(
                piece_at(board, beyond),
            )
        }),
    decreases ray_room(at, dir),
{
    let next = shifted(at, dir);
    let ray = ray_targets(board, from, at, dir);
    if on_board(next) && piece_at(board, next) == Piece::Empty {
        let tail = ray_targets(board, from, next, dir);
        lemma_ray_targets_end(board, from, next, dir);
        assert(ray =~= seq![next] + tail);
        assert(ray.len() == tail.len() + 1);
        assert(at.0 + dir.0 + (tail.len() + 1) * dir.0 == at.0 + (ray.len() + 1) * dir.0)
            by (nonlinear_arith)
            requires
                ray.len() == tail.len() + 1,
        ;
        assert(at.1 + dir.1 + (tail.len() + 1) * dir.1 == at.1 + (ray.len() + 1) * dir.1)
            by (nonlinear_arith)
            requires
                ray.len() == tail.len() + 1,
        ;
        if tail.len() > 0 {
            assert(ray.last() == tail.last());
        }
    } else if on_board(next) && piece_at(board, from).opposes(piece_at(board, next)) {
        assert(ray.last() == next);
    } else {
        assert(ray.len() == 0);
        assert((ray.len() + 1) * dir.0 == dir.0 && (ray.len() + 1) * dir.1 == dir.1)
            by (nonlinear_arith)
            requires
                ray.len() == 0,
        ;
    }
}

} // verus!
