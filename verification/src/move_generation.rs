//! The move generator: the moves of each kind of piece, and from them the
//! legal moves of a position.
use crate::attack::{
    attacked_by, direction, direction_at, is_owned, knight_jump, knight_jump_at, line_pins,
};
use crate::board::{
    board_ok, dir_ok, on_board, owned_by, piece_at, sign_of, sign_ok, square_ok, SquareSet, step,
};
use crate::moves::{Move, PieceKind, Special};
use crate::position::ChessState;
use vstd::prelude::*;

verus! {

/// The squares with the code `piece` among the first `n` squares, counted
/// rank by rank from a1.
pub open spec fn squares_with(b: [[i8; 8]; 8], piece: int, n: int) -> Seq<(usize, usize)>
    decreases n,
{
    if n <= 0 {
        Seq::empty()
    } else {
        let r = (n - 1) / 8;
        let c = (n - 1) % 8;
        squares_with(b, piece, n - 1) + (if piece_at(b, r, c) == piece {
            seq![(r as usize, c as usize)]
        } else {
            Seq::empty()
        })
    }
}

/// `(r, c)` is the first square, counted rank by rank from a1, that holds
/// the code `piece`.
pub open spec fn is_first_with(b: [[i8; 8]; 8], piece: int, r: int, c: int) -> bool {
    &&& on_board(r, c)
    &&& piece_at(b, r, c) == piece
    &&& forall|x: int, y: int|
        on_board(x, y) && 8 * x + y < 8 * r + c ==> #[trigger] piece_at(b, x, y) != piece
}

/// The first square that holds the code `piece`, if any does.
pub open spec fn first_with(b: [[i8; 8]; 8], piece: int) -> Option<(usize, usize)> {
    if exists|r: int, c: int| #[trigger] is_first_with(b, piece, r, c) {
        let (r, c) = choose|r: int, c: int| #[trigger] is_first_with(b, piece, r, c);
        Some((r as usize, c as usize))
    } else {
        None
    }
}

/// The squares that a slider of the side `sign` can move to when its next
/// square along the direction `(dr, dc)` is `(x, y)`: the empty squares of
/// the ray in order, then the first occupied one if an enemy stands on it.
pub open spec fn ray_targets(b: [[i8; 8]; 8], sign: int, x: int, y: int, dr: int, dc: int) -> Seq<
    (usize, usize),
>
    decreases
        (if dr > 0 { 8 - x } else if dr < 0 { x + 1 } else if dc > 0 { 8 - y } else { y + 1 }),
{
    if !dir_ok(dr, dc) || !on_board(x, y) {
        Seq::empty()
    } else if piece_at(b, x, y) == 0 {
        seq![(x as usize, y as usize)] + ray_targets(b, sign, x + dr, y + dc, dr, dc)
    } else if owned_by(piece_at(b, x, y), -sign) {
        seq![(x as usize, y as usize)]
    } else {
        Seq::empty()
    }
}

/// Every square of `v` lies on the board.
pub open spec fn squares_ok(v: Seq<(usize, usize)>) -> bool {
    forall|i: int| 0 <= i < v.len() ==> square_ok(#[trigger] v[i])
}

/// The targets of a ray lie on the board, and there are at most seven.
pub proof fn lemma_ray_targets_ok(b: [[i8; 8]; 8], sign: int, x: int, y: int, dr: int, dc: int)
    ensures
        squares_ok(ray_targets(b, sign, x, y, dr, dc)),
        dir_ok(dr, dc) && on_board(x, y) ==> ray_targets(b, sign, x, y, dr, dc).len() <= (if dr > 0 {
            8 - x
        } else if dr < 0 {
            x + 1
        } else if dc > 0 {
            8 - y
        } else {
            y + 1
        }),
        !(dir_ok(dr, dc) && on_board(x, y)) ==> ray_targets(b, sign, x, y, dr, dc).len() == 0,
    decreases
        (if dr > 0 { 8 - x } else if dr < 0 { x + 1 } else if dc > 0 { 8 - y } else { y + 1 }),
{
    if dir_ok(dr, dc) && on_board(x, y) && piece_at(b, x, y) == 0 {
        lemma_ray_targets_ok(b, sign, x + dr, y + dc, dr, dc);
    }
}

/// The pinned pieces of a side, line by line: along the king's file, its
/// rank, the diagonal that rises towards the a-file and the one that rises
/// towards the h-file.
pub ghost struct Pins {
    pub vertical: Seq<(usize, usize)>,
    pub horizontal: Seq<(usize, usize)>,
    pub left: Seq<(usize, usize)>,
    pub right: Seq<(usize, usize)>,
}

/// The line that the `k`-th direction runs along: 0 for a file, 1 for a
/// rank, 2 and 3 for the two diagonals.
pub open spec fn line_of(k: int) -> int {
    k / 2
}

/// Whether the piece on `sq` is pinned along a line other than `line`, and so
/// may not move along `line`. With a `line` that is none of the four, any pin
/// counts.
pub open spec fn pinned_off(pins: Pins, sq: (usize, usize), line: int) -> bool {
    ||| line != 0 && pins.vertical.contains(sq)
    ||| line != 1 && pins.horizontal.contains(sq)
    ||| line != 2 && pins.left.contains(sq)
    ||| line != 3 && pins.right.contains(sq)
}

/// A plain step or capture of the piece `kind` from `from` to `to`.
pub open spec fn step_move(b: [[i8; 8]; 8], from: (usize, usize), to: (usize, usize), kind: PieceKind)
    -> Move {
    Move {
        from,
        to,
        piece: kind,
        capture: piece_at(b, to.0 as int, to.1 as int) != 0,
        promotion: None,
        special: Special::Ordinary,
    }
}

/// The moves of a slider of the side `sign` from `from` along the `k`-th
/// direction, nearest target first.
pub open spec fn ray_moves(b: [[i8; 8]; 8], sign: int, from: (usize, usize), k: int, kind: PieceKind)
    -> Seq<Move> {
    ray_targets(
        b,
        sign,
        from.0 + direction(k).0,
        from.1 + direction(k).1,
        direction(k).0,
        direction(k).1,
    ).map_values(|to: (usize, usize)| step_move(b, from, to, kind))
}

/// The moves of a slider along the line of the directions `k` and `k + 1`:
/// none if the piece is pinned along another line.
pub open spec fn line_moves(
    b: [[i8; 8]; 8],
    sign: int,
    pins: Pins,
    from: (usize, usize),
    k: int,
    kind: PieceKind,
) -> Seq<Move> {
    if pinned_off(pins, from, line_of(k)) {
        Seq::empty()
    } else {
        ray_moves(b, sign, from, k, kind) + ray_moves(b, sign, from, k + 1, kind)
    }
}

/// The moves of the slider on `from` along two lines, those of the
/// directions `first` and `first + 1`, then those of `second` and
/// `second + 1`.
pub open spec fn slider_from(
    b: [[i8; 8]; 8],
    sign: int,
    pins: Pins,
    from: (usize, usize),
    kind: PieceKind,
    first: int,
    second: int,
) -> Seq<Move> {
    line_moves(b, sign, pins, from, first, kind) + line_moves(b, sign, pins, from, second, kind)
}

/// The moves that `per_square` gives for the first `n` squares of `squares`,
/// in order.
pub open spec fn moves_over(
    squares: Seq<(usize, usize)>,
    n: int,
    per_square: spec_fn((usize, usize)) -> Seq<Move>,
) -> Seq<Move>
    decreases n,
{
    if n <= 0 {
        Seq::empty()
    } else {
        moves_over(squares, n - 1, per_square) + per_square(squares[n - 1])
    }
}

/// The moves of the sliders on `squares`: for each square in turn, along the
/// rank and then the file when `straight`, else along the diagonal that
/// rises towards the h-file and then the other one.
pub open spec fn slider_moves(
    b: [[i8; 8]; 8],
    sign: int,
    pins: Pins,
    squares: Seq<(usize, usize)>,
    kind: PieceKind,
    straight: bool,
) -> Seq<Move> {
    moves_over(
        squares,
        squares.len() as int,
        |sq: (usize, usize)|
            slider_from(
                b,
                sign,
                pins,
                sq,
                kind,
                if straight { 2 } else { 6 },
                if straight { 0 } else { 4 },
            ),
    )
}

/// The moves of a knight of the side `sign` on `from` by the first `n`
/// jumps: to every square of the board that holds no friendly piece.
pub open spec fn hop_moves(b: [[i8; 8]; 8], sign: int, from: (usize, usize), n: int) -> Seq<Move>
    decreases n,
{
    if n <= 0 {
        Seq::empty()
    } else {
        let r = from.0 + knight_jump(n - 1).0;
        let c = from.1 + knight_jump(n - 1).1;
        hop_moves(b, sign, from, n - 1) + (if on_board(r, c) && !owned_by(piece_at(b, r, c), sign) {
            seq![step_move(b, from, (r as usize, c as usize), PieceKind::Knight)]
        } else {
            Seq::empty()
        })
    }
}

/// The moves of the knight on `from`: none if it is pinned.
pub open spec fn knight_from(b: [[i8; 8]; 8], sign: int, pins: Pins, from: (usize, usize)) -> Seq<
    Move,
> {
    if pinned_off(pins, from, 4) {
        Seq::empty()
    } else {
        hop_moves(b, sign, from, 8)
    }
}

/// The moves of the knights on `squares`, square by square.
pub open spec fn knight_moves_of(
    b: [[i8; 8]; 8],
    sign: int,
    pins: Pins,
    squares: Seq<(usize, usize)>,
) -> Seq<Move> {
    moves_over(squares, squares.len() as int, |sq: (usize, usize)| knight_from(b, sign, pins, sq))
}

/// The steps of a king of the side `sign` on `from` in the first `n`
/// directions: to every square of the board that holds no friendly piece and
/// is not in `danger`.
pub open spec fn king_steps(
    b: [[i8; 8]; 8],
    sign: int,
    danger: Set<(int, int)>,
    from: (usize, usize),
    n: int,
) -> Seq<Move>
    decreases n,
{
    if n <= 0 {
        Seq::empty()
    } else {
        let r = from.0 + direction(n - 1).0;
        let c = from.1 + direction(n - 1).1;
        king_steps(b, sign, danger, from, n - 1) + (if on_board(r, c) && !danger.contains((r, c))
            && !owned_by(piece_at(b, r, c), sign) {
            seq![step_move(b, from, (r as usize, c as usize), PieceKind::King)]
        } else {
            Seq::empty()
        })
    }
}

/// Whether the side `sign` holds the right to castle on the king's wing, or
/// else on the queen's.
pub open spec fn holds_right(state: ChessState, sign: int, kingside: bool) -> bool {
    if sign > 0 {
        if kingside {
            state.castling.white_kingside
        } else {
            state.castling.white_queenside
        }
    } else {
        if kingside {
            state.castling.black_kingside
        } else {
            state.castling.black_queenside
        }
    }
}

/// Whether the side `sign`, with its king on `from`, may castle on the given
/// wing: it holds the right, king and rook stand on their home squares of the
/// rank `back`, the squares between them are empty, and neither the king's
/// square nor the two squares it crosses and lands on are in `danger`.
pub open spec fn may_castle(
    state: ChessState,
    sign: int,
    danger: Set<(int, int)>,
    from: (usize, usize),
    back: int,
    kingside: bool,
) -> bool {
    let b = state.board;
    &&& holds_right(state, sign, kingside)
    &&& back == (if sign > 0 { 0int } else { 7int })
    &&& from.0 == back && from.1 == 4
    &&& piece_at(b, back, 4) == 6 * sign
    &&& !danger.contains((back, 4))
    &&& if kingside {
        &&& piece_at(b, back, 7) == 2 * sign
        &&& piece_at(b, back, 5) == 0
        &&& piece_at(b, back, 6) == 0
        &&& !danger.contains((back, 5))
        &&& !danger.contains((back, 6))
    } else {
        &&& piece_at(b, back, 0) == 2 * sign
        &&& piece_at(b, back, 1) == 0
        &&& piece_at(b, back, 2) == 0
        &&& piece_at(b, back, 3) == 0
        &&& !danger.contains((back, 3))
        &&& !danger.contains((back, 2))
    }
}

/// The castling move of a king on `from` to the given wing.
pub open spec fn castle_move(from: (usize, usize), kingside: bool) -> Move {
    Move {
        from,
        to: (from.0, if kingside { 6usize } else { 2usize }),
        piece: PieceKind::King,
        capture: false,
        promotion: None,
        special: if kingside { Special::CastleKingside } else { Special::CastleQueenside },
    }
}

/// The castling moves of the side `sign`: kingside first.
pub open spec fn castle_moves(
    state: ChessState,
    sign: int,
    danger: Set<(int, int)>,
    from: (usize, usize),
    back: int,
) -> Seq<Move> {
    (if may_castle(state, sign, danger, from, back, true) {
        seq![castle_move(from, true)]
    } else {
        Seq::empty()
    }) + (if may_castle(state, sign, danger, from, back, false) {
        seq![castle_move(from, false)]
    } else {
        Seq::empty()
    })
}

/// The moves of the king of the side `sign` on `from`: its steps, then its
/// castling moves.
pub open spec fn king_moves_of(
    state: ChessState,
    sign: int,
    danger: Set<(int, int)>,
    from: (usize, usize),
    back: int,
) -> Seq<Move> {
    king_steps(state.board, sign, danger, from, 8) + castle_moves(state, sign, danger, from, back)
}

/// The move `m` as a promotion to `kind`.
pub open spec fn promote_to(m: Move, kind: PieceKind) -> Move {
    Move { promotion: Some(kind), ..m }
}

/// The pawn move `m` as it is played: on the last rank one move for each
/// piece that the pawn may become, rook, bishop, knight, queen in this order;
/// elsewhere the move itself.
pub open spec fn promoted(m: Move, last_rank: bool) -> Seq<Move> {
    if last_rank {
        seq![
            promote_to(m, PieceKind::Rook),
            promote_to(m, PieceKind::Bishop),
            promote_to(m, PieceKind::Knight),
            promote_to(m, PieceKind::Queen),
        ]
    } else {
        seq![m]
    }
}

/// A pawn's push from `from` by one rank or by two.
pub open spec fn push_move(from: (usize, usize), to: (usize, usize), double: bool) -> Move {
    Move {
        from,
        to,
        piece: PieceKind::Pawn,
        capture: false,
        promotion: None,
        special: if double { Special::DoublePawnPush } else { Special::Ordinary },
    }
}

/// A pawn's capture from `from` on `to`, in passing or not.
pub open spec fn pawn_capture(from: (usize, usize), to: (usize, usize), in_passing: bool) -> Move {
    Move {
        from,
        to,
        piece: PieceKind::Pawn,
        capture: true,
        promotion: None,
        special: if in_passing { Special::EnPassantCapture } else { Special::Ordinary },
    }
}

/// The pushes of the pawn on `from`: none if the square ahead is occupied or
/// the pawn is pinned off its file; else the double push from the starting
/// rank if the second square is empty too, then the single push, as a
/// promotion when it reaches the last rank.
pub open spec fn pawn_pushes(b: [[i8; 8]; 8], white: bool, pins: Pins, from: (usize, usize)) -> Seq<
    Move,
> {
    let ahead: int = if white { 1 } else { -1 };
    let start: int = if white { 1 } else { 6 };
    let last: int = if white { 7 } else { 0 };
    let r1 = from.0 + ahead;
    let c = from.1 as int;
    if !on_board(r1, c) || piece_at(b, r1, c) != 0 || pinned_off(pins, from, 0) {
        Seq::empty()
    } else {
        (if from.0 == start && piece_at(b, r1 + ahead, c) == 0 {
            seq![push_move(from, ((r1 + ahead) as usize, from.1), true)]
        } else {
            Seq::empty()
        }) + promoted(push_move(from, (r1 as usize, from.1), false), r1 == last)
    }
}

/// Whether the pawn of the side `white` on `from` may capture in passing
/// towards the file `c1`: the flag of that file is set, the pawn stands on
/// its fifth rank, an enemy pawn stands beside it on that file, and the
/// square behind that pawn is empty.
pub open spec fn may_take_in_passing(state: ChessState, white: bool, from: (usize, usize), c1: int)
    -> bool {
    let ahead: int = if white { 1 } else { -1 };
    &&& on_board(from.0 + ahead, c1)
    &&& state.en_passant[c1]
    &&& from.0 == (if white { 4int } else { 3int })
    &&& piece_at(state.board, from.0 as int, c1) == -ahead
    &&& piece_at(state.board, from.0 + ahead, c1) == 0
}

/// The captures of the pawn on `from` towards the file `from.1 + side`: none
/// if the pawn is pinned off that diagonal; else the capture of an enemy
/// piece, or the capture in passing, as a promotion on the last rank.
pub open spec fn pawn_captures(
    state: ChessState,
    white: bool,
    pins: Pins,
    from: (usize, usize),
    side: int,
) -> Seq<Move> {
    let b = state.board;
    let ahead: int = if white { 1 } else { -1 };
    let last: int = if white { 7 } else { 0 };
    let r1 = from.0 + ahead;
    let c1 = from.1 + side;
    let line: int = if ahead == side { 3 } else { 2 };
    let in_passing = may_take_in_passing(state, white, from, c1);
    if !on_board(r1, c1) || pinned_off(pins, from, line) || !(owned_by(piece_at(b, r1, c1), -ahead)
        || in_passing) {
        Seq::empty()
    } else {
        promoted(pawn_capture(from, (r1 as usize, c1 as usize), in_passing), r1 == last)
    }
}

/// The moves of the pawn on `from`: its pushes, its captures towards the
/// a-file, its captures towards the h-file.
pub open spec fn pawn_from(state: ChessState, white: bool, pins: Pins, from: (usize, usize)) -> Seq<
    Move,
> {
    pawn_pushes(state.board, white, pins, from) + pawn_captures(state, white, pins, from, -1)
        + pawn_captures(state, white, pins, from, 1)
}

/// The moves of the pawns on `squares`, square by square.
pub open spec fn pawn_moves_of(
    state: ChessState,
    white: bool,
    pins: Pins,
    squares: Seq<(usize, usize)>,
) -> Seq<Move> {
    moves_over(squares, squares.len() as int, |sq: (usize, usize)| pawn_from(state, white, pins, sq))
}

/// The danger squares of the side `sign` on the board `b`: the squares that
/// the other side attacks.
pub open spec fn danger_of(b: [[i8; 8]; 8], sign: int) -> Set<(int, int)> {
    Set::new(|sq: (int, int)| on_board(sq.0, sq.1) && attacked_by(b, -sign, sq.0, sq.1))
}

/// The pinned pieces of the side `sign` on the board `b`, with respect to
/// its first king; none if it has no king.
pub open spec fn pins_of(b: [[i8; 8]; 8], sign: int) -> Pins {
    match first_with(b, 6 * sign) {
        Some(k) => Pins {
            vertical: line_pins(b, sign, k.0 as int, k.1 as int, 0),
            horizontal: line_pins(b, sign, k.0 as int, k.1 as int, 2),
            left: line_pins(b, sign, k.0 as int, k.1 as int, 4),
            right: line_pins(b, sign, k.0 as int, k.1 as int, 6),
        },
        None => Pins {
            vertical: Seq::empty(),
            horizontal: Seq::empty(),
            left: Seq::empty(),
            right: Seq::empty(),
        },
    }
}

/// Whether the first king of the side `sign` stands on a square that the
/// other side does not attack. A side without a king is safe.
pub open spec fn king_safe(b: [[i8; 8]; 8], sign: int) -> bool {
    match first_with(b, 6 * sign) {
        Some(k) => !attacked_by(b, -sign, k.0 as int, k.1 as int),
        None => true,
    }
}

impl ChessState {
    /// The side to move is in check.
    pub open spec fn in_check(self) -> bool {
        !king_safe(self.board, self.mover())
    }

    /// The moves of the side to move by the rules of its pieces, pins
    /// respected: those of the pawns, the rooks, the bishops, the queens along
    /// ranks and files, the queens along diagonals, the knights and the king.
    #[verifier::opaque]
    pub open spec fn raw_moves(self) -> Seq<Move> {
        let b = self.board;
        let sign = self.mover();
        let pins = pins_of(b, sign);
        pawn_moves_of(self, self.turn, pins, squares_with(b, sign, 64)) + slider_moves(
            b,
            sign,
            pins,
            squares_with(b, 2 * sign, 64),
            PieceKind::Rook,
            true,
        ) + slider_moves(b, sign, pins, squares_with(b, 4 * sign, 64), PieceKind::Bishop, false)
            + slider_moves(b, sign, pins, squares_with(b, 5 * sign, 64), PieceKind::Queen, true)
            + slider_moves(b, sign, pins, squares_with(b, 5 * sign, 64), PieceKind::Queen, false)
            + knight_moves_of(b, sign, pins, squares_with(b, 3 * sign, 64)) + (match first_with(
            b,
            6 * sign,
        ) {
            Some(k) => king_moves_of(self, sign, danger_of(b, sign), k, if self.turn {
                0
            } else {
                7
            }),
            None => Seq::empty(),
        })
    }

    /// Whether the mover's king is safe once `m` has been played.
    pub open spec fn safe_after(self, m: Move) -> bool {
        king_safe(crate::moves::board_after(self.board, self.turn, m), self.mover())
    }

    /// Whether the raw move `m` is kept as legal. In check, and for a capture
    /// in passing, the move is played and the king must be safe afterwards;
    /// any other move is kept as it is.
    pub open spec fn keeps(self, m: Move) -> bool {
        self.in_check() || m.special is EnPassantCapture ==> self.safe_after(m)
    }

    /// The legal moves of the side to move, in the order of generation.
    #[verifier::opaque]
    pub open spec fn legal_moves(self) -> Seq<Move> {
        self.raw_moves().filter(|m: Move| self.keeps(m))
    }
}

/// Whether `v` holds `sq`.
pub fn holds(v: &Vec<(usize, usize)>, sq: (usize, usize)) -> (found: bool)
    ensures
        found == v@.contains(sq),
{
    let mut i: usize = 0;
    while i < v.len()
        invariant
            i <= v.len(),
            forall|j: int| 0 <= j < i ==> v@[j] != sq,
        decreases v.len() - i,
    {
        if v[i].0 == sq.0 && v[i].1 == sq.1 {
            return true;
        }
        i += 1;
    }
    false
}

impl ChessState {
    /// Every square that holds the code `piece`, rank by rank from a1.
    pub fn find_positions(board: [[i8; 8]; 8], piece: i8) -> (positions: Vec<(usize, usize)>)
        ensures
            positions@ == squares_with(board, piece as int, 64),
            squares_ok(positions@),
            positions@.len() <= 64,
    {
        let mut positions: Vec<(usize, usize)> = Vec::new();
        let mut idx: usize = 0;
        while idx < 8
            invariant
                idx <= 8,
                positions@ == squares_with(board, piece as int, 8 * idx),
                squares_ok(positions@),
                positions@.len() <= 8 * idx,
            decreases 8 - idx,
        {
            let mut jdx: usize = 0;
            while jdx < 8
                invariant
                    idx < 8,
                    jdx <= 8,
                    positions@ == squares_with(board, piece as int, 8 * idx + jdx),
                    squares_ok(positions@),
                    positions@.len() <= 8 * idx + jdx,
                decreases 8 - jdx,
            {
                assert(board[idx as int][jdx as int] == piece_at(board, idx as int, jdx as int));
                assert((8 * idx + jdx + 1 - 1) / 8 == idx && (8 * idx + jdx + 1 - 1) % 8 == jdx);
                if board[idx][jdx] == piece {
                    positions.push((idx, jdx));
                }
                assert(positions@ =~= squares_with(board, piece as int, 8 * idx + jdx + 1));
                jdx += 1;
            }
            idx += 1;
        }
        positions
    }

    /// The first square that holds the code `piece`, rank by rank from a1;
    /// `None` when no square does.
    pub fn find_position(board: [[i8; 8]; 8], piece: i8) -> (position: Option<(usize, usize)>)
        ensures
            position == first_with(board, piece as int),
            position matches Some(sq) ==> square_ok(sq) && is_first_with(
                board,
                piece as int,
                sq.0 as int,
                sq.1 as int,
            ),
            position is None ==> forall|r: int, c: int|
                on_board(r, c) ==> #[trigger] piece_at(board, r, c) != piece,
    {
        let mut idx: usize = 0;
        while idx < 8
            invariant
                idx <= 8,
                forall|x: int, y: int|
                    on_board(x, y) && 8 * x + y < 8 * idx ==> #[trigger] piece_at(board, x, y)
                        != piece,
            decreases 8 - idx,
        {
            let mut jdx: usize = 0;
            while jdx < 8
                invariant
                    idx < 8,
                    jdx <= 8,
                    forall|x: int, y: int|
                        on_board(x, y) && 8 * x + y < 8 * idx + jdx ==> #[trigger] piece_at(
                            board,
                            x,
                            y,
                        ) != piece,
                decreases 8 - jdx,
            {
                assert(board[idx as int][jdx as int] == piece_at(board, idx as int, jdx as int));
                if board[idx][jdx] == piece {
                    proof {
                        assert(is_first_with(board, piece as int, idx as int, jdx as int));
                        let (r, c) = choose|r: int, c: int| #[trigger]
                            is_first_with(board, piece as int, r, c);
                        assert(r == idx && c == jdx);
                    }
                    return Some((idx, jdx));
                }
                jdx += 1;
            }
            idx += 1;
        }
        proof {
            assert forall|r: int, c: int| !#[trigger] is_first_with(board, piece as int, r, c) by {
                if is_first_with(board, piece as int, r, c) {
                    assert(8 * r + c < 64);
                }
            }
        }
        None
    }

    /// The squares that a slider of the side `player` on `position` can move
    /// to along `direction`: it slides over empty squares and stops before a
    /// friendly piece or on an enemy one.
    pub fn directional_moves(
        board: [[i8; 8]; 8],
        position: (usize, usize),
        direction: (i8, i8),
        player: bool,
    ) -> (targets: Vec<(usize, usize)>)
        requires
            square_ok(position),
            dir_ok(direction.0 as int, direction.1 as int),
        ensures
            targets@ == ray_targets(
                board,
                sign_of(player),
                position.0 + direction.0,
                position.1 + direction.1,
                direction.0 as int,
                direction.1 as int,
            ),
            squares_ok(targets@),
            targets@.len() <= 7,
    {
        let coefficient: i8 = if player { 1 } else { -1 };
        let ghost sign = sign_of(player);
        let ghost dr = direction.0 as int;
        let ghost dc = direction.1 as int;
        let ghost all = ray_targets(board, sign, position.0 + dr, position.1 + dc, dr, dc);
        let mut targets: Vec<(usize, usize)> = Vec::new();
        let mut cur: Option<(usize, usize)> = step(position, direction);
        let ghost mut x: int = position.0 + dr;
        let ghost mut y: int = position.1 + dc;
        proof {
            lemma_ray_targets_ok(board, sign, x, y, dr, dc);
        }
        while cur.is_some()
            invariant
                dr == direction.0,
                dc == direction.1,
                dir_ok(dr, dc),
                sign == sign_of(player),
                coefficient == sign,
                cur matches Some(n) ==> n.0 == x && n.1 == y && square_ok(n),
                cur is None ==> ray_targets(board, sign, x, y, dr, dc).len() == 0,
                all == targets@ + ray_targets(board, sign, x, y, dr, dc),
                squares_ok(targets@),
            decreases
                    (if cur is Some { 1int } else { 0int }),
                    (if dr > 0 { 8 - x } else if dr < 0 { x + 1 } else if dc > 0 { 8 - y } else { y + 1 }),
        {
            let n = cur.unwrap();
            let p: i8 = board[n.0][n.1];
            assert(p == piece_at(board, x, y));
            let ghost rest = ray_targets(board, sign, x, y, dr, dc);
            if p == 0 {
                targets.push(n);
                cur = step(n, direction);
                proof {
                    let tail = ray_targets(board, sign, x + dr, y + dc, dr, dc);
                    assert(rest == seq![n] + tail);
                    assert(all =~= targets@ + tail);
                    lemma_ray_targets_ok(board, sign, x + dr, y + dc, dr, dc);
                    x = x + dr;
                    y = y + dc;
                }
            } else {
                if is_owned(p, -coefficient) {
                    targets.push(n);
                    proof {
                        assert(rest == seq![n]);
                    }
                } else {
                    proof {
                        assert(rest == Seq::<(usize, usize)>::empty());
                    }
                }
                cur = None;
                proof {
                    assert(all =~= targets@);
                    x = -1;
                    y = -1;
                }
            }
        }
        proof {
            assert(all =~= targets@);
            lemma_ray_targets_ok(
                board,
                sign,
                position.0 + dr,
                position.1 + dc,
                dr,
                dc,
            );
        }
        targets
    }

    /// Appends to `out` the moves of the slider on `from` along the `k`-th
    /// direction.
    fn push_ray(
        board: [[i8; 8]; 8],
        from: (usize, usize),
        k: usize,
        player: bool,
        piece: PieceKind,
        out: &mut Vec<Move>,
    )
        requires
            square_ok(from),
            k < 8,
        ensures
            final(out)@ == old(out)@ + ray_moves(board, sign_of(player), from, k as int, piece),
            final(out)@.len() <= old(out)@.len() + 7,
    {
        let targets = Self::directional_moves(board, from, direction_at(k), player);
        let ghost made = |to: (usize, usize)| step_move(board, from, to, piece);
        let mut i: usize = 0;
        while i < targets.len()
            invariant
                i <= targets.len(),
                squares_ok(targets@),
                made == |to: (usize, usize)| step_move(board, from, to, piece),
                out@ == old(out)@ + targets@.take(i as int).map_values(made),
            decreases targets.len() - i,
        {
            let to = targets[i];
            assert(board[to.0 as int][to.1 as int] == piece_at(board, to.0 as int, to.1 as int));
            out.push(
                Move {
                    from,
                    to,
                    piece,
                    capture: board[to.0][to.1] != 0,
                    promotion: None,
                    special: Special::Ordinary,
                },
            );
            assert(targets@.take(i + 1).map_values(made) =~= targets@.take(i as int).map_values(
                made,
            ).push(made(to)));
            i += 1;
        }
        assert(targets@.take(targets.len() as int) =~= targets@);
    }

    /// Appends to `out` the moves of the slider on `from` along the line of
    /// the directions `k` and `k + 1`, unless it is pinned along another line.
    fn push_line(
        board: [[i8; 8]; 8],
        vertical_pin: &Vec<(usize, usize)>,
        horisontal_pin: &Vec<(usize, usize)>,
        left_diagonal_pin: &Vec<(usize, usize)>,
        right_diagonal_pin: &Vec<(usize, usize)>,
        from: (usize, usize),
        k: usize,
        player: bool,
        piece: PieceKind,
        out: &mut Vec<Move>,
    )
        requires
            square_ok(from),
            k < 7,
        ensures
            final(out)@ == old(out)@ + line_moves(
                board,
                sign_of(player),
                Pins {
                    vertical: vertical_pin@,
                    horizontal: horisontal_pin@,
                    left: left_diagonal_pin@,
                    right: right_diagonal_pin@,
                },
                from,
                k as int,
                piece,
            ),
            final(out)@.len() <= old(out)@.len() + 14,
    {
        let line: usize = k / 2;
        let pinned: bool = (line != 0 && holds(vertical_pin, from)) || (line != 1 && holds(
            horisontal_pin,
            from,
        )) || (line != 2 && holds(left_diagonal_pin, from)) || (line != 3 && holds(
            right_diagonal_pin,
            from,
        ));
        if !pinned {
            Self::push_ray(board, from, k, player, piece, out);
            Self::push_ray(board, from, k + 1, player, piece, out);
            assert(out@ =~= old(out)@ + (ray_moves(board, sign_of(player), from, k as int, piece)
                + ray_moves(board, sign_of(player), from, k + 1, piece)));
        } else {
            assert(out@ =~= old(out)@ + Seq::<Move>::empty());
        }
    }

    /// The moves of the sliders on `squares` along two lines each.
    fn slide(
        board: [[i8; 8]; 8],
        vertical_pin: &Vec<(usize, usize)>,
        horisontal_pin: &Vec<(usize, usize)>,
        left_diagonal_pin: &Vec<(usize, usize)>,
        right_diagonal_pin: &Vec<(usize, usize)>,
        squares: &Vec<(usize, usize)>,
        player: bool,
        piece: PieceKind,
        straight: bool,
    ) -> (all_moves: Vec<Move>)
        requires
            squares_ok(squares@),
        ensures
            all_moves@ == slider_moves(
                board,
                sign_of(player),
                Pins {
                    vertical: vertical_pin@,
                    horizontal: horisontal_pin@,
                    left: left_diagonal_pin@,
                    right: right_diagonal_pin@,
                },
                squares@,
                piece,
                straight,
            ),
            all_moves@.len() <= 28 * squares@.len(),
    {
        let ghost pins = Pins {
            vertical: vertical_pin@,
            horizontal: horisontal_pin@,
            left: left_diagonal_pin@,
            right: right_diagonal_pin@,
        };
        let first: usize = if straight { 2 } else { 6 };
        let second: usize = if straight { 0 } else { 4 };
        let ghost per_square = |sq: (usize, usize)|
            slider_from(
                board,
                sign_of(player),
                pins,
                sq,
                piece,
                if straight { 2 } else { 6 },
                if straight { 0 } else { 4 },
            );
        let mut all_moves: Vec<Move> = Vec::new();
        let mut i: usize = 0;
        while i < squares.len()
            invariant
                i <= squares.len(),
                squares_ok(squares@),
                first == (if straight { 2int } else { 6int }),
                second == (if straight { 0int } else { 4int }),
                pins == (Pins {
                    vertical: vertical_pin@,
                    horizontal: horisontal_pin@,
                    left: left_diagonal_pin@,
                    right: right_diagonal_pin@,
                }),
                per_square == |sq: (usize, usize)|
                    slider_from(
                        board,
                        sign_of(player),
                        pins,
                        sq,
                        piece,
                        if straight { 2 } else { 6 },
                        if straight { 0 } else { 4 },
                    ),
                all_moves@ == moves_over(squares@, i as int, per_square),
                all_moves@.len() <= 28 * i,
            decreases squares.len() - i,
        {
            let from = squares[i];
            let ghost before = all_moves@;
            Self::push_line(
                board,
                vertical_pin,
                horisontal_pin,
                left_diagonal_pin,
                right_diagonal_pin,
                from,
                first,
                player,
                piece,
                &mut all_moves,
            );
            Self::push_line(
                board,
                vertical_pin,
                horisontal_pin,
                left_diagonal_pin,
                right_diagonal_pin,
                from,
                second,
                player,
                piece,
                &mut all_moves,
            );
            assert(all_moves@ =~= before + per_square(from));
            i += 1;
        }
        all_moves
    }

    /// The moves of the pieces on `s_pos` along ranks and files: for each
    /// square in turn, along the rank and then along the file. A piece pinned
    /// along a line moves along that line only.
    ///
    /// The side is the one that `player` names; `coefficient`, its sign, is
    /// taken for the sake of a uniform call and not looked at.
    pub fn straight_moves(
        state: &ChessState,
        coefficient: i8,
        vertical_pin: &Vec<(usize, usize)>,
        horisontal_pin: &Vec<(usize, usize)>,
        left_diagonal_pin: &Vec<(usize, usize)>,
        right_diagonal_pin: &Vec<(usize, usize)>,
        s_pos: &Vec<(usize, usize)>,
        player: bool,
        piece: PieceKind,
    ) -> (all_moves: Vec<Move>)
        requires
            squares_ok(s_pos@),
        ensures
            all_moves@ == slider_moves(
                state.board,
                sign_of(player),
                Pins {
                    vertical: vertical_pin@,
                    horizontal: horisontal_pin@,
                    left: left_diagonal_pin@,
                    right: right_diagonal_pin@,
                },
                s_pos@,
                piece,
                true,
            ),
            forall|m: Move|
                #[trigger] all_moves@.contains(m) <==> crate::rules::is_slider_move(
                    state.board,
                    sign_of(player),
                    Pins {
                    vertical: vertical_pin@,
                    horizontal: horisontal_pin@,
                    left: left_diagonal_pin@,
                    right: right_diagonal_pin@,
                },
                    s_pos@,
                    piece,
                    true,
                    m,
                ),
            all_moves@.len() <= 28 * s_pos@.len(),
    {
        proof {
            assert forall|m: Move|
                #[trigger] slider_moves(
                    state.board,
                    sign_of(player),
                    Pins {
                    vertical: vertical_pin@,
                    horizontal: horisontal_pin@,
                    left: left_diagonal_pin@,
                    right: right_diagonal_pin@,
                },
                    s_pos@,
                    piece,
                    true,
                ).contains(m) <==> crate::rules::is_slider_move(
                    state.board,
                    sign_of(player),
                    Pins {
                    vertical: vertical_pin@,
                    horizontal: horisontal_pin@,
                    left: left_diagonal_pin@,
                    right: right_diagonal_pin@,
                },
                    s_pos@,
                    piece,
                    true,
                    m,
                ) by {
                crate::complete::lemma_slider_moves_iff(
                    state.board,
                    sign_of(player),
                    Pins {
                    vertical: vertical_pin@,
                    horizontal: horisontal_pin@,
                    left: left_diagonal_pin@,
                    right: right_diagonal_pin@,
                },
                    s_pos@,
                    piece,
                    true,
                    m,
                );
            }
        }
        Self::slide(
            state.board,
            vertical_pin,
            horisontal_pin,
            left_diagonal_pin,
            right_diagonal_pin,
            s_pos,
            player,
            piece,
            true,
        )
    }

    /// The moves of the pieces on `d_pos` along diagonals: for each square in
    /// turn, along the diagonal that rises towards the h-file and then along
    /// the other one. A piece pinned along a line moves along that line only.
    ///
    /// The side is the one that `player` names; `coefficient`, its sign, is
    /// taken for the sake of a uniform call and not looked at.
    pub fn diagonal_moves(
        state: &ChessState,
        coefficient: i8,
        vertical_pin: &Vec<(usize, usize)>,
        horisontal_pin: &Vec<(usize, usize)>,
        left_diagonal_pin: &Vec<(usize, usize)>,
        right_diagonal_pin: &Vec<(usize, usize)>,
        d_pos: &Vec<(usize, usize)>,
        player: bool,
        piece: PieceKind,
    ) -> (all_moves: Vec<Move>)
        requires
            squares_ok(d_pos@),
        ensures
            all_moves@ == slider_moves(
                state.board,
                sign_of(player),
                Pins {
                    vertical: vertical_pin@,
                    horizontal: horisontal_pin@,
                    left: left_diagonal_pin@,
                    right: right_diagonal_pin@,
                },
                d_pos@,
                piece,
                false,
            ),
            forall|m: Move|
                #[trigger] all_moves@.contains(m) <==> crate::rules::is_slider_move(
                    state.board,
                    sign_of(player),
                    Pins {
                    vertical: vertical_pin@,
                    horizontal: horisontal_pin@,
                    left: left_diagonal_pin@,
                    right: right_diagonal_pin@,
                },
                    d_pos@,
                    piece,
                    false,
                    m,
                ),
            all_moves@.len() <= 28 * d_pos@.len(),
    {
        proof {
            assert forall|m: Move|
                #[trigger] slider_moves(
                    state.board,
                    sign_of(player),
                    Pins {
                    vertical: vertical_pin@,
                    horizontal: horisontal_pin@,
                    left: left_diagonal_pin@,
                    right: right_diagonal_pin@,
                },
                    d_pos@,
                    piece,
                    false,
                ).contains(m) <==> crate::rules::is_slider_move(
                    state.board,
                    sign_of(player),
                    Pins {
                    vertical: vertical_pin@,
                    horizontal: horisontal_pin@,
                    left: left_diagonal_pin@,
                    right: right_diagonal_pin@,
                },
                    d_pos@,
                    piece,
                    false,
                    m,
                ) by {
                crate::complete::lemma_slider_moves_iff(
                    state.board,
                    sign_of(player),
                    Pins {
                    vertical: vertical_pin@,
                    horizontal: horisontal_pin@,
                    left: left_diagonal_pin@,
                    right: right_diagonal_pin@,
                },
                    d_pos@,
                    piece,
                    false,
                    m,
                );
            }
        }
        Self::slide(
            state.board,
            vertical_pin,
            horisontal_pin,
            left_diagonal_pin,
            right_diagonal_pin,
            d_pos,
            player,
            piece,
            false,
        )
    }

    /// The moves of the knights on `n_pos`, square by square and jump by
    /// jump. A knight that is pinned along any line does not move.
    pub fn knight_moves(
        state: &ChessState,
        coefficient: i8,
        vertical_pin: &Vec<(usize, usize)>,
        horisontal_pin: &Vec<(usize, usize)>,
        left_diagonal_pin: &Vec<(usize, usize)>,
        right_diagonal_pin: &Vec<(usize, usize)>,
        n_pos: &Vec<(usize, usize)>,
    ) -> (all_moves: Vec<Move>)
        requires
            sign_ok(coefficient as int),
            squares_ok(n_pos@),
        ensures
            all_moves@ == knight_moves_of(
                state.board,
                coefficient as int,
                Pins {
                    vertical: vertical_pin@,
                    horizontal: horisontal_pin@,
                    left: left_diagonal_pin@,
                    right: right_diagonal_pin@,
                },
                n_pos@,
            ),
            forall|m: Move|
                #[trigger] all_moves@.contains(m) <==> crate::rules::is_knight_move(
                    state.board,
                    coefficient as int,
                    Pins {
                    vertical: vertical_pin@,
                    horizontal: horisontal_pin@,
                    left: left_diagonal_pin@,
                    right: right_diagonal_pin@,
                },
                    n_pos@,
                    m,
                ),
            all_moves@.len() <= 8 * n_pos@.len(),
    {
        let ghost pins = Pins {
            vertical: vertical_pin@,
            horizontal: horisontal_pin@,
            left: left_diagonal_pin@,
            right: right_diagonal_pin@,
        };
        let board = state.board;
        let ghost sign = coefficient as int;
        let ghost per_square = |sq: (usize, usize)| knight_from(state.board, sign, pins, sq);
        let mut all_moves: Vec<Move> = Vec::new();
        let mut i: usize = 0;
        while i < n_pos.len()
            invariant
                i <= n_pos.len(),
                squares_ok(n_pos@),
                board == state.board,
                sign == coefficient,
                pins == (Pins {
                    vertical: vertical_pin@,
                    horizontal: horisontal_pin@,
                    left: left_diagonal_pin@,
                    right: right_diagonal_pin@,
                }),
                per_square == |sq: (usize, usize)| knight_from(state.board, sign, pins, sq),
                all_moves@ == moves_over(n_pos@, i as int, per_square),
                all_moves@.len() <= 8 * i,
            decreases n_pos.len() - i,
        {
            let from = n_pos[i];
            let ghost before = all_moves@;
            let pinned: bool = holds(vertical_pin, from) || holds(horisontal_pin, from) || holds(
                left_diagonal_pin,
                from,
            ) || holds(right_diagonal_pin, from);
            if !pinned {
                let mut j: usize = 0;
                while j < 8
                    invariant
                        j <= 8,
                        square_ok(from),
                        board == state.board,
                        all_moves@ == before + hop_moves(board, sign, from, j as int),
                        all_moves@.len() <= before.len() + j,
                        sign == coefficient,
                    decreases 8 - j,
                {
                    if let Some(to) = step(from, knight_jump_at(j)) {
                        let q: i8 = board[to.0][to.1];
                        assert(q == piece_at(board, to.0 as int, to.1 as int));
                        if !is_owned(q, coefficient) {
                            all_moves.push(
                                Move {
                                    from,
                                    to,
                                    piece: PieceKind::Knight,
                                    capture: q != 0,
                                    promotion: None,
                                    special: Special::Ordinary,
                                },
                            );
                        }
                    }
                    assert(all_moves@ =~= before + hop_moves(board, sign, from, j + 1));
                    j += 1;
                }
            }
            assert(all_moves@ =~= before + per_square(from));
            i += 1;
        }
        proof {
            assert forall|m: Move|
                #[trigger] all_moves@.contains(m) <==> crate::rules::is_knight_move(
                    state.board,
                    sign,
                    pins,
                    n_pos@,
                    m,
                ) by {
                crate::complete::lemma_knight_moves_iff(*state, sign, pins, n_pos@, m);
            }
        }
        all_moves
    }

    /// The moves of the king of the side `coefficient` on `k_pos`: its steps
    /// to squares that hold no friendly piece and are not in
    /// `danger_squares`, then castling on the king's wing and on the queen's.
    ///
    /// Castling needs the right, king and rook on their home squares of the
    /// rank `back_rank`, empty squares between them, and a king that neither
    /// stands on, crosses nor lands on a danger square.
    pub fn king_moves(
        state: &ChessState,
        coefficient: i8,
        danger_squares: &SquareSet,
        k_pos: (usize, usize),
        back_rank: usize,
    ) -> (all_moves: Vec<Move>)
        requires
            sign_ok(coefficient as int),
            square_ok(k_pos),
        ensures
            all_moves@ == king_moves_of(
                *state,
                coefficient as int,
                danger_squares@,
                k_pos,
                back_rank as int,
            ),
            forall|m: Move|
                #[trigger] all_moves@.contains(m) <==> crate::rules::is_king_move(
                    *state,
                    coefficient as int,
                    danger_squares@,
                    k_pos,
                    back_rank as int,
                    m,
                ),
            all_moves@.len() <= 10,
    {
        let board = state.board;
        let ghost sign = coefficient as int;
        let ghost danger = danger_squares@;
        let mut all_moves: Vec<Move> = Vec::new();
        let mut j: usize = 0;
        while j < 8
            invariant
                j <= 8,
                square_ok(k_pos),
                board == state.board,
                sign == coefficient,
                danger == danger_squares@,
                all_moves@ == king_steps(board, sign, danger, k_pos, j as int),
                all_moves@.len() <= j,
            decreases 8 - j,
        {
            if let Some(to) = step(k_pos, direction_at(j)) {
                let q: i8 = board[to.0][to.1];
                assert(q == piece_at(board, to.0 as int, to.1 as int));
                if !danger_squares.contains(&to) && !is_owned(q, coefficient) {
                    all_moves.push(
                        Move {
                            from: k_pos,
                            to,
                            piece: PieceKind::King,
                            capture: q != 0,
                            promotion: None,
                            special: Special::Ordinary,
                        },
                    );
                }
            }
            assert(all_moves@ =~= king_steps(board, sign, danger, k_pos, j + 1));
            j += 1;
        }
        let white: bool = coefficient > 0;
        let home: usize = if white { 0 } else { 7 };
        let king: i8 = if white { 6 } else { -6 };
        let rook: i8 = if white { 2 } else { -2 };
        let ghost steps = all_moves@;
        if back_rank == home && k_pos.0 == home && k_pos.1 == 4 && board[home][4] == king
            && !danger_squares.contains(&(home, 4)) {
            let kingside_right: bool = if white {
                state.castling.white_kingside
            } else {
                state.castling.black_kingside
            };
            let queenside_right: bool = if white {
                state.castling.white_queenside
            } else {
                state.castling.black_queenside
            };
            assert(forall|c: int| 0 <= c < 8 ==> board[home as int][c] == piece_at(board, home as int, c));
            if kingside_right && board[home][7] == rook && board[home][5] == 0 && board[home][6]
                == 0 && !danger_squares.contains(&(home, 5)) && !danger_squares.contains(
                &(home, 6),
            ) {
                all_moves.push(
                    Move {
                        from: k_pos,
                        to: (home, 6),
                        piece: PieceKind::King,
                        capture: false,
                        promotion: None,
                        special: Special::CastleKingside,
                    },
                );
            }
            if queenside_right && board[home][0] == rook && board[home][1] == 0 && board[home][2]
                == 0 && board[home][3] == 0 && !danger_squares.contains(&(home, 3))
                && !danger_squares.contains(&(home, 2)) {
                all_moves.push(
                    Move {
                        from: k_pos,
                        to: (home, 2),
                        piece: PieceKind::King,
                        capture: false,
                        promotion: None,
                        special: Special::CastleQueenside,
                    },
                );
            }
        }
        assert(all_moves@ =~= steps + castle_moves(*state, sign, danger, k_pos, back_rank as int));
        proof {
            assert forall|m: Move|
                #[trigger] all_moves@.contains(m) <==> crate::rules::is_king_move(
                    *state,
                    sign,
                    danger,
                    k_pos,
                    back_rank as int,
                    m,
                ) by {
                crate::complete::lemma_king_moves_iff(*state, sign, danger, k_pos, back_rank as int, m);
            }
        }
        all_moves
    }

    /// Appends to `out` the pawn move `m`, as four promotions when it reaches
    /// the last rank.
    fn push_promoted(m: Move, last_rank: bool, out: &mut Vec<Move>)
        ensures
            final(out)@ == old(out)@ + promoted(m, last_rank),
            final(out)@.len() <= old(out)@.len() + 4,
    {
        if last_rank {
            out.push(Move { promotion: Some(PieceKind::Rook), ..m });
            out.push(Move { promotion: Some(PieceKind::Bishop), ..m });
            out.push(Move { promotion: Some(PieceKind::Knight), ..m });
            out.push(Move { promotion: Some(PieceKind::Queen), ..m });
        } else {
            out.push(m);
        }
        assert(out@ =~= old(out)@ + promoted(m, last_rank));
    }

    /// Appends to `out` the pushes of the pawn on `from`.
    fn push_pawn_pushes(
        board: [[i8; 8]; 8],
        white: bool,
        vertical_pin: &Vec<(usize, usize)>,
        horisontal_pin: &Vec<(usize, usize)>,
        left_diagonal_pin: &Vec<(usize, usize)>,
        right_diagonal_pin: &Vec<(usize, usize)>,
        from: (usize, usize),
        out: &mut Vec<Move>,
    )
        requires
            square_ok(from),
        ensures
            final(out)@ == old(out)@ + pawn_pushes(
                board,
                white,
                Pins {
                    vertical: vertical_pin@,
                    horizontal: horisontal_pin@,
                    left: left_diagonal_pin@,
                    right: right_diagonal_pin@,
                },
                from,
            ),
            final(out)@.len() <= old(out)@.len() + 5,
    {
        let ghost pins = Pins {
            vertical: vertical_pin@,
            horizontal: horisontal_pin@,
            left: left_diagonal_pin@,
            right: right_diagonal_pin@,
        };
        let ahead: i8 = if white { 1 } else { -1 };
        let start: usize = if white { 1 } else { 6 };
        let last: usize = if white { 7 } else { 0 };
        if let Some(to) = step(from, (ahead, 0)) {
            let off_file: bool = holds(horisontal_pin, from) || holds(left_diagonal_pin, from)
                || holds(right_diagonal_pin, from);
            assert(board[to.0 as int][to.1 as int] == piece_at(board, to.0 as int, to.1 as int));
            if board[to.0][to.1] == 0 && !off_file {
                if from.0 == start {
                    if let Some(far) = step(to, (ahead, 0)) {
                        assert(board[far.0 as int][far.1 as int] == piece_at(
                            board,
                            far.0 as int,
                            far.1 as int,
                        ));
                        if board[far.0][far.1] == 0 {
                            out.push(
                                Move {
                                    from,
                                    to: far,
                                    piece: PieceKind::Pawn,
                                    capture: false,
                                    promotion: None,
                                    special: Special::DoublePawnPush,
                                },
                            );
                        }
                    }
                }
                Self::push_promoted(
                    Move {
                        from,
                        to,
                        piece: PieceKind::Pawn,
                        capture: false,
                        promotion: None,
                        special: Special::Ordinary,
                    },
                    to.0 == last,
                    out,
                );
                assert(out@ =~= old(out)@ + pawn_pushes(board, white, pins, from));
                return ;
            }
        }
        assert(out@ =~= old(out)@ + pawn_pushes(board, white, pins, from));
    }

    /// Appends to `out` the captures of the pawn on `from` towards the file
    /// on the given side, `-1` for the a-file and `1` for the h-file.
    fn push_pawn_captures(
        state: &ChessState,
        white: bool,
        vertical_pin: &Vec<(usize, usize)>,
        horisontal_pin: &Vec<(usize, usize)>,
        left_diagonal_pin: &Vec<(usize, usize)>,
        right_diagonal_pin: &Vec<(usize, usize)>,
        from: (usize, usize),
        side: i8,
        out: &mut Vec<Move>,
    )
        requires
            square_ok(from),
            side == 1 || side == -1,
        ensures
            final(out)@ == old(out)@ + pawn_captures(
                *state,
                white,
                Pins {
                    vertical: vertical_pin@,
                    horizontal: horisontal_pin@,
                    left: left_diagonal_pin@,
                    right: right_diagonal_pin@,
                },
                from,
                side as int,
            ),
            final(out)@.len() <= old(out)@.len() + 4,
    {
        let ahead: i8 = if white { 1 } else { -1 };
        let last: usize = if white { 7 } else { 0 };
        let fifth: usize = if white { 4 } else { 3 };
        let ghost pins = Pins {
            vertical: vertical_pin@,
            horizontal: horisontal_pin@,
            left: left_diagonal_pin@,
            right: right_diagonal_pin@,
        };
        if let Some(to) = step(from, (ahead, side)) {
            let pinned: bool = holds(vertical_pin, from) || holds(horisontal_pin, from) || (if ahead
                == side {
                holds(left_diagonal_pin, from)
            } else {
                holds(right_diagonal_pin, from)
            });
            let q: i8 = state.board[to.0][to.1];
            let beside: i8 = state.board[from.0][to.1];
            assert(q == piece_at(state.board, to.0 as int, to.1 as int));
            assert(beside == piece_at(state.board, from.0 as int, to.1 as int));
            let in_passing: bool = state.en_passant[to.1] && from.0 == fifth && beside == -ahead
                && q == 0;
            assert(in_passing == may_take_in_passing(*state, white, from, to.1 as int));
            if !pinned && (is_owned(q, -ahead) || in_passing) {
                Self::push_promoted(
                    Move {
                        from,
                        to,
                        piece: PieceKind::Pawn,
                        capture: true,
                        promotion: None,
                        special: if in_passing {
                            Special::EnPassantCapture
                        } else {
                            Special::Ordinary
                        },
                    },
                    to.0 == last,
                    out,
                );
                return ;
            }
        }
        assert(out@ =~= old(out)@ + Seq::<Move>::empty());
    }

    /// Appends to `out` the moves of the pawn on `from`.
    fn push_pawn_from(
        state: &ChessState,
        white: bool,
        vertical_pin: &Vec<(usize, usize)>,
        horisontal_pin: &Vec<(usize, usize)>,
        left_diagonal_pin: &Vec<(usize, usize)>,
        right_diagonal_pin: &Vec<(usize, usize)>,
        from: (usize, usize),
        out: &mut Vec<Move>,
    )
        requires
            square_ok(from),
        ensures
            final(out)@ == old(out)@ + pawn_from(
                *state,
                white,
                Pins {
                    vertical: vertical_pin@,
                    horizontal: horisontal_pin@,
                    left: left_diagonal_pin@,
                    right: right_diagonal_pin@,
                },
                from,
            ),
            final(out)@.len() <= old(out)@.len() + 13,
    {
        let ghost pins = Pins {
            vertical: vertical_pin@,
            horizontal: horisontal_pin@,
            left: left_diagonal_pin@,
            right: right_diagonal_pin@,
        };
        Self::push_pawn_pushes(
            state.board,
            white,
            vertical_pin,
            horisontal_pin,
            left_diagonal_pin,
            right_diagonal_pin,
            from,
            out,
        );
        Self::push_pawn_captures(
            state,
            white,
            vertical_pin,
            horisontal_pin,
            left_diagonal_pin,
            right_diagonal_pin,
            from,
            -1,
            out,
        );
        Self::push_pawn_captures(
            state,
            white,
            vertical_pin,
            horisontal_pin,
            left_diagonal_pin,
            right_diagonal_pin,
            from,
            1,
            out,
        );
        assert(out@ =~= old(out)@ + (pawn_pushes(state.board, white, pins, from) + pawn_captures(
            *state,
            white,
            pins,
            from,
            -1,
        ) + pawn_captures(*state, white, pins, from, 1)));
    }

    /// The moves of the pawns of one side on `p_pos`.
    fn pawn_moves(
        state: &ChessState,
        white: bool,
        vertical_pin: &Vec<(usize, usize)>,
        horisontal_pin: &Vec<(usize, usize)>,
        left_diagonal_pin: &Vec<(usize, usize)>,
        right_diagonal_pin: &Vec<(usize, usize)>,
        p_pos: &Vec<(usize, usize)>,
    ) -> (all_moves: Vec<Move>)
        requires
            squares_ok(p_pos@),
        ensures
            all_moves@ == pawn_moves_of(
                *state,
                white,
                Pins {
                    vertical: vertical_pin@,
                    horizontal: horisontal_pin@,
                    left: left_diagonal_pin@,
                    right: right_diagonal_pin@,
                },
                p_pos@,
            ),
            all_moves@.len() <= 13 * p_pos@.len(),
    {
        let ghost pins = Pins {
            vertical: vertical_pin@,
            horizontal: horisontal_pin@,
            left: left_diagonal_pin@,
            right: right_diagonal_pin@,
        };
        let ghost per_square = |sq: (usize, usize)| pawn_from(*state, white, pins, sq);
        let mut all_moves: Vec<Move> = Vec::new();
        let mut i: usize = 0;
        while i < p_pos.len()
            invariant
                i <= p_pos.len(),
                squares_ok(p_pos@),
                pins == (Pins {
                    vertical: vertical_pin@,
                    horizontal: horisontal_pin@,
                    left: left_diagonal_pin@,
                    right: right_diagonal_pin@,
                }),
                per_square == |sq: (usize, usize)| pawn_from(*state, white, pins, sq),
                all_moves@ == moves_over(p_pos@, i as int, per_square),
                all_moves@.len() <= 13 * i,
            decreases p_pos.len() - i,
        {
            let from = p_pos[i];
            let ghost before = all_moves@;
            Self::push_pawn_from(
                state,
                white,
                vertical_pin,
                horisontal_pin,
                left_diagonal_pin,
                right_diagonal_pin,
                from,
                &mut all_moves,
            );
            assert(per_square(from) == pawn_from(*state, white, pins, from));
            i += 1;
        }
        all_moves
    }

    /// The moves of the white pawns on `p_pos`, square by square: pushes,
    /// captures towards the a-file, captures towards the h-file. A pinned
    /// pawn moves along the line of its pin only.
    ///
    /// The sign `coefficient` is taken for the sake of a uniform call and
    /// not looked at: the pawns are white.
    pub fn white_pawn_moves(
        state: &ChessState,
        coefficient: i8,
        vertical_pin: &Vec<(usize, usize)>,
        horisontal_pin: &Vec<(usize, usize)>,
        left_diagonal_pin: &Vec<(usize, usize)>,
        right_diagonal_pin: &Vec<(usize, usize)>,
        p_pos: &Vec<(usize, usize)>,
    ) -> (all_moves: Vec<Move>)
        requires
            squares_ok(p_pos@),
        ensures
            all_moves@ == pawn_moves_of(
                *state,
                true,
                Pins {
                    vertical: vertical_pin@,
                    horizontal: horisontal_pin@,
                    left: left_diagonal_pin@,
                    right: right_diagonal_pin@,
                },
                p_pos@,
            ),
            forall|m: Move|
                #[trigger] all_moves@.contains(m) <==> crate::rules::is_pawn_move(
                    *state,
                    true,
                    Pins {
                    vertical: vertical_pin@,
                    horizontal: horisontal_pin@,
                    left: left_diagonal_pin@,
                    right: right_diagonal_pin@,
                },
                    p_pos@,
                    m,
                ),
            all_moves@.len() <= 13 * p_pos@.len(),
    {
        proof {
            assert forall|m: Move|
                #[trigger] pawn_moves_of(
                    *state,
                    true,
                    Pins {
                    vertical: vertical_pin@,
                    horizontal: horisontal_pin@,
                    left: left_diagonal_pin@,
                    right: right_diagonal_pin@,
                },
                    p_pos@,
                ).contains(m) <==> crate::rules::is_pawn_move(
                    *state,
                    true,
                    Pins {
                    vertical: vertical_pin@,
                    horizontal: horisontal_pin@,
                    left: left_diagonal_pin@,
                    right: right_diagonal_pin@,
                },
                    p_pos@,
                    m,
                ) by {
                crate::complete::lemma_pawn_moves_iff(
                    *state,
                    true,
                    Pins {
                    vertical: vertical_pin@,
                    horizontal: horisontal_pin@,
                    left: left_diagonal_pin@,
                    right: right_diagonal_pin@,
                },
                    p_pos@,
                    m,
                );
            }
        }
        Self::pawn_moves(
            state,
            true,
            vertical_pin,
            horisontal_pin,
            left_diagonal_pin,
            right_diagonal_pin,
            p_pos,
        )
    }

    /// The moves of the black pawns on `p_pos`, square by square: pushes,
    /// captures towards the a-file, captures towards the h-file. A pinned
    /// pawn moves along the line of its pin only.
    ///
    /// The sign `coefficient` is taken for the sake of a uniform call and
    /// not looked at: the pawns are black.
    pub fn black_pawn_moves(
        state: &ChessState,
        coefficient: i8,
        vertical_pin: &Vec<(usize, usize)>,
        horisontal_pin: &Vec<(usize, usize)>,
        left_diagonal_pin: &Vec<(usize, usize)>,
        right_diagonal_pin: &Vec<(usize, usize)>,
        p_pos: &Vec<(usize, usize)>,
    ) -> (all_moves: Vec<Move>)
        requires
            squares_ok(p_pos@),
        ensures
            all_moves@ == pawn_moves_of(
                *state,
                false,
                Pins {
                    vertical: vertical_pin@,
                    horizontal: horisontal_pin@,
                    left: left_diagonal_pin@,
                    right: right_diagonal_pin@,
                },
                p_pos@,
            ),
            forall|m: Move|
                #[trigger] all_moves@.contains(m) <==> crate::rules::is_pawn_move(
                    *state,
                    false,
                    Pins {
                    vertical: vertical_pin@,
                    horizontal: horisontal_pin@,
                    left: left_diagonal_pin@,
                    right: right_diagonal_pin@,
                },
                    p_pos@,
                    m,
                ),
            all_moves@.len() <= 13 * p_pos@.len(),
    {
        proof {
            assert forall|m: Move|
                #[trigger] pawn_moves_of(
                    *state,
                    false,
                    Pins {
                    vertical: vertical_pin@,
                    horizontal: horisontal_pin@,
                    left: left_diagonal_pin@,
                    right: right_diagonal_pin@,
                },
                    p_pos@,
                ).contains(m) <==> crate::rules::is_pawn_move(
                    *state,
                    false,
                    Pins {
                    vertical: vertical_pin@,
                    horizontal: horisontal_pin@,
                    left: left_diagonal_pin@,
                    right: right_diagonal_pin@,
                },
                    p_pos@,
                    m,
                ) by {
                crate::complete::lemma_pawn_moves_iff(
                    *state,
                    false,
                    Pins {
                    vertical: vertical_pin@,
                    horizontal: horisontal_pin@,
                    left: left_diagonal_pin@,
                    right: right_diagonal_pin@,
                },
                    p_pos@,
                    m,
                );
            }
        }
        Self::pawn_moves(
            state,
            false,
            vertical_pin,
            horisontal_pin,
            left_diagonal_pin,
            right_diagonal_pin,
            p_pos,
        )
    }

    /// Whether the first king of the side `coefficient` stands on a square
    /// that the other side does not attack.
    pub fn king_is_safe(board: [[i8; 8]; 8], coefficient: i8) -> (safe: bool)
        requires
            board_ok(board),
            sign_ok(coefficient as int),
        ensures
            safe == king_safe(board, coefficient as int),
    {
        let king: i8 = if coefficient > 0 { 6 } else { -6 };
        match Self::find_position(board, king) {
            Some(k) => {
                let danger = Self::danger_squares(board, -coefficient);
                !danger.contains(&k)
            },
            None => true,
        }
    }

    /// Whether the side to move is in check.
    pub fn check(&self) -> (checked: bool)
        requires
            self.wf(),
        ensures
            checked == self.in_check(),
    {
        let coefficient: i8 = if self.turn { 1 } else { -1 };
        !Self::king_is_safe(self.board, coefficient)
    }

    /// The moves of the side to move by the rules of its pieces, pins
    /// respected, before any move is tried out on the board.
    pub fn raw_get_all_possible_moves(&self) -> (all_moves: Vec<Move>)
        requires
            self.wf(),
        ensures
            all_moves@ == self.raw_moves(),
            self.one_king() ==> forall|m: Move| #[trigger] all_moves@.contains(m) <==> self.allows(m),
            all_moves@.len() <= 8522,
    {
        proof {
            reveal(ChessState::raw_moves);
        }
        let player: bool = self.turn;
        let coefficient: i8 = if player { 1 } else { -1 };
        let back_rank: usize = if player { 0 } else { 7 };
        let ghost sign = self.mover();
        let ghost pins = pins_of(self.board, sign);
        let p_pos = Self::find_positions(self.board, coefficient);
        let r_pos = Self::find_positions(self.board, 2 * coefficient);
        let n_pos = Self::find_positions(self.board, 3 * coefficient);
        let b_pos = Self::find_positions(self.board, 4 * coefficient);
        let q_pos = Self::find_positions(self.board, 5 * coefficient);
        let k_pos = Self::find_position(self.board, 6 * coefficient);
        let mut vertical_pin: Vec<(usize, usize)> = Vec::new();
        let mut horisontal_pin: Vec<(usize, usize)> = Vec::new();
        let mut left_diagonal_pin: Vec<(usize, usize)> = Vec::new();
        let mut right_diagonal_pin: Vec<(usize, usize)> = Vec::new();
        if let Some(k) = k_pos {
            vertical_pin = Self::vertical_pin(self.board, k, coefficient);
            horisontal_pin = Self::horisontal_pin(self.board, k, coefficient);
            left_diagonal_pin = Self::left_diagonal_pin(self.board, k, coefficient);
            right_diagonal_pin = Self::right_diagonal_pin(self.board, k, coefficient);
        }
        assert(pins == (Pins {
            vertical: vertical_pin@,
            horizontal: horisontal_pin@,
            left: left_diagonal_pin@,
            right: right_diagonal_pin@,
        }));
        let mut all_moves: Vec<Move> = if player {
            Self::white_pawn_moves(
                self,
                coefficient,
                &vertical_pin,
                &horisontal_pin,
                &left_diagonal_pin,
                &right_diagonal_pin,
                &p_pos,
            )
        } else {
            Self::black_pawn_moves(
                self,
                coefficient,
                &vertical_pin,
                &horisontal_pin,
                &left_diagonal_pin,
                &right_diagonal_pin,
                &p_pos,
            )
        };
        let mut rooks = Self::straight_moves(
            self,
            coefficient,
            &vertical_pin,
            &horisontal_pin,
            &left_diagonal_pin,
            &right_diagonal_pin,
            &r_pos,
            player,
            PieceKind::Rook,
        );
        let mut bishops = Self::diagonal_moves(
            self,
            coefficient,
            &vertical_pin,
            &horisontal_pin,
            &left_diagonal_pin,
            &right_diagonal_pin,
            &b_pos,
            player,
            PieceKind::Bishop,
        );
        let mut queens = Self::straight_moves(
            self,
            coefficient,
            &vertical_pin,
            &horisontal_pin,
            &left_diagonal_pin,
            &right_diagonal_pin,
            &q_pos,
            player,
            PieceKind::Queen,
        );
        let mut queens_diagonal = Self::diagonal_moves(
            self,
            coefficient,
            &vertical_pin,
            &horisontal_pin,
            &left_diagonal_pin,
            &right_diagonal_pin,
            &q_pos,
            player,
            PieceKind::Queen,
        );
        let mut knights = Self::knight_moves(
            self,
            coefficient,
            &vertical_pin,
            &horisontal_pin,
            &left_diagonal_pin,
            &right_diagonal_pin,
            &n_pos,
        );
        let mut king: Vec<Move> = match k_pos {
            Some(k) => {
                let danger = Self::danger_squares(self.board, -coefficient);
                assert(danger@ =~= danger_of(self.board, sign));
                Self::king_moves(self, coefficient, &danger, k, back_rank)
            },
            None => Vec::new(),
        };
        all_moves.append(&mut rooks);
        all_moves.append(&mut bishops);
        all_moves.append(&mut queens);
        all_moves.append(&mut queens_diagonal);
        all_moves.append(&mut knights);
        all_moves.append(&mut king);
        proof {
            if self.one_king() {
                assert forall|m: Move| #[trigger] all_moves@.contains(m) <==> self.allows(m) by {
                    if self.raw_moves().contains(m) {
                        self.lemma_raw_moves_allowed(m);
                    }
                    if self.allows(m) {
                        self.lemma_allowed_is_raw(m);
                    }
                }
            }
        }
        all_moves
    }

    /// The move generator: the legal moves of the side to move.
    ///
    /// The raw moves already respect pins. When the side to move is in check,
    /// and for every capture in passing, a raw move is played on a copy and
    /// kept only if the mover's king is then out of danger. For a side with
    /// at most one king the result holds exactly the moves that obey the
    /// rules of their pieces and leave that king unattacked.
    pub fn get_all_possible_moves(&self) -> (all_moves: Vec<Move>)
        requires
            self.wf(),
        ensures
            all_moves@ == self.legal_moves(),
            all_moves@.no_duplicates(),
            self.one_king() ==> forall|m: Move| #[trigger] all_moves@.contains(m) <==> self.is_legal(m),
            all_moves@.len() <= 8522,
            forall|i: int| 0 <= i < all_moves@.len() ==> self.is_pseudo_legal(#[trigger] all_moves@[i]),
    {
        proof {
            reveal(ChessState::legal_moves);
        }
        let coefficient: i8 = if self.turn { 1 } else { -1 };
        let in_check: bool = self.check();
        let raw = self.raw_get_all_possible_moves();
        let ghost kept = |m: Move| self.keeps(m);
        let mut all_moves: Vec<Move> = Vec::new();
        let mut i: usize = 0;
        proof {
            raw@.take(0).lemma_filter_len(kept);
        }
        while i < raw.len()
            invariant
                i <= raw.len(),
                self.wf(),
                raw@ == self.raw_moves(),
                in_check == self.in_check(),
                coefficient == self.mover(),
                kept == |m: Move| self.keeps(m),
                all_moves@ == raw@.take(i as int).filter(kept),
                all_moves@.len() <= i,
                forall|j: int|
                    0 <= j < all_moves@.len() ==> self.is_pseudo_legal(#[trigger] all_moves@[j]),
            decreases raw.len() - i,
        {
            let m: Move = raw[i];
            proof {
                assert(raw@.contains(m));
                self.lemma_raw_moves_allowed(m);
                self.lemma_allowed_is_pseudo_legal(m);
            }
            let tried: bool = in_check || match m.special {
                Special::EnPassantCapture => true,
                _ => false,
            };
            let keep: bool = if tried {
                let next = self.do_move(&m);
                Self::king_is_safe(next.board, coefficient)
            } else {
                true
            };
            assert(keep == kept(m));
            if keep {
                all_moves.push(m);
            }
            proof {
                assert(raw@.take(i + 1) =~= raw@.take(i as int).push(m));
                raw@.take(i as int).lemma_filter_push(m, kept);
            }
            i += 1;
        }
        assert(raw@.take(raw.len() as int) =~= raw@);
        proof {
            self.legal_moves_are_distinct();
            if self.one_king() {
                assert forall|m: Move| #[trigger] all_moves@.contains(m) <==> self.is_legal(m) by {
                    self.legal_moves_are_exactly_the_legal_ones(m);
                }
            }
        }
        all_moves
    }

    /// Whether the side to move has no legal move.
    pub fn is_terminal(&self) -> (terminal: bool)
        requires
            self.wf(),
        ensures
            terminal == (self.legal_moves().len() == 0),
            self.one_king() ==> (terminal <==> forall|m: Move| !self.is_legal(m)),
    {
        let moves = self.get_all_possible_moves();
        proof {
            if self.one_king() {
                if moves@.len() > 0 {
                    assert(moves@.contains(moves@[0]));
                } else {
                    assert forall|m: Move| !self.is_legal(m) by {
                        assert(!moves@.contains(m));
                    }
                }
            }
        }
        moves.len() == 0
    }

    /// The successor of the position under `m` if `m` is one of its legal
    /// moves, and `None` if it is not: the way to play a move that comes
    /// from outside.
    pub fn legal_successor(&self, m: &Move) -> (next: Option<ChessState>)
        requires
            self.wf(),
        ensures
            match next {
                Some(reached) => self.legal_moves().contains(*m) && reached == self.after(*m)
                    && reached.wf(),
                None => !self.legal_moves().contains(*m),
            },
    {
        let moves = self.get_all_possible_moves();
        let mut i: usize = 0;
        while i < moves.len()
            invariant
                i <= moves.len(),
                self.wf(),
                moves@ == self.legal_moves(),
                forall|j: int| 0 <= j < moves@.len() ==> self.is_pseudo_legal(#[trigger] moves@[j]),
                forall|j: int| 0 <= j < i ==> moves@[j] != *m,
            decreases moves.len() - i,
        {
            if moves[i].same(m) {
                assert(moves@[i as int] == *m);
                return Some(self.do_move(m));
            }
            i += 1;
        }
        None
    }
}

} // verus!
