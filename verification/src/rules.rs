//! The movement rules of the pieces, stated of a single move, and the proof
//! that the generator emits only moves that obey them.
use crate::attack::{direction, jump_hits, king_step, knight_jump, knight_step, lemma_ray_step};
use crate::board::{
    dir_ok, in_direction, on_board, owned_by, path_clear, piece_at, sign_ok, square_ok,
};
use crate::move_generation::{
    castle_move, castle_moves, danger_of, first_with, hop_moves, is_first_with, king_moves_of,
    king_steps, knight_from, knight_moves_of, line_moves, may_castle, may_take_in_passing,
    moves_over, pawn_capture, pawn_captures, pawn_from, pawn_moves_of, pawn_pushes, pinned_off,
    Pins, pins_of, promoted, push_move, ray_moves, ray_targets, slider_from, slider_moves,
    squares_ok, squares_with, step_move,
};
use crate::moves::{Move, PieceKind};
use crate::position::ChessState;
use vstd::prelude::*;

verus! {

/// `to` lies on the line of the given kind through `from`: 0 for the file, 1
/// for the rank, 2 and 3 for the two diagonals.
pub open spec fn on_line(from: (usize, usize), line: int, to: (usize, usize)) -> bool {
    &&& 0 <= line < 4
    &&& (in_direction(
        from.0 as int,
        from.1 as int,
        direction(2 * line).0,
        direction(2 * line).1,
        to.0 as int,
        to.1 as int,
    ) || in_direction(
        from.0 as int,
        from.1 as int,
        direction(2 * line + 1).0,
        direction(2 * line + 1).1,
        to.0 as int,
        to.1 as int,
    ))
}

/// The piece on `m.from` is free to go to `m.to` as far as pins go: it is
/// not pinned at all, or the move runs along a line with no pin on another
/// line.
pub open spec fn pin_allows(pins: Pins, m: Move) -> bool {
    exists|line: int|
        0 <= line <= 4 && !#[trigger] pinned_off(pins, m.from, line) && (line < 4 ==> on_line(
            m.from,
            line,
            m.to,
        ))
}

/// Whether a piece of the given kind slides along the given line: a rook
/// along files and ranks, a bishop along diagonals, a queen along all four.
pub open spec fn slides_on(kind: PieceKind, line: int) -> bool {
    match kind {
        PieceKind::Rook => 0 <= line < 2,
        PieceKind::Bishop => 2 <= line < 4,
        PieceKind::Queen => 0 <= line < 4,
        _ => false,
    }
}

/// The move `m` runs along the given line, over empty squares, and the piece
/// is not pinned along another line.
pub open spec fn line_rule(b: [[i8; 8]; 8], pins: Pins, m: Move, line: int) -> bool {
    &&& 0 <= line < 4
    &&& on_line(m.from, line, m.to)
    &&& !pinned_off(pins, m.from, line)
    &&& path_clear(b, m.from.0 as int, m.from.1 as int, m.to.0 as int, m.to.1 as int)
}

/// A rook, bishop or queen move: a plain step or capture along one of the
/// lines of the piece, with nothing in between.
pub open spec fn slider_rule(b: [[i8; 8]; 8], sign: int, pins: Pins, m: Move) -> bool {
    &&& m == step_move(b, m.from, m.to, m.piece)
    &&& exists|line: int| slides_on(m.piece, line) && #[trigger] line_rule(b, pins, m, line)
}

/// A knight move: a plain jump or capture by a knight that is not pinned.
pub open spec fn knight_rule(b: [[i8; 8]; 8], sign: int, pins: Pins, m: Move) -> bool {
    &&& m == step_move(b, m.from, m.to, PieceKind::Knight)
    &&& knight_step(m.from.0 as int, m.from.1 as int, m.to.0 as int, m.to.1 as int)
    &&& !pinned_off(pins, m.from, 4)
}

/// A king move: a step to a square out of danger, or a castling move that
/// `may_castle` allows.
pub open spec fn king_rule(state: ChessState, sign: int, danger: Set<(int, int)>, m: Move) -> bool {
    if m.is_castle() {
        let kingside = m.special is CastleKingside;
        &&& m == castle_move(m.from, kingside)
        &&& may_castle(state, sign, danger, m.from, m.from.0 as int, kingside)
    } else {
        &&& m == step_move(state.board, m.from, m.to, PieceKind::King)
        &&& king_step(m.from.0 as int, m.from.1 as int, m.to.0 as int, m.to.1 as int)
        &&& !danger.contains((m.to.0 as int, m.to.1 as int))
    }
}

/// A pawn move: a push to an empty square, a double push from the starting
/// rank over two empty squares, a capture of an enemy piece one rank ahead
/// and one file aside, or a capture in passing; with a promotion to rook,
/// bishop, knight or queen exactly on the last rank, and along the line of
/// the pin if the pawn is pinned.
pub open spec fn pawn_rule(state: ChessState, sign: int, pins: Pins, m: Move) -> bool {
    let b = state.board;
    let white = sign > 0;
    let start: int = if white { 1 } else { 6 };
    let last: int = if white { 7 } else { 0 };
    let plain = Move { promotion: None, ..m };
    let fr = m.from.0 as int;
    let fc = m.from.1 as int;
    let tr = m.to.0 as int;
    let tc = m.to.1 as int;
    &&& m.piece is Pawn
    &&& (m.promotion is Some) == (tr == last)
    &&& m.promotion matches Some(kind) ==> !(kind is Pawn) && !(kind is King)
    &&& {
        ||| {
            &&& plain == push_move(m.from, m.to, false)
            &&& tr == fr + sign && tc == fc
            &&& piece_at(b, tr, tc) == 0
            &&& !pinned_off(pins, m.from, 0)
        }
        ||| {
            &&& plain == push_move(m.from, m.to, true)
            &&& fr == start && tr == fr + 2 * sign && tc == fc
            &&& piece_at(b, fr + sign, fc) == 0
            &&& piece_at(b, tr, tc) == 0
            &&& !pinned_off(pins, m.from, 0)
        }
        ||| {
            &&& tr == fr + sign && (tc == fc - 1 || tc == fc + 1)
            &&& !pinned_off(pins, m.from, if tc - fc == sign { 3 } else { 2 })
            &&& if piece_at(b, tr, tc) == 0 {
                plain == pawn_capture(m.from, m.to, true) && may_take_in_passing(
                    state,
                    white,
                    m.from,
                    tc,
                )
            } else {
                plain == pawn_capture(m.from, m.to, false) && owned_by(piece_at(b, tr, tc), -sign)
            }
        }
    }
}

/// The movement rule of the piece that `m` names, for the side `sign` with
/// the pinned pieces `pins` and the danger squares `danger`: both squares lie
/// on the board, the destination holds no friendly piece, and the move obeys
/// the rule of its piece.
pub open spec fn obeys_rules(
    state: ChessState,
    sign: int,
    pins: Pins,
    danger: Set<(int, int)>,
    m: Move,
) -> bool {
    &&& m.wf()
    &&& m.from != m.to
    &&& !owned_by(piece_at(state.board, m.to.0 as int, m.to.1 as int), sign)
    &&& match m.piece {
        PieceKind::Pawn => pawn_rule(state, sign, pins, m),
        PieceKind::Knight => knight_rule(state.board, sign, pins, m),
        PieceKind::King => king_rule(state, sign, danger, m),
        _ => slider_rule(state.board, sign, pins, m),
    }
}

/// No piece is pinned.
pub open spec fn no_pins() -> Pins {
    Pins {
        vertical: Seq::empty(),
        horizontal: Seq::empty(),
        left: Seq::empty(),
        right: Seq::empty(),
    }
}

/// `m` is a move of one of the pawns on `squares` that obeys the pawn's
/// rule.
pub open spec fn is_pawn_move(
    state: ChessState,
    white: bool,
    pins: Pins,
    squares: Seq<(usize, usize)>,
    m: Move,
) -> bool {
    &&& squares.contains(m.from)
    &&& m.wf()
    &&& pawn_rule(state, if white { 1 } else { -1 }, pins, m)
}

/// `m` is a plain step or capture of one of the pieces on `squares`, to a
/// square that holds no friendly piece, over empty squares along a line that
/// no pin forbids: a file or a rank when `straight`, else a diagonal.
pub open spec fn is_slider_move(
    b: [[i8; 8]; 8],
    sign: int,
    pins: Pins,
    squares: Seq<(usize, usize)>,
    kind: PieceKind,
    straight: bool,
    m: Move,
) -> bool {
    &&& squares.contains(m.from)
    &&& m.wf()
    &&& m == step_move(b, m.from, m.to, kind)
    &&& !owned_by(piece_at(b, m.to.0 as int, m.to.1 as int), sign)
    &&& exists|line: int| straight == (line < 2) && #[trigger] line_rule(b, pins, m, line)
}

/// `m` is a jump of one of the knights on `squares`, which is not pinned,
/// to a square that holds no friendly piece.
pub open spec fn is_knight_move(
    b: [[i8; 8]; 8],
    sign: int,
    pins: Pins,
    squares: Seq<(usize, usize)>,
    m: Move,
) -> bool {
    &&& squares.contains(m.from)
    &&& m.wf()
    &&& !owned_by(piece_at(b, m.to.0 as int, m.to.1 as int), sign)
    &&& knight_rule(b, sign, pins, m)
}

/// `m` is a move of the king on `from` that obeys the king's rule: a step
/// to a square out of danger that holds no friendly piece, or a castling
/// move on the rank `back`.
pub open spec fn is_king_move(
    state: ChessState,
    sign: int,
    danger: Set<(int, int)>,
    from: (usize, usize),
    back: int,
    m: Move,
) -> bool {
    &&& m.from == from
    &&& m.wf()
    &&& !owned_by(piece_at(state.board, m.to.0 as int, m.to.1 as int), sign)
    &&& king_rule(state, sign, danger, m)
    &&& m.is_castle() ==> back == from.0
}

/// A move among those of the first `n` squares comes from one of them.
pub proof fn lemma_moves_over(
    squares: Seq<(usize, usize)>,
    n: int,
    per_square: spec_fn((usize, usize)) -> Seq<Move>,
    m: Move,
) -> (i: int)
    requires
        0 <= n <= squares.len(),
        moves_over(squares, n, per_square).contains(m),
    ensures
        0 <= i < n,
        per_square(squares[i]).contains(m),
    decreases n,
{
    if n <= 0 {
        0
    } else {
        let head = moves_over(squares, n - 1, per_square);
        let tail = per_square(squares[n - 1]);
        lemma_in_sum(head, tail, m);
        if tail.contains(m) {
            n - 1
        } else {
            lemma_moves_over(squares, n - 1, per_square, m)
        }
    }
}

/// An element of a concatenation lies in one of the two parts.
pub proof fn lemma_in_sum<A>(a: Seq<A>, b: Seq<A>, x: A)
    requires
        (a + b).contains(x),
    ensures
        a.contains(x) || b.contains(x),
{
    let i = choose|i: int| 0 <= i < (a + b).len() && (a + b)[i] == x;
    if i < a.len() {
        assert(a[i] == x);
    } else {
        assert(b[i - a.len()] == x);
    }
}

/// A square listed for a code lies on the board and holds that code.
pub proof fn lemma_squares_with(b: [[i8; 8]; 8], piece: int, n: int, sq: (usize, usize))
    requires
        0 <= n <= 64,
        squares_with(b, piece, n).contains(sq),
    ensures
        square_ok(sq),
        piece_at(b, sq.0 as int, sq.1 as int) == piece,
    decreases n,
{
    if n > 0 {
        let r = (n - 1) / 8;
        let c = (n - 1) % 8;
        let head = squares_with(b, piece, n - 1);
        let tail = if piece_at(b, r, c) == piece {
            seq![(r as usize, c as usize)]
        } else {
            Seq::empty()
        };
        lemma_in_sum(head, tail, sq);
        if head.contains(sq) {
            lemma_squares_with(b, piece, n - 1, sq);
        } else {
            assert(tail[0] == sq);
        }
    }
}

/// A target of a slider's ray lies on the ray, behind empty squares only, and
/// holds no friendly piece.
pub proof fn lemma_ray_targets(
    b: [[i8; 8]; 8],
    sign: int,
    r: int,
    c: int,
    dr: int,
    dc: int,
    x: int,
    y: int,
    t: (usize, usize),
)
    requires
        sign_ok(sign),
        dir_ok(dr, dc),
        in_direction(r, c, dr, dc, x, y),
        path_clear(b, r, c, x, y),
        ray_targets(b, sign, x, y, dr, dc).contains(t),
    ensures
        square_ok(t),
        in_direction(r, c, dr, dc, t.0 as int, t.1 as int),
        path_clear(b, r, c, t.0 as int, t.1 as int),
        !owned_by(piece_at(b, t.0 as int, t.1 as int), sign),
    decreases
        (if dr > 0 { 8 - x } else if dr < 0 { x + 1 } else if dc > 0 { 8 - y } else { y + 1 }),
{
    if on_board(x, y) {
        if piece_at(b, x, y) == 0 {
            let head = seq![(x as usize, y as usize)];
            let tail = ray_targets(b, sign, x + dr, y + dc, dr, dc);
            lemma_in_sum(head, tail, t);
            if tail.contains(t) && !(t.0 == x && t.1 == y) {
                lemma_ray_step(r, c, dr, dc, x, y);
                lemma_ray_targets(b, sign, r, c, dr, dc, x + dr, y + dc, t);
            } else {
                if !(t.0 == x && t.1 == y) {
                    assert(head[0] == t);
                }
            }
        } else if owned_by(piece_at(b, x, y), -sign) {
            assert(seq![(x as usize, y as usize)][0] == t);
        }
    }
}

/// A move of a slider's ray starts on the slider's square and ends on a
/// target of the ray.
pub proof fn lemma_ray_moves(
    b: [[i8; 8]; 8],
    sign: int,
    from: (usize, usize),
    k: int,
    kind: PieceKind,
    m: Move,
)
    requires
        sign_ok(sign),
        square_ok(from),
        0 <= k < 8,
        ray_moves(b, sign, from, k, kind).contains(m),
    ensures
        m == step_move(b, from, m.to, kind),
        square_ok(m.to),
        in_direction(
            from.0 as int,
            from.1 as int,
            direction(k).0,
            direction(k).1,
            m.to.0 as int,
            m.to.1 as int,
        ),
        path_clear(b, from.0 as int, from.1 as int, m.to.0 as int, m.to.1 as int),
        !owned_by(piece_at(b, m.to.0 as int, m.to.1 as int), sign),
{
    let dr = direction(k).0;
    let dc = direction(k).1;
    let r = from.0 as int;
    let c = from.1 as int;
    let targets = ray_targets(b, sign, r + dr, c + dc, dr, dc);
    let made = |to: (usize, usize)| step_move(b, from, to, kind);
    let i = choose|i: int| 0 <= i < targets.map_values(made).len() && targets.map_values(made)[i] == m;
    assert(m == made(targets[i]));
    assert(targets.contains(targets[i]));
    lemma_ray_step(r, c, dr, dc, r, c);
    lemma_ray_targets(b, sign, r, c, dr, dc, r + dr, c + dc, targets[i]);
}

/// A move of a slider along one line is a plain step or capture that runs
/// along that line.
pub proof fn lemma_line_moves(
    b: [[i8; 8]; 8],
    sign: int,
    pins: Pins,
    from: (usize, usize),
    k: int,
    kind: PieceKind,
    m: Move,
)
    requires
        sign_ok(sign),
        square_ok(from),
        k == 0 || k == 2 || k == 4 || k == 6,
        line_moves(b, sign, pins, from, k, kind).contains(m),
    ensures
        m == step_move(b, from, m.to, kind),
        m.wf(),
        m.from != m.to,
        !owned_by(piece_at(b, m.to.0 as int, m.to.1 as int), sign),
        line_rule(b, pins, m, k / 2),
{
    lemma_in_sum(ray_moves(b, sign, from, k, kind), ray_moves(b, sign, from, k + 1, kind), m);
    if ray_moves(b, sign, from, k, kind).contains(m) {
        lemma_ray_moves(b, sign, from, k, kind, m);
    } else {
        lemma_ray_moves(b, sign, from, k + 1, kind, m);
    }
    assert(on_line(m.from, k / 2, m.to));
    assert(!pinned_off(pins, m.from, k / 2));
}

/// A move of the sliders on `squares` starts on one of these squares and is
/// a plain step or capture along a line: a file or a rank when `straight`,
/// else a diagonal. The line comes back.
pub proof fn lemma_slider_moves(
    b: [[i8; 8]; 8],
    sign: int,
    pins: Pins,
    squares: Seq<(usize, usize)>,
    kind: PieceKind,
    straight: bool,
    m: Move,
) -> (line: int)
    requires
        sign_ok(sign),
        squares_ok(squares),
        slider_moves(b, sign, pins, squares, kind, straight).contains(m),
    ensures
        squares.contains(m.from),
        m == step_move(b, m.from, m.to, kind),
        m.wf(),
        m.from != m.to,
        !owned_by(piece_at(b, m.to.0 as int, m.to.1 as int), sign),
        line_rule(b, pins, m, line),
        straight ==> 0 <= line < 2,
        !straight ==> 2 <= line < 4,
{
    let first: int = if straight { 2 } else { 6 };
    let second: int = if straight { 0 } else { 4 };
    let per_square = |sq: (usize, usize)|
        slider_from(b, sign, pins, sq, kind, if straight { 2 } else { 6 }, if straight { 0 } else { 4 });
    let i = lemma_moves_over(squares, squares.len() as int, per_square, m);
    let from = squares[i];
    assert(per_square(from) == slider_from(b, sign, pins, from, kind, first, second));
    lemma_in_sum(
        line_moves(b, sign, pins, from, first, kind),
        line_moves(b, sign, pins, from, second, kind),
        m,
    );
    if line_moves(b, sign, pins, from, first, kind).contains(m) {
        lemma_line_moves(b, sign, pins, from, first, kind, m);
        first / 2
    } else {
        lemma_line_moves(b, sign, pins, from, second, kind, m);
        second / 2
    }
}

/// A move among a knight's first `n` jumps is a knight step to a square of
/// the board that holds no friendly piece.
pub proof fn lemma_hop_moves(b: [[i8; 8]; 8], sign: int, from: (usize, usize), n: int, m: Move)
    requires
        square_ok(from),
        0 <= n <= 8,
        hop_moves(b, sign, from, n).contains(m),
    ensures
        m == step_move(b, from, m.to, PieceKind::Knight),
        square_ok(m.to),
        knight_step(from.0 as int, from.1 as int, m.to.0 as int, m.to.1 as int),
        !owned_by(piece_at(b, m.to.0 as int, m.to.1 as int), sign),
    decreases n,
{
    if n > 0 {
        let r = from.0 + knight_jump(n - 1).0;
        let c = from.1 + knight_jump(n - 1).1;
        let head = hop_moves(b, sign, from, n - 1);
        let tail = if on_board(r, c) && !owned_by(piece_at(b, r, c), sign) {
            seq![step_move(b, from, (r as usize, c as usize), PieceKind::Knight)]
        } else {
            Seq::empty()
        };
        lemma_in_sum(head, tail, m);
        if head.contains(m) {
            lemma_hop_moves(b, sign, from, n - 1, m);
        } else {
            assert(tail[0] == m);
            assert(jump_hits(from.0 as int, from.1 as int, n - 1, r, c));
            crate::attack::lemma_knight_jumps(from.0 as int, from.1 as int, r, c);
        }
    }
}

/// A move of the knights on `squares` starts on one of these squares and
/// obeys the knight's rule.
pub proof fn lemma_knight_moves(
    state: ChessState,
    sign: int,
    pins: Pins,
    danger: Set<(int, int)>,
    squares: Seq<(usize, usize)>,
    m: Move,
)
    requires
        squares_ok(squares),
        knight_moves_of(state.board, sign, pins, squares).contains(m),
    ensures
        squares.contains(m.from),
        m.piece is Knight,
        obeys_rules(state, sign, pins, danger, m),
{
    let b = state.board;
    let per_square = |sq: (usize, usize)| knight_from(b, sign, pins, sq);
    let i = lemma_moves_over(squares, squares.len() as int, per_square, m);
    let from = squares[i];
    assert(per_square(from) == knight_from(b, sign, pins, from));
    lemma_hop_moves(b, sign, from, 8, m);
}

/// A move among a king's steps in the first `n` directions is a king step to
/// a square of the board that is out of danger and holds no friendly piece.
pub proof fn lemma_king_steps(
    b: [[i8; 8]; 8],
    sign: int,
    danger: Set<(int, int)>,
    from: (usize, usize),
    n: int,
    m: Move,
)
    requires
        square_ok(from),
        0 <= n <= 8,
        king_steps(b, sign, danger, from, n).contains(m),
    ensures
        m == step_move(b, from, m.to, PieceKind::King),
        square_ok(m.to),
        king_step(from.0 as int, from.1 as int, m.to.0 as int, m.to.1 as int),
        !danger.contains((m.to.0 as int, m.to.1 as int)),
        !owned_by(piece_at(b, m.to.0 as int, m.to.1 as int), sign),
    decreases n,
{
    if n > 0 {
        let r = from.0 + direction(n - 1).0;
        let c = from.1 + direction(n - 1).1;
        let head = king_steps(b, sign, danger, from, n - 1);
        let tail = if on_board(r, c) && !danger.contains((r, c)) && !owned_by(
            piece_at(b, r, c),
            sign,
        ) {
            seq![step_move(b, from, (r as usize, c as usize), PieceKind::King)]
        } else {
            Seq::empty()
        };
        lemma_in_sum(head, tail, m);
        if head.contains(m) {
            lemma_king_steps(b, sign, danger, from, n - 1, m);
        } else {
            assert(tail[0] == m);
        }
    }
}

/// A move of the king on `from` obeys the king's rule.
pub proof fn lemma_king_moves(
    state: ChessState,
    sign: int,
    pins: Pins,
    danger: Set<(int, int)>,
    from: (usize, usize),
    back: int,
    m: Move,
)
    requires
        sign_ok(sign),
        square_ok(from),
        king_moves_of(state, sign, danger, from, back).contains(m),
    ensures
        m.from == from,
        m.piece is King,
        obeys_rules(state, sign, pins, danger, m),
{
    let b = state.board;
    lemma_in_sum(
        king_steps(b, sign, danger, from, 8),
        castle_moves(state, sign, danger, from, back),
        m,
    );
    if king_steps(b, sign, danger, from, 8).contains(m) {
        lemma_king_steps(b, sign, danger, from, 8, m);
    } else {
        let kingside = if may_castle(state, sign, danger, from, back, true) {
            seq![castle_move(from, true)]
        } else {
            Seq::empty()
        };
        let queenside = if may_castle(state, sign, danger, from, back, false) {
            seq![castle_move(from, false)]
        } else {
            Seq::empty()
        };
        lemma_in_sum(kingside, queenside, m);
        if kingside.contains(m) {
            assert(kingside[0] == m);
        } else {
            assert(queenside[0] == m);
        }
    }
}

/// A member of `promoted(m, last_rank)` is `m` itself off the last rank, and
/// `m` with a promotion to rook, bishop, knight or queen on it.
pub proof fn lemma_promoted(m: Move, last_rank: bool, x: Move)
    requires
        m.promotion is None,
        promoted(m, last_rank).contains(x),
    ensures
        m == (Move { promotion: None, ..x }),
        (x.promotion is Some) == last_rank,
        x.promotion matches Some(kind) ==> !(kind is Pawn) && !(kind is King),
{
    let s = promoted(m, last_rank);
    let i = choose|i: int| 0 <= i < s.len() && s[i] == x;
    assert(s[i] == x);
}

/// A move of the pawn on `from` obeys the pawn's rule.
pub proof fn lemma_pawn_from(
    state: ChessState,
    white: bool,
    pins: Pins,
    danger: Set<(int, int)>,
    from: (usize, usize),
    m: Move,
)
    requires
        square_ok(from),
        pawn_from(state, white, pins, from).contains(m),
    ensures
        m.from == from,
        m.piece is Pawn,
        obeys_rules(state, if white { 1 } else { -1 }, pins, danger, m),
{
    let b = state.board;
    let sign: int = if white { 1 } else { -1 };
    let last: int = if white { 7 } else { 0 };
    let pushes = pawn_pushes(b, white, pins, from);
    let left = pawn_captures(state, white, pins, from, -1);
    let right = pawn_captures(state, white, pins, from, 1);
    lemma_in_sum(pushes + left, right, m);
    if (pushes + left).contains(m) {
        lemma_in_sum(pushes, left, m);
    }
    if pushes.contains(m) {
        let r1 = from.0 + sign;
        let double = if from.0 == (if white { 1int } else { 6int }) && piece_at(
            b,
            r1 + sign,
            from.1 as int,
        ) == 0 {
            seq![push_move(from, ((r1 + sign) as usize, from.1), true)]
        } else {
            Seq::empty()
        };
        let single = promoted(push_move(from, (r1 as usize, from.1), false), r1 == last);
        lemma_in_sum(double, single, m);
        if double.contains(m) {
            assert(double[0] == m);
        } else {
            lemma_promoted(push_move(from, (r1 as usize, from.1), false), r1 == last, m);
        }
    } else {
        let side: int = if left.contains(m) { -1 } else { 1 };
        let r1 = from.0 + sign;
        let c1 = from.1 + side;
        let in_passing = may_take_in_passing(state, white, from, c1);
        lemma_promoted(pawn_capture(from, (r1 as usize, c1 as usize), in_passing), r1 == last, m);
    }
}

/// A move of the pawns on `squares` starts on one of these squares and obeys
/// the pawn's rule.
pub proof fn lemma_pawn_moves(
    state: ChessState,
    white: bool,
    pins: Pins,
    danger: Set<(int, int)>,
    squares: Seq<(usize, usize)>,
    m: Move,
)
    requires
        squares_ok(squares),
        pawn_moves_of(state, white, pins, squares).contains(m),
    ensures
        squares.contains(m.from),
        m.piece is Pawn,
        obeys_rules(state, if white { 1 } else { -1 }, pins, danger, m),
{
    let per_square = |sq: (usize, usize)| pawn_from(state, white, pins, sq);
    let i = lemma_moves_over(squares, squares.len() as int, per_square, m);
    let from = squares[i];
    assert(per_square(from) == pawn_from(state, white, pins, from));
    lemma_pawn_from(state, white, pins, danger, from, m);
}

/// The squares listed for a code lie on the board.
pub proof fn lemma_squares_with_ok(b: [[i8; 8]; 8], piece: int, n: int)
    requires
        0 <= n <= 64,
    ensures
        squares_ok(squares_with(b, piece, n)),
        squares_with(b, piece, n).len() <= n,
    decreases n,
{
    if n > 0 {
        lemma_squares_with_ok(b, piece, n - 1);
    }
}

/// The first square with a code lies on the board and holds that code.
pub proof fn lemma_first_with(b: [[i8; 8]; 8], piece: int)
    ensures
        first_with(b, piece) matches Some(k) ==> square_ok(k) && is_first_with(
            b,
            piece,
            k.0 as int,
            k.1 as int,
        ),
        first_with(b, piece) is None ==> forall|r: int, c: int| !#[trigger] is_first_with(b, piece, r, c),
{
}

impl ChessState {
    /// Whether `m` moves a piece of the side to move by the rule of that
    /// piece, with the pins and danger squares of the position.
    pub open spec fn allows(self, m: Move) -> bool {
        let sign = self.mover();
        &&& obeys_rules(self, sign, pins_of(self.board, sign), danger_of(self.board, sign), m)
        &&& piece_at(self.board, m.from.0 as int, m.from.1 as int) == m.piece.code_spec() * sign
    }

    /// The move obeys the rule of its piece when pins are left aside and the
    /// king may step onto any square that holds no friendly piece; castling
    /// still asks for the right, the empty squares and the squares out of
    /// danger.
    #[verifier::opaque]
    pub open spec fn is_pseudo_legal(self, m: Move) -> bool {
        let sign = self.mover();
        &&& obeys_rules(
            self,
            sign,
            no_pins(),
            if m.is_castle() {
                danger_of(self.board, sign)
            } else {
                Set::empty()
            },
            m,
        )
        &&& piece_at(self.board, m.from.0 as int, m.from.1 as int) == m.piece.code_spec() * sign
    }

    /// The move is legal: it obeys the rule of its piece, and the mover's
    /// king is not attacked once it has been played.
    pub open spec fn is_legal(self, m: Move) -> bool {
        self.is_pseudo_legal(m) && self.safe_after(m)
    }

    /// Every raw move moves a piece of the side to move by the rule of that
    /// piece.
    pub proof fn lemma_raw_moves_allowed(self, m: Move)
        requires
            self.raw_moves().contains(m),
        ensures
            self.allows(m),
    {
        reveal(ChessState::raw_moves);
        let b = self.board;
        let sign = self.mover();
        let pins = pins_of(b, sign);
        let danger = danger_of(b, sign);
        let pawns = pawn_moves_of(self, self.turn, pins, squares_with(b, sign, 64));
        let rooks = slider_moves(b, sign, pins, squares_with(b, 2 * sign, 64), PieceKind::Rook, true);
        let bishops = slider_moves(
            b,
            sign,
            pins,
            squares_with(b, 4 * sign, 64),
            PieceKind::Bishop,
            false,
        );
        let queens = slider_moves(b, sign, pins, squares_with(b, 5 * sign, 64), PieceKind::Queen, true);
        let queens2 = slider_moves(
            b,
            sign,
            pins,
            squares_with(b, 5 * sign, 64),
            PieceKind::Queen,
            false,
        );
        let knights = knight_moves_of(b, sign, pins, squares_with(b, 3 * sign, 64));
        let king = match first_with(b, 6 * sign) {
            Some(k) => king_moves_of(self, sign, danger, k, if self.turn { 0 } else { 7 }),
            None => Seq::empty(),
        };
        let rook_sq = squares_with(b, 2 * sign, 64);
        let knight_sq = squares_with(b, 3 * sign, 64);
        let bishop_sq = squares_with(b, 4 * sign, 64);
        let queen_sq = squares_with(b, 5 * sign, 64);
        lemma_squares_with_ok(b, sign, 64);
        lemma_squares_with_ok(b, 2 * sign, 64);
        lemma_squares_with_ok(b, 3 * sign, 64);
        lemma_squares_with_ok(b, 4 * sign, 64);
        lemma_squares_with_ok(b, 5 * sign, 64);
        // Find the group that holds the move.
        let upto_knights = pawns + rooks + bishops + queens + queens2 + knights;
        let upto_queens2 = pawns + rooks + bishops + queens + queens2;
        let upto_queens = pawns + rooks + bishops + queens;
        let upto_bishops = pawns + rooks + bishops;
        lemma_in_sum(upto_knights, king, m);
        if upto_knights.contains(m) {
            lemma_in_sum(upto_queens2, knights, m);
        }
        if upto_queens2.contains(m) {
            lemma_in_sum(upto_queens, queens2, m);
        }
        if upto_queens.contains(m) {
            lemma_in_sum(upto_bishops, queens, m);
        }
        if upto_bishops.contains(m) {
            lemma_in_sum(pawns + rooks, bishops, m);
        }
        if (pawns + rooks).contains(m) {
            lemma_in_sum(pawns, rooks, m);
        }
        // Each group obeys the rule of its piece.
        if king.contains(m) {
            lemma_first_with(b, 6 * sign);
            let k = first_with(b, 6 * sign)->0;
            lemma_king_moves(self, sign, pins, danger, k, if self.turn { 0 } else { 7 }, m);
        } else if knights.contains(m) {
            lemma_knight_moves(self, sign, pins, danger, knight_sq, m);
            lemma_squares_with(b, 3 * sign, 64, m.from);
        } else if queens2.contains(m) {
            let line = lemma_slider_moves(b, sign, pins, queen_sq, PieceKind::Queen, false, m);
            assert(slides_on(m.piece, line) && line_rule(b, pins, m, line));
            lemma_squares_with(b, 5 * sign, 64, m.from);
        } else if queens.contains(m) {
            let line = lemma_slider_moves(b, sign, pins, queen_sq, PieceKind::Queen, true, m);
            assert(slides_on(m.piece, line) && line_rule(b, pins, m, line));
            lemma_squares_with(b, 5 * sign, 64, m.from);
        } else if bishops.contains(m) {
            let line = lemma_slider_moves(b, sign, pins, bishop_sq, PieceKind::Bishop, false, m);
            assert(slides_on(m.piece, line) && line_rule(b, pins, m, line));
            lemma_squares_with(b, 4 * sign, 64, m.from);
        } else if rooks.contains(m) {
            let line = lemma_slider_moves(b, sign, pins, rook_sq, PieceKind::Rook, true, m);
            assert(slides_on(m.piece, line) && line_rule(b, pins, m, line));
            lemma_squares_with(b, 2 * sign, 64, m.from);
        } else {
            lemma_pawn_moves(self, self.turn, pins, danger, squares_with(b, sign, 64), m);
            lemma_squares_with(b, sign, 64, m.from);
        }
    }
}

/// The moves of the first `n` squares are at most `bound` for each square.
pub proof fn lemma_moves_over_len(
    squares: Seq<(usize, usize)>,
    n: int,
    per_square: spec_fn((usize, usize)) -> Seq<Move>,
    bound: int,
)
    requires
        0 <= n <= squares.len(),
        0 <= bound,
        forall|i: int| 0 <= i < n ==> (#[trigger] per_square(squares[i])).len() <= bound,
    ensures
        moves_over(squares, n, per_square).len() <= bound * n,
    decreases n,
{
    if n > 0 {
        lemma_moves_over_len(squares, n - 1, per_square, bound);
        assert(per_square(squares[n - 1]).len() <= bound);
        assert(bound * n == bound * (n - 1) + bound) by (nonlinear_arith);
    }
}

/// A knight has at most one move for each jump, a king at most one step for
/// each direction.
pub proof fn lemma_hop_len(b: [[i8; 8]; 8], sign: int, danger: Set<(int, int)>, from: (usize, usize), n: int)
    requires
        0 <= n,
    ensures
        hop_moves(b, sign, from, n).len() <= n,
        king_steps(b, sign, danger, from, n).len() <= n,
    decreases n,
{
    if n > 0 {
        lemma_hop_len(b, sign, danger, from, n - 1);
    }
}

/// A slider has at most seven moves along a ray.
pub proof fn lemma_ray_moves_len(b: [[i8; 8]; 8], sign: int, from: (usize, usize), k: int, kind: PieceKind)
    requires
        square_ok(from),
        0 <= k < 8,
    ensures
        ray_moves(b, sign, from, k, kind).len() <= 7,
{
    crate::move_generation::lemma_ray_targets_ok(
        b,
        sign,
        from.0 + direction(k).0,
        from.1 + direction(k).1,
        direction(k).0,
        direction(k).1,
    );
}

impl ChessState {
    /// A position has at most 8522 raw moves, and so at most 8522 legal ones.
    pub proof fn lemma_raw_moves_len(self)
        ensures
            self.raw_moves().len() <= 8522,
            self.legal_moves().len() <= 8522,
    {
        reveal(ChessState::raw_moves);
        reveal(ChessState::legal_moves);
        let b = self.board;
        let sign = self.mover();
        let pins = pins_of(b, sign);
        let danger = danger_of(b, sign);
        let pawn_sq = squares_with(b, sign, 64);
        let rook_sq = squares_with(b, 2 * sign, 64);
        let knight_sq = squares_with(b, 3 * sign, 64);
        let bishop_sq = squares_with(b, 4 * sign, 64);
        let queen_sq = squares_with(b, 5 * sign, 64);
        lemma_squares_with_ok(b, sign, 64);
        lemma_squares_with_ok(b, 2 * sign, 64);
        lemma_squares_with_ok(b, 3 * sign, 64);
        lemma_squares_with_ok(b, 4 * sign, 64);
        lemma_squares_with_ok(b, 5 * sign, 64);
        let per_pawn = |sq: (usize, usize)| pawn_from(self, self.turn, pins, sq);
        assert forall|i: int| 0 <= i < pawn_sq.len() implies (#[trigger] per_pawn(pawn_sq[i])).len()
            <= 13 by {
            assert(square_ok(pawn_sq[i]));
        }
        lemma_moves_over_len(pawn_sq, pawn_sq.len() as int, per_pawn, 13);
        let per_knight = |sq: (usize, usize)| knight_from(b, sign, pins, sq);
        assert forall|i: int| 0 <= i < knight_sq.len() implies (#[trigger] per_knight(
            knight_sq[i],
        )).len() <= 8 by {
            lemma_hop_len(b, sign, danger, knight_sq[i], 8);
        }
        lemma_moves_over_len(knight_sq, knight_sq.len() as int, per_knight, 8);
        lemma_slider_len(b, sign, pins, rook_sq, PieceKind::Rook, true);
        lemma_slider_len(b, sign, pins, bishop_sq, PieceKind::Bishop, false);
        lemma_slider_len(b, sign, pins, queen_sq, PieceKind::Queen, true);
        lemma_slider_len(b, sign, pins, queen_sq, PieceKind::Queen, false);
        match first_with(b, 6 * sign) {
            Some(k) => {
                lemma_hop_len(b, sign, danger, k, 8);
            },
            None => {},
        }
        self.raw_moves().lemma_filter_len(|m: Move| self.keeps(m));
    }
}

/// The sliders on `squares` have at most 28 moves each along two lines.
pub proof fn lemma_slider_len(
    b: [[i8; 8]; 8],
    sign: int,
    pins: Pins,
    squares: Seq<(usize, usize)>,
    kind: PieceKind,
    straight: bool,
)
    requires
        squares_ok(squares),
    ensures
        slider_moves(b, sign, pins, squares, kind, straight).len() <= 28 * squares.len(),
{
    let per_square = |sq: (usize, usize)|
        slider_from(b, sign, pins, sq, kind, if straight { 2 } else { 6 }, if straight { 0 } else { 4 });
    assert forall|i: int| 0 <= i < squares.len() implies (#[trigger] per_square(squares[i])).len()
        <= 28 by {
        let from = squares[i];
        assert(square_ok(from));
        let first: int = if straight { 2 } else { 6 };
        let second: int = if straight { 0 } else { 4 };
        lemma_ray_moves_len(b, sign, from, first, kind);
        lemma_ray_moves_len(b, sign, from, first + 1, kind);
        lemma_ray_moves_len(b, sign, from, second, kind);
        lemma_ray_moves_len(b, sign, from, second + 1, kind);
    }
    lemma_moves_over_len(squares, squares.len() as int, per_square, 28);
}

} // verus!
