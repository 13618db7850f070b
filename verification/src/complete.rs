//! Completeness of the generator: every move that obeys the rules of its
//! piece is among the raw moves.
use crate::attack::{
    attacked_by, attacks, direction, jump_hits, knight_jump, knight_step, lemma_king_steps,
    lemma_knight_jumps, lemma_ray_step, line_pins, pin_seq, pinned_on_ray, pins_from, step_hits,
};
use crate::board::{
    dir_ok, in_direction, kind_of, on_board, owned_by, path_clear, piece_at, sign_ok, square_ok,
    strictly_between,
};
use crate::legality::{at_most_one, holds_code, lemma_only_is_first, lemma_plain_change};
use crate::move_generation::{
    castle_move, castle_moves, danger_of, first_with, holds_right, hop_moves, king_moves_of,
    king_steps, knight_from, knight_moves_of, line_moves, may_castle, may_take_in_passing,
    moves_over, pawn_capture, pawn_captures, pawn_from, pawn_moves_of, pawn_pushes, pinned_off,
    Pins, pins_of, promoted, push_move, ray_moves, ray_targets, slider_from, slider_moves,
    squares_ok, squares_with, step_move,
};
use crate::moves::{board_after, cell_after, lemma_board_after, touches, Move, PieceKind};
use crate::position::ChessState;
use crate::rules::{
    is_king_move, is_knight_move, is_pawn_move, is_slider_move, king_rule, lemma_first_with,
    lemma_squares_with_ok, line_rule, no_pins, on_line, pawn_rule, slides_on,
};
use vstd::prelude::*;

verus! {

/// An element of either part lies in the concatenation.
pub proof fn lemma_sum_has<A>(a: Seq<A>, b: Seq<A>, x: A)
    requires
        a.contains(x) || b.contains(x),
    ensures
        (a + b).contains(x),
{
    if a.contains(x) {
        let i = choose|i: int| 0 <= i < a.len() && a[i] == x;
        assert((a + b)[i] == x);
    } else {
        let i = choose|i: int| 0 <= i < b.len() && b[i] == x;
        assert((a + b)[a.len() + i] == x);
    }
}

/// A move of one of the first `n` squares is among the moves of all of them.
pub proof fn lemma_moves_over_has(
    squares: Seq<(usize, usize)>,
    n: int,
    per_square: spec_fn((usize, usize)) -> Seq<Move>,
    i: int,
    m: Move,
)
    requires
        0 <= i < n <= squares.len(),
        per_square(squares[i]).contains(m),
    ensures
        moves_over(squares, n, per_square).contains(m),
    decreases n,
{
    if i < n - 1 {
        lemma_moves_over_has(squares, n - 1, per_square, i, m);
    }
    lemma_sum_has(moves_over(squares, n - 1, per_square), per_square(squares[n - 1]), m);
}

/// A square that holds a code is listed for that code.
pub proof fn lemma_squares_with_has(b: [[i8; 8]; 8], piece: int, n: int, sq: (usize, usize))
    requires
        0 <= n <= 64,
        square_ok(sq),
        8 * sq.0 + sq.1 < n,
        piece_at(b, sq.0 as int, sq.1 as int) == piece,
    ensures
        squares_with(b, piece, n).contains(sq),
    decreases n,
{
    let r = (n - 1) / 8;
    let c = (n - 1) % 8;
    let head = squares_with(b, piece, n - 1);
    let tail = if piece_at(b, r, c) == piece {
        seq![(r as usize, c as usize)]
    } else {
        Seq::empty()
    };
    if 8 * sq.0 + sq.1 < n - 1 {
        lemma_squares_with_has(b, piece, n - 1, sq);
    } else {
        assert(r == sq.0 && c == sq.1);
        assert(tail[0] == sq);
    }
    lemma_sum_has(head, tail, sq);
}

/// A square of a ray that lies behind empty squares only and holds no
/// friendly piece is a target of the ray.
pub proof fn lemma_ray_targets_has(
    b: [[i8; 8]; 8],
    sign: int,
    r: int,
    c: int,
    dr: int,
    dc: int,
    x: int,
    y: int,
    t: (usize, usize),
)
    requires
        sign_ok(sign),
        dir_ok(dr, dc),
        on_board(r, c),
        in_direction(r, c, dr, dc, x, y),
        square_ok(t),
        in_direction(r, c, dr, dc, t.0 as int, t.1 as int),
        !strictly_between(r, c, t.0 as int, t.1 as int, x, y),
        path_clear(b, r, c, t.0 as int, t.1 as int),
        !owned_by(piece_at(b, t.0 as int, t.1 as int), sign),
    ensures
        ray_targets(b, sign, x, y, dr, dc).contains(t),
    decreases
        (if dr > 0 { 8 - x } else if dr < 0 { x + 1 } else if dc > 0 { 8 - y } else { y + 1 }),
{
    let tr = t.0 as int;
    let tc = t.1 as int;
    crate::attack::lemma_ray_order(r, c, dr, dc, x, y, tr, tc);
    if x == tr && y == tc {
        if piece_at(b, x, y) == 0 {
            let head = seq![(x as usize, y as usize)];
            assert(head[0] == t);
            lemma_sum_has(head, ray_targets(b, sign, x + dr, y + dc, dr, dc), t);
        } else {
            assert(seq![(x as usize, y as usize)][0] == t);
        }
    } else {
        assert(strictly_between(r, c, x, y, tr, tc));
        assert(on_board(x, y));
        assert(piece_at(b, x, y) == 0);
        lemma_ray_step(r, c, dr, dc, x, y);
        lemma_ray_targets_has(b, sign, r, c, dr, dc, x + dr, y + dc, t);
        lemma_sum_has(
            seq![(x as usize, y as usize)],
            ray_targets(b, sign, x + dr, y + dc, dr, dc),
            t,
        );
    }
}

/// A plain step or capture along a ray over empty squares is among the moves
/// of that ray.
pub proof fn lemma_ray_moves_has(
    b: [[i8; 8]; 8],
    sign: int,
    from: (usize, usize),
    k: int,
    kind: PieceKind,
    to: (usize, usize),
)
    requires
        sign_ok(sign),
        square_ok(from),
        square_ok(to),
        0 <= k < 8,
        in_direction(
            from.0 as int,
            from.1 as int,
            direction(k).0,
            direction(k).1,
            to.0 as int,
            to.1 as int,
        ),
        path_clear(b, from.0 as int, from.1 as int, to.0 as int, to.1 as int),
        !owned_by(piece_at(b, to.0 as int, to.1 as int), sign),
    ensures
        ray_moves(b, sign, from, k, kind).contains(step_move(b, from, to, kind)),
{
    let dr = direction(k).0;
    let dc = direction(k).1;
    let r = from.0 as int;
    let c = from.1 as int;
    let targets = ray_targets(b, sign, r + dr, c + dc, dr, dc);
    let made = |t: (usize, usize)| step_move(b, from, t, kind);
    lemma_ray_step(r, c, dr, dc, r, c);
    lemma_ray_targets_has(b, sign, r, c, dr, dc, r + dr, c + dc, to);
    let i = choose|i: int| 0 <= i < targets.len() && targets[i] == to;
    assert(targets.map_values(made)[i] == made(to));
}

/// A plain step or capture that keeps the line rule is among the moves of
/// the sliders on `squares`, provided that its source is one of them and
/// that the line is a file or a rank when `straight`, else a diagonal.
pub proof fn lemma_slider_moves_has(
    b: [[i8; 8]; 8],
    sign: int,
    pins: Pins,
    squares: Seq<(usize, usize)>,
    kind: PieceKind,
    straight: bool,
    m: Move,
    line: int,
)
    requires
        sign_ok(sign),
        squares_ok(squares),
        squares.contains(m.from),
        m.wf(),
        m == step_move(b, m.from, m.to, kind),
        !owned_by(piece_at(b, m.to.0 as int, m.to.1 as int), sign),
        line_rule(b, pins, m, line),
        straight == (line < 2),
    ensures
        slider_moves(b, sign, pins, squares, kind, straight).contains(m),
{
    let first: int = if straight { 2 } else { 6 };
    let second: int = if straight { 0 } else { 4 };
    let per_square = |sq: (usize, usize)|
        slider_from(b, sign, pins, sq, kind, if straight { 2 } else { 6 }, if straight { 0 } else { 4 });
    let i = choose|i: int| 0 <= i < squares.len() && squares[i] == m.from;
    let from = squares[i];
    let k: int = 2 * line;
    let along_first = in_direction(
        from.0 as int,
        from.1 as int,
        direction(k).0,
        direction(k).1,
        m.to.0 as int,
        m.to.1 as int,
    );
    if along_first {
        lemma_ray_moves_has(b, sign, from, k, kind, m.to);
    } else {
        lemma_ray_moves_has(b, sign, from, k + 1, kind, m.to);
    }
    lemma_sum_has(ray_moves(b, sign, from, k, kind), ray_moves(b, sign, from, k + 1, kind), m);
    assert(line_moves(b, sign, pins, from, k, kind).contains(m));
    lemma_sum_has(
        line_moves(b, sign, pins, from, first, kind),
        line_moves(b, sign, pins, from, second, kind),
        m,
    );
    assert(per_square(from) == slider_from(b, sign, pins, from, kind, first, second));
    lemma_moves_over_has(squares, squares.len() as int, per_square, i, m);
}

/// A knight's jump to a square of the board that holds no friendly piece is
/// among its moves.
pub proof fn lemma_hop_moves_has(
    b: [[i8; 8]; 8],
    sign: int,
    from: (usize, usize),
    n: int,
    k: int,
    to: (usize, usize),
)
    requires
        0 <= k < n <= 8,
        square_ok(to),
        jump_hits(from.0 as int, from.1 as int, k, to.0 as int, to.1 as int),
        !owned_by(piece_at(b, to.0 as int, to.1 as int), sign),
    ensures
        hop_moves(b, sign, from, n).contains(step_move(b, from, to, PieceKind::Knight)),
    decreases n,
{
    let m = step_move(b, from, to, PieceKind::Knight);
    let r = from.0 + knight_jump(n - 1).0;
    let c = from.1 + knight_jump(n - 1).1;
    let head = hop_moves(b, sign, from, n - 1);
    let tail = if on_board(r, c) && !owned_by(piece_at(b, r, c), sign) {
        seq![step_move(b, from, (r as usize, c as usize), PieceKind::Knight)]
    } else {
        Seq::empty()
    };
    if k < n - 1 {
        lemma_hop_moves_has(b, sign, from, n - 1, k, to);
    } else {
        assert(tail[0] == m);
    }
    lemma_sum_has(head, tail, m);
}

/// A king's step to a square of the board that is out of danger and holds no
/// friendly piece is among its steps.
pub proof fn lemma_king_steps_has(
    b: [[i8; 8]; 8],
    sign: int,
    danger: Set<(int, int)>,
    from: (usize, usize),
    n: int,
    k: int,
    to: (usize, usize),
)
    requires
        0 <= k < n <= 8,
        square_ok(to),
        step_hits(from.0 as int, from.1 as int, k, to.0 as int, to.1 as int),
        !danger.contains((to.0 as int, to.1 as int)),
        !owned_by(piece_at(b, to.0 as int, to.1 as int), sign),
    ensures
        king_steps(b, sign, danger, from, n).contains(step_move(b, from, to, PieceKind::King)),
    decreases n,
{
    let m = step_move(b, from, to, PieceKind::King);
    let r = from.0 + direction(n - 1).0;
    let c = from.1 + direction(n - 1).1;
    let head = king_steps(b, sign, danger, from, n - 1);
    let tail = if on_board(r, c) && !danger.contains((r, c)) && !owned_by(piece_at(b, r, c), sign) {
        seq![step_move(b, from, (r as usize, c as usize), PieceKind::King)]
    } else {
        Seq::empty()
    };
    if k < n - 1 {
        lemma_king_steps_has(b, sign, danger, from, n - 1, k, to);
    } else {
        assert(tail[0] == m);
    }
    lemma_sum_has(head, tail, m);
}

/// A pawn move with a promotion exactly on the last rank, to rook, bishop,
/// knight or queen, is among the ways in which its plain form is played.
pub proof fn lemma_promoted_has(plain: Move, last_rank: bool, m: Move)
    requires
        plain == (Move { promotion: None, ..m }),
        (m.promotion is Some) == last_rank,
        m.promotion matches Some(kind) ==> !(kind is Pawn) && !(kind is King),
    ensures
        promoted(plain, last_rank).contains(m),
{
    let all = promoted(plain, last_rank);
    if last_rank {
        match m.promotion->0 {
            PieceKind::Rook => {
                assert(all[0] == m);
            },
            PieceKind::Bishop => {
                assert(all[1] == m);
            },
            PieceKind::Knight => {
                assert(all[2] == m);
            },
            _ => {
                assert(all[3] == m);
            },
        }
    } else {
        assert(all[0] == m);
    }
}

/// A move that obeys the pawn's rule is among the moves of the pawn on its
/// source square.
pub proof fn lemma_pawn_from_has(state: ChessState, white: bool, pins: Pins, m: Move)
    requires
        m.wf(),
        pawn_rule(state, if white { 1 } else { -1 }, pins, m),
    ensures
        pawn_from(state, white, pins, m.from).contains(m),
{
    let b = state.board;
    let from = m.from;
    let sign: int = if white { 1 } else { -1 };
    let last: int = if white { 7 } else { 0 };
    let plain = Move { promotion: None, ..m };
    let pushes = pawn_pushes(b, white, pins, from);
    let left = pawn_captures(state, white, pins, from, -1);
    let right = pawn_captures(state, white, pins, from, 1);
    let r1 = from.0 + sign;
    if m.to.1 == m.from.1 {
        let double = if from.0 == (if white { 1int } else { 6int }) && piece_at(
            b,
            r1 + sign,
            from.1 as int,
        ) == 0 {
            seq![push_move(from, ((r1 + sign) as usize, from.1), true)]
        } else {
            Seq::empty()
        };
        let single = promoted(push_move(from, (r1 as usize, from.1), false), r1 == last);
        if m.to.0 == r1 {
            lemma_promoted_has(push_move(from, (r1 as usize, from.1), false), r1 == last, m);
        } else {
            assert(double[0] == m);
        }
        lemma_sum_has(double, single, m);
        assert(pushes.contains(m));
    } else {
        let side: int = m.to.1 - m.from.1;
        let in_passing = may_take_in_passing(state, white, from, m.to.1 as int);
        lemma_promoted_has(pawn_capture(from, m.to, in_passing), r1 == last, m);
        if side == -1 {
            assert(left.contains(m));
        } else {
            assert(right.contains(m));
        }
    }
    if pushes.contains(m) || left.contains(m) {
        lemma_sum_has(pushes, left, m);
    }
    lemma_sum_has(pushes + left, right, m);
}

/// A move that obeys the king's rule is among the moves of the king on its
/// source square.
pub proof fn lemma_king_moves_has(
    state: ChessState,
    sign: int,
    danger: Set<(int, int)>,
    back: int,
    m: Move,
)
    requires
        sign_ok(sign),
        m.wf(),
        back == (if sign > 0 { 0int } else { 7int }),
        !owned_by(piece_at(state.board, m.to.0 as int, m.to.1 as int), sign),
        king_rule(state, sign, danger, m),
    ensures
        king_moves_of(state, sign, danger, m.from, back).contains(m),
{
    let b = state.board;
    let from = m.from;
    let steps = king_steps(b, sign, danger, from, 8);
    let castles = castle_moves(state, sign, danger, from, back);
    if m.is_castle() {
        let kingside = if may_castle(state, sign, danger, from, back, true) {
            seq![castle_move(from, true)]
        } else {
            Seq::empty()
        };
        let queenside = if may_castle(state, sign, danger, from, back, false) {
            seq![castle_move(from, false)]
        } else {
            Seq::empty()
        };
        if m.special is CastleKingside {
            assert(kingside[0] == m);
        } else {
            assert(queenside[0] == m);
        }
        lemma_sum_has(kingside, queenside, m);
    } else {
        lemma_king_steps(from.0 as int, from.1 as int, m.to.0 as int, m.to.1 as int);
        let k = choose|k: int|
            0 <= k < 8 && #[trigger] step_hits(
                from.0 as int,
                from.1 as int,
                k,
                m.to.0 as int,
                m.to.1 as int,
            );
        lemma_king_steps_has(b, sign, danger, from, 8, k, m.to);
    }
    lemma_sum_has(steps, castles, m);
}

/// The moves of the pawns on `squares` are the moves that obey the pawn's
/// rule from one of these squares.
pub proof fn lemma_pawn_moves_iff(
    state: ChessState,
    white: bool,
    pins: Pins,
    squares: Seq<(usize, usize)>,
    m: Move,
)
    requires
        squares_ok(squares),
    ensures
        pawn_moves_of(state, white, pins, squares).contains(m) <==> is_pawn_move(
            state,
            white,
            pins,
            squares,
            m,
        ),
{
    if pawn_moves_of(state, white, pins, squares).contains(m) {
        crate::rules::lemma_pawn_moves(state, white, pins, Set::empty(), squares, m);
    }
    if is_pawn_move(state, white, pins, squares, m) {
        let per_square = |sq: (usize, usize)| pawn_from(state, white, pins, sq);
        let i = choose|i: int| 0 <= i < squares.len() && squares[i] == m.from;
        lemma_pawn_from_has(state, white, pins, m);
        assert(per_square(squares[i]) == pawn_from(state, white, pins, m.from));
        lemma_moves_over_has(squares, squares.len() as int, per_square, i, m);
    }
}

/// The moves of the sliders on `squares` are the plain steps and captures
/// from one of these squares along the lines asked for.
pub proof fn lemma_slider_moves_iff(
    b: [[i8; 8]; 8],
    sign: int,
    pins: Pins,
    squares: Seq<(usize, usize)>,
    kind: PieceKind,
    straight: bool,
    m: Move,
)
    requires
        sign_ok(sign),
        squares_ok(squares),
    ensures
        slider_moves(b, sign, pins, squares, kind, straight).contains(m) <==> is_slider_move(
            b,
            sign,
            pins,
            squares,
            kind,
            straight,
            m,
        ),
{
    if slider_moves(b, sign, pins, squares, kind, straight).contains(m) {
        let line = crate::rules::lemma_slider_moves(b, sign, pins, squares, kind, straight, m);
        assert(straight == (line < 2) && line_rule(b, pins, m, line));
    }
    if is_slider_move(b, sign, pins, squares, kind, straight, m) {
        let line = choose|line: int| straight == (line < 2) && #[trigger] line_rule(b, pins, m, line);
        lemma_slider_moves_has(b, sign, pins, squares, kind, straight, m, line);
    }
}

/// The moves of the knights on `squares` are the jumps that obey the
/// knight's rule from one of these squares.
pub proof fn lemma_knight_moves_iff(
    state: ChessState,
    sign: int,
    pins: Pins,
    squares: Seq<(usize, usize)>,
    m: Move,
)
    requires
        squares_ok(squares),
    ensures
        knight_moves_of(state.board, sign, pins, squares).contains(m) <==> is_knight_move(
            state.board,
            sign,
            pins,
            squares,
            m,
        ),
{
    let b = state.board;
    if knight_moves_of(b, sign, pins, squares).contains(m) {
        crate::rules::lemma_knight_moves(state, sign, pins, Set::empty(), squares, m);
    }
    if is_knight_move(b, sign, pins, squares, m) {
        let per_square = |sq: (usize, usize)| knight_from(b, sign, pins, sq);
        let i = choose|i: int| 0 <= i < squares.len() && squares[i] == m.from;
        lemma_knight_jumps(m.from.0 as int, m.from.1 as int, m.to.0 as int, m.to.1 as int);
        let k = choose|k: int|
            0 <= k < 8 && #[trigger] jump_hits(
                m.from.0 as int,
                m.from.1 as int,
                k,
                m.to.0 as int,
                m.to.1 as int,
            );
        lemma_hop_moves_has(b, sign, m.from, 8, k, m.to);
        assert(per_square(squares[i]) == knight_from(b, sign, pins, m.from));
        lemma_moves_over_has(squares, squares.len() as int, per_square, i, m);
    }
}

/// The moves of the king on `from` are the moves that obey the king's rule
/// from that square.
pub proof fn lemma_king_moves_iff(
    state: ChessState,
    sign: int,
    danger: Set<(int, int)>,
    from: (usize, usize),
    back: int,
    m: Move,
)
    requires
        sign_ok(sign),
        square_ok(from),
    ensures
        king_moves_of(state, sign, danger, from, back).contains(m) <==> is_king_move(
            state,
            sign,
            danger,
            from,
            back,
            m,
        ),
{
    if king_moves_of(state, sign, danger, from, back).contains(m) {
        crate::rules::lemma_king_moves(state, sign, no_pins(), danger, from, back, m);
        if m.is_castle() {
            crate::rules::lemma_in_sum(
                king_steps(state.board, sign, danger, from, 8),
                castle_moves(state, sign, danger, from, back),
                m,
            );
            if king_steps(state.board, sign, danger, from, 8).contains(m) {
                crate::rules::lemma_king_steps(state.board, sign, danger, from, 8, m);
            }
            let kingside = if may_castle(state, sign, danger, from, back, true) {
                seq![castle_move(from, true)]
            } else {
                Seq::empty()
            };
            let queenside = if may_castle(state, sign, danger, from, back, false) {
                seq![castle_move(from, false)]
            } else {
                Seq::empty()
            };
            crate::rules::lemma_in_sum(kingside, queenside, m);
        }
    }
    if is_king_move(state, sign, danger, from, back, m) {
        if m.is_castle() {
            assert(back == (if sign > 0 { 0int } else { 7int }));
            lemma_king_moves_has(state, sign, danger, back, m);
        } else {
            lemma_king_steps(from.0 as int, from.1 as int, m.to.0 as int, m.to.1 as int);
            let k = choose|k: int|
                0 <= k < 8 && #[trigger] step_hits(
                    from.0 as int,
                    from.1 as int,
                    k,
                    m.to.0 as int,
                    m.to.1 as int,
                );
            lemma_king_steps_has(state.board, sign, danger, from, 8, k, m.to);
            lemma_sum_has(
                king_steps(state.board, sign, danger, from, 8),
                castle_moves(state, sign, danger, from, back),
                m,
            );
        }
    }
}

impl ChessState {
    /// Every move of a piece of the side to move that obeys the rule of that
    /// piece is among the raw moves.
    pub proof fn lemma_allowed_is_raw(self, m: Move)
        requires
            self.one_king(),
            self.allows(m),
        ensures
            self.raw_moves().contains(m),
    {
        reveal(ChessState::raw_moves);
        let b = self.board;
        let sign = self.mover();
        let pins = pins_of(b, sign);
        let danger = danger_of(b, sign);
        let pawns = pawn_moves_of(self, self.turn, pins, squares_with(b, sign, 64));
        let rooks = slider_moves(b, sign, pins, squares_with(b, 2 * sign, 64), PieceKind::Rook, true);
        let bishops = slider_moves(
            b,
            sign,
            pins,
            squares_with(b, 4 * sign, 64),
            PieceKind::Bishop,
            false,
        );
        let queens = slider_moves(b, sign, pins, squares_with(b, 5 * sign, 64), PieceKind::Queen, true);
        let queens2 = slider_moves(
            b,
            sign,
            pins,
            squares_with(b, 5 * sign, 64),
            PieceKind::Queen,
            false,
        );
        let knights = knight_moves_of(b, sign, pins, squares_with(b, 3 * sign, 64));
        let king = match first_with(b, 6 * sign) {
            Some(k) => king_moves_of(self, sign, danger, k, if self.turn { 0 } else { 7 }),
            None => Seq::empty(),
        };
        let code = m.piece.code_spec() * sign;
        let squares = squares_with(b, code, 64);
        lemma_squares_with_ok(b, code, 64);
        lemma_squares_with_has(b, code, 64, m.from);
        let i = choose|i: int| 0 <= i < squares.len() && squares[i] == m.from;
        match m.piece {
            PieceKind::Pawn => {
                let per_square = |sq: (usize, usize)| pawn_from(self, self.turn, pins, sq);
                lemma_pawn_from_has(self, self.turn, pins, m);
                assert(per_square(squares[i]) == pawn_from(self, self.turn, pins, m.from));
                lemma_moves_over_has(squares, squares.len() as int, per_square, i, m);
                assert(pawns.contains(m));
            },
            PieceKind::Knight => {
                let per_square = |sq: (usize, usize)| knight_from(b, sign, pins, sq);
                lemma_knight_jumps(m.from.0 as int, m.from.1 as int, m.to.0 as int, m.to.1 as int);
                let k = choose|k: int|
                    0 <= k < 8 && #[trigger] jump_hits(
                        m.from.0 as int,
                        m.from.1 as int,
                        k,
                        m.to.0 as int,
                        m.to.1 as int,
                    );
                lemma_hop_moves_has(b, sign, m.from, 8, k, m.to);
                assert(per_square(squares[i]) == knight_from(b, sign, pins, m.from));
                lemma_moves_over_has(squares, squares.len() as int, per_square, i, m);
                assert(knights.contains(m));
            },
            PieceKind::King => {
                lemma_only_is_first(b, 6 * sign, m.from.0 as int, m.from.1 as int);
                lemma_king_moves_has(self, sign, danger, if self.turn { 0 } else { 7 }, m);
                assert(king.contains(m));
            },
            _ => {
                let line = choose|line: int|
                    slides_on(m.piece, line) && #[trigger] line_rule(b, pins, m, line);
                lemma_slider_moves_has(b, sign, pins, squares, m.piece, line < 2, m, line);
                if m.piece is Rook {
                    assert(rooks.contains(m));
                } else if m.piece is Bishop {
                    assert(bishops.contains(m));
                } else {
                    assert(queens.contains(m) || queens2.contains(m));
                }
            },
        }
        if pawns.contains(m) || rooks.contains(m) {
            lemma_sum_has(pawns, rooks, m);
        }
        if (pawns + rooks).contains(m) || bishops.contains(m) {
            lemma_sum_has(pawns + rooks, bishops, m);
        }
        if (pawns + rooks + bishops).contains(m) || queens.contains(m) {
            lemma_sum_has(pawns + rooks + bishops, queens, m);
        }
        if (pawns + rooks + bishops + queens).contains(m) || queens2.contains(m) {
            lemma_sum_has(pawns + rooks + bishops + queens, queens2, m);
        }
        if (pawns + rooks + bishops + queens + queens2).contains(m) || knights.contains(m) {
            lemma_sum_has(pawns + rooks + bishops + queens + queens2, knights, m);
        }
        lemma_sum_has(pawns + rooks + bishops + queens + queens2 + knights, king, m);
    }

    /// The legal moves are exactly the moves that obey the rules, with the
    /// pins and danger squares of the position, and pass the test of
    /// `keeps`.
    pub proof fn lemma_legal_iff_allowed(self, m: Move)
        requires
            self.one_king(),
        ensures
            self.legal_moves().contains(m) <==> self.allows(m) && self.keeps(m),
    {
        if self.legal_moves().contains(m) {
            self.lemma_legal_is_allowed(m);
        }
        if self.allows(m) && self.keeps(m) {
            reveal(ChessState::legal_moves);
            self.lemma_allowed_is_raw(m);
            let kept = |m: Move| self.keeps(m);
            let raw = self.raw_moves();
            let i = choose|i: int| 0 <= i < raw.len() && raw[i] == m;
            raw.lemma_filter_contains(kept, i);
        }
    }
}

/// A piece that the pins of a line list is pinned along one of the two rays
/// of that line.
pub proof fn lemma_listed_is_pinned(
    b: [[i8; 8]; 8],
    sign: int,
    kr: int,
    kc: int,
    line: int,
    sq: (usize, usize),
) -> (k: int)
    requires
        0 <= line < 4,
        line_pins(b, sign, kr, kc, 2 * line).contains(sq),
    ensures
        k == 2 * line || k == 2 * line + 1,
        pinned_on_ray(b, sign, kr, kc, k, sq.0 as int, sq.1 as int),
{
    let first = pin_seq(b, sign, kr, kc, 2 * line);
    let second = pin_seq(b, sign, kr, kc, 2 * line + 1);
    crate::rules::lemma_in_sum(first, second, sq);
    if first.contains(sq) {
        assert(first[0] == sq);
        2 * line
    } else {
        assert(second[0] == sq);
        2 * line + 1
    }
}

/// A square on another line through a pinned piece, or a knight's jump away
/// from it, is neither the square of the pinning piece nor a square between
/// that piece and the king.
pub proof fn lemma_other_line_misses(
    kr: int,
    kc: int,
    k: int,
    from: (usize, usize),
    sr: int,
    sc: int,
    line: int,
    to: (usize, usize),
)
    requires
        0 <= k < 8,
        in_direction(kr, kc, direction(k).0, direction(k).1, from.0 as int, from.1 as int),
        in_direction(from.0 as int, from.1 as int, direction(k).0, direction(k).1, sr, sc),
        (0 <= line < 4 && line != k / 2 && on_line(from, line, to)) || knight_step(
            from.0 as int,
            from.1 as int,
            to.0 as int,
            to.1 as int,
        ),
    ensures
        !(sr == to.0 && sc == to.1),
        !(kr == to.0 && kc == to.1),
        !strictly_between(sr, sc, to.0 as int, to.1 as int, kr, kc),
{
}

/// A pinned piece that leaves the line of its pin uncovers the attack of the
/// pinning piece.
///
/// The board `after` keeps the pinning piece, has the square `from` empty and
/// has no new piece on the squares between the pinning piece and the king.
pub proof fn lemma_leaving_exposes(
    before: [[i8; 8]; 8],
    after: [[i8; 8]; 8],
    sign: int,
    kr: int,
    kc: int,
    k: int,
    from: (usize, usize),
    sr: int,
    sc: int,
)
    requires
        sign_ok(sign),
        0 <= k < 8,
        on_board(kr, kc),
        square_ok(from),
        pinned_on_ray(before, sign, kr, kc, k, from.0 as int, from.1 as int),
        pins_from(before, sign, k, from.0 as int, from.1 as int, sr, sc),
        piece_at(after, sr, sc) == piece_at(before, sr, sc),
        piece_at(after, from.0 as int, from.1 as int) == 0,
        forall|x: int, y: int|
            on_board(x, y) && strictly_between(sr, sc, x, y, kr, kc) ==> #[trigger] piece_at(
                after,
                x,
                y,
            ) == piece_at(before, x, y) || piece_at(after, x, y) == 0,
    ensures
        attacked_by(after, -sign, kr, kc),
{
    reveal(attacks);
    let fr = from.0 as int;
    let fc = from.1 as int;
    assert(path_clear(after, sr, sc, kr, kc)) by {
        assert forall|x: int, y: int|
            on_board(x, y) && strictly_between(sr, sc, x, y, kr, kc) implies #[trigger] piece_at(
            after,
            x,
            y,
        ) == 0 by {
            if !(x == fr && y == fc) {
                if strictly_between(kr, kc, x, y, fr, fc) {
                    assert(piece_at(before, x, y) == 0);
                } else {
                    assert(strictly_between(fr, fc, x, y, sr, sc));
                    assert(piece_at(before, x, y) == 0);
                }
            }
        }
    }
    assert(attacks(after, sr, sc, kr, kc));
}

/// An attack on a square goes on after a move when the attacker stays and no
/// square between the two is newly occupied.
pub proof fn lemma_attack_goes_on(
    before: [[i8; 8]; 8],
    after: [[i8; 8]; 8],
    sr: int,
    sc: int,
    tr: int,
    tc: int,
)
    requires
        attacks(before, sr, sc, tr, tc),
        piece_at(after, sr, sc) == piece_at(before, sr, sc),
        forall|x: int, y: int|
            on_board(x, y) && strictly_between(sr, sc, x, y, tr, tc) ==> #[trigger] piece_at(
                after,
                x,
                y,
            ) == piece_at(before, x, y) || piece_at(after, x, y) == 0,
    ensures
        attacks(after, sr, sc, tr, tc),
{
    reveal(attacks);
    if path_clear(before, sr, sc, tr, tc) {
        assert forall|x: int, y: int|
            on_board(x, y) && strictly_between(sr, sc, x, y, tr, tc) implies #[trigger] piece_at(
            after,
            x,
            y,
        ) == 0 by {
            assert(piece_at(before, x, y) == 0);
        }
    }
}

impl ChessState {
    /// A move that obeys the rules with pins and danger squares taken into
    /// account obeys them all the more when these are left aside.
    pub proof fn lemma_allowed_is_pseudo_legal(self, m: Move)
        requires
            self.allows(m),
        ensures
            self.is_pseudo_legal(m),
            m.wf(),
    {
        reveal(ChessState::is_pseudo_legal);
        let free = no_pins();
        assert(!pinned_off(free, m.from, 0) && !pinned_off(free, m.from, 1) && !pinned_off(
            free,
            m.from,
            2,
        ) && !pinned_off(free, m.from, 3) && !pinned_off(free, m.from, 4));
        if !(m.piece is King) && !(m.piece is Pawn) && !(m.piece is Knight) {
            let line = choose|line: int|
                slides_on(m.piece, line) && #[trigger] line_rule(
                    self.board,
                    pins_of(self.board, self.mover()),
                    m,
                    line,
                );
            assert(line_rule(self.board, free, m, line));
        }
    }

    /// Both squares of a move that obeys the rules lie on the board.
    pub proof fn lemma_pseudo_legal_on_board(self, m: Move)
        requires
            self.is_pseudo_legal(m),
        ensures
            m.wf(),
    {
        reveal(ChessState::is_pseudo_legal);
    }

    /// What a move of a piece other than the king changes on the board: the
    /// source and, for a capture in passing, the square of the captured pawn
    /// are empty afterwards, the destination holds a piece of the mover that
    /// is no king, and every other square is as before.
    pub proof fn lemma_piece_move_changes(self, m: Move)
        requires
            self.wf(),
            m.wf(),
            m.from != m.to,
            !m.is_castle(),
            piece_at(self.board, m.from.0 as int, m.from.1 as int) == m.piece.code_spec()
                * self.mover(),
            !(m.piece is King),
            m.promotion matches Some(kind) ==> !(kind is King),
        ensures
            forall|x: int, y: int|
                on_board(x, y) && !(x == m.to.0 && y == m.to.1) ==> #[trigger] piece_at(
                    board_after(self.board, self.turn, m),
                    x,
                    y,
                ) == (if (x == m.from.0 && y == m.from.1) || (m.special is EnPassantCapture && x
                    == m.from.0 && y == m.to.1) {
                    0
                } else {
                    piece_at(self.board, x, y)
                }),
            owned_by(
                piece_at(board_after(self.board, self.turn, m), m.to.0 as int, m.to.1 as int),
                self.mover(),
            ),
            piece_at(board_after(self.board, self.turn, m), m.to.0 as int, m.to.1 as int) != 6
                * self.mover(),
    {
        let after = board_after(self.board, self.turn, m);
        lemma_board_after(self.board, self.turn, m);
        assert forall|x: int, y: int| on_board(x, y) implies #[trigger] piece_at(after, x, y)
            == cell_after(self.board, self.turn, m, x, y) by {}
        assert(piece_at(after, m.to.0 as int, m.to.1 as int) == cell_after(
            self.board,
            self.turn,
            m,
            m.to.0 as int,
            m.to.1 as int,
        ));
    }

    /// A move of a piece other than the king that leaves the king safe is a
    /// move of a piece that is not pinned, or a move along the line of the
    /// pin. The move runs along the given line, or is a knight's jump when
    /// the line is 4.
    pub proof fn lemma_safe_move_is_unpinned(self, m: Move, line: int)
        requires
            self.wf(),
            self.one_king(),
            m.wf(),
            m.from != m.to,
            !m.is_castle(),
            piece_at(self.board, m.from.0 as int, m.from.1 as int) == m.piece.code_spec()
                * self.mover(),
            !(m.piece is King),
            m.promotion matches Some(kind) ==> !(kind is King),
            !owned_by(piece_at(self.board, m.to.0 as int, m.to.1 as int), self.mover()),
            m.special is EnPassantCapture ==> kind_of(
                piece_at(self.board, m.from.0 as int, m.to.1 as int),
            ) == 1,
            (0 <= line < 4 && on_line(m.from, line, m.to)) || (line == 4 && knight_step(
                m.from.0 as int,
                m.from.1 as int,
                m.to.0 as int,
                m.to.1 as int,
            )),
            self.safe_after(m),
        ensures
            !pinned_off(pins_of(self.board, self.mover()), m.from, line),
    {
        let b = self.board;
        let sign = self.mover();
        let pins = pins_of(b, sign);
        let after = board_after(b, self.turn, m);
        if pinned_off(pins, m.from, line) {
            lemma_first_with(b, 6 * sign);
            let king = first_with(b, 6 * sign)->0;
            let kr = king.0 as int;
            let kc = king.1 as int;
            let other: int = if line != 0 && pins.vertical.contains(m.from) {
                0
            } else if line != 1 && pins.horizontal.contains(m.from) {
                1
            } else if line != 2 && pins.left.contains(m.from) {
                2
            } else {
                3
            };
            let k = lemma_listed_is_pinned(b, sign, kr, kc, other, m.from);
            let fr = m.from.0 as int;
            let fc = m.from.1 as int;
            let (sr, sc) = choose|sr: int, sc: int| #[trigger] pins_from(b, sign, k, fr, fc, sr, sc);
            lemma_other_line_misses(kr, kc, k, m.from, sr, sc, line, m.to);
            self.lemma_piece_move_changes(m);
            assert(piece_at(after, sr, sc) == piece_at(b, sr, sc));
            assert(piece_at(after, fr, fc) == 0);
            lemma_leaving_exposes(b, after, sign, kr, kc, k, m.from, sr, sc);
            assert(piece_at(after, kr, kc) == 6 * sign);
            assert(at_most_one(after, 6 * sign)) by {
                assert forall|x: int, y: int, u: int, v: int|
                    #![trigger holds_code(after, 6 * sign, x, y), holds_code(after, 6 * sign, u, v)]
                    holds_code(after, 6 * sign, x, y) && holds_code(after, 6 * sign, u, v) implies x
                    == u && y == v by {
                    assert(holds_code(b, 6 * sign, x, y));
                    assert(holds_code(b, 6 * sign, u, v));
                }
            }
            lemma_only_is_first(after, 6 * sign, kr, kc);
            assert(false);
        }
    }

    /// A step of the king that leaves it safe goes to a square that was out
    /// of danger.
    pub proof fn lemma_safe_step_is_out_of_danger(self, m: Move)
        requires
            self.wf(),
            self.one_king(),
            m.wf(),
            m.from != m.to,
            m == step_move(self.board, m.from, m.to, PieceKind::King),
            piece_at(self.board, m.from.0 as int, m.from.1 as int) == 6 * self.mover(),
            !owned_by(piece_at(self.board, m.to.0 as int, m.to.1 as int), self.mover()),
            self.safe_after(m),
        ensures
            !danger_of(self.board, self.mover()).contains((m.to.0 as int, m.to.1 as int)),
    {
        let b = self.board;
        let sign = self.mover();
        let after = board_after(b, self.turn, m);
        let fr = m.from.0 as int;
        let fc = m.from.1 as int;
        let tr = m.to.0 as int;
        let tc = m.to.1 as int;
        if attacked_by(b, -sign, tr, tc) {
            let (sr, sc) = choose|sr: int, sc: int|
                on_board(sr, sc) && owned_by(piece_at(b, sr, sc), -sign) && #[trigger] attacks(
                    b,
                    sr,
                    sc,
                    tr,
                    tc,
                );
            assert(!(sr == tr && sc == tc)) by {
                reveal(attacks);
            }
            lemma_plain_change(b, self.turn, m);
            lemma_attack_goes_on(b, after, sr, sc, tr, tc);
            assert(at_most_one(after, 6 * sign)) by {
                assert forall|x: int, y: int, u: int, v: int|
                    #![trigger holds_code(after, 6 * sign, x, y), holds_code(after, 6 * sign, u, v)]
                    holds_code(after, 6 * sign, x, y) && holds_code(after, 6 * sign, u, v) implies x
                    == u && y == v by {
                    assert(holds_code(b, 6 * sign, fr, fc));
                    if !(x == tr && y == tc) {
                        assert(holds_code(b, 6 * sign, x, y));
                    }
                    if !(u == tr && v == tc) {
                        assert(holds_code(b, 6 * sign, u, v));
                    }
                }
            }
            lemma_only_is_first(after, 6 * sign, tr, tc);
            assert(attacked_by(after, -sign, tr, tc));
            assert(false);
        }
    }

    /// A legal move obeys the rules with the pins and danger squares of the
    /// position taken into account.
    pub proof fn lemma_legal_is_allowed_by_pins(self, m: Move)
        requires
            self.wf(),
            self.one_king(),
            self.is_legal(m),
        ensures
            self.allows(m),
    {
        reveal(ChessState::is_pseudo_legal);
        let b = self.board;
        let sign = self.mover();
        let pins = pins_of(b, sign);
        let free = no_pins();
        match m.piece {
            PieceKind::King => {
                if !m.is_castle() {
                    self.lemma_safe_step_is_out_of_danger(m);
                }
            },
            PieceKind::Knight => {
                self.lemma_safe_move_is_unpinned(m, 4);
            },
            PieceKind::Pawn => {
                let line: int = if m.to.1 == m.from.1 {
                    0
                } else if m.to.1 - m.from.1 == sign {
                    3
                } else {
                    2
                };
                assert(on_line(m.from, line, m.to));
                self.lemma_safe_move_is_unpinned(m, line);
            },
            _ => {
                let line = choose|line: int|
                    slides_on(m.piece, line) && #[trigger] line_rule(b, free, m, line);
                self.lemma_safe_move_is_unpinned(m, line);
                assert(line_rule(b, pins, m, line));
            },
        }
    }

    /// The legal moves are exactly the legal ones: a move is among them if
    /// and only if it obeys the rule of its piece and leaves the mover's own
    /// king unattacked.
    pub proof fn legal_moves_are_exactly_the_legal_ones(self, m: Move)
        requires
            self.wf(),
            self.one_king(),
        ensures
            self.legal_moves().contains(m) <==> self.is_legal(m),
    {
        self.lemma_legal_iff_allowed(m);
        if self.legal_moves().contains(m) {
            self.legality_closure(m);
            self.lemma_allowed_is_pseudo_legal(m);
        }
        if self.is_legal(m) {
            self.lemma_legal_is_allowed_by_pins(m);
        }
    }
}

impl ChessState {
    /// Each side has at most one king.
    pub open spec fn kings_ok(self) -> bool {
        at_most_one(self.board, 6) && at_most_one(self.board, -6)
    }

    /// A move that obeys the rules never adds a king: where each side has at
    /// most one king, each side has at most one afterwards.
    pub proof fn kings_stay_single(self, m: Move)
        requires
            self.wf(),
            self.kings_ok(),
            self.is_pseudo_legal(m),
        ensures
            self.after(m).kings_ok(),
            self.after(m).one_king(),
    {
        reveal(ChessState::is_pseudo_legal);
        let b = self.board;
        let sign = self.mover();
        let own: int = 6 * sign;
        let other: int = -6 * sign;
        let after = board_after(b, self.turn, m);
        let fr = m.from.0 as int;
        let fc = m.from.1 as int;
        let tr = m.to.0 as int;
        let tc = m.to.1 as int;
        lemma_board_after(b, self.turn, m);
        assert forall|x: int, y: int| on_board(x, y) implies #[trigger] piece_at(after, x, y)
            == cell_after(b, self.turn, m, x, y) by {}
        assert(m.is_castle() ==> m.piece is King);
        assert(m.promotion matches Some(kind) ==> !(kind is King));
        // A king stands after the move where one stood before, or where the
        // mover's king has gone.
        assert forall|x: int, y: int| #[trigger] holds_code(after, other, x, y) implies holds_code(
            b,
            other,
            x,
            y,
        ) by {
            assert(piece_at(after, x, y) == cell_after(b, self.turn, m, x, y));
        }
        assert forall|x: int, y: int|
            #[trigger] holds_code(after, own, x, y) implies (if m.piece is King {
            x == tr && y == tc && holds_code(b, own, fr, fc)
        } else {
            holds_code(b, own, x, y)
        }) by {
            assert(piece_at(after, x, y) == cell_after(b, self.turn, m, x, y));
            assert(piece_at(after, fr, fc) == cell_after(b, self.turn, m, fr, fc));
            if m.piece is King {
                assert(holds_code(b, own, fr, fc));
                if !(x == tr && y == tc) {
                    assert(holds_code(b, own, x, y));
                }
            }
        }
        assert(at_most_one(after, own)) by {
            assert forall|x: int, y: int, u: int, v: int|
                #![trigger holds_code(after, own, x, y), holds_code(after, own, u, v)]
                holds_code(after, own, x, y) && holds_code(after, own, u, v) implies x
                == u && y == v by {
                if !(m.piece is King) {
                    assert(holds_code(b, own, x, y) && holds_code(b, own, u, v));
                }
            }
        }
        assert(at_most_one(after, other)) by {
            assert forall|x: int, y: int, u: int, v: int|
                #![trigger holds_code(after, other, x, y), holds_code(after, other, u, v)]
                holds_code(after, other, x, y) && holds_code(after, other, u, v) implies x
                == u && y == v by {
                assert(holds_code(b, other, x, y) && holds_code(b, other, u, v));
            }
        }
    }

    /// The side `sign` is ready to castle on the given wing: it holds the
    /// right, and its king and the rook of that wing stand on their home
    /// squares.
    pub open spec fn ready_to_castle(self, sign: int, kingside: bool) -> bool {
        let back: int = if sign > 0 { 0 } else { 7 };
        &&& holds_right(self, sign, kingside)
        &&& piece_at(self.board, back, 4) == 6 * sign
        &&& piece_at(self.board, back, if kingside { 7 } else { 0 }) == 2 * sign
    }

    /// Castling never becomes available: a side that is ready to castle on
    /// a wing after a move was ready before it, with the same king and the
    /// same rook on their home squares. A king or a rook that has moved,
    /// or has come to its home square from elsewhere, castles no more.
    pub proof fn castling_never_becomes_available(self, m: Move, sign: int, kingside: bool)
        requires
            self.wf(),
            self.is_pseudo_legal(m),
            sign_ok(sign),
            self.after(m).ready_to_castle(sign, kingside),
        ensures
            self.ready_to_castle(sign, kingside),
            !touches(m, if sign > 0 { 0 } else { 7 }, 4),
            !touches(m, if sign > 0 { 0 } else { 7 }, if kingside { 7 } else { 0 }),
    {
        reveal(ChessState::is_pseudo_legal);
        let b = self.board;
        let after = board_after(b, self.turn, m);
        let back: int = if sign > 0 { 0 } else { 7 };
        let corner: int = if kingside { 7 } else { 0 };
        lemma_board_after(b, self.turn, m);
        assert(piece_at(after, back, 4) == cell_after(b, self.turn, m, back, 4));
        assert(piece_at(after, back, corner) == cell_after(b, self.turn, m, back, corner));
        assert(m.is_castle() ==> m.piece is King);
        assert(m.promotion matches Some(kind) ==> !(kind is King));
    }
}

} // verus!
