//! No move is generated twice.
use crate::attack::{direction, jump_hits, knight_jump, lemma_ray_step, step_hits};
use crate::board::{dir_ok, on_board, owned_by, piece_at, sign_ok, square_ok};
use crate::move_generation::{
    castle_move, danger_of, first_with, hop_moves, king_moves_of, king_steps,
    knight_from, knight_moves_of, line_moves, may_castle, may_take_in_passing, moves_over,
    pawn_capture, pawn_captures, pawn_from, pawn_moves_of, pawn_pushes, pins_of, promoted,
    push_move, ray_moves, ray_targets, slider_from, slider_moves, squares_ok, squares_with,
    step_move, Pins,
};
use crate::moves::{Move, PieceKind};
use crate::position::ChessState;
use crate::rules::{
    lemma_first_with, lemma_in_sum, lemma_king_moves, lemma_knight_moves, lemma_line_moves,
    lemma_moves_over, lemma_pawn_from, lemma_pawn_moves, lemma_ray_moves, lemma_ray_targets,
    lemma_slider_moves, lemma_squares_with_ok, line_rule,
};
use vstd::prelude::*;

verus! {

/// Two sequences without repetition that share no element make one without
/// repetition.
pub proof fn lemma_sum_distinct<A>(a: Seq<A>, b: Seq<A>)
    requires
        a.no_duplicates(),
        b.no_duplicates(),
        forall|x: A| a.contains(x) ==> !b.contains(x),
    ensures
        (a + b).no_duplicates(),
{
    let s = a + b;
    assert forall|i: int, j: int| 0 <= i < s.len() && 0 <= j < s.len() && i != j implies s[i]
        != s[j] by {
        if i < a.len() && j >= a.len() {
            assert(a.contains(a[i]));
            assert(b.contains(b[j - a.len()]));
        }
        if j < a.len() && i >= a.len() {
            assert(a.contains(a[j]));
            assert(b.contains(b[i - a.len()]));
        }
    }
}

/// Keeping some elements of a sequence without repetition leaves no
/// repetition.
pub proof fn lemma_filter_distinct<A>(s: Seq<A>, pred: spec_fn(A) -> bool)
    requires
        s.no_duplicates(),
    ensures
        s.filter(pred).no_duplicates(),
    decreases s.len(),
{
    reveal(Seq::filter);
    if s.len() > 0 {
        let head = s.drop_last();
        lemma_filter_distinct(head, pred);
        if pred(s.last()) {
            let kept = head.filter(pred);
            if kept.contains(s.last()) {
                head.lemma_filter_contains_rev(pred, s.last());
                let i = choose|i: int| 0 <= i < head.len() && head[i] == s.last();
                assert(s[i] == s[s.len() - 1]);
            }
            assert(kept.push(s.last()) =~= kept + seq![s.last()]);
            assert forall|x: A| kept.contains(x) implies !seq![s.last()].contains(x) by {
                if seq![s.last()].contains(x) {
                    assert(x == s.last());
                }
            }
            lemma_sum_distinct(kept, seq![s.last()]);
        }
    }
}

/// The squares listed for a code among the first `n` lie among the first
/// `n`, and none is listed twice.
pub proof fn lemma_squares_with_distinct(b: [[i8; 8]; 8], piece: int, n: int)
    requires
        0 <= n <= 64,
    ensures
        squares_with(b, piece, n).no_duplicates(),
        forall|sq: (usize, usize)|
            #[trigger] squares_with(b, piece, n).contains(sq) ==> square_ok(sq) && 8 * sq.0 + sq.1
                < n,
    decreases n,
{
    if n > 0 {
        let r = (n - 1) / 8;
        let c = (n - 1) % 8;
        let head = squares_with(b, piece, n - 1);
        let tail = if piece_at(b, r, c) == piece {
            seq![(r as usize, c as usize)]
        } else {
            Seq::empty()
        };
        lemma_squares_with_distinct(b, piece, n - 1);
        assert(8 * r + c == n - 1 && 0 <= r < 8 && 0 <= c < 8);
        assert forall|sq: (usize, usize)| #[trigger]
            squares_with(b, piece, n).contains(sq) implies square_ok(sq) && 8 * sq.0 + sq.1
            < n by {
            lemma_in_sum(head, tail, sq);
            if head.contains(sq) {
                assert(squares_with(b, piece, n - 1).contains(sq));
            } else {
                assert(tail[0] == sq);
            }
        }
        assert forall|sq: (usize, usize)| head.contains(sq) implies !tail.contains(sq) by {
            assert(squares_with(b, piece, n - 1).contains(sq));
            if tail.contains(sq) {
                assert(tail[0] == sq);
            }
        }
        lemma_sum_distinct(head, tail);
    } else {
        assert(squares_with(b, piece, n).len() == 0);
    }
}

/// The moves of the first `n` squares are pairwise different when the
/// squares are, when each square gives pairwise different moves, and when
/// every move starts on the square that gives it.
pub proof fn lemma_moves_over_distinct(
    squares: Seq<(usize, usize)>,
    n: int,
    per_square: spec_fn((usize, usize)) -> Seq<Move>,
)
    requires
        0 <= n <= squares.len(),
        squares.no_duplicates(),
        forall|i: int| 0 <= i < n ==> (#[trigger] per_square(squares[i])).no_duplicates(),
        forall|i: int, m: Move|
            0 <= i < n && #[trigger] per_square(squares[i]).contains(m) ==> m.from == squares[i],
    ensures
        moves_over(squares, n, per_square).no_duplicates(),
    decreases n,
{
    if n > 0 {
        let head = moves_over(squares, n - 1, per_square);
        let tail = per_square(squares[n - 1]);
        lemma_moves_over_distinct(squares, n - 1, per_square);
        assert forall|x: Move| head.contains(x) implies !tail.contains(x) by {
            let i = lemma_moves_over(squares, n - 1, per_square, x);
            assert(per_square(squares[i]).contains(x));
            assert(x.from == squares[i]);
            if tail.contains(x) {
                assert(per_square(squares[n - 1]).contains(x));
            }
        }
        lemma_sum_distinct(head, tail);
    }
}

/// No square is a target of a ray twice.
pub proof fn lemma_ray_targets_distinct(b: [[i8; 8]; 8], sign: int, x: int, y: int, dr: int, dc: int)
    requires
        sign_ok(sign),
    ensures
        ray_targets(b, sign, x, y, dr, dc).no_duplicates(),
    decreases
        (if dr > 0 { 8 - x } else if dr < 0 { x + 1 } else if dc > 0 { 8 - y } else { y + 1 }),
{
    if dir_ok(dr, dc) && on_board(x, y) && piece_at(b, x, y) == 0 {
        let head = seq![(x as usize, y as usize)];
        let tail = ray_targets(b, sign, x + dr, y + dc, dr, dc);
        lemma_ray_targets_distinct(b, sign, x + dr, y + dc, dr, dc);
        assert forall|t: (usize, usize)| head.contains(t) implies !tail.contains(t) by {
            assert(head[0] == t);
            if tail.contains(t) {
                lemma_ray_step(x, y, dr, dc, x, y);
                lemma_ray_targets(b, sign, x, y, dr, dc, x + dr, y + dc, t);
            }
        }
        lemma_sum_distinct(head, tail);
    }
}

/// A slider has pairwise different moves along a ray.
pub proof fn lemma_ray_moves_distinct(
    b: [[i8; 8]; 8],
    sign: int,
    from: (usize, usize),
    k: int,
    kind: PieceKind,
)
    requires
        sign_ok(sign),
    ensures
        ray_moves(b, sign, from, k, kind).no_duplicates(),
{
    let targets = ray_targets(
        b,
        sign,
        from.0 + direction(k).0,
        from.1 + direction(k).1,
        direction(k).0,
        direction(k).1,
    );
    lemma_ray_targets_distinct(
        b,
        sign,
        from.0 + direction(k).0,
        from.1 + direction(k).1,
        direction(k).0,
        direction(k).1,
    );
    let moves = ray_moves(b, sign, from, k, kind);
    assert forall|i: int, j: int|
        0 <= i < moves.len() && 0 <= j < moves.len() && i != j implies moves[i] != moves[j] by {
        assert(moves[i].to == targets[i]);
        assert(moves[j].to == targets[j]);
    }
}

/// The slider on `from` has pairwise different moves, all of which start on
/// `from`.
pub proof fn lemma_slider_from_distinct(
    b: [[i8; 8]; 8],
    sign: int,
    pins: Pins,
    from: (usize, usize),
    kind: PieceKind,
    first: int,
    second: int,
)
    requires
        sign_ok(sign),
        square_ok(from),
        first == 0 || first == 2 || first == 4 || first == 6,
        second == 0 || second == 2 || second == 4 || second == 6,
        first != second,
    ensures
        slider_from(b, sign, pins, from, kind, first, second).no_duplicates(),
        forall|m: Move|
            slider_from(b, sign, pins, from, kind, first, second).contains(m) ==> m.from == from,
{
    lemma_line_distinct(b, sign, pins, from, kind, first);
    lemma_line_distinct(b, sign, pins, from, kind, second);
    let a = line_moves(b, sign, pins, from, first, kind);
    let c = line_moves(b, sign, pins, from, second, kind);
    assert forall|m: Move| a.contains(m) implies !c.contains(m) by {
        lemma_line_moves(b, sign, pins, from, first, kind, m);
        if c.contains(m) {
            lemma_line_moves(b, sign, pins, from, second, kind, m);
        }
    }
    lemma_sum_distinct(a, c);
    assert forall|m: Move| (a + c).contains(m) implies m.from == from by {
        lemma_in_sum(a, c, m);
        if a.contains(m) {
            lemma_line_moves(b, sign, pins, from, first, kind, m);
        } else {
            lemma_line_moves(b, sign, pins, from, second, kind, m);
        }
    }
}

/// A slider has pairwise different moves along a line.
pub proof fn lemma_line_distinct(
    b: [[i8; 8]; 8],
    sign: int,
    pins: Pins,
    from: (usize, usize),
    kind: PieceKind,
    k: int,
)
    requires
        sign_ok(sign),
        square_ok(from),
        k == 0 || k == 2 || k == 4 || k == 6,
    ensures
        line_moves(b, sign, pins, from, k, kind).no_duplicates(),
{
    let a = ray_moves(b, sign, from, k, kind);
    let c = ray_moves(b, sign, from, k + 1, kind);
    lemma_ray_moves_distinct(b, sign, from, k, kind);
    lemma_ray_moves_distinct(b, sign, from, k + 1, kind);
    assert forall|m: Move| a.contains(m) implies !c.contains(m) by {
        lemma_ray_moves(b, sign, from, k, kind, m);
        if c.contains(m) {
            lemma_ray_moves(b, sign, from, k + 1, kind, m);
        }
    }
    lemma_sum_distinct(a, c);
}

/// The sliders on `squares` have pairwise different moves when the squares
/// are pairwise different.
pub proof fn lemma_slider_moves_distinct(
    b: [[i8; 8]; 8],
    sign: int,
    pins: Pins,
    squares: Seq<(usize, usize)>,
    kind: PieceKind,
    straight: bool,
)
    requires
        sign_ok(sign),
        squares_ok(squares),
        squares.no_duplicates(),
    ensures
        slider_moves(b, sign, pins, squares, kind, straight).no_duplicates(),
{
    let first: int = if straight { 2 } else { 6 };
    let second: int = if straight { 0 } else { 4 };
    let per_square = |sq: (usize, usize)|
        slider_from(b, sign, pins, sq, kind, if straight { 2 } else { 6 }, if straight { 0 } else { 4 });
    assert forall|i: int| 0 <= i < squares.len() implies (#[trigger] per_square(
        squares[i],
    )).no_duplicates() by {
        lemma_slider_from_distinct(b, sign, pins, squares[i], kind, first, second);
    }
    assert forall|i: int, m: Move|
        0 <= i < squares.len() && #[trigger] per_square(squares[i]).contains(m) implies m.from
        == squares[i] by {
        lemma_slider_from_distinct(b, sign, pins, squares[i], kind, first, second);
    }
    lemma_moves_over_distinct(squares, squares.len() as int, per_square);
}

/// A move among a knight's first `n` jumps is one of these jumps.
pub proof fn lemma_hop_index(b: [[i8; 8]; 8], sign: int, from: (usize, usize), n: int, m: Move)
    requires
        square_ok(from),
        0 <= n <= 8,
        hop_moves(b, sign, from, n).contains(m),
    ensures
        m.from == from,
        exists|k: int|
            0 <= k < n && #[trigger] jump_hits(
                from.0 as int,
                from.1 as int,
                k,
                m.to.0 as int,
                m.to.1 as int,
            ),
    decreases n,
{
    if n > 0 {
        let r = from.0 + knight_jump(n - 1).0;
        let c = from.1 + knight_jump(n - 1).1;
        let head = hop_moves(b, sign, from, n - 1);
        let tail = if on_board(r, c) && !owned_by(piece_at(b, r, c), sign) {
            seq![step_move(b, from, (r as usize, c as usize), PieceKind::Knight)]
        } else {
            Seq::empty()
        };
        lemma_in_sum(head, tail, m);
        if head.contains(m) {
            lemma_hop_index(b, sign, from, n - 1, m);
            let k = choose|k: int|
                0 <= k < n - 1 && #[trigger] jump_hits(
                    from.0 as int,
                    from.1 as int,
                    k,
                    m.to.0 as int,
                    m.to.1 as int,
                );
            assert(jump_hits(from.0 as int, from.1 as int, k, m.to.0 as int, m.to.1 as int));
        } else {
            assert(tail[0] == m);
            assert(m.to.0 as int == r && m.to.1 as int == c);
            assert(jump_hits(from.0 as int, from.1 as int, n - 1, m.to.0 as int, m.to.1 as int));
        }
    } else {
        assert(hop_moves(b, sign, from, n).len() == 0);
    }
}

/// A knight has pairwise different moves.
pub proof fn lemma_hop_distinct(b: [[i8; 8]; 8], sign: int, from: (usize, usize), n: int)
    requires
        square_ok(from),
        0 <= n <= 8,
    ensures
        hop_moves(b, sign, from, n).no_duplicates(),
    decreases n,
{
    if n > 0 {
        let r = from.0 + knight_jump(n - 1).0;
        let c = from.1 + knight_jump(n - 1).1;
        let head = hop_moves(b, sign, from, n - 1);
        let tail = if on_board(r, c) && !owned_by(piece_at(b, r, c), sign) {
            seq![step_move(b, from, (r as usize, c as usize), PieceKind::Knight)]
        } else {
            Seq::empty()
        };
        lemma_hop_distinct(b, sign, from, n - 1);
        assert forall|m: Move| head.contains(m) implies !tail.contains(m) by {
            lemma_hop_index(b, sign, from, n - 1, m);
            if tail.contains(m) {
                assert(tail[0] == m);
            }
        }
        lemma_sum_distinct(head, tail);
    }
}

/// A move among a king's steps in the first `n` directions is one of these
/// steps.
pub proof fn lemma_step_index(
    b: [[i8; 8]; 8],
    sign: int,
    danger: Set<(int, int)>,
    from: (usize, usize),
    n: int,
    m: Move,
)
    requires
        square_ok(from),
        0 <= n <= 8,
        king_steps(b, sign, danger, from, n).contains(m),
    ensures
        m.from == from,
        !m.is_castle(),
        exists|k: int|
            0 <= k < n && #[trigger] step_hits(
                from.0 as int,
                from.1 as int,
                k,
                m.to.0 as int,
                m.to.1 as int,
            ),
    decreases n,
{
    if n > 0 {
        let r = from.0 + direction(n - 1).0;
        let c = from.1 + direction(n - 1).1;
        let head = king_steps(b, sign, danger, from, n - 1);
        let tail = if on_board(r, c) && !danger.contains((r, c)) && !owned_by(
            piece_at(b, r, c),
            sign,
        ) {
            seq![step_move(b, from, (r as usize, c as usize), PieceKind::King)]
        } else {
            Seq::empty()
        };
        lemma_in_sum(head, tail, m);
        if head.contains(m) {
            lemma_step_index(b, sign, danger, from, n - 1, m);
            let k = choose|k: int|
                0 <= k < n - 1 && #[trigger] step_hits(
                    from.0 as int,
                    from.1 as int,
                    k,
                    m.to.0 as int,
                    m.to.1 as int,
                );
            assert(step_hits(from.0 as int, from.1 as int, k, m.to.0 as int, m.to.1 as int));
        } else {
            assert(tail[0] == m);
            assert(m.to.0 as int == r && m.to.1 as int == c);
            assert(step_hits(from.0 as int, from.1 as int, n - 1, m.to.0 as int, m.to.1 as int));
        }
    } else {
        assert(king_steps(b, sign, danger, from, n).len() == 0);
    }
}

/// A king has pairwise different steps.
pub proof fn lemma_steps_distinct(
    b: [[i8; 8]; 8],
    sign: int,
    danger: Set<(int, int)>,
    from: (usize, usize),
    n: int,
)
    requires
        square_ok(from),
        0 <= n <= 8,
    ensures
        king_steps(b, sign, danger, from, n).no_duplicates(),
    decreases n,
{
    if n > 0 {
        let r = from.0 + direction(n - 1).0;
        let c = from.1 + direction(n - 1).1;
        let head = king_steps(b, sign, danger, from, n - 1);
        let tail = if on_board(r, c) && !danger.contains((r, c)) && !owned_by(
            piece_at(b, r, c),
            sign,
        ) {
            seq![step_move(b, from, (r as usize, c as usize), PieceKind::King)]
        } else {
            Seq::empty()
        };
        lemma_steps_distinct(b, sign, danger, from, n - 1);
        assert forall|m: Move| head.contains(m) implies !tail.contains(m) by {
            lemma_step_index(b, sign, danger, from, n - 1, m);
            if tail.contains(m) {
                assert(tail[0] == m);
            }
        }
        lemma_sum_distinct(head, tail);
    }
}

/// The king on `from` has pairwise different moves.
pub proof fn lemma_king_moves_distinct(
    state: ChessState,
    sign: int,
    danger: Set<(int, int)>,
    from: (usize, usize),
    back: int,
)
    requires
        square_ok(from),
    ensures
        king_moves_of(state, sign, danger, from, back).no_duplicates(),
{
    let steps = king_steps(state.board, sign, danger, from, 8);
    let kingside = if may_castle(state, sign, danger, from, back, true) {
        seq![castle_move(from, true)]
    } else {
        Seq::empty()
    };
    let queenside = if may_castle(state, sign, danger, from, back, false) {
        seq![castle_move(from, false)]
    } else {
        Seq::empty()
    };
    lemma_steps_distinct(state.board, sign, danger, from, 8);
    assert forall|m: Move| kingside.contains(m) implies !queenside.contains(m) by {
        assert(kingside[0] == m);
        if queenside.contains(m) {
            assert(queenside[0] == m);
        }
    }
    lemma_sum_distinct(kingside, queenside);
    assert forall|m: Move| steps.contains(m) implies !(kingside + queenside).contains(m) by {
        lemma_step_index(state.board, sign, danger, from, 8, m);
        if (kingside + queenside).contains(m) {
            lemma_in_sum(kingside, queenside, m);
            if kingside.contains(m) {
                assert(kingside[0] == m);
            } else {
                assert(queenside[0] == m);
            }
        }
    }
    lemma_sum_distinct(steps, kingside + queenside);
}

/// A pawn move is played in pairwise different ways.
pub proof fn lemma_promoted_distinct(m: Move, last_rank: bool)
    ensures
        promoted(m, last_rank).no_duplicates(),
{
    let all = promoted(m, last_rank);
    assert forall|i: int, j: int| 0 <= i < all.len() && 0 <= j < all.len() && i != j implies all[i]
        != all[j] by {
        assert(all[i].promotion != all[j].promotion);
    }
}

/// The pawn on `from` has pairwise different moves.
pub proof fn lemma_pawn_from_distinct(state: ChessState, white: bool, pins: Pins, from: (usize, usize))
    requires
        square_ok(from),
    ensures
        pawn_from(state, white, pins, from).no_duplicates(),
{
    let b = state.board;
    let sign: int = if white { 1 } else { -1 };
    let last: int = if white { 7 } else { 0 };
    let r1 = from.0 + sign;
    let pushes = pawn_pushes(b, white, pins, from);
    let left = pawn_captures(state, white, pins, from, -1);
    let right = pawn_captures(state, white, pins, from, 1);
    let double = if from.0 == (if white { 1int } else { 6int }) && piece_at(
        b,
        r1 + sign,
        from.1 as int,
    ) == 0 {
        seq![push_move(from, ((r1 + sign) as usize, from.1), true)]
    } else {
        Seq::empty()
    };
    let single_move = push_move(from, (r1 as usize, from.1), false);
    let single = promoted(single_move, r1 == last);
    lemma_promoted_distinct(single_move, r1 == last);
    assert forall|m: Move| double.contains(m) implies !single.contains(m) by {
        assert(double[0] == m);
        if single.contains(m) {
            crate::rules::lemma_promoted(single_move, r1 == last, m);
        }
    }
    lemma_sum_distinct(double, single);
    assert(pushes.no_duplicates());
    let left_move = pawn_capture(
        from,
        (r1 as usize, (from.1 - 1) as usize),
        may_take_in_passing(state, white, from, from.1 - 1),
    );
    let right_move = pawn_capture(
        from,
        (r1 as usize, (from.1 + 1) as usize),
        may_take_in_passing(state, white, from, from.1 + 1),
    );
    lemma_promoted_distinct(left_move, r1 == last);
    lemma_promoted_distinct(right_move, r1 == last);
    assert(left.no_duplicates());
    assert(right.no_duplicates());
    assert forall|m: Move| pushes.contains(m) implies !left.contains(m) by {
        lemma_pushes_keep_file(b, white, pins, from, m);
        if left.contains(m) {
            crate::rules::lemma_promoted(left_move, r1 == last, m);
        }
    }
    lemma_sum_distinct(pushes, left);
    assert forall|m: Move| (pushes + left).contains(m) implies !right.contains(m) by {
        lemma_in_sum(pushes, left, m);
        if right.contains(m) {
            crate::rules::lemma_promoted(right_move, r1 == last, m);
            if pushes.contains(m) {
                lemma_pushes_keep_file(b, white, pins, from, m);
            } else {
                crate::rules::lemma_promoted(left_move, r1 == last, m);
            }
        }
    }
    lemma_sum_distinct(pushes + left, right);
}

/// A pawn's push keeps to the pawn's file.
pub proof fn lemma_pushes_keep_file(
    b: [[i8; 8]; 8],
    white: bool,
    pins: Pins,
    from: (usize, usize),
    m: Move,
)
    requires
        square_ok(from),
        pawn_pushes(b, white, pins, from).contains(m),
    ensures
        m.from == from,
        m.to.1 == from.1,
        !m.capture,
{
    let sign: int = if white { 1 } else { -1 };
    let last: int = if white { 7 } else { 0 };
    let r1 = from.0 + sign;
    let double = if from.0 == (if white { 1int } else { 6int }) && piece_at(
        b,
        r1 + sign,
        from.1 as int,
    ) == 0 {
        seq![push_move(from, ((r1 + sign) as usize, from.1), true)]
    } else {
        Seq::empty()
    };
    let single_move = push_move(from, (r1 as usize, from.1), false);
    let single = promoted(single_move, r1 == last);
    lemma_in_sum(double, single, m);
    if double.contains(m) {
        assert(double[0] == m);
    } else {
        crate::rules::lemma_promoted(single_move, r1 == last, m);
    }
}

/// The pawns on `squares` have pairwise different moves when the squares are
/// pairwise different.
pub proof fn lemma_pawn_moves_distinct(
    state: ChessState,
    white: bool,
    pins: Pins,
    squares: Seq<(usize, usize)>,
)
    requires
        squares_ok(squares),
        squares.no_duplicates(),
    ensures
        pawn_moves_of(state, white, pins, squares).no_duplicates(),
{
    let per_square = |sq: (usize, usize)| pawn_from(state, white, pins, sq);
    assert forall|i: int| 0 <= i < squares.len() implies (#[trigger] per_square(
        squares[i],
    )).no_duplicates() by {
        lemma_pawn_from_distinct(state, white, pins, squares[i]);
    }
    assert forall|i: int, m: Move|
        0 <= i < squares.len() && #[trigger] per_square(squares[i]).contains(m) implies m.from
        == squares[i] by {
        lemma_pawn_from(state, white, pins, Set::empty(), squares[i], m);
    }
    lemma_moves_over_distinct(squares, squares.len() as int, per_square);
}

/// The knights on `squares` have pairwise different moves when the squares
/// are pairwise different.
pub proof fn lemma_knight_moves_distinct(
    b: [[i8; 8]; 8],
    sign: int,
    pins: Pins,
    squares: Seq<(usize, usize)>,
)
    requires
        squares_ok(squares),
        squares.no_duplicates(),
    ensures
        knight_moves_of(b, sign, pins, squares).no_duplicates(),
{
    let per_square = |sq: (usize, usize)| knight_from(b, sign, pins, sq);
    assert forall|i: int| 0 <= i < squares.len() implies (#[trigger] per_square(
        squares[i],
    )).no_duplicates() by {
        lemma_hop_distinct(b, sign, squares[i], 8);
    }
    assert forall|i: int, m: Move|
        0 <= i < squares.len() && #[trigger] per_square(squares[i]).contains(m) implies m.from
        == squares[i] by {
        lemma_hop_index(b, sign, squares[i], 8, m);
    }
    lemma_moves_over_distinct(squares, squares.len() as int, per_square);
}

impl ChessState {
    /// No raw move is generated twice.
    pub proof fn lemma_raw_moves_distinct(self)
        ensures
            self.raw_moves().no_duplicates(),
    {
        reveal(ChessState::raw_moves);
        let b = self.board;
        let sign = self.mover();
        let pins = pins_of(b, sign);
        let danger = danger_of(b, sign);
        let pawns = pawn_moves_of(self, self.turn, pins, squares_with(b, sign, 64));
        let rooks = slider_moves(b, sign, pins, squares_with(b, 2 * sign, 64), PieceKind::Rook, true);
        let bishops = slider_moves(
            b,
            sign,
            pins,
            squares_with(b, 4 * sign, 64),
            PieceKind::Bishop,
            false,
        );
        let queens = slider_moves(b, sign, pins, squares_with(b, 5 * sign, 64), PieceKind::Queen, true);
        let queens2 = slider_moves(
            b,
            sign,
            pins,
            squares_with(b, 5 * sign, 64),
            PieceKind::Queen,
            false,
        );
        let knights = knight_moves_of(b, sign, pins, squares_with(b, 3 * sign, 64));
        let king = match first_with(b, 6 * sign) {
            Some(k) => king_moves_of(self, sign, danger, k, if self.turn { 0 } else { 7 }),
            None => Seq::empty(),
        };
        lemma_squares_with_distinct(b, sign, 64);
        lemma_squares_with_distinct(b, 2 * sign, 64);
        lemma_squares_with_distinct(b, 3 * sign, 64);
        lemma_squares_with_distinct(b, 4 * sign, 64);
        lemma_squares_with_distinct(b, 5 * sign, 64);
        lemma_squares_with_ok(b, sign, 64);
        lemma_squares_with_ok(b, 2 * sign, 64);
        lemma_squares_with_ok(b, 3 * sign, 64);
        lemma_squares_with_ok(b, 4 * sign, 64);
        lemma_squares_with_ok(b, 5 * sign, 64);
        lemma_pawn_moves_distinct(self, self.turn, pins, squares_with(b, sign, 64));
        lemma_slider_moves_distinct(b, sign, pins, squares_with(b, 2 * sign, 64), PieceKind::Rook, true);
        lemma_slider_moves_distinct(
            b,
            sign,
            pins,
            squares_with(b, 4 * sign, 64),
            PieceKind::Bishop,
            false,
        );
        lemma_slider_moves_distinct(b, sign, pins, squares_with(b, 5 * sign, 64), PieceKind::Queen, true);
        lemma_slider_moves_distinct(
            b,
            sign,
            pins,
            squares_with(b, 5 * sign, 64),
            PieceKind::Queen,
            false,
        );
        lemma_knight_moves_distinct(b, sign, pins, squares_with(b, 3 * sign, 64));
        lemma_first_with(b, 6 * sign);
        if first_with(b, 6 * sign) is Some {
            lemma_king_moves_distinct(
                self,
                sign,
                danger,
                first_with(b, 6 * sign)->0,
                if self.turn { 0 } else { 7 },
            );
        }
        // Each group moves pieces of one kind; the two groups of the queens
        // run along different lines.
        assert forall|m: Move| pawns.contains(m) implies m.piece is Pawn by {
            lemma_pawn_moves(self, self.turn, pins, danger, squares_with(b, sign, 64), m);
        }
        assert forall|m: Move| rooks.contains(m) implies m.piece is Rook by {
            lemma_slider_moves(b, sign, pins, squares_with(b, 2 * sign, 64), PieceKind::Rook, true, m);
        }
        assert forall|m: Move| bishops.contains(m) implies m.piece is Bishop by {
            lemma_slider_moves(
                b,
                sign,
                pins,
                squares_with(b, 4 * sign, 64),
                PieceKind::Bishop,
                false,
                m,
            );
        }
        assert forall|m: Move| queens.contains(m) implies m.piece is Queen && !queens2.contains(
            m,
        ) by {
            let line = lemma_slider_moves(
                b,
                sign,
                pins,
                squares_with(b, 5 * sign, 64),
                PieceKind::Queen,
                true,
                m,
            );
            if queens2.contains(m) {
                let other = lemma_slider_moves(
                    b,
                    sign,
                    pins,
                    squares_with(b, 5 * sign, 64),
                    PieceKind::Queen,
                    false,
                    m,
                );
                assert(line_rule(b, pins, m, line) && line_rule(b, pins, m, other));
            }
        }
        assert forall|m: Move| queens2.contains(m) implies m.piece is Queen by {
            lemma_slider_moves(
                b,
                sign,
                pins,
                squares_with(b, 5 * sign, 64),
                PieceKind::Queen,
                false,
                m,
            );
        }
        assert forall|m: Move| knights.contains(m) implies m.piece is Knight by {
            lemma_knight_moves(self, sign, pins, danger, squares_with(b, 3 * sign, 64), m);
        }
        assert forall|m: Move| king.contains(m) implies m.piece is King by {
            lemma_king_moves(
                self,
                sign,
                pins,
                danger,
                first_with(b, 6 * sign)->0,
                if self.turn { 0 } else { 7 },
                m,
            );
        }
        let s1 = pawns + rooks;
        lemma_sum_distinct(pawns, rooks);
        assert forall|m: Move| s1.contains(m) implies m.piece is Pawn || m.piece is Rook by {
            lemma_in_sum(pawns, rooks, m);
        }
        let s2 = s1 + bishops;
        lemma_sum_distinct(s1, bishops);
        assert forall|m: Move| s2.contains(m) implies m.piece is Pawn || m.piece is Rook
            || m.piece is Bishop by {
            lemma_in_sum(s1, bishops, m);
        }
        let s3 = s2 + queens;
        lemma_sum_distinct(s2, queens);
        assert forall|m: Move| s3.contains(m) implies !queens2.contains(m) && !(m.piece is Knight)
            && !(m.piece is King) by {
            lemma_in_sum(s2, queens, m);
        }
        let s4 = s3 + queens2;
        lemma_sum_distinct(s3, queens2);
        assert forall|m: Move| s4.contains(m) implies !(m.piece is Knight) && !(m.piece is King) by {
            lemma_in_sum(s3, queens2, m);
        }
        let s5 = s4 + knights;
        lemma_sum_distinct(s4, knights);
        assert forall|m: Move| s5.contains(m) implies !(m.piece is King) by {
            lemma_in_sum(s4, knights, m);
        }
        lemma_sum_distinct(s5, king);
    }

    /// No legal move is generated twice.
    pub proof fn legal_moves_are_distinct(self)
        ensures
            self.legal_moves().no_duplicates(),
    {
        reveal(ChessState::legal_moves);
        self.lemma_raw_moves_distinct();
        lemma_filter_distinct(self.raw_moves(), |m: Move| self.keeps(m));
    }
}

} // verus!
