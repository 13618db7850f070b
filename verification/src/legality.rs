//! Legality closure: no legal move leaves the mover's own king on a square
//! that the other side attacks.
use crate::attack::{
    attacked_by, attacks, direction, lemma_pin_unique, line_pins, pin_seq, pinned_on_ray,
    pins_from, slides_along,
};
use crate::board::{
    board_ok, in_direction, kind_of, on_board, owned_by, path_clear, piece_at, sign_ok, square_ok,
    straight_line, strictly_between,
};
use crate::move_generation::{
    danger_of, first_with, holds_right, is_first_with, king_safe, may_castle, pinned_off, Pins,
    pins_of,
};
use crate::moves::{board_after, cell_after, lemma_board_after, Move, PieceKind};
use crate::position::ChessState;
use crate::rules::{
    knight_rule, lemma_first_with, line_rule, on_line, pawn_rule, pin_allows, slider_rule,
    slides_on,
};
use vstd::prelude::*;

verus! {

/// The square `(x, y)` of the board holds the code `piece`.
pub open spec fn holds_code(b: [[i8; 8]; 8], piece: int, x: int, y: int) -> bool {
    on_board(x, y) && piece_at(b, x, y) == piece
}

/// At most one square of the board holds the code `piece`.
pub open spec fn at_most_one(b: [[i8; 8]; 8], piece: int) -> bool {
    forall|x: int, y: int, u: int, v: int|
        #![trigger holds_code(b, piece, x, y), holds_code(b, piece, u, v)]
        holds_code(b, piece, x, y) && holds_code(b, piece, u, v) ==> x == u && y == v
}

/// Where at most one square holds a code, that square is the first with it.
pub proof fn lemma_only_is_first(b: [[i8; 8]; 8], piece: int, r: int, c: int)
    requires
        at_most_one(b, piece),
        on_board(r, c),
        piece_at(b, r, c) == piece,
    ensures
        first_with(b, piece) == Some((r as usize, c as usize)),
{
    assert(holds_code(b, piece, r, c));
    assert(is_first_with(b, piece, r, c)) by {
        assert forall|x: int, y: int|
            on_board(x, y) && 8 * x + y < 8 * r + c implies #[trigger] piece_at(b, x, y)
            != piece by {
            if piece_at(b, x, y) == piece {
                assert(holds_code(b, piece, x, y));
            }
        }
    }
    let (x, y) = choose|x: int, y: int| #[trigger] is_first_with(b, piece, x, y);
    assert(holds_code(b, piece, x, y));
}

/// A piece that is pinned along a ray is listed among the pins of the ray's
/// line, and so is held off every other line.
pub proof fn lemma_pinned_is_listed(b: [[i8; 8]; 8], sign: int, kr: int, kc: int, k: int, x: int, y: int)
    requires
        sign_ok(sign),
        0 <= k < 8,
        on_board(kr, kc),
        first_with(b, 6 * sign) == Some((kr as usize, kc as usize)),
        pinned_on_ray(b, sign, kr, kc, k, x, y),
    ensures
        forall|line: int|
            line != k / 2 ==> #[trigger] pinned_off(
                pins_of(b, sign),
                (x as usize, y as usize),
                line,
            ),
{
    lemma_pin_unique(b, sign, kr, kc, k, x, y);
    let sq = (x as usize, y as usize);
    let base = 2 * (k / 2);
    let listed = line_pins(b, sign, kr, kc, base);
    assert(pin_seq(b, sign, kr, kc, k)[0] == sq);
    if k == base {
        assert(listed[0] == sq);
    } else {
        assert(k == base + 1);
        assert(listed[pin_seq(b, sign, kr, kc, base).len() as int] == sq);
    }
    assert(listed.contains(sq));
}

/// When a move uncovers an attack on a square, the moved piece was pinned.
///
/// The board `after` differs from `before` on `from`, which is now empty,
/// and on `to`, which now holds a piece of the side `sign`. If an enemy piece
/// on `(sr, sc)` attacks `(kr, kc)` afterwards but no enemy piece did before,
/// then the piece on `from` was pinned against `(kr, kc)` by that enemy piece.
pub proof fn lemma_uncovered(
    before: [[i8; 8]; 8],
    after: [[i8; 8]; 8],
    sign: int,
    kr: int,
    kc: int,
    from: (usize, usize),
    to: (usize, usize),
    sr: int,
    sc: int,
) -> (k: int)
    requires
        sign_ok(sign),
        on_board(kr, kc),
        on_board(sr, sc),
        square_ok(from),
        square_ok(to),
        forall|x: int, y: int|
            on_board(x, y) && !(x == from.0 && y == from.1) && !(x == to.0 && y == to.1)
                ==> #[trigger] piece_at(after, x, y) == piece_at(before, x, y),
        piece_at(after, from.0 as int, from.1 as int) == 0,
        owned_by(piece_at(before, from.0 as int, from.1 as int), sign),
        owned_by(piece_at(after, to.0 as int, to.1 as int), sign),
        !(kr == from.0 && kc == from.1),
        !(kr == to.0 && kc == to.1),
        owned_by(piece_at(after, sr, sc), -sign),
        attacks(after, sr, sc, kr, kc),
        !attacked_by(before, -sign, kr, kc),
    ensures
        0 <= k < 8,
        pinned_on_ray(before, sign, kr, kc, k, from.0 as int, from.1 as int),
        pins_from(before, sign, k, from.0 as int, from.1 as int, sr, sc),
        !strictly_between(sr, sc, to.0 as int, to.1 as int, kr, kc),
        !(sr == to.0 && sc == to.1),
{
    reveal(attacks);
    let fr = from.0 as int;
    let fc = from.1 as int;
    let p = piece_at(after, sr, sc);
    assert(p == piece_at(before, sr, sc));
    let kind = kind_of(p);
    // The attack is new, so it runs along a line that was blocked before.
    if !(kind == 2 || kind == 4 || kind == 5) || path_clear(before, sr, sc, kr, kc) {
        assert(attacks(before, sr, sc, kr, kc));
        assert(false);
    }
    assert(path_clear(after, sr, sc, kr, kc));
    let (x, y) = choose|x: int, y: int|
        on_board(x, y) && strictly_between(sr, sc, x, y, kr, kc) && #[trigger] piece_at(before, x, y)
            != 0;
    assert(piece_at(after, x, y) == 0);
    assert(x == fr && y == fc);
    // All other squares between the attacker and its target were empty.
    assert(path_clear(before, kr, kc, fr, fc)) by {
        assert forall|u: int, v: int|
            on_board(u, v) && strictly_between(kr, kc, u, v, fr, fc) implies #[trigger] piece_at(
            before,
            u,
            v,
        ) == 0 by {
            assert(strictly_between(sr, sc, u, v, kr, kc));
            assert(piece_at(after, u, v) == 0);
        }
    }
    assert(path_clear(before, fr, fc, sr, sc)) by {
        assert forall|u: int, v: int|
            on_board(u, v) && strictly_between(fr, fc, u, v, sr, sc) implies #[trigger] piece_at(
            before,
            u,
            v,
        ) == 0 by {
            assert(strictly_between(sr, sc, u, v, kr, kc));
            assert(piece_at(after, u, v) == 0);
        }
    }
    if strictly_between(sr, sc, to.0 as int, to.1 as int, kr, kc) {
        assert(piece_at(after, to.0 as int, to.1 as int) == 0);
    }
    let straight = straight_line(sr, sc, kr, kc);
    let k: int = if kc == sc {
        if sr > kr { 0 } else { 1 }
    } else if kr == sr {
        if sc > kc { 2 } else { 3 }
    } else if sr > kr {
        if sc < kc { 4 } else { 6 }
    } else {
        if sc > kc { 5 } else { 7 }
    };
    assert(in_direction(kr, kc, direction(k).0, direction(k).1, fr, fc));
    assert(in_direction(fr, fc, direction(k).0, direction(k).1, sr, sc));
    assert(slides_along(kind, k));
    assert(pins_from(before, sign, k, fr, fc, sr, sc));
    k
}

/// A move along the line of a pin cannot uncover the pinning piece's attack.
///
/// With `from` between `(kr, kc)` and `(sr, sc)` on the `k`-th ray, a square
/// `to` on that line through `from`, reached over empty squares, is one of
/// the two end squares or lies between them.
pub proof fn lemma_stays_on_line(
    b: [[i8; 8]; 8],
    kr: int,
    kc: int,
    k: int,
    from: (usize, usize),
    to: (usize, usize),
    sr: int,
    sc: int,
)
    requires
        0 <= k < 8,
        on_board(kr, kc),
        on_board(sr, sc),
        in_direction(kr, kc, direction(k).0, direction(k).1, from.0 as int, from.1 as int),
        in_direction(from.0 as int, from.1 as int, direction(k).0, direction(k).1, sr, sc),
        on_line(from, k / 2, to),
        path_clear(b, from.0 as int, from.1 as int, to.0 as int, to.1 as int),
        piece_at(b, kr, kc) != 0,
        piece_at(b, sr, sc) != 0,
    ensures
        (kr == to.0 && kc == to.1) || (sr == to.0 && sc == to.1) || strictly_between(
            sr,
            sc,
            to.0 as int,
            to.1 as int,
            kr,
            kc,
        ),
{
    let fr = from.0 as int;
    let fc = from.1 as int;
    let tr = to.0 as int;
    let tc = to.1 as int;
    if strictly_between(fr, fc, kr, kc, tr, tc) {
        assert(piece_at(b, kr, kc) == 0);
    }
    if strictly_between(fr, fc, sr, sc, tr, tc) {
        assert(piece_at(b, sr, sc) == 0);
    }
}

/// The board `after` comes from `before` by a piece of the side `sign` that
/// leaves `from` and lands on `to`; nothing else changes.
pub open spec fn plain_change(
    before: [[i8; 8]; 8],
    after: [[i8; 8]; 8],
    sign: int,
    from: (usize, usize),
    to: (usize, usize),
) -> bool {
    &&& square_ok(from)
    &&& square_ok(to)
    &&& forall|x: int, y: int|
        on_board(x, y) && !(x == from.0 && y == from.1) && !(x == to.0 && y == to.1)
            ==> #[trigger] piece_at(after, x, y) == piece_at(before, x, y)
    &&& piece_at(after, from.0 as int, from.1 as int) == 0
    &&& owned_by(piece_at(before, from.0 as int, from.1 as int), sign)
    &&& owned_by(piece_at(after, to.0 as int, to.1 as int), sign)
}

/// No enemy piece attacks a square after a move that no enemy piece attacked
/// before, when the moved piece is not pinned against that square or moves
/// along the line of its pin over empty squares.
pub proof fn lemma_no_new_attack(
    before: [[i8; 8]; 8],
    after: [[i8; 8]; 8],
    sign: int,
    m: Move,
    kr: int,
    kc: int,
)
    requires
        sign_ok(sign),
        plain_change(before, after, sign, m.from, m.to),
        on_board(kr, kc),
        piece_at(before, kr, kc) != 0,
        !(kr == m.from.0 && kc == m.from.1),
        !(kr == m.to.0 && kc == m.to.1),
        first_with(before, 6 * sign) == Some((kr as usize, kc as usize)),
        !attacked_by(before, -sign, kr, kc),
        pin_allows(pins_of(before, sign), m),
        path_clear(before, m.from.0 as int, m.from.1 as int, m.to.0 as int, m.to.1 as int),
    ensures
        !attacked_by(after, -sign, kr, kc),
{
    if attacked_by(after, -sign, kr, kc) {
        let (sr, sc) = choose|sr: int, sc: int|
            on_board(sr, sc) && owned_by(piece_at(after, sr, sc), -sign) && #[trigger] attacks(
                after,
                sr,
                sc,
                kr,
                kc,
            );
        let k = lemma_uncovered(before, after, sign, kr, kc, m.from, m.to, sr, sc);
        assert(piece_at(before, sr, sc) != 0);
        lemma_pinned_is_listed(before, sign, kr, kc, k, m.from.0 as int, m.from.1 as int);
        assert(((m.from.0 as int) as usize, (m.from.1 as int) as usize) == m.from);
        lemma_pinned_moves_along(before, sign, m, kr, kc, k, sr, sc);
        assert(!(kr == m.to.0 && kc == m.to.1));
        assert(!(sr == m.to.0 && sc == m.to.1));
        assert(!strictly_between(sr, sc, m.to.0 as int, m.to.1 as int, kr, kc));
        assert(false);
    }
}

/// A piece that is held off every line but one, and yet allowed to move,
/// moves along that line; so it ends on one of the end squares of the pin or
/// between them.
pub proof fn lemma_pinned_moves_along(
    before: [[i8; 8]; 8],
    sign: int,
    m: Move,
    kr: int,
    kc: int,
    k: int,
    sr: int,
    sc: int,
)
    requires
        0 <= k < 8,
        on_board(kr, kc),
        on_board(sr, sc),
        piece_at(before, kr, kc) != 0,
        piece_at(before, sr, sc) != 0,
        in_direction(kr, kc, direction(k).0, direction(k).1, m.from.0 as int, m.from.1 as int),
        in_direction(m.from.0 as int, m.from.1 as int, direction(k).0, direction(k).1, sr, sc),
        forall|line: int| line != k / 2 ==> #[trigger] pinned_off(pins_of(before, sign), m.from, line),
        pin_allows(pins_of(before, sign), m),
        path_clear(before, m.from.0 as int, m.from.1 as int, m.to.0 as int, m.to.1 as int),
    ensures
        (kr == m.to.0 && kc == m.to.1) || (sr == m.to.0 && sc == m.to.1) || strictly_between(
            sr,
            sc,
            m.to.0 as int,
            m.to.1 as int,
            kr,
            kc,
        ),
{
    let pins = pins_of(before, sign);
    let line = choose|line: int|
        0 <= line <= 4 && !#[trigger] pinned_off(pins, m.from, line) && (line < 4 ==> on_line(
            m.from,
            line,
            m.to,
        ));
    assert(line == k / 2);
    lemma_stays_on_line(before, kr, kc, k, m.from, m.to, sr, sc);
}

/// A king that is safe stays safe when another piece of its side moves, as
/// long as that piece is not pinned, or moves along the line of its pin over
/// empty squares.
pub proof fn lemma_unpinned_move_safe(
    before: [[i8; 8]; 8],
    after: [[i8; 8]; 8],
    sign: int,
    m: Move,
)
    requires
        sign_ok(sign),
        plain_change(before, after, sign, m.from, m.to),
        piece_at(before, m.from.0 as int, m.from.1 as int) != 6 * sign,
        piece_at(after, m.to.0 as int, m.to.1 as int) != 6 * sign,
        at_most_one(before, 6 * sign),
        king_safe(before, sign),
        pin_allows(pins_of(before, sign), m),
        path_clear(before, m.from.0 as int, m.from.1 as int, m.to.0 as int, m.to.1 as int),
    ensures
        king_safe(after, sign),
{
    lemma_first_with(after, 6 * sign);
    if first_with(after, 6 * sign) is Some {
        let k_sq = first_with(after, 6 * sign)->0;
        let kr = k_sq.0 as int;
        let kc = k_sq.1 as int;
        assert(piece_at(after, kr, kc) == 6 * sign);
        assert(piece_at(after, kr, kc) == piece_at(before, kr, kc));
        lemma_only_is_first(before, 6 * sign, kr, kc);
        lemma_no_new_attack(before, after, sign, m, kr, kc);
    }
}

/// After a move that is neither a castling move nor a capture in passing,
/// the board has changed on the two squares of the move only.
pub proof fn lemma_plain_change(b: [[i8; 8]; 8], white: bool, m: Move)
    requires
        board_ok(b),
        m.wf(),
        m.from != m.to,
        !m.is_castle(),
        !(m.special is EnPassantCapture),
        owned_by(piece_at(b, m.from.0 as int, m.from.1 as int), if white { 1 } else { -1 }),
        m.promotion matches Some(kind) ==> !(kind is King),
    ensures
        plain_change(b, board_after(b, white, m), if white { 1 } else { -1 }, m.from, m.to),
        piece_at(board_after(b, white, m), m.to.0 as int, m.to.1 as int) == crate::moves::placed_code(
            b,
            white,
            m,
        ),
{
    let after = board_after(b, white, m);
    lemma_board_after(b, white, m);
    assert forall|x: int, y: int|
        on_board(x, y) && !(x == m.from.0 && y == m.from.1) && !(x == m.to.0 && y == m.to.1)
        implies #[trigger] piece_at(after, x, y) == piece_at(b, x, y) by {
        assert(piece_at(after, x, y) == cell_after(b, white, m, x, y));
    }
    assert(piece_at(after, m.from.0 as int, m.from.1 as int) == cell_after(
        b,
        white,
        m,
        m.from.0 as int,
        m.from.1 as int,
    ));
    assert(piece_at(after, m.to.0 as int, m.to.1 as int) == cell_after(
        b,
        white,
        m,
        m.to.0 as int,
        m.to.1 as int,
    ));
}

/// A slider that obeys its rule moves over empty squares along a line that
/// no pin forbids.
pub proof fn lemma_slider_line(b: [[i8; 8]; 8], sign: int, pins: Pins, m: Move)
    requires
        slider_rule(b, sign, pins, m),
    ensures
        pin_allows(pins, m),
        path_clear(b, m.from.0 as int, m.from.1 as int, m.to.0 as int, m.to.1 as int),
        m.promotion is None,
        m.special is Ordinary,
{
    let line = choose|line: int| slides_on(m.piece, line) && #[trigger] line_rule(b, pins, m, line);
    assert(!pinned_off(pins, m.from, line));
}

/// A knight that obeys its rule is not pinned, and no square lies between
/// the two ends of its jump.
pub proof fn lemma_knight_line(b: [[i8; 8]; 8], sign: int, pins: Pins, m: Move)
    requires
        knight_rule(b, sign, pins, m),
    ensures
        pin_allows(pins, m),
        path_clear(b, m.from.0 as int, m.from.1 as int, m.to.0 as int, m.to.1 as int),
        m.promotion is None,
        m.special is Ordinary,
{
    assert(!pinned_off(pins, m.from, 4));
}

/// A pawn that obeys its rule, and does not capture in passing, moves over
/// empty squares along a line that no pin forbids.
pub proof fn lemma_pawn_line(state: ChessState, sign: int, pins: Pins, m: Move)
    requires
        sign_ok(sign),
        m.wf(),
        pawn_rule(state, sign, pins, m),
    ensures
        pin_allows(pins, m),
        path_clear(state.board, m.from.0 as int, m.from.1 as int, m.to.0 as int, m.to.1 as int),
        m.promotion matches Some(kind) ==> !(kind is King),
        !m.is_castle(),
{
    let fr = m.from.0 as int;
    let fc = m.from.1 as int;
    let tr = m.to.0 as int;
    let tc = m.to.1 as int;
    if tc == fc {
        assert(!pinned_off(pins, m.from, 0));
        assert(on_line(m.from, 0, m.to));
    } else {
        let line: int = if tc - fc == sign { 3 } else { 2 };
        assert(!pinned_off(pins, m.from, line));
        assert(on_line(m.from, line, m.to));
    }
}

/// A king that steps to a square which no enemy piece attacked, from a
/// square which no enemy piece attacked either, is not attacked there.
pub proof fn lemma_king_step_no_attack(
    before: [[i8; 8]; 8],
    after: [[i8; 8]; 8],
    sign: int,
    from: (usize, usize),
    to: (usize, usize),
)
    requires
        sign_ok(sign),
        from != to,
        plain_change(before, after, sign, from, to),
        !attacked_by(before, -sign, from.0 as int, from.1 as int),
        !attacked_by(before, -sign, to.0 as int, to.1 as int),
    ensures
        !attacked_by(after, -sign, to.0 as int, to.1 as int),
{
    let fr = from.0 as int;
    let fc = from.1 as int;
    let tr = to.0 as int;
    let tc = to.1 as int;
    if attacked_by(after, -sign, tr, tc) {
        reveal(attacks);
        let (sr, sc) = choose|sr: int, sc: int|
            on_board(sr, sc) && owned_by(piece_at(after, sr, sc), -sign) && #[trigger] attacks(
                after,
                sr,
                sc,
                tr,
                tc,
            );
        let p = piece_at(after, sr, sc);
        assert(p == piece_at(before, sr, sc));
        let kind = kind_of(p);
        if !(kind == 2 || kind == 4 || kind == 5) || path_clear(before, sr, sc, tr, tc) {
            assert(attacks(before, sr, sc, tr, tc));
            assert(false);
        }
        let (x, y) = choose|x: int, y: int|
            on_board(x, y) && strictly_between(sr, sc, x, y, tr, tc) && #[trigger] piece_at(
                before,
                x,
                y,
            ) != 0;
        assert(piece_at(after, x, y) == 0);
        assert(x == fr && y == fc);
        assert(path_clear(before, sr, sc, fr, fc)) by {
            assert forall|u: int, v: int|
                on_board(u, v) && strictly_between(sr, sc, u, v, fr, fc) implies #[trigger] piece_at(
                before,
                u,
                v,
            ) == 0 by {
                assert(strictly_between(sr, sc, u, v, tr, tc));
                assert(piece_at(after, u, v) == 0);
            }
        }
        assert(attacks(before, sr, sc, fr, fc));
        assert(false);
    }
}

/// The board `after` comes from `before` by castling on the rank `back`:
/// the king goes from the e-file to the file `king_to`, the rook from the
/// file `rook_from` to the file `rook_to`, over empty squares.
pub open spec fn castle_change(
    before: [[i8; 8]; 8],
    after: [[i8; 8]; 8],
    sign: int,
    back: int,
    kingside: bool,
) -> bool {
    let king_to: int = if kingside { 6 } else { 2 };
    let rook_to: int = if kingside { 5 } else { 3 };
    let rook_from: int = if kingside { 7 } else { 0 };
    &&& (back == 0 || back == 7)
    &&& forall|x: int, y: int|
        on_board(x, y) && !(x == back && (y == 4 || y == king_to || y == rook_to || y == rook_from))
            ==> #[trigger] piece_at(after, x, y) == piece_at(before, x, y)
    &&& piece_at(after, back, 4) == 0
    &&& piece_at(after, back, rook_from) == 0
    &&& piece_at(after, back, king_to) == 6 * sign
    &&& piece_at(after, back, rook_to) == 2 * sign
    &&& piece_at(before, back, king_to) == 0
    &&& piece_at(before, back, rook_to) == 0
}

/// A king that castles to a square which no enemy piece attacked is not
/// attacked there: the rook beside it shields it along the rank.
pub proof fn lemma_castle_no_attack(
    before: [[i8; 8]; 8],
    after: [[i8; 8]; 8],
    sign: int,
    back: int,
    kingside: bool,
)
    requires
        sign_ok(sign),
        castle_change(before, after, sign, back, kingside),
        !attacked_by(before, -sign, back, if kingside { 6 } else { 2 }),
    ensures
        !attacked_by(after, -sign, back, if kingside { 6 } else { 2 }),
{
    let tc: int = if kingside { 6 } else { 2 };
    let rook_to: int = if kingside { 5 } else { 3 };
    let rook_from: int = if kingside { 7 } else { 0 };
    if attacked_by(after, -sign, back, tc) {
        reveal(attacks);
        let (sr, sc) = choose|sr: int, sc: int|
            on_board(sr, sc) && owned_by(piece_at(after, sr, sc), -sign) && #[trigger] attacks(
                after,
                sr,
                sc,
                back,
                tc,
            );
        let p = piece_at(after, sr, sc);
        assert(p == piece_at(before, sr, sc));
        let kind = kind_of(p);
        if !(kind == 2 || kind == 4 || kind == 5) || path_clear(before, sr, sc, back, tc) {
            assert(attacks(before, sr, sc, back, tc));
            assert(false);
        }
        let (x, y) = choose|x: int, y: int|
            on_board(x, y) && strictly_between(sr, sc, x, y, back, tc) && #[trigger] piece_at(
                before,
                x,
                y,
            ) != 0;
        assert(piece_at(after, x, y) == 0);
        assert(x == back && (y == 4 || y == rook_from));
        assert(strictly_between(sr, sc, back, rook_to, back, tc));
        assert(piece_at(after, back, rook_to) == 0);
        assert(false);
    }
}

impl ChessState {
    /// The side to move has at most one king.
    pub open spec fn one_king(self) -> bool {
        at_most_one(self.board, 6 * self.mover())
    }

    /// Out of check, a move of a piece other than the king that obeys the
    /// rules, and is no capture in passing, leaves the king safe.
    pub proof fn lemma_piece_move_safe(self, m: Move)
        requires
            self.wf(),
            self.one_king(),
            !self.in_check(),
            self.allows(m),
            !(m.piece is King),
            !(m.special is EnPassantCapture),
        ensures
            self.safe_after(m),
    {
        let b = self.board;
        let sign = self.mover();
        let pins = pins_of(b, sign);
        match m.piece {
            PieceKind::Pawn => {
                lemma_pawn_line(self, sign, pins, m);
            },
            PieceKind::Knight => {
                lemma_knight_line(b, sign, pins, m);
            },
            _ => {
                lemma_slider_line(b, sign, pins, m);
            },
        }
        lemma_plain_change(b, self.turn, m);
        lemma_unpinned_move_safe(b, board_after(b, self.turn, m), sign, m);
    }

    /// Out of check, a step of the king that obeys the rules leaves it safe.
    pub proof fn lemma_king_step_safe(self, m: Move)
        requires
            self.wf(),
            self.one_king(),
            !self.in_check(),
            self.allows(m),
            m.piece is King,
            !m.is_castle(),
        ensures
            self.safe_after(m),
    {
        let b = self.board;
        let sign = self.mover();
        let after = board_after(b, self.turn, m);
        let fr = m.from.0 as int;
        let fc = m.from.1 as int;
        let tr = m.to.0 as int;
        let tc = m.to.1 as int;
        lemma_plain_change(b, self.turn, m);
        lemma_only_is_first(b, 6 * sign, fr, fc);
        assert(!attacked_by(b, -sign, fr, fc));
        assert(danger_of(b, sign).contains((tr, tc)) == attacked_by(b, -sign, tr, tc));
        lemma_king_step_no_attack(b, after, sign, m.from, m.to);
        assert(at_most_one(after, 6 * sign)) by {
            assert forall|x: int, y: int, u: int, v: int|
                #![trigger holds_code(after, 6 * sign, x, y), holds_code(after, 6 * sign, u, v)]
                holds_code(after, 6 * sign, x, y) && holds_code(after, 6 * sign, u, v) implies x
                == u && y == v by {
                assert(holds_code(b, 6 * sign, fr, fc));
                if !(x == tr && y == tc) {
                    assert(holds_code(b, 6 * sign, x, y));
                }
                if !(u == tr && v == tc) {
                    assert(holds_code(b, 6 * sign, u, v));
                }
            }
        }
        lemma_only_is_first(after, 6 * sign, tr, tc);
    }

    /// A castling move that obeys the rules leaves the king safe.
    pub proof fn lemma_castle_safe(self, m: Move)
        requires
            self.wf(),
            self.one_king(),
            self.allows(m),
            m.piece is King,
            m.is_castle(),
        ensures
            self.safe_after(m),
    {
        let b = self.board;
        let sign = self.mover();
        let after = board_after(b, self.turn, m);
        let kingside = m.special is CastleKingside;
        let back = m.from.0 as int;
        let tc: int = if kingside { 6 } else { 2 };
        lemma_board_after(b, self.turn, m);
        assert(may_castle(self, sign, danger_of(b, sign), m.from, back, kingside));
        assert(castle_change(b, after, sign, back, kingside)) by {
            assert forall|x: int, y: int| on_board(x, y) implies #[trigger] piece_at(after, x, y)
                == cell_after(b, self.turn, m, x, y) by {}
            assert(piece_at(after, back, 4) == cell_after(b, self.turn, m, back, 4));
            assert(piece_at(after, back, 7) == cell_after(b, self.turn, m, back, 7));
            assert(piece_at(after, back, 0) == cell_after(b, self.turn, m, back, 0));
            assert(piece_at(after, back, 6) == cell_after(b, self.turn, m, back, 6));
            assert(piece_at(after, back, 5) == cell_after(b, self.turn, m, back, 5));
            assert(piece_at(after, back, 2) == cell_after(b, self.turn, m, back, 2));
            assert(piece_at(after, back, 3) == cell_after(b, self.turn, m, back, 3));
        }
        assert(danger_of(b, sign).contains((back, tc)) == attacked_by(b, -sign, back, tc));
        lemma_castle_no_attack(b, after, sign, back, kingside);
        assert(at_most_one(after, 6 * sign)) by {
            assert forall|x: int, y: int, u: int, v: int|
                #![trigger holds_code(after, 6 * sign, x, y), holds_code(after, 6 * sign, u, v)]
                holds_code(after, 6 * sign, x, y) && holds_code(after, 6 * sign, u, v) implies x
                == u && y == v by {
                assert(holds_code(b, 6 * sign, back, 4));
                if !(x == back && y == tc) {
                    assert(holds_code(b, 6 * sign, x, y));
                }
                if !(u == back && v == tc) {
                    assert(holds_code(b, 6 * sign, u, v));
                }
            }
        }
        lemma_only_is_first(after, 6 * sign, back, tc);
    }

    /// Legality closure: whatever legal move is played, the mover's own king
    /// does not stand on a danger square afterwards.
    pub proof fn legality_closure(self, m: Move)
        requires
            self.wf(),
            self.one_king(),
            self.legal_moves().contains(m),
        ensures
            self.safe_after(m),
            m.wf(),
    {
        self.lemma_legal_is_allowed(m);
        if !self.in_check() && !(m.special is EnPassantCapture) {
            if m.piece is King {
                if m.is_castle() {
                    self.lemma_castle_safe(m);
                } else {
                    self.lemma_king_step_safe(m);
                }
            } else {
                self.lemma_piece_move_safe(m);
            }
        }
    }

    /// A legal move is one of the raw moves, and it moves a piece of the side
    /// to move by the rule of that piece.
    pub proof fn lemma_legal_is_allowed(self, m: Move)
        requires
            self.legal_moves().contains(m),
        ensures
            self.raw_moves().contains(m),
            self.allows(m),
            self.keeps(m),
    {
        reveal(ChessState::legal_moves);
        let kept = |m: Move| self.keeps(m);
        self.raw_moves().lemma_filter_contains_rev(kept, m);
        self.lemma_raw_moves_allowed(m);
        let legal = self.raw_moves().filter(kept);
        let i = choose|i: int| 0 <= i < legal.len() && legal[i] == m;
        self.raw_moves().lemma_filter_pred(kept, i);
    }

    /// Castling is never legal without the right to it, nor when the king's
    /// square, the square it crosses or the square it lands on is attacked.
    pub proof fn castling_needs_right_and_safe_path(self, m: Move)
        requires
            self.legal_moves().contains(m),
            m.is_castle(),
        ensures
            holds_right(self, self.mover(), m.special is CastleKingside),
            m.from == (if self.turn { 0usize } else { 7usize }, 4usize),
            m.to == (m.from.0, if m.special is CastleKingside { 6usize } else { 2usize }),
            !attacked_by(self.board, -self.mover(), m.from.0 as int, 4),
            !attacked_by(
                self.board,
                -self.mover(),
                m.from.0 as int,
                if m.special is CastleKingside { 5 } else { 3 },
            ),
            !attacked_by(self.board, -self.mover(), m.from.0 as int, m.to.1 as int),
    {
        self.lemma_legal_is_allowed(m);
        let sign = self.mover();
        let back = m.from.0 as int;
        let danger = danger_of(self.board, sign);
        assert(m.piece is King);
        assert(may_castle(self, sign, danger, m.from, back, m.special is CastleKingside));
        assert(danger.contains((back, 4)) == attacked_by(self.board, -sign, back, 4));
        assert(danger.contains((back, 5)) == attacked_by(self.board, -sign, back, 5));
        assert(danger.contains((back, 6)) == attacked_by(self.board, -sign, back, 6));
        assert(danger.contains((back, 3)) == attacked_by(self.board, -sign, back, 3));
        assert(danger.contains((back, 2)) == attacked_by(self.board, -sign, back, 2));
    }

    /// A pinned piece keeps to the line of its pin: every legal move of a
    /// piece that is pinned against the king along the `k`-th ray ends on the
    /// line of that ray through the piece. Pinned along the king's file, it
    /// stays on its file.
    pub proof fn pinned_piece_keeps_to_its_line(self, m: Move, king: (usize, usize), k: int)
        requires
            self.legal_moves().contains(m),
            !(m.piece is King),
            0 <= k < 8,
            square_ok(king),
            first_with(self.board, 6 * self.mover()) == Some(king),
            pinned_on_ray(
                self.board,
                self.mover(),
                king.0 as int,
                king.1 as int,
                k,
                m.from.0 as int,
                m.from.1 as int,
            ),
        ensures
            on_line(m.from, k / 2, m.to),
            k < 2 ==> m.to.1 == m.from.1,
    {
        self.lemma_legal_is_allowed(m);
        let sign = self.mover();
        let pins = pins_of(self.board, sign);
        match m.piece {
            PieceKind::Pawn => {
                lemma_pawn_line(self, sign, pins, m);
            },
            PieceKind::Knight => {
                lemma_knight_line(self.board, sign, pins, m);
            },
            _ => {
                lemma_slider_line(self.board, sign, pins, m);
            },
        }
        lemma_pinned_is_listed(
            self.board,
            sign,
            king.0 as int,
            king.1 as int,
            k,
            m.from.0 as int,
            m.from.1 as int,
        );
        assert(((m.from.0 as int) as usize, (m.from.1 as int) as usize) == m.from);
        let line = choose|line: int|
            0 <= line <= 4 && !#[trigger] pinned_off(pins, m.from, line) && (line < 4 ==> on_line(
                m.from,
                line,
                m.to,
            ));
        assert(line == k / 2);
    }
}

} // verus!
