//! The attack map: which squares a side attacks, and which pieces are pinned
//! against their king.
use crate::board::{
    between, board_ok, diagonal_line, dir_ok, in_direction, kind_of, on_board, owned_by,
    path_clear, piece_at, sign_ok, square_ok, SquareSet, step, straight_line, strictly_between,
};
use crate::position::ChessState;
use vstd::prelude::*;

verus! {

/// The `k`-th of the eight knight jumps.
pub open spec fn knight_jump(k: int) -> (int, int) {
    if k == 0 {
        (1, 2)
    } else if k == 1 {
        (-1, 2)
    } else if k == 2 {
        (1, -2)
    } else if k == 3 {
        (-1, -2)
    } else if k == 4 {
        (2, -1)
    } else if k == 5 {
        (2, 1)
    } else if k == 6 {
        (-2, 1)
    } else {
        (-2, -1)
    }
}

/// The `k`-th of the eight directions: first the four straight ones, then the
/// four diagonal ones.
pub open spec fn direction(k: int) -> (int, int) {
    if k == 0 {
        (1, 0)
    } else if k == 1 {
        (-1, 0)
    } else if k == 2 {
        (0, 1)
    } else if k == 3 {
        (0, -1)
    } else if k == 4 {
        (1, -1)
    } else if k == 5 {
        (-1, 1)
    } else if k == 6 {
        (1, 1)
    } else {
        (-1, -1)
    }
}

/// `(tr, tc)` is a knight's jump away from `(r, c)`.
pub open spec fn knight_step(r: int, c: int, tr: int, tc: int) -> bool {
    let dr = if tr < r { r - tr } else { tr - r };
    let dc = if tc < c { c - tc } else { tc - c };
    (dr == 1 && dc == 2) || (dr == 2 && dc == 1)
}

/// `(tr, tc)` is one king step away from `(r, c)`.
pub open spec fn king_step(r: int, c: int, tr: int, tc: int) -> bool {
    -1 <= tr - r <= 1 && -1 <= tc - c <= 1 && !(tr == r && tc == c)
}

/// A pawn of the side `sign` on `(r, c)` attacks `(tr, tc)`: one rank ahead,
/// one file to either side.
pub open spec fn pawn_attacks(sign: int, r: int, c: int, tr: int, tc: int) -> bool {
    tr == r + sign && (tc == c - 1 || tc == c + 1)
}

/// The piece on `(r, c)`, if any, attacks `(tr, tc)`. A slider attacks along
/// its lines up to and including the first occupied square.
#[verifier::opaque]
pub open spec fn attacks(b: [[i8; 8]; 8], r: int, c: int, tr: int, tc: int) -> bool {
    let p = piece_at(b, r, c);
    let k = kind_of(p);
    if k == 1 {
        pawn_attacks(if p > 0 { 1 } else { -1 }, r, c, tr, tc)
    } else if k == 2 {
        straight_line(r, c, tr, tc) && path_clear(b, r, c, tr, tc)
    } else if k == 3 {
        knight_step(r, c, tr, tc)
    } else if k == 4 {
        diagonal_line(r, c, tr, tc) && path_clear(b, r, c, tr, tc)
    } else if k == 5 {
        (straight_line(r, c, tr, tc) || diagonal_line(r, c, tr, tc)) && path_clear(b, r, c, tr, tc)
    } else if k == 6 {
        king_step(r, c, tr, tc)
    } else {
        false
    }
}

/// Some piece of the side `sign` attacks `(tr, tc)`.
pub open spec fn attacked_by(b: [[i8; 8]; 8], sign: int, tr: int, tc: int) -> bool {
    exists|r: int, c: int|
        on_board(r, c) && owned_by(piece_at(b, r, c), sign) && #[trigger] attacks(b, r, c, tr, tc)
}

/// Some piece of the side `sign` on one of the first `n` squares, counted
/// rank by rank, attacks `(tr, tc)`.
pub open spec fn attacked_by_first(b: [[i8; 8]; 8], sign: int, n: int, tr: int, tc: int) -> bool {
    exists|r: int, c: int|
        on_board(r, c) && 8 * r + c < n && owned_by(piece_at(b, r, c), sign) && #[trigger] attacks(
            b,
            r,
            c,
            tr,
            tc,
        )
}

/// A step along a ray stays on the ray.
pub proof fn lemma_ray_step(r: int, c: int, dr: int, dc: int, x: int, y: int)
    requires
        dir_ok(dr, dc),
        in_direction(r, c, dr, dc, x, y) || (x == r && y == c),
    ensures
        in_direction(r, c, dr, dc, x + dr, y + dc),
        forall|u: int, v: int|
            strictly_between(r, c, u, v, x + dr, y + dc) <==> (strictly_between(r, c, u, v, x, y)
                || (u == x && v == y && !(x == r && y == c))),
{
}

/// Of two squares on one ray, one lies before the other.
pub proof fn lemma_ray_order(r: int, c: int, dr: int, dc: int, x: int, y: int, u: int, v: int)
    requires
        dir_ok(dr, dc),
        in_direction(r, c, dr, dc, x, y),
        in_direction(r, c, dr, dc, u, v),
    ensures
        (x == u && y == v) || strictly_between(r, c, x, y, u, v) || strictly_between(
            r,
            c,
            u,
            v,
            x,
            y,
        ),
{
}

/// A square strictly before a square of a ray lies on that ray.
pub proof fn lemma_ray_before(r: int, c: int, dr: int, dc: int, x: int, y: int, u: int, v: int)
    requires
        dir_ok(dr, dc),
        in_direction(r, c, dr, dc, x, y),
        strictly_between(r, c, u, v, x, y),
    ensures
        in_direction(r, c, dr, dc, u, v),
{
}

/// A square of the board lies before every square of the same ray that is off
/// the board.
pub proof fn lemma_ray_leaves(r: int, c: int, dr: int, dc: int, x: int, y: int, u: int, v: int)
    requires
        dir_ok(dr, dc),
        on_board(r, c),
        in_direction(r, c, dr, dc, x, y),
        !on_board(x, y),
        in_direction(r, c, dr, dc, u, v),
        on_board(u, v),
    ensures
        strictly_between(r, c, u, v, x, y),
{
}

/// `(tr, tc)` is the `k`-th knight jump away from `(r, c)`.
pub open spec fn jump_hits(r: int, c: int, k: int, tr: int, tc: int) -> bool {
    tr == r + knight_jump(k).0 && tc == c + knight_jump(k).1
}

/// `(tr, tc)` is one step in the `k`-th direction away from `(r, c)`.
pub open spec fn step_hits(r: int, c: int, k: int, tr: int, tc: int) -> bool {
    tr == r + direction(k).0 && tc == c + direction(k).1
}

/// `(tr, tc)` lies on the ray that leaves `(r, c)` in the `k`-th direction,
/// with nothing in between.
pub open spec fn ray_hits(b: [[i8; 8]; 8], r: int, c: int, k: int, tr: int, tc: int) -> bool {
    in_direction(r, c, direction(k).0, direction(k).1, tr, tc) && path_clear(b, r, c, tr, tc)
}

/// The knight's eight jumps are the knight steps.
pub proof fn lemma_knight_jumps(r: int, c: int, tr: int, tc: int)
    ensures
        knight_step(r, c, tr, tc) <==> exists|k: int| 0 <= k < 8 && #[trigger] jump_hits(r, c, k, tr, tc),
{
    if knight_step(r, c, tr, tc) {
        let dr = tr - r;
        let dc = tc - c;
        let k: int = if dr == 1 && dc == 2 {
            0
        } else if dr == -1 && dc == 2 {
            1
        } else if dr == 1 && dc == -2 {
            2
        } else if dr == -1 && dc == -2 {
            3
        } else if dr == 2 && dc == -1 {
            4
        } else if dr == 2 && dc == 1 {
            5
        } else if dr == -2 && dc == 1 {
            6
        } else {
            7
        };
        assert(jump_hits(r, c, k, tr, tc));
    }
}

/// The eight directions are the king steps.
pub proof fn lemma_king_steps(r: int, c: int, tr: int, tc: int)
    ensures
        king_step(r, c, tr, tc) <==> exists|k: int| 0 <= k < 8 && #[trigger] step_hits(r, c, k, tr, tc),
{
    if king_step(r, c, tr, tc) {
        let dr = tr - r;
        let dc = tc - c;
        let k: int = if dr == 1 && dc == 0 {
            0
        } else if dr == -1 && dc == 0 {
            1
        } else if dr == 0 && dc == 1 {
            2
        } else if dr == 0 && dc == -1 {
            3
        } else if dr == 1 && dc == -1 {
            4
        } else if dr == -1 && dc == 1 {
            5
        } else if dr == 1 && dc == 1 {
            6
        } else {
            7
        };
        assert(step_hits(r, c, k, tr, tc));
    }
}

/// The first four directions span the ranks and files, the last four the
/// diagonals.
pub proof fn lemma_line_directions(b: [[i8; 8]; 8], r: int, c: int, tr: int, tc: int)
    ensures
        straight_line(r, c, tr, tc) && path_clear(b, r, c, tr, tc) <==> exists|k: int|
            0 <= k < 4 && #[trigger] ray_hits(b, r, c, k, tr, tc),
        diagonal_line(r, c, tr, tc) && path_clear(b, r, c, tr, tc) <==> exists|k: int|
            4 <= k < 8 && #[trigger] ray_hits(b, r, c, k, tr, tc),
        (straight_line(r, c, tr, tc) || diagonal_line(r, c, tr, tc)) && path_clear(b, r, c, tr, tc)
            <==> exists|k: int| 0 <= k < 8 && #[trigger] ray_hits(b, r, c, k, tr, tc),
{
    if straight_line(r, c, tr, tc) && path_clear(b, r, c, tr, tc) {
        let k: int = if c == tc {
            if tr > r { 0 } else { 1 }
        } else {
            if tc > c { 2 } else { 3 }
        };
        assert(ray_hits(b, r, c, k, tr, tc));
    }
    if diagonal_line(r, c, tr, tc) && path_clear(b, r, c, tr, tc) {
        let k: int = if tr > r {
            if tc < c { 4 } else { 6 }
        } else {
            if tc > c { 5 } else { 7 }
        };
        assert(ray_hits(b, r, c, k, tr, tc));
    }
}

/// Whether a piece of kind `kind` slides in the `k`-th direction: rook and
/// queen along ranks and files, bishop and queen along diagonals.
pub open spec fn slides_along(kind: int, k: int) -> bool {
    if k < 4 {
        kind == 2 || kind == 5
    } else {
        kind == 4 || kind == 5
    }
}

/// An enemy slider on `(sr, sc)` looks down the `k`-th ray at the piece on
/// `(x, y)`: it lies further along that direction with nothing in between.
pub open spec fn pins_from(
    b: [[i8; 8]; 8],
    sign: int,
    k: int,
    x: int,
    y: int,
    sr: int,
    sc: int,
) -> bool {
    &&& on_board(sr, sc)
    &&& in_direction(x, y, direction(k).0, direction(k).1, sr, sc)
    &&& path_clear(b, x, y, sr, sc)
    &&& owned_by(piece_at(b, sr, sc), -sign)
    &&& slides_along(kind_of(piece_at(b, sr, sc)), k)
}

/// The piece on `(x, y)` is pinned against the square `(kr, kc)` along the
/// `k`-th direction: it is the first piece on that ray, it belongs to the side
/// `sign`, and the next piece behind it is an enemy slider of a matching kind.
pub open spec fn pinned_on_ray(
    b: [[i8; 8]; 8],
    sign: int,
    kr: int,
    kc: int,
    k: int,
    x: int,
    y: int,
) -> bool {
    &&& on_board(x, y)
    &&& in_direction(kr, kc, direction(k).0, direction(k).1, x, y)
    &&& owned_by(piece_at(b, x, y), sign)
    &&& path_clear(b, kr, kc, x, y)
    &&& exists|sr: int, sc: int| #[trigger] pins_from(b, sign, k, x, y, sr, sc)
}

/// The pinned piece of the `k`-th ray as a sequence: one square, or none.
pub open spec fn pin_seq(b: [[i8; 8]; 8], sign: int, kr: int, kc: int, k: int) -> Seq<
    (usize, usize),
> {
    if exists|x: int, y: int| #[trigger] pinned_on_ray(b, sign, kr, kc, k, x, y) {
        let (x, y) = choose|x: int, y: int| #[trigger] pinned_on_ray(b, sign, kr, kc, k, x, y);
        seq![(x as usize, y as usize)]
    } else {
        Seq::empty()
    }
}

/// A ray has one first occupied square.
pub proof fn lemma_first_on_ray(
    b: [[i8; 8]; 8],
    r: int,
    c: int,
    dr: int,
    dc: int,
    x: int,
    y: int,
    u: int,
    v: int,
)
    requires
        dir_ok(dr, dc),
        on_board(x, y),
        on_board(u, v),
        in_direction(r, c, dr, dc, x, y),
        in_direction(r, c, dr, dc, u, v),
        piece_at(b, x, y) != 0,
        piece_at(b, u, v) != 0,
        path_clear(b, r, c, x, y),
        path_clear(b, r, c, u, v),
    ensures
        x == u && y == v,
{
    lemma_ray_order(r, c, dr, dc, x, y, u, v);
}

/// A ray pins at most one piece.
pub proof fn lemma_pin_unique(b: [[i8; 8]; 8], sign: int, kr: int, kc: int, k: int, x: int, y: int)
    requires
        0 <= k < 8,
        sign_ok(sign),
        pinned_on_ray(b, sign, kr, kc, k, x, y),
    ensures
        pin_seq(b, sign, kr, kc, k) == seq![(x as usize, y as usize)],
{
    let (u, v) = choose|u: int, v: int| #[trigger] pinned_on_ray(b, sign, kr, kc, k, u, v);
    lemma_first_on_ray(b, kr, kc, direction(k).0, direction(k).1, x, y, u, v);
}

/// The pinned pieces of a line: those of the ray in direction `k`, then those
/// of the opposite ray, which is direction `k + 1`.
pub open spec fn line_pins(b: [[i8; 8]; 8], sign: int, kr: int, kc: int, k: int) -> Seq<
    (usize, usize),
> {
    pin_seq(b, sign, kr, kc, k) + pin_seq(b, sign, kr, kc, k + 1)
}

/// With a friendly piece first on a ray, the next piece decides: unless it is
/// an enemy slider that moves along the ray, nothing is pinned on the ray.
pub proof fn lemma_second_piece_decides(
    b: [[i8; 8]; 8],
    sign: int,
    kr: int,
    kc: int,
    k: int,
    first: (usize, usize),
    x: int,
    y: int,
)
    requires
        0 <= k < 8,
        square_ok(first),
        on_board(x, y),
        in_direction(kr, kc, direction(k).0, direction(k).1, first.0 as int, first.1 as int),
        piece_at(b, first.0 as int, first.1 as int) != 0,
        path_clear(b, kr, kc, first.0 as int, first.1 as int),
        in_direction(first.0 as int, first.1 as int, direction(k).0, direction(k).1, x, y),
        path_clear(b, first.0 as int, first.1 as int, x, y),
        piece_at(b, x, y) != 0,
        !(owned_by(piece_at(b, x, y), -sign) && slides_along(kind_of(piece_at(b, x, y)), k)),
    ensures
        forall|u: int, v: int| !#[trigger] pinned_on_ray(b, sign, kr, kc, k, u, v),
{
    let dr = direction(k).0;
    let dc = direction(k).1;
    let ar = first.0 as int;
    let ac = first.1 as int;
    assert forall|u: int, v: int| !#[trigger] pinned_on_ray(b, sign, kr, kc, k, u, v) by {
        if pinned_on_ray(b, sign, kr, kc, k, u, v) {
            lemma_first_on_ray(b, kr, kc, dr, dc, u, v, ar, ac);
            let (sr, sc) = choose|sr: int, sc: int| #[trigger] pins_from(b, sign, k, u, v, sr, sc);
            lemma_first_on_ray(b, ar, ac, dr, dc, sr, sc, x, y);
        }
    }
}

/// The `k`-th direction, as `direction` defines it.
pub fn direction_at(k: usize) -> (d: (i8, i8))
    requires
        k < 8,
    ensures
        (d.0 as int, d.1 as int) == direction(k as int),
        dir_ok(d.0 as int, d.1 as int),
{
    if k == 0 {
        (1, 0)
    } else if k == 1 {
        (-1, 0)
    } else if k == 2 {
        (0, 1)
    } else if k == 3 {
        (0, -1)
    } else if k == 4 {
        (1, -1)
    } else if k == 5 {
        (-1, 1)
    } else if k == 6 {
        (1, 1)
    } else {
        (-1, -1)
    }
}

/// The `k`-th knight jump, as `knight_jump` defines it.
pub fn knight_jump_at(k: usize) -> (d: (i8, i8))
    requires
        k < 8,
    ensures
        (d.0 as int, d.1 as int) == knight_jump(k as int),
{
    if k == 0 {
        (1, 2)
    } else if k == 1 {
        (-1, 2)
    } else if k == 2 {
        (1, -2)
    } else if k == 3 {
        (-1, -2)
    } else if k == 4 {
        (2, -1)
    } else if k == 5 {
        (2, 1)
    } else if k == 6 {
        (-2, 1)
    } else {
        (-2, -1)
    }
}

/// Whether the code `p` belongs to the side `sign`.
pub fn is_owned(p: i8, sign: i8) -> (b: bool)
    ensures
        b == owned_by(p as int, sign as int),
{
    (sign > 0 && p > 0) || (sign < 0 && p < 0)
}

/// The magnitude of a piece code.
pub fn kind(p: i8) -> (k: i8)
    requires
        -6 <= p <= 6,
    ensures
        k == kind_of(p as int),
{
    if p < 0 {
        -p
    } else {
        p
    }
}

impl ChessState {
    /// The squares that a slider on `position` reaches in `direction`: every
    /// square of the ray up to and including the first occupied one.
    pub fn danger_squares_from_position(
        board: [[i8; 8]; 8],
        direction: (i8, i8),
        position: (usize, usize),
    ) -> (reach: SquareSet)
        requires
            square_ok(position),
            dir_ok(direction.0 as int, direction.1 as int),
        ensures
            forall|r: int, c: int|
                #[trigger] reach.has(r, c) <==> on_board(r, c) && in_direction(
                    position.0 as int,
                    position.1 as int,
                    direction.0 as int,
                    direction.1 as int,
                    r,
                    c,
                ) && path_clear(board, position.0 as int, position.1 as int, r, c),
    {
        let ghost pr = position.0 as int;
        let ghost pc = position.1 as int;
        let ghost dr = direction.0 as int;
        let ghost dc = direction.1 as int;
        let mut reach = SquareSet::new();
        let mut cur: Option<(usize, usize)> = step(position, direction);
        let ghost mut x: int = pr + dr;
        let ghost mut y: int = pc + dc;
        proof {
            lemma_ray_step(pr, pc, dr, dc, pr, pc);
        }
        while cur.is_some()
            invariant
                square_ok(position),
                pr == position.0,
                pc == position.1,
                dr == direction.0,
                dc == direction.1,
                dir_ok(dr, dc),
                in_direction(pr, pc, dr, dc, x, y),
                cur matches Some(n) ==> n.0 == x && n.1 == y && square_ok(n),
                cur is None ==> !on_board(x, y) || !path_clear(board, pr, pc, x, y),
                cur is Some ==> path_clear(board, pr, pc, x, y),
                forall|r: int, c: int|
                    #[trigger] reach.has(r, c) <==> on_board(r, c) && in_direction(
                        pr,
                        pc,
                        dr,
                        dc,
                        r,
                        c,
                    ) && path_clear(board, pr, pc, r, c) && strictly_between(pr, pc, r, c, x, y),
            decreases
                    (if cur is Some { 1int } else { 0int }),
                    (if dr > 0 { 8 - x } else if dr < 0 { x + 1 } else if dc > 0 { 8 - y } else { y + 1 }),
        {
            let n = cur.unwrap();
            reach.insert(n);
            proof {
                lemma_ray_step(pr, pc, dr, dc, x, y);
                assert forall|r: int, c: int|
                    on_board(r, c) && in_direction(pr, pc, dr, dc, r, c) && strictly_between(
                        pr,
                        pc,
                        r,
                        c,
                        x,
                        y,
                    ) implies path_clear(board, pr, pc, r, c) by {
                    assert forall|u: int, v: int|
                        on_board(u, v) && strictly_between(pr, pc, u, v, r, c) implies piece_at(
                        board,
                        u,
                        v,
                    ) == 0 by {
                        assert(strictly_between(pr, pc, u, v, x, y));
                    }
                }
            }
            if board[n.0][n.1] != 0 {
                proof {
                    assert(piece_at(board, x, y) != 0);
                    assert(strictly_between(pr, pc, x, y, x + dr, y + dc));
                    x = x + dr;
                    y = y + dc;
                }
                cur = None;
            } else {
                proof {
                    assert(piece_at(board, x, y) == 0);
                    x = x + dr;
                    y = y + dc;
                }
                cur = step(n, direction);
            }
        }
        proof {
            assert forall|r: int, c: int|
                on_board(r, c) && in_direction(pr, pc, dr, dc, r, c) && path_clear(
                    board,
                    pr,
                    pc,
                    r,
                    c,
                ) implies strictly_between(pr, pc, r, c, x, y) by {
                lemma_ray_order(pr, pc, dr, dc, r, c, x, y);
                if on_board(x, y) {
                    // the walk stopped on an occupied square before (x, y)
                    let (u, v) = choose|u: int, v: int|
                        on_board(u, v) && strictly_between(pr, pc, u, v, x, y) && piece_at(
                            board,
                            u,
                            v,
                        ) != 0;
                    lemma_ray_before(pr, pc, dr, dc, x, y, u, v);
                    lemma_ray_order(pr, pc, dr, dc, r, c, u, v);
                } else {
                    lemma_ray_leaves(pr, pc, dr, dc, x, y, r, c);
                }
            }
        }
        reach
    }

    /// The squares that the piece on `position` attacks; none if the square
    /// is empty.
    pub fn attacks_from(board: [[i8; 8]; 8], position: (usize, usize)) -> (reach: SquareSet)
        requires
            board_ok(board),
            square_ok(position),
        ensures
            forall|r: int, c: int|
                #[trigger] reach.has(r, c) <==> on_board(r, c) && attacks(
                    board,
                    position.0 as int,
                    position.1 as int,
                    r,
                    c,
                ),
    {
        let ghost pr = position.0 as int;
        let ghost pc = position.1 as int;
        proof {
            reveal(attacks);
        }
        let mut reach = SquareSet::new();
        let p: i8 = board[position.0][position.1];
        assert(p == piece_at(board, pr, pc));
        let k: i8 = kind(p);
        if k == 1 {
            let ahead: i8 = if p > 0 { 1 } else { -1 };
            if let Some(t) = step(position, (ahead, -1)) {
                reach.insert(t);
            }
            if let Some(t) = step(position, (ahead, 1)) {
                reach.insert(t);
            }
        } else if k == 3 {
            let mut j: usize = 0;
            while j < 8
                invariant
                    j <= 8,
                    square_ok(position),
                    pr == position.0,
                    pc == position.1,
                    forall|r: int, c: int|
                        #[trigger] reach.has(r, c) <==> on_board(r, c) && exists|i: int|
                            0 <= i < j && #[trigger] jump_hits(pr, pc, i, r, c),
                decreases 8 - j,
            {
                let ghost before = reach;
                if let Some(t) = step(position, knight_jump_at(j)) {
                    reach.insert(t);
                }
                proof {
                    assert forall|r: int, c: int|
                        #[trigger] reach.has(r, c) <==> on_board(r, c) && exists|i: int|
                            0 <= i < j + 1 && #[trigger] jump_hits(pr, pc, i, r, c) by {
                        if reach.has(r, c) && !before.has(r, c) {
                            assert(jump_hits(pr, pc, j as int, r, c));
                        }
                        if before.has(r, c) {
                            let i = choose|i: int| 0 <= i < j && #[trigger] jump_hits(pr, pc, i, r, c);
                            assert(jump_hits(pr, pc, i, r, c));
                        }
                    }
                }
                j += 1;
            }
            proof {
                assert forall|r: int, c: int|
                    #[trigger] reach.has(r, c) <==> on_board(r, c) && attacks(board, pr, pc, r, c) by {
                    lemma_knight_jumps(pr, pc, r, c);
                }
            }
        } else if k == 6 {
            let mut j: usize = 0;
            while j < 8
                invariant
                    j <= 8,
                    square_ok(position),
                    pr == position.0,
                    pc == position.1,
                    forall|r: int, c: int|
                        #[trigger] reach.has(r, c) <==> on_board(r, c) && exists|i: int|
                            0 <= i < j && #[trigger] step_hits(pr, pc, i, r, c),
                decreases 8 - j,
            {
                let ghost before = reach;
                if let Some(t) = step(position, direction_at(j)) {
                    reach.insert(t);
                }
                proof {
                    assert forall|r: int, c: int|
                        #[trigger] reach.has(r, c) <==> on_board(r, c) && exists|i: int|
                            0 <= i < j + 1 && #[trigger] step_hits(pr, pc, i, r, c) by {
                        if reach.has(r, c) && !before.has(r, c) {
                            assert(step_hits(pr, pc, j as int, r, c));
                        }
                        if before.has(r, c) {
                            let i = choose|i: int| 0 <= i < j && #[trigger] step_hits(pr, pc, i, r, c);
                            assert(step_hits(pr, pc, i, r, c));
                        }
                    }
                }
                j += 1;
            }
            proof {
                assert forall|r: int, c: int|
                    #[trigger] reach.has(r, c) <==> on_board(r, c) && attacks(board, pr, pc, r, c) by {
                    lemma_king_steps(pr, pc, r, c);
                }
            }
        } else if k == 2 || k == 4 || k == 5 {
            let first: usize = if k == 4 { 4 } else { 0 };
            let last: usize = if k == 2 { 4 } else { 8 };
            let mut j: usize = first;
            while j < last
                invariant
                    first <= j <= last <= 8,
                    square_ok(position),
                    pr == position.0,
                    pc == position.1,
                    forall|r: int, c: int|
                        #[trigger] reach.has(r, c) <==> on_board(r, c) && exists|i: int|
                            first <= i < j && #[trigger] ray_hits(board, pr, pc, i, r, c),
                decreases last - j,
            {
                let ghost before = reach;
                let ray = Self::danger_squares_from_position(board, direction_at(j), position);
                reach.extend(&ray);
                proof {
                    assert forall|r: int, c: int|
                        #[trigger] reach.has(r, c) <==> on_board(r, c) && exists|i: int|
                            first <= i < j + 1 && #[trigger] ray_hits(board, pr, pc, i, r, c) by {
                        if ray.has(r, c) {
                            assert(ray_hits(board, pr, pc, j as int, r, c));
                        }
                        if before.has(r, c) {
                            let i = choose|i: int|
                                first <= i < j && #[trigger] ray_hits(board, pr, pc, i, r, c);
                            assert(ray_hits(board, pr, pc, i, r, c));
                        }
                    }
                }
                j += 1;
            }
            proof {
                assert forall|r: int, c: int|
                    #[trigger] reach.has(r, c) <==> on_board(r, c) && attacks(board, pr, pc, r, c) by {
                    lemma_line_directions(board, pr, pc, r, c);
                }
            }
        }
        reach
    }

    /// The danger squares: every square that some piece of the side with sign
    /// `coefficient` attacks.
    pub fn danger_squares(board: [[i8; 8]; 8], coefficient: i8) -> (danger: SquareSet)
        requires
            board_ok(board),
            sign_ok(coefficient as int),
        ensures
            forall|r: int, c: int|
                #[trigger] danger.has(r, c) <==> on_board(r, c) && attacked_by(
                    board,
                    coefficient as int,
                    r,
                    c,
                ),
    {
        let mut danger = SquareSet::new();
        let mut idx: usize = 0;
        while idx < 8
            invariant
                idx <= 8,
                board_ok(board),
                forall|r: int, c: int|
                    #[trigger] danger.has(r, c) <==> on_board(r, c) && attacked_by_first(
                        board,
                        coefficient as int,
                        8 * idx,
                        r,
                        c,
                    ),
            decreases 8 - idx,
        {
            let mut jdx: usize = 0;
            while jdx < 8
                invariant
                    idx < 8,
                    jdx <= 8,
                    board_ok(board),
                    forall|r: int, c: int|
                        #[trigger] danger.has(r, c) <==> on_board(r, c) && attacked_by_first(
                            board,
                            coefficient as int,
                            8 * idx + jdx,
                            r,
                            c,
                        ),
                decreases 8 - jdx,
            {
                let ghost before = danger;
                let ghost n = 8 * idx + jdx;
                assert(board[idx as int][jdx as int] == piece_at(board, idx as int, jdx as int));
                if is_owned(board[idx][jdx], coefficient) {
                    let reach = Self::attacks_from(board, (idx, jdx));
                    danger.extend(&reach);
                }
                proof {
                    assert forall|r: int, c: int|
                        #[trigger] danger.has(r, c) <==> on_board(r, c) && attacked_by_first(
                            board,
                            coefficient as int,
                            n + 1,
                            r,
                            c,
                        ) by {
                        if danger.has(r, c) {
                            if before.has(r, c) {
                                let (x, y) = choose|x: int, y: int|
                                    on_board(x, y) && 8 * x + y < n && owned_by(
                                        piece_at(board, x, y),
                                        coefficient as int,
                                    ) && #[trigger] attacks(board, x, y, r, c);
                                assert(attacks(board, x, y, r, c));
                            } else {
                                assert(attacks(board, idx as int, jdx as int, r, c));
                            }
                        }
                        if on_board(r, c) && attacked_by_first(board, coefficient as int, n + 1, r, c) {
                            let (x, y) = choose|x: int, y: int|
                                on_board(x, y) && 8 * x + y < n + 1 && owned_by(
                                    piece_at(board, x, y),
                                    coefficient as int,
                                ) && #[trigger] attacks(board, x, y, r, c);
                            if 8 * x + y < n {
                                assert(attacked_by_first(board, coefficient as int, n, r, c));
                            } else {
                                assert(x == idx && y == jdx);
                            }
                        }
                    }
                }
                jdx += 1;
            }
            idx += 1;
        }
        proof {
            assert forall|r: int, c: int|
                #[trigger] danger.has(r, c) <==> on_board(r, c) && attacked_by(
                    board,
                    coefficient as int,
                    r,
                    c,
                ) by {
                if attacked_by(board, coefficient as int, r, c) {
                    let (x, y) = choose|x: int, y: int|
                        on_board(x, y) && owned_by(piece_at(board, x, y), coefficient as int)
                            && #[trigger] attacks(board, x, y, r, c);
                    assert(8 * x + y < 64);
                    assert(attacks(board, x, y, r, c));
                }
                if attacked_by_first(board, coefficient as int, 64, r, c) {
                    let (x, y) = choose|x: int, y: int|
                        on_board(x, y) && 8 * x + y < 64 && owned_by(
                            piece_at(board, x, y),
                            coefficient as int,
                        ) && #[trigger] attacks(board, x, y, r, c);
                    assert(attacks(board, x, y, r, c));
                }
            }
        }
        danger
    }

    /// The piece pinned against `position` along the `k`-th direction, for the
    /// side with sign `coefficient`: walking outward, the first piece met must
    /// be friendly, and the next one an enemy slider that moves along the ray.
    pub fn directional_pin(
        board: [[i8; 8]; 8],
        position: (usize, usize),
        coefficient: i8,
        k: usize,
    ) -> (pinned: Vec<(usize, usize)>)
        requires
            board_ok(board),
            square_ok(position),
            sign_ok(coefficient as int),
            k < 8,
        ensures
            pinned@ == pin_seq(
                board,
                coefficient as int,
                position.0 as int,
                position.1 as int,
                k as int,
            ),
            pinned@.len() <= 1,
            forall|i: int| 0 <= i < pinned@.len() ==> square_ok(#[trigger] pinned@[i]),
    {
        let ghost kr = position.0 as int;
        let ghost kc = position.1 as int;
        let ghost sign = coefficient as int;
        let dir = direction_at(k);
        let ghost dr = dir.0 as int;
        let ghost dc = dir.1 as int;
        let mut candidate: Option<(usize, usize)> = None;
        let mut cur: Option<(usize, usize)> = step(position, dir);
        let ghost mut x: int = kr + dr;
        let ghost mut y: int = kc + dc;
        proof {
            lemma_ray_step(kr, kc, dr, dc, kr, kc);
        }
        while cur.is_some()
            invariant
                board_ok(board),
                square_ok(position),
                sign_ok(sign),
                sign == coefficient,
                k < 8,
                kr == position.0,
                kc == position.1,
                dr == dir.0,
                dc == dir.1,
                dr == direction(k as int).0,
                dc == direction(k as int).1,
                dir_ok(dr, dc),
                in_direction(kr, kc, dr, dc, x, y),
                cur matches Some(n) ==> n.0 == x && n.1 == y && square_ok(n),
                cur is None ==> !on_board(x, y),
                candidate is None ==> path_clear(board, kr, kc, x, y),
                candidate matches Some(a) ==> {
                    &&& square_ok(a)
                    &&& in_direction(kr, kc, dr, dc, a.0 as int, a.1 as int)
                    &&& owned_by(piece_at(board, a.0 as int, a.1 as int), sign)
                    &&& path_clear(board, kr, kc, a.0 as int, a.1 as int)
                    &&& in_direction(a.0 as int, a.1 as int, dr, dc, x, y)
                    &&& path_clear(board, a.0 as int, a.1 as int, x, y)
                },
            decreases
                    (if dr > 0 { 8 - x } else if dr < 0 { x + 1 } else if dc > 0 { 8 - y } else { y + 1 }),
        {
            let n = cur.unwrap();
            let p: i8 = board[n.0][n.1];
            assert(p == piece_at(board, x, y));
            if p != 0 {
                if is_owned(p, coefficient) {
                    match candidate {
                        None => {
                            candidate = Some(n);
                            proof {
                                lemma_ray_step(x, y, dr, dc, x, y);
                            }
                        },
                        Some(a) => {
                            proof {
                                lemma_second_piece_decides(board, sign, kr, kc, k as int, a, x, y);
                            }
                            return Vec::new();
                        },
                    }
                } else {
                    match candidate {
                        Some(a) => {
                            let kd: i8 = kind(p);
                            let matching: bool = if k < 4 {
                                kd == 2 || kd == 5
                            } else {
                                kd == 4 || kd == 5
                            };
                            if matching {
                                proof {
                                    let ar = a.0 as int;
                                    let ac = a.1 as int;
                                    assert(pins_from(board, sign, k as int, ar, ac, x, y));
                                    lemma_pin_unique(board, sign, kr, kc, k as int, ar, ac);
                                }
                                let mut pinned: Vec<(usize, usize)> = Vec::new();
                                pinned.push(a);
                                assert(pinned@ =~= seq![a]);
                                return pinned;
                            } else {
                                proof {
                                    lemma_second_piece_decides(board, sign, kr, kc, k as int, a, x, y);
                                }
                                return Vec::new();
                            }
                        },
                        None => {
                            proof {
                                assert forall|u: int, v: int| !#[trigger] pinned_on_ray(
                                    board,
                                    sign,
                                    kr,
                                    kc,
                                    k as int,
                                    u,
                                    v,
                                ) by {
                                    if pinned_on_ray(board, sign, kr, kc, k as int, u, v) {
                                        lemma_first_on_ray(board, kr, kc, dr, dc, u, v, x, y);
                                    }
                                }
                            }
                            return Vec::new();
                        },
                    }
                }
            } else {
                proof {
                    if candidate is Some {
                        let a = candidate->0;
                        lemma_ray_step(a.0 as int, a.1 as int, dr, dc, x, y);
                    }
                }
            }
            proof {
                lemma_ray_step(kr, kc, dr, dc, x, y);
                x = x + dr;
                y = y + dc;
            }
            cur = step(n, dir);
        }
        proof {
            // The ray has left the board with at most one piece on it.
            assert forall|u: int, v: int| !#[trigger] pinned_on_ray(
                board,
                sign,
                kr,
                kc,
                k as int,
                u,
                v,
            ) by {
                if pinned_on_ray(board, sign, kr, kc, k as int, u, v) {
                    match candidate {
                        None => {
                            lemma_ray_leaves(kr, kc, dr, dc, x, y, u, v);
                        },
                        Some(a) => {
                            let ar = a.0 as int;
                            let ac = a.1 as int;
                            lemma_first_on_ray(board, kr, kc, dr, dc, u, v, ar, ac);
                            let (sr, sc) = choose|sr: int, sc: int| #[trigger]
                                pins_from(board, sign, k as int, u, v, sr, sc);
                            lemma_ray_leaves(ar, ac, dr, dc, x, y, sr, sc);
                        },
                    }
                }
            }
        }
        Vec::new()
    }

    /// The pinned pieces of the two opposite rays `k` and `k + 1`.
    fn line_pin(board: [[i8; 8]; 8], position: (usize, usize), coefficient: i8, k: usize) -> (pinned:
        Vec<(usize, usize)>)
        requires
            board_ok(board),
            square_ok(position),
            sign_ok(coefficient as int),
            k < 7,
        ensures
            pinned@ == line_pins(board, coefficient as int, position.0 as int, position.1 as int, k as int),
            pinned@.len() <= 2,
            forall|i: int| 0 <= i < pinned@.len() ==> square_ok(#[trigger] pinned@[i]),
    {
        let mut pinned = Self::directional_pin(board, position, coefficient, k);
        let mut other = Self::directional_pin(board, position, coefficient, k + 1);
        pinned.append(&mut other);
        pinned
    }

    /// The pieces of the side `coefficient` that are pinned against `position`
    /// along its file.
    pub fn vertical_pin(board: [[i8; 8]; 8], position: (usize, usize), coefficient: i8) -> (pinned: Vec<
        (usize, usize),
    >)
        requires
            board_ok(board),
            square_ok(position),
            sign_ok(coefficient as int),
        ensures
            pinned@ == line_pins(board, coefficient as int, position.0 as int, position.1 as int, 0),
            pinned@.len() <= 2,
            forall|i: int| 0 <= i < pinned@.len() ==> square_ok(#[trigger] pinned@[i]),
    {
        Self::line_pin(board, position, coefficient, 0)
    }

    /// The pieces of the side `coefficient` that are pinned against `position`
    /// along its rank.
    pub fn horisontal_pin(board: [[i8; 8]; 8], position: (usize, usize), coefficient: i8) -> (pinned: Vec<
        (usize, usize),
    >)
        requires
            board_ok(board),
            square_ok(position),
            sign_ok(coefficient as int),
        ensures
            pinned@ == line_pins(board, coefficient as int, position.0 as int, position.1 as int, 2),
            pinned@.len() <= 2,
            forall|i: int| 0 <= i < pinned@.len() ==> square_ok(#[trigger] pinned@[i]),
    {
        Self::line_pin(board, position, coefficient, 2)
    }

    /// The pieces of the side `coefficient` that are pinned against `position`
    /// along the diagonal that rises towards the a-file.
    pub fn left_diagonal_pin(board: [[i8; 8]; 8], position: (usize, usize), coefficient: i8) -> (pinned: Vec<
        (usize, usize),
    >)
        requires
            board_ok(board),
            square_ok(position),
            sign_ok(coefficient as int),
        ensures
            pinned@ == line_pins(board, coefficient as int, position.0 as int, position.1 as int, 4),
            pinned@.len() <= 2,
            forall|i: int| 0 <= i < pinned@.len() ==> square_ok(#[trigger] pinned@[i]),
    {
        Self::line_pin(board, position, coefficient, 4)
    }

    /// The pieces of the side `coefficient` that are pinned against `position`
    /// along the diagonal that rises towards the h-file.
    pub fn right_diagonal_pin(board: [[i8; 8]; 8], position: (usize, usize), coefficient: i8) -> (pinned: Vec<
        (usize, usize),
    >)
        requires
            board_ok(board),
            square_ok(position),
            sign_ok(coefficient as int),
        ensures
            pinned@ == line_pins(board, coefficient as int, position.0 as int, position.1 as int, 6),
            pinned@.len() <= 2,
            forall|i: int| 0 <= i < pinned@.len() ==> square_ok(#[trigger] pinned@[i]),
    {
        Self::line_pin(board, position, coefficient, 6)
    }
}

} // verus!
