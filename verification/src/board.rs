//! Geometry of the board: squares, piece codes, lines and rays.
//!
//! A board is an 8x8 grid of signed piece codes. Rank indices 0..7 stand for
//! the chess ranks 1..8, file indices 0..7 for the files a..h. A positive code
//! is a white piece, a negative one a black piece, zero an empty square; the
//! magnitude 1..6 is pawn, rook, knight, bishop, queen, king.
use std::collections::HashSet;
use vstd::prelude::*;

verus! {

/// Whether `(r, c)` names a square of the board.
pub open spec fn on_board(r: int, c: int) -> bool {
    0 <= r < 8 && 0 <= c < 8
}

/// Whether an executable square lies on the board.
pub open spec fn square_ok(sq: (usize, usize)) -> bool {
    sq.0 < 8 && sq.1 < 8
}

/// The piece code on square `(r, c)`.
pub open spec fn piece_at(b: [[i8; 8]; 8], r: int, c: int) -> int
    recommends
        on_board(r, c),
{
    b[r][c] as int
}

/// Every cell holds a code in `[-6, 6]`.
pub open spec fn board_ok(b: [[i8; 8]; 8]) -> bool {
    forall|r: int, c: int| on_board(r, c) ==> -6 <= #[trigger] piece_at(b, r, c) <= 6
}

/// A side is named by its sign: `1` for white, `-1` for black.
pub open spec fn sign_ok(sign: int) -> bool {
    sign == 1 || sign == -1
}

/// The sign of the side that is white or not.
pub open spec fn sign_of(white: bool) -> int {
    if white { 1 } else { -1 }
}

/// Whether the code `p` is a piece of the side with sign `sign`.
pub open spec fn owned_by(p: int, sign: int) -> bool {
    (sign > 0 && p > 0) || (sign < 0 && p < 0)
}

/// The kind of a piece code: its magnitude.
pub open spec fn kind_of(p: int) -> int {
    if p < 0 { -p } else { p }
}

/// `x` lies strictly between `a` and `t`.
pub open spec fn between(a: int, x: int, t: int) -> bool {
    a < x < t || t < x < a
}

/// `(x, y)` lies strictly inside the segment from `(r, c)` to `(tr, tc)`,
/// which runs along a rank, a file or a diagonal.
pub open spec fn strictly_between(r: int, c: int, x: int, y: int, tr: int, tc: int) -> bool {
    ||| (r == tr && x == r && between(c, y, tc))
    ||| (c == tc && y == c && between(r, x, tr))
    ||| (tr - r == tc - c && x - r == y - c && between(r, x, tr))
    ||| (tr - r == c - tc && x - r == c - y && between(r, x, tr))
}

/// Every square strictly between the two given ones is empty.
pub open spec fn path_clear(b: [[i8; 8]; 8], r: int, c: int, tr: int, tc: int) -> bool {
    forall|x: int, y: int|
        on_board(x, y) && strictly_between(r, c, x, y, tr, tc) ==> #[trigger] piece_at(b, x, y)
            == 0
}

/// The two squares differ and share a rank or a file.
pub open spec fn straight_line(r: int, c: int, tr: int, tc: int) -> bool {
    (r == tr) != (c == tc)
}

/// The two squares differ and share a diagonal.
pub open spec fn diagonal_line(r: int, c: int, tr: int, tc: int) -> bool {
    r != tr && (tr - r == tc - c || tr - r == c - tc)
}

/// A direction is a step of at most one rank and one file, not both zero.
pub open spec fn dir_ok(dr: int, dc: int) -> bool {
    -1 <= dr <= 1 && -1 <= dc <= 1 && !(dr == 0 && dc == 0)
}

/// `(x, y)` lies on the open ray that leaves `(r, c)` in direction `(dr, dc)`.
pub open spec fn in_direction(r: int, c: int, dr: int, dc: int, x: int, y: int) -> bool {
    &&& dr == 0 ==> x == r
    &&& dr > 0 ==> x > r
    &&& dr < 0 ==> x < r
    &&& dc == 0 ==> y == c
    &&& dc > 0 ==> y > c
    &&& dc < 0 ==> y < c
    &&& dr != 0 && dc != 0 ==> (if dr == dc { x - r == y - c } else { x - r == c - y })
}

/// The board `b` with the code `v` written to square `(r, c)`.
pub open spec fn set_cell(b: [[i8; 8]; 8], r: int, c: int, v: int) -> [[i8; 8]; 8]
    recommends
        on_board(r, c),
        -128 <= v <= 127,
{
    vstd::array::spec_array_update(b, r, vstd::array::spec_array_update(b[r], c, v as i8))
}

/// Reading a board after one write.
pub proof fn lemma_set_cell(b: [[i8; 8]; 8], r: int, c: int, v: int)
    requires
        on_board(r, c),
        -128 <= v <= 127,
    ensures
        forall|x: int, y: int|
            on_board(x, y) ==> #[trigger] piece_at(set_cell(b, r, c, v), x, y) == (if x == r && y
                == c {
                v
            } else {
                piece_at(b, x, y)
            }),
{
    let row = vstd::array::spec_array_update(b[r], c, v as i8);
    let nb = set_cell(b, r, c, v);
    assert(row@ == b[r]@.update(c, v as i8));
    assert(nb@ == b@.update(r, row));
    assert forall|x: int, y: int| on_board(x, y) implies #[trigger] piece_at(nb, x, y) == (if x == r
        && y == c {
        v
    } else {
        piece_at(b, x, y)
    }) by {
        assert(nb[x] == nb@[x]);
        assert(b[x] == b@[x]);
        if x == r {
            assert(nb[x] == row);
            assert(row[y] == row@[y]);
            assert(b[r][y] == b[r]@[y]);
        }
    }
}

/// Two boards with the same cells are the same board.
pub proof fn lemma_board_ext(a: [[i8; 8]; 8], b: [[i8; 8]; 8])
    requires
        forall|x: int, y: int|
            on_board(x, y) ==> #[trigger] piece_at(a, x, y) == #[trigger] piece_at(b, x, y),
    ensures
        a == b,
{
    assert forall|x: int| 0 <= x < 8 implies a[x] == b[x] by {
        assert forall|y: int| 0 <= y < 8 implies a[x][y] == b[x][y] by {
            assert(on_board(x, y));
            assert(piece_at(a, x, y) == piece_at(b, x, y));
        }
        assert(a[x] =~= b[x]);
    }
    assert(a =~= b);
}

/// One step from `sq` in direction `dir`, if it stays on the board.
pub fn step(sq: (usize, usize), dir: (i8, i8)) -> (next: Option<(usize, usize)>)
    requires
        square_ok(sq),
        -2 <= dir.0 <= 2,
        -2 <= dir.1 <= 2,
    ensures
        next matches Some(n) ==> n.0 == sq.0 + dir.0 && n.1 == sq.1 + dir.1 && square_ok(n),
        next is None ==> !on_board(sq.0 + dir.0, sq.1 + dir.1),
{
    let r: i8 = sq.0 as i8 + dir.0;
    let c: i8 = sq.1 as i8 + dir.1;
    if 0 <= r && r < 8 && 0 <= c && c < 8 {
        Some((r as usize, c as usize))
    } else {
        None
    }
}

/// A set of squares, kept as a hash set of square numbers: the square
/// `(r, c)` has the number `8 * r + c`.
#[derive(Debug)]
pub struct SquareSet {
    pub cells: HashSet<usize>,
}

impl View for SquareSet {
    type V = Set<(int, int)>;

    open spec fn view(&self) -> Set<(int, int)> {
        Set::new(|sq: (int, int)| self.has(sq.0, sq.1))
    }
}

impl SquareSet {
    /// Whether the set holds the square `(r, c)`.
    pub open spec fn has(&self, r: int, c: int) -> bool {
        on_board(r, c) && self.cells@.contains((8 * r + c) as usize)
    }

    /// The empty set.
    pub fn new() -> (s: SquareSet)
        ensures
            forall|r: int, c: int| !#[trigger] s.has(r, c),
            s@ == Set::<(int, int)>::empty(),
    {
        let s = SquareSet { cells: HashSet::new() };
        assert(s@ =~= Set::<(int, int)>::empty());
        s
    }

    /// Whether `sq` is in the set; a square off the board never is.
    pub fn contains(&self, sq: &(usize, usize)) -> (b: bool)
        ensures
            b == self.has(sq.0 as int, sq.1 as int),
            b == self@.contains((sq.0 as int, sq.1 as int)),
    {
        if sq.0 < 8 && sq.1 < 8 {
            let number: usize = 8 * sq.0 + sq.1;
            self.cells.contains(&number)
        } else {
            false
        }
    }

    /// Adds `sq` to the set.
    pub fn insert(&mut self, sq: (usize, usize))
        requires
            square_ok(sq),
        ensures
            forall|r: int, c: int|
                #[trigger] final(self).has(r, c) == (old(self).has(r, c) || (r == sq.0 && c
                    == sq.1)),
            final(self)@ == old(self)@.insert((sq.0 as int, sq.1 as int)),
    {
        let number: usize = 8 * sq.0 + sq.1;
        self.cells.insert(number);
        assert forall|r: int, c: int|
            #[trigger] self.has(r, c) == (old(self).has(r, c) || (r == sq.0 && c == sq.1)) by {
            if on_board(r, c) {
                assert(((8 * r + c) as usize == number) == (r == sq.0 && c == sq.1));
            }
        }
        assert(self@ =~= old(self)@.insert((sq.0 as int, sq.1 as int)));
    }

    /// Adds every square of `other` to the set.
    pub fn extend(&mut self, other: &SquareSet)
        ensures
            forall|r: int, c: int|
                #[trigger] final(self).has(r, c) == (old(self).has(r, c) || other.has(r, c)),
            final(self)@ == old(self)@.union(other@),
    {
        let mut r: usize = 0;
        while r < 8
            invariant
                r <= 8,
                forall|x: int, y: int|
                    #[trigger] self.has(x, y) == (old(self).has(x, y) || (x < r && other.has(
                        x,
                        y,
                    ))),
            decreases 8 - r,
        {
            let mut c: usize = 0;
            while c < 8
                invariant
                    r < 8,
                    c <= 8,
                    forall|x: int, y: int|
                        #[trigger] self.has(x, y) == (old(self).has(x, y) || ((x < r || (x == r
                            && y < c)) && other.has(x, y))),
                decreases 8 - c,
            {
                if other.contains(&(r, c)) {
                    self.insert((r, c));
                }
                c += 1;
            }
            r += 1;
        }
        assert(self@ =~= old(self)@.union(other@));
    }
}

} // verus!
