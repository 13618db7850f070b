//! Move notation: the verbose form with piece letters and separators, and
//! the coordinate form, both read against a position and written from a move.
//!
//! Verbose form: `O-O` and `O-O-O` for castling; for a pawn the source
//! square, `-` or `x`, the destination square and, on promotion, the letter
//! of the new piece; for a piece its letter first. Coordinate form: source
//! square, destination square and, on promotion, the lower-case letter of
//! the new piece; castling is written with the king's two squares.
use crate::board::{kind_of, piece_at, square_ok};
use crate::moves::{Move, PieceKind, Special};
use crate::position::ChessState;
use crate::text::chars_of;
use vstd::prelude::*;
use vstd::string::*;

verus! {

/// `String::push` appends the given character to the end of the string.
pub assume_specification[ String::push ](s: &mut String, ch: char)
    ensures
        final(s)@ == old(s)@.push(ch),
;

/// Why a move text was not accepted.
#[derive(Clone, Copy, Debug, PartialEq, Eq, Structural)]
pub enum NotationError {
    /// The text has not the shape of a move in its notation.
    Malformed,
    /// The source square that the text names is empty.
    EmptySource,
    /// The text contradicts the board: the piece letter, the capture mark
    /// or the castling token does not fit the move between the two squares.
    Mismatch,
}

/// The letter of the file `c`, `a` to `h`.
pub open spec fn file_char(c: int) -> char {
    (97 + c) as char
}

/// The digit of the rank `r`, `1` to `8`.
pub open spec fn rank_char(r: int) -> char {
    (49 + r) as char
}

/// The square that a file letter and a rank digit name.
pub open spec fn square_of(col: char, row: char) -> Option<(usize, usize)> {
    if 'a' <= col <= 'h' && '1' <= row <= '8' {
        Some(((row as int - 49) as usize, (col as int - 97) as usize))
    } else {
        None
    }
}

/// The two characters that name a square.
pub open spec fn square_text(sq: (usize, usize)) -> Seq<char> {
    seq![file_char(sq.1 as int), rank_char(sq.0 as int)]
}

/// The upper-case letter of a kind of piece.
pub open spec fn letter_of(kind: PieceKind) -> char {
    match kind {
        PieceKind::Pawn => 'P',
        PieceKind::Rook => 'R',
        PieceKind::Knight => 'N',
        PieceKind::Bishop => 'B',
        PieceKind::Queen => 'Q',
        PieceKind::King => 'K',
    }
}

/// The lower-case letter of a kind of piece.
pub open spec fn small_letter_of(kind: PieceKind) -> char {
    match kind {
        PieceKind::Pawn => 'p',
        PieceKind::Rook => 'r',
        PieceKind::Knight => 'n',
        PieceKind::Bishop => 'b',
        PieceKind::Queen => 'q',
        PieceKind::King => 'k',
    }
}

/// The piece that a pawn may become, by its letter in upper or lower case.
pub open spec fn promotion_of(ch: char, upper: bool) -> Option<PieceKind> {
    if ch == (if upper { 'R' } else { 'r' }) {
        Some(PieceKind::Rook)
    } else if ch == (if upper { 'B' } else { 'b' }) {
        Some(PieceKind::Bishop)
    } else if ch == (if upper { 'N' } else { 'n' }) {
        Some(PieceKind::Knight)
    } else if ch == (if upper { 'Q' } else { 'q' }) {
        Some(PieceKind::Queen)
    } else {
        None
    }
}

/// The verbose text of a move.
pub open spec fn lan_text(m: Move) -> Seq<char> {
    match m.special {
        Special::CastleKingside => seq!['O', '-', 'O'],
        Special::CastleQueenside => seq!['O', '-', 'O', '-', 'O'],
        _ => (if m.piece is Pawn {
            Seq::empty()
        } else {
            seq![letter_of(m.piece)]
        }) + square_text(m.from) + seq![if m.capture { 'x' } else { '-' }] + square_text(m.to) + (
        match m.promotion {
            Some(kind) => seq![letter_of(kind)],
            None => Seq::empty(),
        }),
    }
}

/// The coordinate text of a move.
pub open spec fn uci_text(m: Move) -> Seq<char> {
    square_text(m.from) + square_text(m.to) + (match m.promotion {
        Some(kind) => seq![small_letter_of(kind)],
        None => Seq::empty(),
    })
}

/// The move between two squares as the board decides it: the piece is the
/// one on the source square; a king that goes from the e-file two files
/// aside on its rank castles; a pawn that advances two ranks on its file
/// makes a double push; a pawn that changes file onto an empty square
/// captures in passing; the move is a capture when the destination is
/// occupied or the capture is in passing. `None` when the source is empty.
pub open spec fn classify(
    b: [[i8; 8]; 8],
    from: (usize, usize),
    to: (usize, usize),
    promotion: Option<PieceKind>,
) -> Option<Move> {
    let target = piece_at(b, to.0 as int, to.1 as int);
    match PieceKind::of_code(kind_of(piece_at(b, from.0 as int, from.1 as int))) {
        None => None,
        Some(piece) => {
            let special = if piece is King && from.1 == 4 && to.0 == from.0 && to.1 == 6 {
                Special::CastleKingside
            } else if piece is King && from.1 == 4 && to.0 == from.0 && to.1 == 2 {
                Special::CastleQueenside
            } else if piece is Pawn && to.1 == from.1 && (to.0 == from.0 + 2 || to.0 + 2
                == from.0) {
                Special::DoublePawnPush
            } else if piece is Pawn && to.1 != from.1 && target == 0 {
                Special::EnPassantCapture
            } else {
                Special::Ordinary
            };
            Some(
                Move {
                    from,
                    to,
                    piece,
                    capture: !(special is CastleKingside) && !(special is CastleQueenside) && (
                    target != 0 || special is EnPassantCapture),
                    promotion,
                    special,
                },
            )
        },
    }
}

/// The two squares and the promotion that a coordinate text names.
pub open spec fn uci_squares(text: Seq<char>) -> Option<
    ((usize, usize), (usize, usize), Option<PieceKind>),
> {
    if text.len() != 4 && text.len() != 5 {
        None
    } else {
        match (square_of(text[0], text[1]), square_of(text[2], text[3])) {
            (Some(from), Some(to)) => if text.len() == 4 {
                Some((from, to, None))
            } else {
                match promotion_of(text[4], false) {
                    Some(kind) => Some((from, to, Some(kind))),
                    None => None,
                }
            },
            _ => None,
        }
    }
}

/// The two squares and the promotion that a verbose text names for the side
/// `white`. The piece letter and the separator are not judged here.
pub open spec fn lan_squares(white: bool, text: Seq<char>) -> Option<
    ((usize, usize), (usize, usize), Option<PieceKind>),
> {
    let back: usize = if white { 0 } else { 7 };
    if text == seq!['O', '-', 'O'] {
        Some(((back, 4usize), (back, 6usize), None))
    } else if text == seq!['O', '-', 'O', '-', 'O'] {
        Some(((back, 4usize), (back, 2usize), None))
    } else if text.len() == 5 || (text.len() == 6 && 'a' <= text[0] <= 'h') {
        match (square_of(text[0], text[1]), square_of(text[3], text[4])) {
            (Some(from), Some(to)) => if text.len() == 5 {
                Some((from, to, None))
            } else {
                match promotion_of(text[5], true) {
                    Some(kind) => Some((from, to, Some(kind))),
                    None => None,
                }
            },
            _ => None,
        }
    } else if text.len() == 6 {
        match (square_of(text[1], text[2]), square_of(text[4], text[5])) {
            (Some(from), Some(to)) => Some((from, to, None)),
            _ => None,
        }
    } else {
        None
    }
}

/// The move that a coordinate text names in a position.
pub open spec fn uci_move(state: ChessState, text: Seq<char>) -> Result<Move, NotationError> {
    match uci_squares(text) {
        None => Err(NotationError::Malformed),
        Some((from, to, promotion)) => match classify(state.board, from, to, promotion) {
            None => Err(NotationError::EmptySource),
            Some(m) => Ok(m),
        },
    }
}

/// The move that a verbose text names in a position: the move between its
/// two squares, provided that its verbose text is the given one.
pub open spec fn lan_move(state: ChessState, text: Seq<char>) -> Result<Move, NotationError> {
    match lan_squares(state.turn, text) {
        None => Err(NotationError::Malformed),
        Some((from, to, promotion)) => match classify(state.board, from, to, promotion) {
            None => Err(NotationError::EmptySource),
            Some(m) => if lan_text(m) == text {
                Ok(m)
            } else {
                Err(NotationError::Mismatch)
            },
        },
    }
}

/// The square that a file letter and a rank digit name; `None` when either
/// character is out of range.
pub fn slice_to_coord(col: char, row: char) -> (sq: Option<(usize, usize)>)
    ensures
        sq == square_of(col, row),
        sq matches Some(s) ==> square_ok(s),
{
    if col >= 'a' && col <= 'h' && row >= '1' && row <= '8' {
        Some(((row as u8 - 49) as usize, (col as u8 - 97) as usize))
    } else {
        None
    }
}

/// The letter of a kind of piece, in upper or lower case.
pub fn piece_letter(kind: PieceKind, upper: bool) -> (ch: char)
    ensures
        ch == (if upper { letter_of(kind) } else { small_letter_of(kind) }),
{
    match kind {
        PieceKind::Pawn => if upper { 'P' } else { 'p' },
        PieceKind::Rook => if upper { 'R' } else { 'r' },
        PieceKind::Knight => if upper { 'N' } else { 'n' },
        PieceKind::Bishop => if upper { 'B' } else { 'b' },
        PieceKind::Queen => if upper { 'Q' } else { 'q' },
        PieceKind::King => if upper { 'K' } else { 'k' },
    }
}

/// The piece that a promotion letter names.
pub fn promotion_letter(ch: char, upper: bool) -> (kind: Option<PieceKind>)
    ensures
        kind == promotion_of(ch, upper),
{
    if ch == (if upper { 'R' } else { 'r' }) {
        Some(PieceKind::Rook)
    } else if ch == (if upper { 'B' } else { 'b' }) {
        Some(PieceKind::Bishop)
    } else if ch == (if upper { 'N' } else { 'n' }) {
        Some(PieceKind::Knight)
    } else if ch == (if upper { 'Q' } else { 'q' }) {
        Some(PieceKind::Queen)
    } else {
        None
    }
}

/// Appends the two characters of a square to `out`.
fn push_square(out: &mut String, sq: (usize, usize))
    requires
        square_ok(sq),
    ensures
        final(out)@ == old(out)@ + square_text(sq),
{
    out.push((97u8 + sq.1 as u8) as char);
    out.push((49u8 + sq.0 as u8) as char);
    assert(out@ =~= old(out)@ + square_text(sq));
}

impl Move {
    /// The verbose text of the move.
    pub fn to_lan(&self) -> (text: String)
        requires
            self.wf(),
        ensures
            text@ == lan_text(*self),
    {
        let mut text = String::new();
        match self.special {
            Special::CastleKingside => {
                text.push('O');
                text.push('-');
                text.push('O');
                assert(text@ =~= lan_text(*self));
            },
            Special::CastleQueenside => {
                text.push('O');
                text.push('-');
                text.push('O');
                text.push('-');
                text.push('O');
                assert(text@ =~= lan_text(*self));
            },
            _ => {
                match self.piece {
                    PieceKind::Pawn => {},
                    _ => {
                        text.push(piece_letter(self.piece, true));
                    },
                }
                push_square(&mut text, self.from);
                text.push(if self.capture { 'x' } else { '-' });
                push_square(&mut text, self.to);
                match self.promotion {
                    Some(kind) => {
                        text.push(piece_letter(kind, true));
                    },
                    None => {},
                }
                assert(text@ =~= lan_text(*self));
            },
        }
        text
    }

    /// The coordinate text of the move.
    pub fn to_uci(&self) -> (text: String)
        requires
            self.wf(),
        ensures
            text@ == uci_text(*self),
    {
        let mut text = String::new();
        push_square(&mut text, self.from);
        push_square(&mut text, self.to);
        match self.promotion {
            Some(kind) => {
                text.push(piece_letter(kind, false));
            },
            None => {},
        }
        assert(text@ =~= uci_text(*self));
        text
    }
}

/// The move between two squares as the board decides it.
pub fn classify_move(
    board: &[[i8; 8]; 8],
    from: (usize, usize),
    to: (usize, usize),
    promotion: Option<PieceKind>,
) -> (m: Option<Move>)
    requires
        square_ok(from),
        square_ok(to),
    ensures
        m == classify(*board, from, to, promotion),
        m matches Some(mv) ==> mv.wf(),
{
    let source: i8 = board[from.0][from.1];
    let target: i8 = board[to.0][to.1];
    assert(source == piece_at(*board, from.0 as int, from.1 as int));
    assert(target == piece_at(*board, to.0 as int, to.1 as int));
    match PieceKind::from_code(source) {
        None => None,
        Some(piece) => {
            let king: bool = match piece {
                PieceKind::King => true,
                _ => false,
            };
            let pawn: bool = match piece {
                PieceKind::Pawn => true,
                _ => false,
            };
            let castle: bool = king && from.1 == 4 && to.0 == from.0 && (to.1 == 6 || to.1 == 2);
            let special = if castle {
                if to.1 == 6 {
                    Special::CastleKingside
                } else {
                    Special::CastleQueenside
                }
            } else if pawn && to.1 == from.1 && (to.0 == from.0 + 2 || to.0 + 2 == from.0) {
                Special::DoublePawnPush
            } else if pawn && to.1 != from.1 && target == 0 {
                Special::EnPassantCapture
            } else {
                Special::Ordinary
            };
            let capture: bool = !castle && (target != 0 || (pawn && to.1 != from.1));
            Some(Move { from, to, piece, capture, promotion, special })
        },
    }
}

/// The two squares and the promotion that a coordinate text names.
fn read_uci_squares(chars: &Vec<char>) -> (found: Option<
    ((usize, usize), (usize, usize), Option<PieceKind>),
>)
    ensures
        found == uci_squares(chars@),
        found matches Some(f) ==> square_ok(f.0) && square_ok(f.1),
{
    if chars.len() != 4 && chars.len() != 5 {
        return None;
    }
    match (slice_to_coord(chars[0], chars[1]), slice_to_coord(chars[2], chars[3])) {
        (Some(from), Some(to)) => {
            if chars.len() == 4 {
                Some((from, to, None))
            } else {
                match promotion_letter(chars[4], false) {
                    Some(kind) => Some((from, to, Some(kind))),
                    None => None,
                }
            }
        },
        _ => None,
    }
}

/// The two squares and the promotion that a verbose text names.
fn read_lan_squares(white: bool, chars: &Vec<char>) -> (found: Option<
    ((usize, usize), (usize, usize), Option<PieceKind>),
>)
    ensures
        found == lan_squares(white, chars@),
        found matches Some(f) ==> square_ok(f.0) && square_ok(f.1),
{
    let back: usize = if white { 0 } else { 7 };
    let n: usize = chars.len();
    if n == 3 && chars[0] == 'O' && chars[1] == '-' && chars[2] == 'O' {
        assert(chars@ =~= seq!['O', '-', 'O']);
        return Some(((back, 4), (back, 6), None));
    }
    assert(chars@ != seq!['O', '-', 'O']) by {
        if chars@ == seq!['O', '-', 'O'] {
            assert(seq!['O', '-', 'O'].len() == 3);
            assert(seq!['O', '-', 'O'][0] == 'O');
            assert(seq!['O', '-', 'O'][1] == '-');
            assert(seq!['O', '-', 'O'][2] == 'O');
        }
    }
    if n == 5 && chars[0] == 'O' && chars[1] == '-' && chars[2] == 'O' && chars[3] == '-'
        && chars[4] == 'O' {
        assert(chars@ =~= seq!['O', '-', 'O', '-', 'O']);
        return Some(((back, 4), (back, 2), None));
    }
    assert(chars@ != seq!['O', '-', 'O', '-', 'O']) by {
        if chars@ == seq!['O', '-', 'O', '-', 'O'] {
            assert(seq!['O', '-', 'O', '-', 'O'].len() == 5);
            assert(seq!['O', '-', 'O', '-', 'O'][0] == 'O');
            assert(seq!['O', '-', 'O', '-', 'O'][1] == '-');
            assert(seq!['O', '-', 'O', '-', 'O'][2] == 'O');
            assert(seq!['O', '-', 'O', '-', 'O'][3] == '-');
            assert(seq!['O', '-', 'O', '-', 'O'][4] == 'O');
        }
    }
    if n == 5 || (n == 6 && chars[0] >= 'a' && chars[0] <= 'h') {
        match (slice_to_coord(chars[0], chars[1]), slice_to_coord(chars[3], chars[4])) {
            (Some(from), Some(to)) => {
                if n == 5 {
                    Some((from, to, None))
                } else {
                    match promotion_letter(chars[5], true) {
                        Some(kind) => Some((from, to, Some(kind))),
                        None => None,
                    }
                }
            },
            _ => None,
        }
    } else if n == 6 {
        match (slice_to_coord(chars[1], chars[2]), slice_to_coord(chars[4], chars[5])) {
            (Some(from), Some(to)) => Some((from, to, None)),
            _ => None,
        }
    } else {
        None
    }
}

/// Reads a move in coordinate form against the position.
///
/// The text must name two squares and, as a fifth character, may name the
/// piece of a promotion; the source square must hold a piece. Whether the
/// move is legal is not judged.
pub fn parse_uci(state: &ChessState, text: &String) -> (read: Result<Move, NotationError>)
    ensures
        read == uci_move(*state, text@),
        read matches Ok(m) ==> m.wf() && uci_text(m) == text@,
{
    let chars = chars_of(text.as_str());
    match read_uci_squares(&chars) {
        None => Err(NotationError::Malformed),
        Some((from, to, promotion)) => match classify_move(&state.board, from, to, promotion) {
            None => Err(NotationError::EmptySource),
            Some(m) => {
                proof {
                    lemma_uci_text_of_squares(text@, m);
                }
                Ok(m)
            },
        },
    }
}

/// Reads a move in verbose form against the position.
///
/// The text is accepted when it is exactly the verbose text of the move
/// that the board decides between the two squares it names; castling is
/// read for the side to move.
pub fn parse_lan(state: &ChessState, text: &String) -> (read: Result<Move, NotationError>)
    ensures
        read == lan_move(*state, text@),
        read matches Ok(m) ==> m.wf() && lan_text(m) == text@,
{
    let chars = chars_of(text.as_str());
    match read_lan_squares(state.turn, &chars) {
        None => Err(NotationError::Malformed),
        Some((from, to, promotion)) => match classify_move(&state.board, from, to, promotion) {
            None => Err(NotationError::EmptySource),
            Some(m) => {
                let written = m.to_lan();
                if written == *text {
                    Ok(m)
                } else {
                    Err(NotationError::Mismatch)
                }
            },
        },
    }
}

/// Translates a move from verbose form to coordinate form.
pub fn lan_to_uci(state: &ChessState, m: &String) -> (translated: Result<String, NotationError>)
    ensures
        match lan_move(*state, m@) {
            Ok(mv) => translated matches Ok(text) && text@ == uci_text(mv),
            Err(e) => translated == Err::<String, NotationError>(e),
        },
{
    match parse_lan(state, m) {
        Ok(mv) => Ok(mv.to_uci()),
        Err(e) => Err(e),
    }
}

/// Translates a move from coordinate form to verbose form.
pub fn uci_to_lan(state: &ChessState, m: &String) -> (translated: Result<String, NotationError>)
    ensures
        match uci_move(*state, m@) {
            Ok(mv) => translated matches Ok(text) && text@ == lan_text(mv),
            Err(e) => translated == Err::<String, NotationError>(e),
        },
{
    match parse_uci(state, m) {
        Ok(mv) => Ok(mv.to_lan()),
        Err(e) => Err(e),
    }
}

/// A square read from two characters is written with the same two.
pub proof fn lemma_square_text(col: char, row: char)
    requires
        square_of(col, row) is Some,
    ensures
        square_text(square_of(col, row)->0) == seq![col, row],
{
    let sq = square_of(col, row)->0;
    assert(file_char(sq.1 as int) == col);
    assert(rank_char(sq.0 as int) == row);
}

/// A promotion read from a letter is written with the same letter.
pub proof fn lemma_promotion_letter(ch: char, upper: bool)
    requires
        promotion_of(ch, upper) is Some,
    ensures
        (if upper {
            letter_of(promotion_of(ch, upper)->0)
        } else {
            small_letter_of(promotion_of(ch, upper)->0)
        }) == ch,
{
}

/// A move that keeps the squares and the promotion read from a coordinate
/// text is written as that text.
pub proof fn lemma_uci_text_of_squares(text: Seq<char>, m: Move)
    requires
        uci_squares(text) == Some((m.from, m.to, m.promotion)),
    ensures
        uci_text(m) == text,
{
    lemma_square_text(text[0], text[1]);
    lemma_square_text(text[2], text[3]);
    if text.len() == 5 {
        lemma_promotion_letter(text[4], false);
    }
    assert(uci_text(m) =~= text);
}

/// A move that obeys the rules is the move that the board decides between
/// its two squares.
pub proof fn lemma_classify_allowed(state: ChessState, m: Move)
    requires
        state.allows(m),
    ensures
        classify(state.board, m.from, m.to, m.promotion) == Some(m),
{
}

/// The coordinate text of a move names its two squares and its promotion.
pub proof fn lemma_uci_squares_of_text(m: Move)
    requires
        m.wf(),
        m.promotion matches Some(kind) ==> !(kind is Pawn) && !(kind is King),
    ensures
        uci_squares(uci_text(m)) == Some((m.from, m.to, m.promotion)),
{
    let text = uci_text(m);
    assert(text[0] == file_char(m.from.1 as int) && text[1] == rank_char(m.from.0 as int));
    assert(text[2] == file_char(m.to.1 as int) && text[3] == rank_char(m.to.0 as int));
    assert(square_of(text[0], text[1]) == Some(m.from));
    assert(square_of(text[2], text[3]) == Some(m.to));
    if m.promotion is Some {
        assert(text[4] == small_letter_of(m.promotion->0));
    }
}

/// The verbose text of a move that obeys the rules names its two squares
/// and its promotion.
pub proof fn lemma_lan_squares_of_text(state: ChessState, m: Move)
    requires
        state.allows(m),
    ensures
        lan_squares(state.turn, lan_text(m)) == Some((m.from, m.to, m.promotion)),
{
    let text = lan_text(m);
    let back: usize = if state.turn { 0 } else { 7 };
    if m.is_castle() {
        assert(m.piece is King);
        assert(m.from == (back, 4usize));
        assert(m.promotion is None);
        if m.special is CastleKingside {
            assert(m.to == (back, 6usize));
            assert(text == seq!['O', '-', 'O']);
        } else {
            assert(m.to == (back, 2usize));
            assert(text == seq!['O', '-', 'O', '-', 'O']);
            assert(text != seq!['O', '-', 'O']) by {
                assert(seq!['O', '-', 'O'].len() == 3);
                assert(seq!['O', '-', 'O', '-', 'O'].len() == 5);
            }
        }
    } else {
        assert(text != seq!['O', '-', 'O']) by {
            assert(seq!['O', '-', 'O'].len() == 3);
        }
        if m.piece is Pawn {
            assert(text.len() == 5 || text.len() == 6);
            assert((text.len() == 5) == (m.promotion is None));
            assert(text[0] == file_char(m.from.1 as int) && text[1] == rank_char(m.from.0 as int));
            assert(text[3] == file_char(m.to.1 as int) && text[4] == rank_char(m.to.0 as int));
            assert(text != seq!['O', '-', 'O', '-', 'O']) by {
                assert(seq!['O', '-', 'O', '-', 'O'][0] == 'O');
            }
            assert(square_of(text[0], text[1]) == Some(m.from));
            assert(square_of(text[3], text[4]) == Some(m.to));
            if m.promotion is Some {
                assert(text[5] == letter_of(m.promotion->0));
            }
        } else {
            assert(m.promotion is None);
            assert(text.len() == 6);
            assert(text[0] == letter_of(m.piece));
            assert(text[1] == file_char(m.from.1 as int) && text[2] == rank_char(m.from.0 as int));
            assert(text[4] == file_char(m.to.1 as int) && text[5] == rank_char(m.to.0 as int));
            assert(text != seq!['O', '-', 'O', '-', 'O']) by {
                assert(seq!['O', '-', 'O', '-', 'O'].len() == 5);
            }
            assert(square_of(text[1], text[2]) == Some(m.from));
            assert(square_of(text[4], text[5]) == Some(m.to));
        }
    }
}

/// Round trip: a move that the generator emits, written in either notation
/// and read back against the same position, is the same move again; and
/// translating its text from one notation to the other gives its text in
/// the other notation.
pub proof fn notation_round_trip(state: ChessState, m: Move)
    requires
        state.raw_moves().contains(m),
    ensures
        uci_move(state, uci_text(m)) == Ok::<Move, NotationError>(m),
        lan_move(state, lan_text(m)) == Ok::<Move, NotationError>(m),
{
    state.lemma_raw_moves_allowed(m);
    lemma_classify_allowed(state, m);
    lemma_uci_squares_of_text(m);
    lemma_lan_squares_of_text(state, m);
}

} // verus!
