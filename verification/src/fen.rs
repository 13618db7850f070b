//! Reading a position from its description: six fields separated by single
//! spaces, which give the placement of the pieces rank by rank from the
//! eighth, the side to move, the castling rights, the en-passant square and
//! the two move counters.
use crate::board::{board_ok, on_board, piece_at};
use crate::position::{CastlingRights, ChessState};
use crate::text::chars_of;
use vstd::prelude::*;
use vstd::string::*;

verus! {

/// The field of a position description that was not accepted.
#[derive(Clone, Copy, Debug, PartialEq, Eq, Structural)]
pub enum FenError {
    /// The text has not exactly six fields.
    FieldCount,
    /// The placement has not eight ranks of eight squares each, or names an
    /// unknown piece.
    Placement,
    /// The side to move is neither `w` nor `b`.
    SideToMove,
    /// The castling rights are neither `-` nor letters among `KQkq`.
    Castling,
    /// The en-passant square is neither `-` nor a square.
    EnPassant,
    /// The halfmove clock is no number that fits 32 bits.
    HalfmoveClock,
    /// The fullmove number is no number that fits 32 bits.
    FullmoveNumber,
}

/// The first index at or after `start` where `s` holds `sep`, or the length
/// of `s` if there is none.
pub open spec fn next_sep(s: Seq<char>, sep: char, start: int) -> int
    decreases s.len() - start,
{
    if start < 0 || start >= s.len() {
        s.len() as int
    } else if s[start] == sep {
        start
    } else {
        next_sep(s, sep, start + 1)
    }
}

/// Where the `k`-th field of `s` starts, fields being separated by `sep`.
pub open spec fn field_start(s: Seq<char>, sep: char, k: nat) -> int
    decreases k,
{
    if k == 0 {
        0
    } else {
        next_sep(s, sep, field_start(s, sep, (k - 1) as nat)) + 1
    }
}

/// Where the `k`-th field of `s` ends: at the next separator, or at the end
/// of the text.
pub open spec fn field_end(s: Seq<char>, sep: char, k: nat) -> int {
    next_sep(s, sep, field_start(s, sep, k))
}

/// The text `s` has exactly `n` fields: the last one ends with the text, and
/// the one before it does not.
pub open spec fn has_fields(s: Seq<char>, sep: char, n: nat) -> bool {
    &&& n >= 1
    &&& field_end(s, sep, (n - 1) as nat) == s.len()
    &&& n >= 2 ==> field_end(s, sep, (n - 2) as nat) < s.len()
}

/// The `k`-th field of `s`.
pub open spec fn field(s: Seq<char>, sep: char, k: nat) -> Seq<char> {
    s.subrange(field_start(s, sep, k), field_end(s, sep, k))
}

/// The piece code that a placement letter names: upper case for white,
/// lower case for black.
pub open spec fn code_of_letter(ch: char) -> Option<int> {
    if ch == 'P' {
        Some(1)
    } else if ch == 'R' {
        Some(2)
    } else if ch == 'N' {
        Some(3)
    } else if ch == 'B' {
        Some(4)
    } else if ch == 'Q' {
        Some(5)
    } else if ch == 'K' {
        Some(6)
    } else if ch == 'p' {
        Some(-1)
    } else if ch == 'r' {
        Some(-2)
    } else if ch == 'n' {
        Some(-3)
    } else if ch == 'b' {
        Some(-4)
    } else if ch == 'q' {
        Some(-5)
    } else if ch == 'k' {
        Some(-6)
    } else {
        None
    }
}

/// The squares that the text of a rank describes, from the a-file on: a
/// digit `1` to `8` stands for that many empty squares, a letter for a
/// piece. `None` when the text holds any other character.
pub open spec fn cells(t: Seq<char>) -> Option<Seq<int>>
    decreases t.len(),
{
    if t.len() == 0 {
        Some(Seq::empty())
    } else {
        match cells(t.drop_last()) {
            None => None,
            Some(before) => {
                let ch = t.last();
                if '1' <= ch <= '8' {
                    Some(before + Seq::new((ch as int - 48) as nat, |i: int| 0int))
                } else {
                    match code_of_letter(ch) {
                        Some(code) => Some(before.push(code)),
                        None => None,
                    }
                }
            },
        }
    }
}

/// The text of a rank describes exactly eight squares.
pub open spec fn rank_ok(t: Seq<char>) -> bool {
    cells(t) matches Some(squares) && squares.len() == 8
}

/// The placement has eight ranks, separated by `/`, of eight squares each.
pub open spec fn placement_ok(p: Seq<char>) -> bool {
    &&& has_fields(p, '/', 8)
    &&& forall|k: nat| k < 8 ==> rank_ok(#[trigger] field(p, '/', k))
}

/// The code that the placement gives to the square `(r, c)`. The ranks are
/// written from the eighth down to the first.
pub open spec fn placed(p: Seq<char>, r: int, c: int) -> int {
    cells(field(p, '/', (7 - r) as nat))->0[c]
}

/// The castling field is `-` or a string of letters among `KQkq`.
pub open spec fn castling_ok(t: Seq<char>) -> bool {
    ||| t == seq!['-']
    ||| (t.len() > 0 && forall|i: int|
        0 <= i < t.len() ==> #[trigger] t[i] == 'K' || t[i] == 'Q' || t[i] == 'k' || t[i] == 'q')
}

/// The en-passant field is `-` or names a square.
pub open spec fn en_passant_ok(t: Seq<char>) -> bool {
    ||| t == seq!['-']
    ||| (t.len() == 2 && 'a' <= t[0] <= 'h' && '1' <= t[1] <= '8')
}

/// The value of a string of decimal digits.
pub open spec fn digits_value(t: Seq<char>) -> int
    decreases t.len(),
{
    if t.len() == 0 {
        0
    } else {
        10 * digits_value(t.drop_last()) + (t.last() as int - 48)
    }
}

/// The text is a non-empty string of decimal digits whose value fits 32
/// bits.
pub open spec fn number_ok(t: Seq<char>) -> bool {
    &&& t.len() > 0
    &&& forall|i: int| 0 <= i < t.len() ==> '0' <= #[trigger] t[i] <= '9'
    &&& digits_value(t) <= u32::MAX
}

/// The first field of the description that is not accepted, if any, in the
/// order of the fields.
pub open spec fn fen_error(text: Seq<char>) -> Option<FenError> {
    if !has_fields(text, ' ', 6) {
        Some(FenError::FieldCount)
    } else if !placement_ok(field(text, ' ', 0)) {
        Some(FenError::Placement)
    } else if field(text, ' ', 1) != seq!['w'] && field(text, ' ', 1) != seq!['b'] {
        Some(FenError::SideToMove)
    } else if !castling_ok(field(text, ' ', 2)) {
        Some(FenError::Castling)
    } else if !en_passant_ok(field(text, ' ', 3)) {
        Some(FenError::EnPassant)
    } else if !number_ok(field(text, ' ', 4)) {
        Some(FenError::HalfmoveClock)
    } else if !number_ok(field(text, ' ', 5)) {
        Some(FenError::FullmoveNumber)
    } else {
        None
    }
}

/// The position `state` is the one that the description `text` gives.
pub open spec fn fen_describes(text: Seq<char>, state: ChessState) -> bool {
    let rights = field(text, ' ', 2);
    let passing = field(text, ' ', 3);
    &&& forall|r: int, c: int|
        on_board(r, c) ==> #[trigger] piece_at(state.board, r, c) == placed(
            field(text, ' ', 0),
            r,
            c,
        )
    &&& state.turn == (field(text, ' ', 1) == seq!['w'])
    &&& state.castling == (CastlingRights {
        white_kingside: rights.contains('K'),
        white_queenside: rights.contains('Q'),
        black_kingside: rights.contains('k'),
        black_queenside: rights.contains('q'),
    })
    &&& forall|f: int|
        0 <= f < 8 ==> #[trigger] state.en_passant[f] == (passing.len() == 2 && passing[0] as int
            == 97 + f)
    &&& state.halfmoves == digits_value(field(text, ' ', 4))
    &&& state.fullmoves == digits_value(field(text, ' ', 5))
}

/// The characters of `chars` from `start` up to `end`.
fn slice_of(chars: &Vec<char>, start: usize, end: usize) -> (part: Vec<char>)
    requires
        start <= end <= chars@.len(),
    ensures
        part@ == chars@.subrange(start as int, end as int),
{
    let mut part: Vec<char> = Vec::new();
    let mut i: usize = start;
    while i < end
        invariant
            start <= i <= end <= chars@.len(),
            part@ == chars@.subrange(start as int, i as int),
        decreases end - i,
    {
        part.push(chars[i]);
        assert(part@ =~= chars@.subrange(start as int, i + 1));
        i += 1;
    }
    part
}

/// The `n` fields of `chars`, or `None` if their number is not `n`.
fn split_fields(chars: &Vec<char>, sep: char, n: usize) -> (fields: Option<Vec<Vec<char>>>)
    requires
        1 <= n <= 8,
    ensures
        fields is Some <==> has_fields(chars@, sep, n as nat),
        fields matches Some(v) ==> v@.len() == n && forall|k: nat|
            k < n ==> (#[trigger] v@[k as int])@ == field(chars@, sep, k),
{
    let ghost s = chars@;
    let mut fields: Vec<Vec<char>> = Vec::new();
    let mut start: usize = 0;
    let mut k: usize = 0;
    while k < n
        invariant
            k <= n <= 8,
            s == chars@,
            fields@.len() == k,
            forall|j: nat| j < k ==> (#[trigger] fields@[j as int])@ == field(s, sep, j),
            k < n ==> start == field_start(s, sep, k as nat) && start <= s.len(),
            k > 0 ==> field_end(s, sep, (k - 1) as nat) <= s.len(),
            k >= 2 ==> field_end(s, sep, (k - 2) as nat) < s.len(),
            k == n ==> (k >= 1 && field_end(s, sep, (k - 1) as nat) == s.len()),
        decreases n - k,
    {
        let mut end: usize = start;
        while end < chars.len() && chars[end] != sep
            invariant
                start <= end <= chars.len(),
                s == chars@,
                next_sep(s, sep, start as int) == next_sep(s, sep, end as int),
            decreases chars.len() - end,
        {
            end += 1;
        }
        assert(end == next_sep(s, sep, start as int));
        assert(end == field_end(s, sep, k as nat));
        fields.push(slice_of(chars, start, end));
        if k + 1 < n {
            if end >= chars.len() {
                proof {
                    lemma_fields_run_out(s, sep, k as nat, (n - 2) as nat);
                }
                return None;
            }
            start = end + 1;
        } else {
            if end < chars.len() {
                return None;
            }
        }
        k += 1;
    }
    Some(fields)
}

/// Once a field ends with the text, so does every later field.
pub proof fn lemma_fields_run_out(s: Seq<char>, sep: char, k: nat, later: nat)
    requires
        k <= later,
        field_end(s, sep, k) >= s.len(),
    ensures
        field_end(s, sep, later) >= s.len(),
    decreases later - k,
{
    if k < later {
        assert(field_start(s, sep, k + 1) == field_end(s, sep, k) + 1);
        lemma_fields_run_out(s, sep, k + 1, later);
    }
}

/// The squares of a rank only grow in number as its text is read on, and an
/// unknown character in a prefix spoils the whole text.
pub proof fn lemma_cells_prefix(t: Seq<char>, i: int)
    requires
        0 <= i <= t.len(),
        cells(t) is Some,
    ensures
        cells(t.take(i)) matches Some(part) && part.len() <= cells(t)->0.len(),
    decreases t.len(),
{
    if i == t.len() {
        assert(t.take(i) =~= t);
    } else {
        assert(t.drop_last().take(i) =~= t.take(i));
        lemma_cells_prefix(t.drop_last(), i);
    }
}

/// The value of a string of digits only grows as it is read on.
pub proof fn lemma_digits_prefix(t: Seq<char>, i: int)
    requires
        0 <= i <= t.len(),
        forall|j: int| 0 <= j < t.len() ==> '0' <= #[trigger] t[j] <= '9',
    ensures
        0 <= digits_value(t.take(i)) <= digits_value(t),
    decreases t.len(),
{
    if i == t.len() {
        assert(t.take(i) =~= t);
        if t.len() > 0 {
            assert(t.drop_last() =~= t.drop_last().take(t.len() - 1));
            lemma_digits_prefix(t.drop_last(), t.len() - 1);
        }
    } else {
        assert(t.drop_last().take(i) =~= t.take(i));
        lemma_digits_prefix(t.drop_last(), i);
    }
}

/// The piece code that a placement letter names.
fn letter_code(ch: char) -> (code: Option<i8>)
    ensures
        code matches Some(p) ==> code_of_letter(ch) == Some(p as int) && -6 <= p <= 6,
        code is None ==> code_of_letter(ch) is None,
{
    if ch == 'P' {
        Some(1)
    } else if ch == 'R' {
        Some(2)
    } else if ch == 'N' {
        Some(3)
    } else if ch == 'B' {
        Some(4)
    } else if ch == 'Q' {
        Some(5)
    } else if ch == 'K' {
        Some(6)
    } else if ch == 'p' {
        Some(-1)
    } else if ch == 'r' {
        Some(-2)
    } else if ch == 'n' {
        Some(-3)
    } else if ch == 'b' {
        Some(-4)
    } else if ch == 'q' {
        Some(-5)
    } else if ch == 'k' {
        Some(-6)
    } else {
        None
    }
}

/// Reads the text of one rank into `row`. Returns whether the text describes
/// exactly eight squares.
fn rank_from_fen(row: &mut [i8; 8], text: &Vec<char>) -> (ok: bool)
    ensures
        ok == rank_ok(text@),
        ok ==> forall|c: int|
            0 <= c < 8 ==> #[trigger] final(row)[c] == cells(text@)->0[c] && -6 <= final(row)[c]
                <= 6,
{
    let ghost t = text@;
    let mut j: usize = 0;
    let mut i: usize = 0;
    while i < text.len()
        invariant
            i <= text.len(),
            j <= 8,
            t == text@,
            cells(t.take(i as int)) matches Some(done) && done.len() == j && forall|c: int|
                0 <= c < j ==> #[trigger] row[c] == done[c] && -6 <= row[c] <= 6,
        decreases text.len() - i,
    {
        let ch: char = text[i];
        let ghost done = cells(t.take(i as int))->0;
        proof {
            assert(t.take(i + 1).drop_last() =~= t.take(i as int));
            assert(t.take(i + 1).last() == ch);
            if cells(t) is Some {
                lemma_cells_prefix(t, i + 1);
            }
        }
        if ch >= '1' && ch <= '8' {
            let run: usize = (ch as u8 - 48) as usize;
            if j + run > 8 {
                return false;
            }
            let mut n: usize = 0;
            while n < run
                invariant
                    n <= run,
                    j + run <= 8,
                    forall|c: int| 0 <= c < j ==> #[trigger] row[c] == done[c] && -6 <= row[c] <= 6,
                    forall|c: int| j <= c < j + n ==> #[trigger] row[c] == 0,
                decreases run - n,
            {
                row[j + n] = 0;
                n += 1;
            }
            j = j + run;
        } else {
            match letter_code(ch) {
                Some(code) => {
                    if j >= 8 {
                        return false;
                    }
                    row[j] = code;
                    j += 1;
                },
                None => {
                    return false;
                },
            }
        }
        i += 1;
    }
    assert(t.take(text.len() as int) =~= t);
    j == 8
}

/// Reads the castling field.
fn castling_from_fen(text: &Vec<char>) -> (rights: Option<CastlingRights>)
    ensures
        rights is Some <==> castling_ok(text@),
        rights matches Some(held) ==> held == (CastlingRights {
            white_kingside: text@.contains('K'),
            white_queenside: text@.contains('Q'),
            black_kingside: text@.contains('k'),
            black_queenside: text@.contains('q'),
        }),
{
    let mut held = CastlingRights {
        white_kingside: false,
        white_queenside: false,
        black_kingside: false,
        black_queenside: false,
    };
    if text.len() == 0 {
        return None;
    }
    if text.len() == 1 && text[0] == '-' {
        assert(text@ =~= seq!['-']);
        assert forall|ch: char| ch != '-' implies !text@.contains(ch) by {
            if text@.contains(ch) {
                let i = choose|i: int| 0 <= i < text@.len() && text@[i] == ch;
            }
        }
        return Some(held);
    }
    assert(text@ != seq!['-']) by {
        if text@ == seq!['-'] {
            assert(seq!['-'].len() == 1);
            assert(seq!['-'][0] == '-');
        }
    }
    let mut i: usize = 0;
    while i < text.len()
        invariant
            i <= text.len(),
            text@ != seq!['-'],
            forall|j: int|
                0 <= j < i ==> #[trigger] text@[j] == 'K' || text@[j] == 'Q' || text@[j] == 'k'
                    || text@[j] == 'q',
            held.white_kingside == text@.take(i as int).contains('K'),
            held.white_queenside == text@.take(i as int).contains('Q'),
            held.black_kingside == text@.take(i as int).contains('k'),
            held.black_queenside == text@.take(i as int).contains('q'),
        decreases text.len() - i,
    {
        let ch: char = text[i];
        proof {
            let before = text@.take(i as int);
            let upto = text@.take(i + 1);
            assert(upto =~= before.push(ch));
            assert forall|x: char| upto.contains(x) == (before.contains(x) || x == ch) by {
                if before.contains(x) {
                    let j = choose|j: int| 0 <= j < before.len() && before[j] == x;
                    assert(upto[j] == x);
                }
                if x == ch {
                    assert(upto[i as int] == x);
                }
                if upto.contains(x) {
                    let j = choose|j: int| 0 <= j < upto.len() && upto[j] == x;
                    if j < i {
                        assert(before[j] == x);
                    }
                }
            }
        }
        if ch == 'K' {
            held.white_kingside = true;
        } else if ch == 'Q' {
            held.white_queenside = true;
        } else if ch == 'k' {
            held.black_kingside = true;
        } else if ch == 'q' {
            held.black_queenside = true;
        } else {
            assert(text@[i as int] == ch);
            return None;
        }
        i += 1;
    }
    assert(text@.take(text.len() as int) =~= text@);
    Some(held)
}

/// Reads a move counter.
fn number_from_fen(text: &Vec<char>) -> (number: Option<u32>)
    ensures
        number is Some <==> number_ok(text@),
        number matches Some(value) ==> value == digits_value(text@),
{
    if text.len() == 0 {
        return None;
    }
    let ghost t = text@;
    let mut value: u32 = 0;
    let mut i: usize = 0;
    while i < text.len()
        invariant
            i <= text.len(),
            t == text@,
            forall|j: int| 0 <= j < i ==> '0' <= #[trigger] t[j] <= '9',
            value == digits_value(t.take(i as int)),
        decreases text.len() - i,
    {
        let ch: char = text[i];
        if !(ch >= '0' && ch <= '9') {
            return None;
        }
        let digit: u64 = (ch as u8 - 48) as u64;
        let longer: u64 = value as u64 * 10 + digit;
        proof {
            assert(t.take(i + 1).drop_last() =~= t.take(i as int));
            assert(t.take(i + 1).last() == ch);
            assert(longer == digits_value(t.take(i + 1)));
        }
        if longer > u32::MAX as u64 {
            proof {
                if number_ok(t) {
                    lemma_digits_prefix(t, i + 1);
                }
            }
            return None;
        }
        value = longer as u32;
        i += 1;
    }
    assert(t.take(text.len() as int) =~= t);
    Some(value)
}

impl ChessState {
    /// Reads the placement field into `board`. Returns whether the field
    /// has eight ranks of eight squares each.
    fn board_from_fen(board: &mut [[i8; 8]; 8], placement: &Vec<char>) -> (ok: bool)
        ensures
            ok == placement_ok(placement@),
            ok ==> board_ok(*final(board)) && forall|r: int, c: int|
                on_board(r, c) ==> #[trigger] piece_at(*final(board), r, c) == placed(
                    placement@,
                    r,
                    c,
                ),
    {
        let ghost p = placement@;
        match split_fields(placement, '/', 8) {
            None => false,
            Some(ranks) => {
                let mut k: usize = 0;
                while k < 8
                    invariant
                        k <= 8,
                        p == placement@,
                        has_fields(p, '/', 8),
                        ranks@.len() == 8,
                        forall|j: nat| j < 8 ==> (#[trigger] ranks@[j as int])@ == field(p, '/', j),
                        forall|j: nat| j < k ==> rank_ok(#[trigger] field(p, '/', j)),
                        forall|r: int, c: int|
                            on_board(r, c) && r > 7 - k ==> #[trigger] piece_at(*board, r, c)
                                == placed(p, r, c) && -6 <= piece_at(*board, r, c) <= 6,
                    decreases 8 - k,
                {
                    let mut row: [i8; 8] = [0i8; 8];
                    assert(ranks@[k as int]@ == field(p, '/', k as nat));
                    if !rank_from_fen(&mut row, &ranks[k]) {
                        assert(!rank_ok(field(p, '/', k as nat)));
                        return false;
                    }
                    let ghost before = *board;
                    board[7 - k] = row;
                    proof {
                        assert forall|r: int, c: int|
                            on_board(r, c) && r > 7 - (k + 1) implies #[trigger] piece_at(
                            *board,
                            r,
                            c,
                        ) == placed(p, r, c) && -6 <= piece_at(*board, r, c) <= 6 by {
                            if r == 7 - k {
                                assert(board[r] == row);
                                assert(row[c] == cells(field(p, '/', k as nat))->0[c]);
                            } else {
                                assert(board[r] == before[r]);
                                assert(piece_at(before, r, c) == placed(p, r, c));
                            }
                        }
                    }
                    k += 1;
                }
                assert forall|j: nat| j < 8 implies rank_ok(#[trigger] field(p, '/', j)) by {}
                true
            },
        }
    }

    /// Reads the en-passant field into the flags. Returns whether the field
    /// is `-` or names a square; the flag of that square's file is then set.
    fn en_passant_from_fen(en_passant_field: &mut [bool; 8], en_passant_str: &Vec<char>) -> (ok:
        bool)
        ensures
            ok == en_passant_ok(en_passant_str@),
            ok ==> forall|f: int|
                0 <= f < 8 ==> #[trigger] final(en_passant_field)[f] == (en_passant_str@.len() == 2
                    && en_passant_str@[0] as int == 97 + f),
    {
        *en_passant_field = [false; 8];
        if en_passant_str.len() == 1 && en_passant_str[0] == '-' {
            assert(en_passant_str@ =~= seq!['-']);
            return true;
        }
        assert(en_passant_str@ != seq!['-']) by {
            if en_passant_str@ == seq!['-'] {
                assert(seq!['-'].len() == 1);
                assert(seq!['-'][0] == '-');
            }
        }
        if en_passant_str.len() != 2 {
            return false;
        }
        let col: char = en_passant_str[0];
        let row: char = en_passant_str[1];
        if col >= 'a' && col <= 'h' && row >= '1' && row <= '8' {
            let pos: usize = (col as u8 - 97) as usize;
            en_passant_field[pos] = true;
            true
        } else {
            false
        }
    }

    /// Reads a position from its description.
    ///
    /// The description has six fields separated by single spaces: the
    /// placement, the side to move, the castling rights, the en-passant
    /// square, the halfmove clock and the fullmove number. The first field
    /// that is not accepted is reported, and no position comes back.
    pub fn from_fen(fen_string: &str) -> (read: Result<ChessState, FenError>)
        ensures
            match read {
                Ok(state) => fen_error(fen_string@) is None && fen_describes(fen_string@, state)
                    && state.wf(),
                Err(e) => fen_error(fen_string@) == Some(e),
            },
    {
        let chars = chars_of(fen_string);
        let ghost text = fen_string@;
        let fields = match split_fields(&chars, ' ', 6) {
            None => {
                return Err(FenError::FieldCount);
            },
            Some(fields) => fields,
        };
        assert(forall|k: nat| k < 6 ==> (#[trigger] fields@[k as int])@ == field(text, ' ', k));
        assert(fields@[0]@ == field(text, ' ', 0));
        assert(fields@[1]@ == field(text, ' ', 1));
        assert(fields@[2]@ == field(text, ' ', 2));
        assert(fields@[3]@ == field(text, ' ', 3));
        assert(fields@[4]@ == field(text, ' ', 4));
        assert(fields@[5]@ == field(text, ' ', 5));
        let mut state = ChessState::empty_board();
        if !Self::board_from_fen(&mut state.board, &fields[0]) {
            return Err(FenError::Placement);
        }
        let side = &fields[1];
        let white: bool = side.len() == 1 && side[0] == 'w';
        let black: bool = side.len() == 1 && side[0] == 'b';
        proof {
            if white {
                assert(side@ =~= seq!['w']);
            } else if side@ == seq!['w'] {
                assert(seq!['w'].len() == 1);
                assert(seq!['w'][0] == 'w');
            }
            if black {
                assert(side@ =~= seq!['b']);
            } else if side@ == seq!['b'] {
                assert(seq!['b'].len() == 1);
                assert(seq!['b'][0] == 'b');
            }
        }
        if !white && !black {
            return Err(FenError::SideToMove);
        }
        state.turn = white;
        match castling_from_fen(&fields[2]) {
            None => {
                return Err(FenError::Castling);
            },
            Some(held) => {
                state.castling = held;
            },
        }
        if !Self::en_passant_from_fen(&mut state.en_passant, &fields[3]) {
            return Err(FenError::EnPassant);
        }
        match number_from_fen(&fields[4]) {
            None => {
                return Err(FenError::HalfmoveClock);
            },
            Some(value) => {
                state.halfmoves = value;
            },
        }
        match number_from_fen(&fields[5]) {
            None => {
                return Err(FenError::FullmoveNumber);
            },
            Some(value) => {
                state.fullmoves = value;
            },
        }
        Ok(state)
    }
}

} // verus!
