//! Positions: which piece stands on which field, and whose turn it is.

use super::bits::{
    is_set, lemma_constants, lemma_flip_high, lemma_high, lemma_mask_equal, lemma_with_bit,
    lemma_without_bit, with_bit, without_bit,
};
use super::mv::Move;
use super::piece::{Color, Piece, BLACK_KING, BLACK_MAN, EMPTY, WHITE_KING, WHITE_MAN};
use super::text::{decimal, push_decimal};
use vstd::prelude::*;
use vstd::string::*;

verus! {

/// A playable square, `0..50` in reading order.
pub type Field = usize;

/// The piece that `piece` is once it stands on `field` at the end of a
/// move: a man on the far rank is crowned.
pub open spec fn spec_promote(field: Field, piece: Piece) -> Piece {
    if piece == WHITE_MAN && field < 5 {
        WHITE_KING
    } else if piece == BLACK_MAN && field >= 45 {
        BLACK_KING
    } else {
        piece
    }
}

/// The piece that `piece` is once it stands on `field` at the end of a
/// move.
#[verifier::when_used_as_spec(spec_promote)]
pub fn promote(field: Field, piece: Piece) -> (result: Piece)
    ensures
        result == spec_promote(field, piece),
{
    if piece == WHITE_MAN && field < 5 {
        WHITE_KING
    } else if piece == BLACK_MAN && field >= 45 {
        BLACK_KING
    } else {
        piece
    }
}

/// The piece that a field holds after `piece` was put there: any code
/// beyond the five known ones counts as a black king.
pub open spec fn normalized(piece: Piece) -> Piece {
    if piece <= BLACK_KING {
        piece
    } else {
        BLACK_KING
    }
}

/// A position, packed in bit masks: `empty` holds the empty fields and, in
/// bit 50, the side to move; a field that is in none of the four masks holds
/// a black king.
#[derive(PartialEq, Eq, Structural, Hash, Clone, Copy, Debug)]
pub struct Position {
    empty: u64,
    white_man: u64,
    black_man: u64,
    white_king: u64,
}

const SIDE_BIT: u64 = 0x4_0000_0000_0000;

const ALL_BITS: u64 = 0x3_FFFF_FFFF_FFFF;

fn set(mask: u64, bit: usize) -> (result: u64)
    requires
        bit < 50,
    ensures
        result == with_bit(mask, bit as u64),
{
    mask | (1u64 << (bit as u64))
}

fn clear(mask: u64, bit: usize) -> (result: u64)
    requires
        bit < 50,
    ensures
        result == without_bit(mask, bit as u64),
{
    mask ^ (mask & (1u64 << (bit as u64)))
}

/// What stands on field `f` after `mv` was played on a board that held
/// `before(f)` on each field `f`.
pub open spec fn spec_go_piece(before: spec_fn(Field) -> Piece, mv: Move, f: Field) -> Piece {
    let moves = mv.spec_from() < 50 && mv.spec_to() < 50;
    if moves && f == mv.spec_to() {
        spec_promote(f, before(mv.spec_from()))
    } else if (moves && f == mv.spec_from()) || mv.captured().contains(f) {
        EMPTY
    } else {
        before(f)
    }
}

impl Position {
    /// In how many of the four masks bit `i` is set.
    pub closed spec fn occupancy(&self, i: u64) -> nat {
        (if is_set(self.empty, i) {
            1nat
        } else {
            0nat
        }) + (if is_set(self.white_man, i) {
            1nat
        } else {
            0nat
        }) + (if is_set(self.black_man, i) {
            1nat
        } else {
            0nat
        }) + (if is_set(self.white_king, i) {
            1nat
        } else {
            0nat
        })
    }

    /// The invariant of the representation: the four masks are pairwise
    /// disjoint and hold nothing beyond the fifty fields, but for the side
    /// bit.
    pub closed spec fn wf(&self) -> bool {
        &&& self.empty >> 50 <= 1
        &&& self.white_man >> 50 == 0
        &&& self.black_man >> 50 == 0
        &&& self.white_king >> 50 == 0
        &&& forall|i: u64| i < 50 ==> #[trigger] self.occupancy(i) <= 1
    }

    /// The side that is to move.
    pub closed spec fn spec_side_to_move(&self) -> Color {
        if is_set(self.empty, 50) {
            Color::Black
        } else {
            Color::White
        }
    }

    /// The piece on `field`.
    pub closed spec fn spec_piece_at(&self, field: Field) -> Piece {
        let i = field as u64;
        if is_set(self.empty, i) {
            EMPTY
        } else if is_set(self.white_man, i) {
            WHITE_MAN
        } else if is_set(self.black_man, i) {
            BLACK_MAN
        } else if is_set(self.white_king, i) {
            WHITE_KING
        } else {
            BLACK_KING
        }
    }

    /// A number that positions can be told apart by: equal positions have
    /// the same key, and different positions mostly have different keys.
    pub closed spec fn spec_key(&self) -> u64 {
        let mixed = self.empty ^ (self.white_man << 7) ^ (self.white_man >> 43) ^ (self.black_man
            << 19) ^ (self.black_man >> 31) ^ (self.white_king << 29) ^ (self.white_king >> 21);
        mixed ^ (mixed >> 16) ^ (mixed >> 32) ^ (mixed >> 48)
    }

    /// A number that positions can be told apart by.
    #[verifier::when_used_as_spec(spec_key)]
    pub fn key(&self) -> (result: u64)
        ensures
            result == self.spec_key(),
    {
        let mixed = self.empty ^ (self.white_man << 7) ^ (self.white_man >> 43) ^ (self.black_man
            << 19) ^ (self.black_man >> 31) ^ (self.white_king << 29) ^ (self.white_king >> 21);
        mixed ^ (mixed >> 16) ^ (mixed >> 32) ^ (mixed >> 48)
    }

    /// The board as a sequence: the piece on each of the fifty fields.
    pub open spec fn board(&self) -> Seq<Piece> {
        Seq::new(50, |f: int| self.spec_piece_at(f as Field))
    }

    /// The piece on each field, as a function.
    pub open spec fn pieces(&self) -> spec_fn(Field) -> Piece {
        |f: Field| self.spec_piece_at(f)
    }

    /// Every field holds one of the five piece codes.
    pub proof fn lemma_piece_range(&self, field: Field)
        ensures
            self.spec_piece_at(field) <= BLACK_KING,
    {
    }

    /// A position is determined by the side to move and the piece on each
    /// field: equality ignores everything else.
    pub proof fn lemma_eq(a: Position, b: Position)
        requires
            a.wf(),
            b.wf(),
            a.spec_side_to_move() == b.spec_side_to_move(),
            forall|f: Field| f < 50 ==> a.spec_piece_at(f) == b.spec_piece_at(f),
        ensures
            a == b,
    {
        assert forall|i: u64| i < 50 implies is_set(a.empty, i) == is_set(b.empty, i) && is_set(
            a.white_man,
            i,
        ) == is_set(b.white_man, i) && is_set(a.black_man, i) == is_set(b.black_man, i) && is_set(
            a.white_king,
            i,
        ) == is_set(b.white_king, i) by {
            assert(a.occupancy(i) <= 1);
            assert(b.occupancy(i) <= 1);
            assert(a.spec_piece_at(i as Field) == b.spec_piece_at(i as Field));
        }
        lemma_high(a.white_man);
        lemma_high(b.white_man);
        lemma_high(a.black_man);
        lemma_high(b.black_man);
        lemma_high(a.white_king);
        lemma_high(b.white_king);
        lemma_mask_equal(a.empty, b.empty);
        lemma_mask_equal(a.white_man, b.white_man);
        lemma_mask_equal(a.black_man, b.black_man);
        lemma_mask_equal(a.white_king, b.white_king);
    }

    /// The side that is to move.
    #[verifier::when_used_as_spec(spec_side_to_move)]
    pub fn side_to_move(&self) -> (result: Color)
        ensures
            result == self.spec_side_to_move(),
    {
        proof {
            lemma_high(self.empty);
        }
        if self.empty & SIDE_BIT == 0 {
            Color::White
        } else {
            Color::Black
        }
    }

    /// The piece on `field`.
    #[verifier::when_used_as_spec(spec_piece_at)]
    pub fn piece_at(&self, field: Field) -> (result: Piece)
        requires
            field < 50,
        ensures
            result == self.spec_piece_at(field),
    {
        let bit: u64 = 1u64 << (field as u64);
        if self.empty & bit != 0 {
            EMPTY
        } else if self.white_man & bit != 0 {
            WHITE_MAN
        } else if self.black_man & bit != 0 {
            BLACK_MAN
        } else if self.white_king & bit != 0 {
            WHITE_KING
        } else {
            BLACK_KING
        }
    }

    /// Whether `field` is unoccupied.
    pub fn is_empty(&self, field: Field) -> (result: bool)
        requires
            field < 50,
        ensures
            result == (self.spec_piece_at(field) == EMPTY),
    {
        self.empty & (1u64 << (field as u64)) != 0
    }

    /// The empty board with white to move.
    pub fn create() -> (result: Position)
        ensures
            result.wf(),
            result.spec_side_to_move() == Color::White,
            forall|f: Field| f < 50 ==> #[trigger] result.spec_piece_at(f) == EMPTY,
    {
        proof {
            lemma_constants();
        }
        Position { empty: ALL_BITS, white_man: 0, black_man: 0, white_king: 0 }
    }

    /// The same board with the other side to move.
    pub fn toggle_side(&self) -> (result: Position)
        ensures
            self.wf() ==> result.wf(),
            result.spec_side_to_move() == self.spec_side_to_move().opponent(),
            forall|f: Field| f < 50 ==> #[trigger] result.spec_piece_at(f) == self.spec_piece_at(f),
    {
        proof {
            lemma_flip_high(self.empty);
        }
        let result = Position {
            empty: self.empty ^ SIDE_BIT,
            white_man: self.white_man,
            black_man: self.black_man,
            white_king: self.white_king,
        };
        proof {
            if self.wf() {
                assert forall|i: u64| i < 50 implies #[trigger] result.occupancy(i) <= 1 by {
                    assert(self.occupancy(i) <= 1);
                }
            }
        }
        result
    }

    /// The same position but for `field`, which now holds `piece`.
    pub fn put_piece(&self, field: Field, piece: Piece) -> (result: Position)
        requires
            field < 50,
        ensures
            self.wf() ==> result.wf(),
            result.spec_side_to_move() == self.spec_side_to_move(),
            result.spec_piece_at(field) == normalized(piece),
            forall|f: Field|
                f < 50 && f != field ==> #[trigger] result.spec_piece_at(f) == self.spec_piece_at(
                    f,
                ),
    {
        proof {
            lemma_with_bit(self.empty, field as u64);
            lemma_with_bit(self.white_man, field as u64);
            lemma_with_bit(self.black_man, field as u64);
            lemma_with_bit(self.white_king, field as u64);
            lemma_without_bit(self.empty, field as u64);
            lemma_without_bit(self.white_man, field as u64);
            lemma_without_bit(self.black_man, field as u64);
            lemma_without_bit(self.white_king, field as u64);
        }
        let result = Position {
            empty: if piece == EMPTY {
                set(self.empty, field)
            } else {
                clear(self.empty, field)
            },
            white_man: if piece == WHITE_MAN {
                set(self.white_man, field)
            } else {
                clear(self.white_man, field)
            },
            black_man: if piece == BLACK_MAN {
                set(self.black_man, field)
            } else {
                clear(self.black_man, field)
            },
            white_king: if piece == WHITE_KING {
                set(self.white_king, field)
            } else {
                clear(self.white_king, field)
            },
        };
        proof {
            if self.wf() {
                assert forall|i: u64| i < 50 implies #[trigger] result.occupancy(i) <= 1 by {
                    assert(self.occupancy(i) <= 1);
                }
            }
        }
        result
    }

    /// Whether `after` is this position after `mv`.
    pub open spec fn goes_to(&self, mv: Move, after: Position) -> bool {
        &&& after.wf()
        &&& after.spec_side_to_move() == self.spec_side_to_move().opponent()
        &&& forall|f: Field|
            f < 50 ==> #[trigger] after.spec_piece_at(f) == spec_go_piece(self.pieces(), mv, f)
    }

    /// This position after `mv`.
    pub open spec fn spec_go(&self, mv: Move) -> Position {
        choose|after: Position| self.goes_to(mv, after)
    }

    /// There is one position after a move.
    pub proof fn lemma_go_unique(&self, mv: Move, after: Position)
        requires
            self.goes_to(mv, after),
        ensures
            after == self.spec_go(mv),
    {
        let chosen = self.spec_go(mv);
        assert(self.goes_to(mv, chosen));
        assert forall|f: Field| f < 50 implies after.spec_piece_at(f) == chosen.spec_piece_at(f) by {
            assert(after.spec_piece_at(f) == spec_go_piece(self.pieces(), mv, f));
            assert(chosen.spec_piece_at(f) == spec_go_piece(self.pieces(), mv, f));
        }
        Self::lemma_eq(after, chosen);
    }

    /// The position after `mv`: the piece leaves its field, the captured
    /// fields are emptied, the piece lands (crowned, if a man reaches the far
    /// rank) and the turn passes. A move whose origin or landing field is no
    /// field of the board moves no piece.
    pub fn go(&self, mv: &Move) -> (result: Position)
        requires
            mv.wf(),
        ensures
            self.wf() ==> result.wf(),
            self.wf() ==> result == self.spec_go(*mv),
            result.spec_side_to_move() == self.spec_side_to_move().opponent(),
            result.spec_side_to_move() != self.spec_side_to_move(),
            forall|f: Field|
                f < 50 ==> #[trigger] result.spec_piece_at(f) == spec_go_piece(
                    self.pieces(),
                    *mv,
                    f,
                ),
    {
        let from = mv.from();
        let to = mv.to();
        let moves = from < 50 && to < 50;
        let mut result = self.toggle_side();
        if moves {
            result = result.put_piece(from, EMPTY);
        }
        let taken = mv.taken();
        let mut i: usize = 0;
        while i < taken.len()
            invariant
                i <= taken@.len(),
                taken@ == mv.captured(),
                moves == (mv.spec_from() < 50 && mv.spec_to() < 50),
                from == mv.spec_from(),
                self.wf() ==> result.wf(),
                result.spec_side_to_move() == self.spec_side_to_move().opponent(),
                forall|f: Field|
                    f < 50 ==> #[trigger] result.spec_piece_at(f) == (if (moves && f == from)
                        || taken@.subrange(0, i as int).contains(f) {
                        EMPTY
                    } else {
                        self.spec_piece_at(f)
                    }),
            decreases taken@.len() - i,
        {
            let t = taken[i];
            let ghost before = result;
            if t < 50 {
                result = result.put_piece(t, EMPTY);
            }
            proof {
                let s0 = taken@.subrange(0, i as int);
                let s1 = taken@.subrange(0, i + 1);
                assert(s1 =~= s0.push(t));
                assert forall|f: Field| f < 50 implies #[trigger] result.spec_piece_at(f) == (if (
                moves && f == from) || s1.contains(f) {
                    EMPTY
                } else {
                    self.spec_piece_at(f)
                }) by {
                    assert(s1.contains(f) <==> (s0.contains(f) || f == t)) by {
                        if s0.contains(f) {
                            let k = choose|k: int| 0 <= k < s0.len() && s0[k] == f;
                            assert(s1[k] == f);
                        }
                        if f == t {
                            assert(s1[i as int] == f);
                        }
                        if s1.contains(f) {
                            let k = choose|k: int| 0 <= k < s1.len() && s1[k] == f;
                            if k < i {
                                assert(s0[k] == f);
                            }
                        }
                    }
                    assert(before.spec_piece_at(f) == (if (moves && f == from) || s0.contains(f) {
                        EMPTY
                    } else {
                        self.spec_piece_at(f)
                    }));
                }
            }
            i += 1;
        }
        assert(taken@.subrange(0, i as int) =~= taken@);
        if moves {
            let piece = self.piece_at(from);
            result = result.put_piece(to, promote(to, piece));
            proof {
                self.lemma_piece_range(from);
            }
        }
        proof {
            if self.wf() {
                assert forall|f: Field| f < 50 implies #[trigger] result.spec_piece_at(f)
                    == spec_go_piece(self.pieces(), *mv, f) by {}
                self.lemma_go_unique(*mv, result);
            }
        }
        result
    }

    /// The piece on each field of the starting position.
    pub open spec fn spec_initial_piece(f: Field) -> Piece {
        if f < 20 {
            BLACK_MAN
        } else if f < 30 {
            EMPTY
        } else {
            WHITE_MAN
        }
    }

    /// The starting position: black men on the first twenty fields, white
    /// men on the last twenty, white to move.
    pub fn initial() -> (result: Position)
        ensures
            result.wf(),
            result.spec_side_to_move() == Color::White,
            forall|f: Field|
                f < 50 ==> #[trigger] result.spec_piece_at(f) == Self::spec_initial_piece(f),
    {
        let mut result = Position::create();
        let mut field: usize = 0;
        while field < 20
            invariant
                field <= 20,
                result.wf(),
                result.spec_side_to_move() == Color::White,
                forall|f: Field|
                    f < 50 ==> #[trigger] result.spec_piece_at(f) == (if f < field {
                        BLACK_MAN
                    } else {
                        EMPTY
                    }),
            decreases 20 - field,
        {
            result = result.put_piece(field, BLACK_MAN);
            field += 1;
        }
        field = 30;
        while field < 50
            invariant
                30 <= field <= 50,
                result.wf(),
                result.spec_side_to_move() == Color::White,
                forall|f: Field|
                    f < 50 ==> #[trigger] result.spec_piece_at(f) == (if f < 20 {
                        BLACK_MAN
                    } else if 30 <= f < field {
                        WHITE_MAN
                    } else {
                        EMPTY
                    }),
            decreases 50 - field,
        {
            result = result.put_piece(field, WHITE_MAN);
            field += 1;
        }
        result
    }
}


/// The letter of `piece` in the flat notation.
pub open spec fn fen_char(piece: Piece) -> char {
    if piece == EMPTY {
        'e'
    } else if piece == WHITE_MAN {
        'w'
    } else if piece == WHITE_KING {
        'W'
    } else if piece == BLACK_MAN {
        'b'
    } else {
        'B'
    }
}

/// The letter of `piece` in a drawing of the board.
pub open spec fn ascii_piece_char(piece: Piece) -> char {
    if piece == EMPTY {
        '.'
    } else {
        fen_char(piece)
    }
}

/// What a character of the notation stands for: a piece and how many
/// fields in a row hold it. A separator stands for no field; a character
/// outside the notation stands for nothing.
pub open spec fn glyph(c: char) -> Option<(Piece, nat)> {
    if c == '|' || c == ' ' || c == '/' {
        Some((EMPTY, 0nat))
    } else if c == 'e' || c == '1' {
        Some((EMPTY, 1nat))
    } else if c == '2' {
        Some((EMPTY, 2nat))
    } else if c == '3' {
        Some((EMPTY, 3nat))
    } else if c == '4' {
        Some((EMPTY, 4nat))
    } else if c == '5' {
        Some((EMPTY, 5nat))
    } else if c == 'w' {
        Some((WHITE_MAN, 1nat))
    } else if c == 'h' {
        Some((WHITE_MAN, 2nat))
    } else if c == 'i' {
        Some((WHITE_MAN, 3nat))
    } else if c == 't' {
        Some((WHITE_MAN, 4nat))
    } else if c == 'r' {
        Some((WHITE_MAN, 5nat))
    } else if c == 'b' {
        Some((BLACK_MAN, 1nat))
    } else if c == 'l' {
        Some((BLACK_MAN, 2nat))
    } else if c == 'a' {
        Some((BLACK_MAN, 3nat))
    } else if c == 'c' {
        Some((BLACK_MAN, 4nat))
    } else if c == 'k' {
        Some((BLACK_MAN, 5nat))
    } else if c == 'W' {
        Some((WHITE_KING, 1nat))
    } else if c == 'H' {
        Some((WHITE_KING, 2nat))
    } else if c == 'I' {
        Some((WHITE_KING, 3nat))
    } else if c == 'T' {
        Some((WHITE_KING, 4nat))
    } else if c == 'E' {
        Some((WHITE_KING, 5nat))
    } else if c == 'B' {
        Some((BLACK_KING, 1nat))
    } else if c == 'L' {
        Some((BLACK_KING, 2nat))
    } else if c == 'A' {
        Some((BLACK_KING, 3nat))
    } else if c == 'C' {
        Some((BLACK_KING, 4nat))
    } else if c == 'K' {
        Some((BLACK_KING, 5nat))
    } else {
        None
    }
}

/// Why a text is no position.
pub enum FenError {
    /// The text is shorter than eleven bytes.
    InvalidLength,
    /// The first character names no side.
    InvalidSide,
    /// The text describes more than fifty fields.
    TooManyFields,
    /// The character at this index is outside the notation.
    InvalidPiece(usize),
    /// The text describes only this many fields.
    InsufficientFields(usize),
}

impl FenError {
    /// The message that reports the error.
    pub open spec fn spec_message(self) -> Seq<char> {
        match self {
            FenError::InvalidLength => "Invalid length"@,
            FenError::InvalidSide => "Invalid side to move"@,
            FenError::TooManyFields => "Too many fields"@,
            FenError::InvalidPiece(i) => "Invalid piece at "@ + decimal(i as nat),
            FenError::InsufficientFields(n) => "Insufficient number of fields: "@ + decimal(
                n as nat,
            ),
        }
    }

    /// The message that reports the error.
    pub fn message(&self) -> (result: String)
        ensures
            result@ == self.spec_message(),
    {
        match self {
            FenError::InvalidLength => String::from_str("Invalid length"),
            FenError::InvalidSide => String::from_str("Invalid side to move"),
            FenError::TooManyFields => String::from_str("Too many fields"),
            FenError::InvalidPiece(i) => {
                let mut text = String::from_str("Invalid piece at ");
                push_decimal(&mut text, *i);
                text
            },
            FenError::InsufficientFields(n) => {
                let mut text = String::from_str("Insufficient number of fields: ");
                push_decimal(&mut text, *n);
                text
            },
        }
    }
}

/// The fields that the characters of `text` from index `i` on describe,
/// behind the fields `board` that the characters before them describe.
pub open spec fn spec_parse_fields(text: Seq<char>, i: int, board: Seq<Piece>) -> Result<
    Seq<Piece>,
    FenError,
>
    decreases text.len() - i,
{
    if i < 0 || i >= text.len() {
        if board.len() == 50 {
            Ok(board)
        } else {
            Err(FenError::InsufficientFields(board.len() as usize))
        }
    } else {
        match glyph(text[i]) {
            None => Err(FenError::InvalidPiece(i as usize)),
            Some((piece, count)) => if board.len() + count > 50 {
                Err(FenError::TooManyFields)
            } else {
                spec_parse_fields(text, i + 1, board + Seq::new(count, |k: int| piece))
            },
        }
    }
}

/// The position that `text`, which takes `bytes` bytes, describes: the side
/// to move and the piece on each field.
pub open spec fn spec_parse(text: Seq<char>, bytes: int) -> Result<(Color, Seq<Piece>), FenError> {
    if bytes < 11 {
        Err(FenError::InvalidLength)
    } else if text.len() == 0 {
        Err(FenError::InsufficientFields(0))
    } else if text[0] != 'w' && text[0] != 'b' {
        Err(FenError::InvalidSide)
    } else {
        match spec_parse_fields(text, 1, Seq::empty()) {
            Ok(board) => Ok(
                (
                    if text[0] == 'w' {
                        Color::White
                    } else {
                        Color::Black
                    },
                    board,
                ),
            ),
            Err(e) => Err(e),
        }
    }
}

/// The run of `n` empty fields in the short notation.
pub open spec fn sfen_run(n: int) -> Seq<char> {
    if n <= 0 {
        Seq::empty()
    } else if n == 1 {
        seq!['e']
    } else {
        decimal(n as nat)
    }
}

/// The short notation of the first `i` fields of `board`: the text, and the
/// number of empty fields at its end that are not written yet. Empty fields
/// are counted within a row of five; a run ends with the row.
pub open spec fn sfen_upto(board: Seq<Piece>, i: int) -> (Seq<char>, int)
    decreases i,
{
    if i <= 0 {
        (Seq::empty(), 0)
    } else {
        let (text, run) = sfen_upto(board, i - 1);
        let piece = board[i - 1];
        let (text, run) = if piece == EMPTY {
            (text, run + 1)
        } else {
            (text + sfen_run(run) + seq![fen_char(piece)], 0)
        };
        if i % 5 == 0 {
            (text + sfen_run(run), 0)
        } else {
            (text, run)
        }
    }
}

/// The drawing of one of the hundred squares of the board, with what
/// follows it in the drawing.
pub open spec fn ascii_cell(board: Seq<Piece>, side: Color, square: int) -> Seq<char> {
    let c = if (square + square / 10) % 2 == 0 {
        ' '
    } else {
        ascii_piece_char(board[square / 2])
    };
    let mark = if (square == 9 && side == Color::Black) || (square == 99 && side == Color::White) {
        seq![' ', ' ', '*']
    } else {
        Seq::empty()
    };
    let end = if square % 10 == 9 {
        seq!['\r', '\n']
    } else {
        seq![' ']
    };
    seq![c, c] + mark + end
}

/// The drawing of the first `n` squares.
pub open spec fn ascii_upto(board: Seq<Piece>, side: Color, n: int) -> Seq<char>
    decreases n,
{
    if n <= 0 {
        Seq::empty()
    } else {
        ascii_upto(board, side, n - 1) + ascii_cell(board, side, n - 1)
    }
}

/// The characters of a flat notation describe the fields one by one.
pub proof fn lemma_parse_flat(text: Seq<char>, board: Seq<Piece>, i: int)
    requires
        board.len() == 50,
        text.len() == 51,
        1 <= i <= 51,
        forall|f: int| 0 <= f < 50 ==> board[f] <= BLACK_KING && text[f + 1] == fen_char(board[f]),
    ensures
        spec_parse_fields(text, i, board.subrange(0, i - 1)) == Ok::<Seq<Piece>, FenError>(board),
    decreases 51 - i,
{
    if i < 51 {
        let piece = board[i - 1];
        assert(glyph(text[i]) == Some((piece, 1nat)));
        assert(board.subrange(0, i - 1) + Seq::new(1nat, |k: int| piece) =~= board.subrange(0, i));
        lemma_parse_flat(text, board, i + 1);
    } else {
        assert(board.subrange(0, 50) =~= board);
    }
}

impl Position {
    /// The letter of the side to move.
    pub open spec fn spec_side_char(&self) -> char {
        match self.spec_side_to_move() {
            Color::White => 'w',
            Color::Black => 'b',
        }
    }

    /// The flat notation: the letter of the side to move, then the letter
    /// of each field.
    pub open spec fn spec_fen(&self) -> Seq<char> {
        seq![self.spec_side_char()] + Seq::new(50, |f: int| fen_char(self.board()[f]))
    }

    /// The flat notation with the side to move as a capital.
    pub open spec fn spec_hfen(&self) -> Seq<char> {
        seq![
            match self.spec_side_to_move() {
                Color::White => 'W',
                Color::Black => 'B',
            },
        ] + Seq::new(50, |f: int| fen_char(self.board()[f]))
    }

    /// The short notation: the letter of the side to move, then the fields
    /// with runs of empty fields counted.
    pub open spec fn spec_sfen(&self) -> Seq<char> {
        seq![self.spec_side_char()] + sfen_upto(self.board(), 50).0
    }

    /// The drawing of the board, ten rows of ten squares, with a star
    /// behind the row of the side to move.
    pub open spec fn spec_ascii(&self) -> Seq<char> {
        ascii_upto(self.board(), self.spec_side_to_move(), 100)
    }

    /// Whether `result` is what `text`, which takes `bytes` bytes, parses
    /// to: the position that it describes, or the message of the error.
    pub open spec fn parses_to(text: Seq<char>, bytes: int, result: Result<Position, String>) -> bool {
        match spec_parse(text, bytes) {
            Ok((side, board)) => result is Ok && result->Ok_0.wf()
                && result->Ok_0.spec_side_to_move() == side && result->Ok_0.board() == board,
            Err(e) => result is Err && result->Err_0@ == e.spec_message(),
        }
    }

    /// The flat notation of a position parses to that position: whatever
    /// parsing a text that holds the flat notation of `p` returns, it is
    /// `p`.
    pub proof fn lemma_fen_round_trip(p: Position, fen: &str, result: Result<Position, String>)
        requires
            p.wf(),
            fen@ == p.spec_fen(),
            Self::parses_to(fen@, fen.len() as int, result),
        ensures
            result == Ok::<Position, String>(p),
    {
        let text = p.spec_fen();
        let board = p.board();
        assert forall|f: int| 0 <= f < 50 implies board[f] <= BLACK_KING && text[f + 1] == fen_char(
            board[f],
        ) by {
            p.lemma_piece_range(f as Field);
        }
        assert(vstd::utf8::is_ascii_chars(text)) by {
            assert forall|i: int| 0 <= i < text.len() implies '\0' <= #[trigger] text[i]
                <= '\u{7f}' by {
                if i > 0 {
                    assert(text[i] == fen_char(board[i - 1]));
                }
            }
        }
        vstd::utf8::is_ascii_chars_encode_utf8(text);
        assert(fen.len() == 51);
        lemma_parse_flat(text, board, 1);
        assert(board.subrange(0, 0) =~= Seq::<Piece>::empty());
        let q = result->Ok_0;
        assert forall|f: Field| f < 50 implies q.spec_piece_at(f) == p.spec_piece_at(f) by {
            assert(q.board()[f as int] == p.board()[f as int]);
        }
        Self::lemma_eq(q, p);
    }

    fn fen_letter(piece: Piece) -> (result: char)
        ensures
            result == fen_char(piece),
    {
        if piece == EMPTY {
            'e'
        } else if piece == WHITE_MAN {
            'w'
        } else if piece == WHITE_KING {
            'W'
        } else if piece == BLACK_MAN {
            'b'
        } else {
            'B'
        }
    }

    /// Appends the letter of each field to `fen`.
    fn push_fields(&self, fen: &mut String)
        ensures
            final(fen)@ == old(fen)@ + Seq::new(50, |f: int| fen_char(self.board()[f])),
    {
        let mut i: usize = 0;
        while i < 50
            invariant
                i <= 50,
                fen@ == old(fen)@ + Seq::new(i as nat, |f: int| fen_char(self.board()[f])),
            decreases 50 - i,
        {
            fen.push(Self::fen_letter(self.piece_at(i)));
            i += 1;
            assert(fen@ =~= old(fen)@ + Seq::new(i as nat, |f: int| fen_char(self.board()[f])));
        }
    }

    /// The flat notation of the position.
    pub fn fen(&self) -> (result: String)
        ensures
            result@ == self.spec_fen(),
    {
        let mut fen = String::new();
        fen.push(
            match self.side_to_move() {
                Color::White => 'w',
                Color::Black => 'b',
            },
        );
        self.push_fields(&mut fen);
        assert(fen@ =~= self.spec_fen());
        fen
    }

    /// The flat notation with the side to move as a capital.
    pub fn hfen(&self) -> (result: String)
        ensures
            result@ == self.spec_hfen(),
    {
        let mut fen = String::new();
        fen.push(
            match self.side_to_move() {
                Color::White => 'W',
                Color::Black => 'B',
            },
        );
        self.push_fields(&mut fen);
        assert(fen@ =~= self.spec_hfen());
        fen
    }

    /// Writes a run of `num_empty` empty fields.
    fn flush(fen: &mut String, num_empty: usize)
        ensures
            final(fen)@ == old(fen)@ + sfen_run(num_empty as int),
    {
        if num_empty == 0 {
            assert(fen@ =~= old(fen)@ + sfen_run(num_empty as int));
        } else if num_empty == 1 {
            fen.push('e');
            assert(fen@ =~= old(fen)@ + sfen_run(num_empty as int));
        } else {
            push_decimal(fen, num_empty);
        }
    }

    /// The short notation of the position.
    pub fn sfen(&self) -> (result: String)
        ensures
            result@ == self.spec_sfen(),
    {
        let mut fen = String::new();
        fen.push(
            match self.side_to_move() {
                Color::White => 'w',
                Color::Black => 'b',
            },
        );
        let mut num_empty: usize = 0;
        let mut i: usize = 1;
        while i < 51
            invariant
                1 <= i <= 51,
                num_empty <= 5,
                num_empty == sfen_upto(self.board(), i - 1).1,
                fen@ == seq![self.spec_side_char()] + sfen_upto(self.board(), i - 1).0,
            decreases 51 - i,
        {
            let ghost before = sfen_upto(self.board(), i - 1);
            let piece = self.piece_at(i - 1);
            if piece == EMPTY {
                num_empty += 1;
            } else {
                Self::flush(&mut fen, num_empty);
                num_empty = 0;
                fen.push(Self::fen_letter(piece));
            }
            if i % 5 == 0 {
                Self::flush(&mut fen, num_empty);
                num_empty = 0;
            }
            proof {
                let after = sfen_upto(self.board(), i as int);
                assert(self.board()[i - 1] == piece);
                assert(fen@ =~= seq![self.spec_side_char()] + after.0);
                assert(num_empty == after.1);
                Self::lemma_sfen_run(self.board(), i as int);
            }
            i += 1;
        }
        fen
    }

    /// The run of empty fields that is not written yet is no longer than
    /// the part of the row that was read.
    proof fn lemma_sfen_run(board: Seq<Piece>, i: int)
        requires
            0 <= i,
        ensures
            0 <= sfen_upto(board, i).1 <= i % 5,
        decreases i,
    {
        if i > 0 {
            Self::lemma_sfen_run(board, i - 1);
        }
    }

    /// The letter drawn on one of the hundred squares of the board: a blank
    /// on the squares that are not played on.
    fn ascii_char(&self, field: usize) -> (result: char)
        requires
            field < 100,
        ensures
            result == (if (field + field / 10) % 2 == 0 {
                ' '
            } else {
                ascii_piece_char(self.board()[field as int / 2])
            }),
    {
        if (field + (field / 10)) % 2 == 0 {
            ' '
        } else {
            let piece = self.piece_at(field / 2);
            if piece == EMPTY {
                '.'
            } else {
                Self::fen_letter(piece)
            }
        }
    }

    /// A drawing of the board.
    pub fn ascii(&self) -> (result: String)
        ensures
            result@ == self.spec_ascii(),
    {
        let mut ascii = String::new();
        let side = self.side_to_move();
        let mut field: usize = 0;
        while field < 100
            invariant
                field <= 100,
                side == self.spec_side_to_move(),
                ascii@ == ascii_upto(self.board(), side, field as int),
            decreases 100 - field,
        {
            let ghost before = ascii@;
            let c = self.ascii_char(field);
            ascii.push(c);
            ascii.push(c);
            if (field == 9 && side == Color::Black) || (field == 99 && side == Color::White) {
                ascii.push(' ');
                ascii.push(' ');
                ascii.push('*');
            }
            if field % 10 == 9 {
                ascii.push('\r');
                ascii.push('\n');
            } else {
                ascii.push(' ');
            }
            proof {
                assert(ascii@ =~= before + ascii_cell(self.board(), side, field as int));
            }
            field += 1;
        }
        ascii
    }

    /// What a character of the notation stands for.
    fn read_glyph(c: char) -> (result: Option<(Piece, usize)>)
        ensures
            match glyph(c) {
                None => result is None,
                Some((piece, count)) => result == Some((piece, count as usize)) && count <= 5,
            },
    {
        match c {
            '|' | ' ' | '/' => Some((EMPTY, 0)),
            'e' | '1' => Some((EMPTY, 1)),
            '2' => Some((EMPTY, 2)),
            '3' => Some((EMPTY, 3)),
            '4' => Some((EMPTY, 4)),
            '5' => Some((EMPTY, 5)),
            'w' => Some((WHITE_MAN, 1)),
            'h' => Some((WHITE_MAN, 2)),
            'i' => Some((WHITE_MAN, 3)),
            't' => Some((WHITE_MAN, 4)),
            'r' => Some((WHITE_MAN, 5)),
            'b' => Some((BLACK_MAN, 1)),
            'l' => Some((BLACK_MAN, 2)),
            'a' => Some((BLACK_MAN, 3)),
            'c' => Some((BLACK_MAN, 4)),
            'k' => Some((BLACK_MAN, 5)),
            'W' => Some((WHITE_KING, 1)),
            'H' => Some((WHITE_KING, 2)),
            'I' => Some((WHITE_KING, 3)),
            'T' => Some((WHITE_KING, 4)),
            'E' => Some((WHITE_KING, 5)),
            'B' => Some((BLACK_KING, 1)),
            'L' => Some((BLACK_KING, 2)),
            'A' => Some((BLACK_KING, 3)),
            'C' => Some((BLACK_KING, 4)),
            'K' => Some((BLACK_KING, 5)),
            _ => None,
        }
    }

    /// Reads a position from its notation: the letter of the side to move,
    /// then the fifty fields in reading order, flat or with runs counted,
    /// with or without separators between the rows.
    pub fn parse(fen: &str) -> (result: Result<Position, String>)
        ensures
            Self::parses_to(fen@, fen.len() as int, result),
    {
        match Self::parse_text(fen) {
            Ok(position) => Ok(position),
            Err(e) => Err(e.message()),
        }
    }

    /// Reads a position from its notation, and tells what is wrong with a
    /// text that is none.
    pub fn parse_text(fen: &str) -> (result: Result<Position, FenError>)
        ensures
            match spec_parse(fen@, fen.len() as int) {
                Ok((side, board)) => result is Ok && result->Ok_0.wf()
                    && result->Ok_0.spec_side_to_move() == side && result->Ok_0.board() == board,
                Err(e) => result == Err::<Position, FenError>(e),
            },
    {
        if fen.len() < 11 {
            return Err(FenError::InvalidLength);
        }
        let mut position = Position::create();
        let len = fen.unicode_len();
        if len == 0 {
            return Err(FenError::InsufficientFields(0));
        }
        let c = fen.get_char(0);
        if c == 'b' {
            position = position.toggle_side();
        } else if c != 'w' {
            return Err(FenError::InvalidSide);
        }
        let ghost text = fen@;
        let ghost side = position.spec_side_to_move();
        let mut field: usize = 0;
        let mut i: usize = 1;
        while i < len
            invariant
                1 <= i,
                len == text.len(),
                text == fen@,
                fen.len() >= 11,
                text[0] == 'w' || text[0] == 'b',
                side == (if text[0] == 'w' {
                    Color::White
                } else {
                    Color::Black
                }),
                field <= 50,
                position.wf(),
                position.spec_side_to_move() == side,
                forall|f: Field| field <= f < 50 ==> #[trigger] position.spec_piece_at(f) == EMPTY,
                spec_parse_fields(text, 1, Seq::empty()) == spec_parse_fields(
                    text,
                    i as int,
                    position.board().subrange(0, field as int),
                ),
            decreases len - i,
        {
            let c = fen.get_char(i);
            match Self::read_glyph(c) {
                None => {
                    return Err(FenError::InvalidPiece(i));
                },
                Some((piece, count)) => {
                    if field + count > 50 {
                        return Err(FenError::TooManyFields);
                    }
                    let ghost start = position.board().subrange(0, field as int);
                    let ghost field0 = field;
                    let mut n: usize = 0;
                    while n < count
                        invariant
                            n <= count,
                            field == field0 + n,
                            field0 + count <= 50,
                            piece <= BLACK_KING,
                            position.wf(),
                            position.spec_side_to_move() == side,
                            forall|f: Field|
                                field <= f < 50 ==> #[trigger] position.spec_piece_at(f) == EMPTY,
                            position.board().subrange(0, field as int) == start + Seq::new(
                                n as nat,
                                |k: int| piece,
                            ),
                        decreases count - n,
                    {
                        let ghost before = position;
                        position = position.put_piece(field, piece);
                        field += 1;
                        n += 1;
                        proof {
                            assert(position.board().subrange(0, field as int) =~= before.board().subrange(
                                0,
                                field - 1,
                            ).push(piece));
                            assert(position.board().subrange(0, field as int) =~= start + Seq::new(
                                n as nat,
                                |k: int| piece,
                            ));
                        }
                    }
                },
            }
            i += 1;
        }
        if field != 50 {
            proof {
                assert(position.board().subrange(0, field as int).len() == field);
            }
            return Err(FenError::InsufficientFields(field));
        }
        proof {
            assert(position.board().subrange(0, 50) =~= position.board());
        }
        Ok(position)
    }
}

} // verus!
