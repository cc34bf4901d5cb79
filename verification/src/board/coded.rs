//! The position as two words, each of which holds five rows of the board
//! as numbers in base five.

use super::piece::{Color, Piece, BLACK_KING, BLACK_MAN, EMPTY, WHITE_MAN};
use super::position::{Field, Position};
use vstd::prelude::*;

verus! {

/// The bit that tells the side to move.
pub const SIDE_BIT: u64 = 0x8000_0000_0000_0000;

/// The number of fields in a row.
pub const ROW_FIELDS: usize = 5;

/// `5^col`.
pub open spec fn col_pow(col: int) -> int {
    if col <= 0 {
        1
    } else if col == 1 {
        5
    } else if col == 2 {
        25
    } else if col == 3 {
        125
    } else if col == 4 {
        625
    } else {
        3125
    }
}

/// The number of row `row` of the word `bits`.
pub open spec fn spec_row_of(bits: u64, row: u64) -> u64 {
    (bits >> (12 * row)) & 0xfff
}

/// The word `bits` with `value` as the number of row `row`.
pub open spec fn spec_with_row(bits: u64, row: u64, value: u64) -> u64 {
    (bits & !(0xfffu64 << (12 * row))) | (value << (12 * row))
}

/// The digit of column `col` of the number `row`.
pub open spec fn spec_digit(row: int, col: int) -> int {
    row / col_pow(col) % 5
}

/// The number `row` with `digit` as the digit of column `col`.
pub open spec fn spec_with_digit(row: int, col: int, digit: int) -> int {
    row % col_pow(col) + digit * col_pow(col) + row / col_pow(col + 1) * col_pow(col + 1)
}

/// The piece on field `field` of the half board that `bits` holds.
pub open spec fn spec_piece_in(bits: u64, field: int) -> int {
    spec_digit(spec_row_of(bits, (field / 5) as u64) as int, field % 5)
}

/// Writing the number of a row changes that row and nothing else.
pub proof fn lemma_with_row(bits: u64, row: u64, value: u64, other: u64)
    by (bit_vector)
    requires
        row < 5,
        other < 5,
        value < 4096,
    ensures
        spec_row_of(spec_with_row(bits, row, value), other) == (if other == row {
            value
        } else {
            spec_row_of(bits, other)
        }),
        spec_with_row(bits, row, value) & 0x8000_0000_0000_0000 == bits & 0x8000_0000_0000_0000,
        spec_row_of(bits, other) < 4096,
{
}

/// Flipping the side bit leaves the rows.
pub proof fn lemma_side(bits: u64, other: u64)
    by (bit_vector)
    requires
        other < 5,
    ensures
        spec_row_of(bits ^ 0x8000_0000_0000_0000, other) == spec_row_of(bits, other),
        ((bits ^ 0x8000_0000_0000_0000) & 0x8000_0000_0000_0000 != 0) == (bits
            & 0x8000_0000_0000_0000 == 0),
        spec_row_of(0x8000_0000_0000_0000, other) == 0,
        spec_row_of(0, other) == 0,
        0x8000_0000_0000_0000u64 & 0x8000_0000_0000_0000 != 0,
{
}

/// A number of five digits in base five is the sum of its digits, each
/// with its power.
pub proof fn lemma_split(row: int)
    requires
        0 <= row < 3125,
    ensures
        row == row % 5 + 5 * (row / 5 % 5) + 25 * (row / 25 % 5) + 125 * (row / 125 % 5) + 625 * (
        row / 625 % 5),
        row / 625 % 5 == row / 625,
{
}

/// The digits of a sum of digits, each with its power, are those digits.
pub proof fn lemma_join(d0: int, d1: int, d2: int, d3: int, d4: int)
    requires
        0 <= d0 < 5,
        0 <= d1 < 5,
        0 <= d2 < 5,
        0 <= d3 < 5,
        0 <= d4 < 5,
    ensures
        0 <= d0 + 5 * d1 + 25 * d2 + 125 * d3 + 625 * d4 < 3125,
        (d0 + 5 * d1 + 25 * d2 + 125 * d3 + 625 * d4) % 5 == d0,
        (d0 + 5 * d1 + 25 * d2 + 125 * d3 + 625 * d4) / 5 % 5 == d1,
        (d0 + 5 * d1 + 25 * d2 + 125 * d3 + 625 * d4) / 25 % 5 == d2,
        (d0 + 5 * d1 + 25 * d2 + 125 * d3 + 625 * d4) / 125 % 5 == d3,
        (d0 + 5 * d1 + 25 * d2 + 125 * d3 + 625 * d4) / 625 % 5 == d4,
{
    let n = d0 + 5 * d1 + 25 * d2 + 125 * d3 + 625 * d4;
    assert(n / 5 == d1 + 5 * d2 + 25 * d3 + 125 * d4);
    assert(n / 25 == d2 + 5 * d3 + 25 * d4);
    assert(n / 125 == d3 + 5 * d4);
    assert(n / 625 == d4);
}

/// The parts of a number below and above one of its digits.
pub proof fn lemma_parts(row: int, col: int)
    requires
        0 <= row < 3125,
        0 <= col < 5,
    ensures
        spec_with_digit(row, col, spec_digit(row, col)) == row,
        col == 0 ==> row % col_pow(col) == 0 && row / col_pow(col + 1) * col_pow(col + 1) == 5 * (
        row / 5 % 5) + 25 * (row / 25 % 5) + 125 * (row / 125 % 5) + 625 * (row / 625 % 5),
        col == 1 ==> row % col_pow(col) == row % 5 && row / col_pow(col + 1) * col_pow(col + 1)
            == 25 * (row / 25 % 5) + 125 * (row / 125 % 5) + 625 * (row / 625 % 5),
        col == 2 ==> row % col_pow(col) == row % 5 + 5 * (row / 5 % 5) && row / col_pow(col + 1)
            * col_pow(col + 1) == 125 * (row / 125 % 5) + 625 * (row / 625 % 5),
        col == 3 ==> row % col_pow(col) == row % 5 + 5 * (row / 5 % 5) + 25 * (row / 25 % 5)
            && row / col_pow(col + 1) * col_pow(col + 1) == 625 * (row / 625 % 5),
        col == 4 ==> row % col_pow(col) == row % 5 + 5 * (row / 5 % 5) + 25 * (row / 25 % 5) + 125
            * (row / 125 % 5) && row / col_pow(col + 1) * col_pow(col + 1) == 0,
{
    lemma_split(row);
    if col == 0 {
        assert(row / 5 * 5 == row - row % 5);
    } else if col == 1 {
        assert(row / 25 * 25 == row - row % 25);
        assert(row % 25 == row % 5 + 5 * (row / 5 % 5));
    } else if col == 2 {
        assert(row / 125 * 125 == row - row % 125);
        assert(row % 125 == row % 5 + 5 * (row / 5 % 5) + 25 * (row / 25 % 5));
    } else if col == 3 {
        assert(row / 625 * 625 == row - row % 625);
        assert(row % 625 == row % 5 + 5 * (row / 5 % 5) + 25 * (row / 25 % 5) + 125 * (row / 125
            % 5));
    } else {
        assert(row / 3125 == 0);
        assert(row % 625 == row % 5 + 5 * (row / 5 % 5) + 25 * (row / 25 % 5) + 125 * (row / 125
            % 5));
    }
}

/// Writing a digit changes that digit and nothing else, and keeps the
/// number a number of five digits.
pub proof fn lemma_with_digit(row: int, col: int, digit: int, other: int)
    requires
        0 <= row < 3125,
        0 <= col < 5,
        0 <= other < 5,
        0 <= digit < 5,
    ensures
        0 <= spec_with_digit(row, col, digit) < 3125,
        spec_digit(spec_with_digit(row, col, digit), other) == (if other == col {
            digit
        } else {
            spec_digit(row, other)
        }),
{
    let d0 = row % 5;
    let d1 = row / 5 % 5;
    let d2 = row / 25 % 5;
    let d3 = row / 125 % 5;
    let d4 = row / 625 % 5;
    lemma_parts(row, col);
    let n = spec_with_digit(row, col, digit);
    if col == 0 {
        assert(n == digit + 5 * d1 + 25 * d2 + 125 * d3 + 625 * d4);
        lemma_join(digit, d1, d2, d3, d4);
    } else if col == 1 {
        assert(n == d0 + 5 * digit + 25 * d2 + 125 * d3 + 625 * d4);
        lemma_join(d0, digit, d2, d3, d4);
    } else if col == 2 {
        assert(n == d0 + 5 * d1 + 25 * digit + 125 * d3 + 625 * d4);
        lemma_join(d0, d1, digit, d3, d4);
    } else if col == 3 {
        assert(n == d0 + 5 * d1 + 25 * d2 + 125 * digit + 625 * d4);
        lemma_join(d0, d1, d2, digit, d4);
    } else {
        assert(n == d0 + 5 * d1 + 25 * d2 + 125 * d3 + 625 * digit);
        lemma_join(d0, d1, d2, d3, digit);
    }
}

/// The piece on field `field` of the half board that `bits` holds.
pub fn piece_at(bits: u64, field: Field) -> (result: Piece)
    requires
        field < 25,
    ensures
        result == spec_piece_in(bits, field as int),
{
    let shift: u64 = 12 * ((field / ROW_FIELDS) as u64);
    let row = (bits >> shift) & 0xfff;
    proof {
        lemma_with_row(bits, 0, 0, (field / 5) as u64);
    }
    let pow: u64 = match field % ROW_FIELDS {
        0 => 1,
        1 => 5,
        2 => 25,
        3 => 125,
        _ => 625,
    };
    (row / pow % 5) as Piece
}

/// The half board `bits` with `piece` on field `field`.
pub fn put_piece(bits: u64, field: Field, piece: Piece) -> (result: u64)
    requires
        field < 25,
        piece <= BLACK_KING,
        forall|row: u64| row < 5 ==> #[trigger] spec_row_of(bits, row) < 3125,
    ensures
        forall|row: u64| row < 5 ==> #[trigger] spec_row_of(result, row) < 3125,
        forall|other: int|
            0 <= other < 25 ==> #[trigger] spec_piece_in(result, other) == (if other == field {
                piece as int
            } else {
                spec_piece_in(bits, other)
            }),
        result & SIDE_BIT == bits & SIDE_BIT,
{
    let row_index: u64 = (field / ROW_FIELDS) as u64;
    let shift: u64 = 12 * row_index;
    let cr = (bits >> shift) & 0xfff;
    let col = field % ROW_FIELDS;
    assert(cr == spec_row_of(bits, row_index));
    let digit = piece as u64;
    let nr: u64 = match col {
        0 => digit + cr / 5 * 5,
        1 => cr % 5 + digit * 5 + cr / 25 * 25,
        2 => cr % 25 + digit * 25 + cr / 125 * 125,
        3 => cr % 125 + digit * 125 + cr / 625 * 625,
        _ => cr % 625 + digit * 625 + cr / 3125 * 3125,
    };
    proof {
        lemma_with_digit(cr as int, col as int, piece as int, col as int);
        assert(nr == spec_with_digit(cr as int, col as int, piece as int));
    }
    let result = (bits & !(0xfffu64 << shift)) | (nr << shift);
    proof {
        assert(result == spec_with_row(bits, row_index, nr));
        assert forall|row: u64| row < 5 implies #[trigger] spec_row_of(result, row) < 3125 by {
            lemma_with_row(bits, row_index, nr, row);
        }
        assert forall|other: int| 0 <= other < 25 implies #[trigger] spec_piece_in(result, other)
            == (if other == field {
            piece as int
        } else {
            spec_piece_in(bits, other)
        }) by {
            lemma_with_row(bits, row_index, nr, (other / 5) as u64);
            if other / 5 == field / 5 {
                lemma_with_digit(cr as int, col as int, piece as int, other % 5);
            }
        }
        lemma_with_row(bits, row_index, nr, 0);
    }
    result
}

/// A position in two words: the upper half of the board in one, the lower
/// half and the side to move in the other.
#[derive(Clone, Copy, Debug, PartialEq, Eq, Structural, Hash)]
pub struct CodedPosition {
    upper: u64,
    lower: u64,
}

impl CodedPosition {
    /// The invariant of the representation: every row is a number of five
    /// digits.
    pub closed spec fn wf(&self) -> bool {
        &&& forall|row: u64| row < 5 ==> #[trigger] spec_row_of(self.upper, row) < 3125
        &&& forall|row: u64| row < 5 ==> #[trigger] spec_row_of(self.lower, row) < 3125
    }

    /// The side that is to move.
    pub closed spec fn spec_side_to_move(&self) -> Color {
        if self.lower & SIDE_BIT != 0 {
            Color::White
        } else {
            Color::Black
        }
    }

    /// The piece on `field`.
    pub closed spec fn spec_piece_at(&self, field: Field) -> int {
        if field < 25 {
            spec_piece_in(self.upper, field as int)
        } else {
            spec_piece_in(self.lower, field - 25)
        }
    }

    /// The side that is to move.
    pub fn side_to_move(&self) -> (result: Color)
        ensures
            result == self.spec_side_to_move(),
    {
        if self.lower & SIDE_BIT != 0 {
            Color::White
        } else {
            Color::Black
        }
    }

    /// The piece on `field`.
    pub fn piece_at(&self, field: Field) -> (result: Piece)
        requires
            field < 50,
        ensures
            result == self.spec_piece_at(field),
    {
        if field < 25 {
            piece_at(self.upper, field)
        } else {
            piece_at(self.lower, field - 25)
        }
    }

    /// The empty board with white to move.
    pub fn create() -> (result: CodedPosition)
        ensures
            result.wf(),
            result.spec_side_to_move() == Color::White,
            forall|f: Field| f < 50 ==> #[trigger] result.spec_piece_at(f) == EMPTY,
    {
        proof {
            assert forall|row: u64| row < 5 implies #[trigger] spec_row_of(0, row) == 0 by {
                lemma_side(0, row);
            }
            assert forall|row: u64| row < 5 implies #[trigger] spec_row_of(SIDE_BIT, row) == 0 by {
                lemma_side(0, row);
            }
            lemma_side(0, 0);
        }
        CodedPosition { upper: 0, lower: SIDE_BIT }
    }

    /// The same board with the other side to move.
    pub fn toggle_side(&self) -> (result: CodedPosition)
        ensures
            self.wf() ==> result.wf(),
            result.spec_side_to_move() == self.spec_side_to_move().opponent(),
            forall|f: Field| f < 50 ==> #[trigger] result.spec_piece_at(f) == self.spec_piece_at(f),
    {
        proof {
            assert forall|row: u64| row < 5 implies #[trigger] spec_row_of(
                self.lower ^ SIDE_BIT,
                row,
            ) == spec_row_of(self.lower, row) by {
                lemma_side(self.lower, row);
            }
            lemma_side(self.lower, 0);
        }
        CodedPosition { upper: self.upper, lower: self.lower ^ SIDE_BIT }
    }

    /// The same position but for `field`, which now holds `piece`.
    pub fn put_piece(&self, field: Field, piece: Piece) -> (result: CodedPosition)
        requires
            self.wf(),
            field < 50,
            piece <= BLACK_KING,
        ensures
            result.wf(),
            result.spec_side_to_move() == self.spec_side_to_move(),
            result.spec_piece_at(field) == piece,
            forall|f: Field|
                f < 50 && f != field ==> #[trigger] result.spec_piece_at(f) == self.spec_piece_at(
                    f,
                ),
    {
        if field < 25 {
            let result = CodedPosition {
                upper: put_piece(self.upper, field, piece),
                lower: self.lower,
            };
            proof {
                assert forall|f: Field| f < 50 && f != field implies #[trigger] result.spec_piece_at(
                    f,
                ) == self.spec_piece_at(f) by {
                    if f < 25 {
                        assert(spec_piece_in(result.upper, f as int) == spec_piece_in(
                            self.upper,
                            f as int,
                        ));
                    }
                }
                assert(spec_piece_in(result.upper, field as int) == piece);
            }
            result
        } else {
            let result = CodedPosition {
                upper: self.upper,
                lower: put_piece(self.lower, field - 25, piece),
            };
            proof {
                assert forall|f: Field| f < 50 && f != field implies #[trigger] result.spec_piece_at(
                    f,
                ) == self.spec_piece_at(f) by {
                    if f >= 25 {
                        assert(spec_piece_in(result.lower, f - 25) == spec_piece_in(
                            self.lower,
                            f - 25,
                        ));
                    }
                }
                assert(spec_piece_in(result.lower, field - 25) == piece);
            }
            result
        }
    }

    /// The starting position.
    pub fn initial() -> (result: CodedPosition)
        ensures
            result.wf(),
            result.spec_side_to_move() == Color::White,
            forall|f: Field|
                f < 50 ==> #[trigger] result.spec_piece_at(f) == Position::spec_initial_piece(f),
    {
        let mut result = CodedPosition::create();
        let mut field: usize = 0;
        while field < 50
            invariant
                field <= 50,
                result.wf(),
                result.spec_side_to_move() == Color::White,
                forall|f: Field|
                    f < 50 ==> #[trigger] result.spec_piece_at(f) == (if f < field {
                        Position::spec_initial_piece(f) as int
                    } else {
                        EMPTY as int
                    }),
            decreases 50 - field,
        {
            if field < 20 {
                result = result.put_piece(field, BLACK_MAN);
            } else if field >= 30 {
                result = result.put_piece(field, WHITE_MAN);
            }
            field += 1;
        }
        result
    }
}

} // verus!
