//! Positions packed in sixteen bytes, in the layout of a 128-bit decimal
//! floating-point number: the sign holds the side to move, and each row of
//! the board is a number written in its own group of bits.

use super::piece::{Color, Piece, BLACK_KING, BLACK_MAN, EMPTY, WHITE_KING, WHITE_MAN};
use super::position::{Field, Position};
use vstd::prelude::*;

verus! {

/// The sixteen bytes of a packed position.
pub type DecimalData = [u8; 16];

/// The base in which row `i` is written: a man cannot stand on the far
/// row of its side, so the first and the last row need four digits only.
pub open spec fn spec_base(i: int) -> int {
    if i == 0 || i == 9 {
        4
    } else {
        5
    }
}

/// The digit for `piece` in row `i`. On the first row a white man, and on
/// the last row a black man, has no digit of its own and is written as an
/// empty field.
pub open spec fn spec_place(i: int, piece: Piece) -> int {
    if i == 0 {
        if piece == WHITE_KING {
            1
        } else if piece == BLACK_MAN {
            2
        } else if piece == BLACK_KING {
            3
        } else {
            0
        }
    } else if i == 9 {
        if piece == WHITE_MAN {
            1
        } else if piece == WHITE_KING {
            2
        } else if piece == BLACK_KING {
            3
        } else {
            0
        }
    } else {
        if piece <= BLACK_KING {
            piece as int
        } else {
            0
        }
    }
}

/// The piece that the digit `digit` stands for in row `i`.
pub open spec fn spec_piece_of(i: int, digit: int) -> Piece {
    if i == 0 {
        if digit == 1 {
            WHITE_KING
        } else if digit == 2 {
            BLACK_MAN
        } else if digit == 3 {
            BLACK_KING
        } else {
            EMPTY
        }
    } else if i == 9 {
        if digit == 1 {
            WHITE_MAN
        } else if digit == 2 {
            WHITE_KING
        } else if digit == 3 {
            BLACK_KING
        } else {
            EMPTY
        }
    } else {
        if 0 <= digit <= 4 {
            digit as Piece
        } else {
            EMPTY
        }
    }
}

/// The number that the first `n` fields of row `i` of `p` make, read as
/// digits from the left.
pub open spec fn spec_row_upto(p: Position, i: int, n: int) -> int
    decreases n,
{
    if n <= 0 {
        0
    } else {
        spec_base(i) * spec_row_upto(p, i, n - 1) + spec_place(
            i,
            p.spec_piece_at((5 * i + n - 1) as Field),
        )
    }
}

/// The number that row `i` of `p` makes.
pub open spec fn spec_row(p: Position, i: int) -> u16 {
    spec_row_upto(p, i, 5) as u16
}

/// The digit of field `j` of a row that makes the number `row`.
pub open spec fn spec_digit(i: int, row: int, j: int) -> int
    decreases 4 - j,
{
    if j >= 4 {
        row % spec_base(i)
    } else {
        spec_digit(i, row / spec_base(i), j + 1)
    }
}

/// The sixteen bytes that hold the sign `sign` and the numbers `r` of the
/// ten rows.
pub open spec fn spec_pack(sign: u8, r: Seq<u16>) -> Seq<u8> {
    seq![
        sign | ((r[0] >> 4) as u8),
        (r[0] << 4) as u8,
        0x40u8 | ((r[1] >> 8) as u8),
        r[1] as u8,
        (r[2] >> 4) as u8,
        ((r[2] << 4) as u8) | ((r[3] >> 8) as u8),
        r[3] as u8,
        (r[4] >> 4) as u8,
        ((r[4] << 4) as u8) | ((r[5] >> 8) as u8),
        r[5] as u8,
        (r[6] >> 4) as u8,
        ((r[6] << 4) as u8) | ((r[7] >> 8) as u8),
        r[7] as u8,
        (r[8] >> 4) as u8,
        ((r[8] << 4) as u8) | ((r[9] >> 6) as u8),
        0x01u8 | ((r[9] << 2) as u8),
    ]
}

/// The number of row `i` that the bytes `d` hold.
pub open spec fn spec_unpack(d: Seq<u8>, i: int) -> u16 {
    if i == 0 {
        (((d[0] & 0x3f) as u16) << 4) | ((d[1] >> 4) as u16)
    } else if i == 9 {
        (((d[14] & 0x0f) as u16) << 6) | ((d[15] >> 2) as u16)
    } else if i % 2 == 1 {
        (((d[(3 * i + 1) / 2] & 0x0f) as u16) << 8) | (d[(3 * i + 1) / 2 + 1] as u16)
    } else {
        ((d[3 * i / 2 + 1] as u16) << 4) | ((d[3 * i / 2 + 2] >> 4) as u16)
    }
}

/// The bytes that hold `p`.
pub open spec fn spec_decimal(p: Position) -> Seq<u8> {
    spec_pack(
        if p.spec_side_to_move() == Color::White {
            0u8
        } else {
            0x80u8
        },
        Seq::new(10, |i: int| spec_row(p, i)),
    )
}

/// The piece on field `f` of the position that the bytes `d` hold.
pub open spec fn spec_decoded(d: Seq<u8>, f: int) -> Piece {
    spec_piece_of(f / 5, spec_digit(f / 5, spec_unpack(d, f / 5) as int, f % 5))
}

/// Whether `p` can be packed without loss: no white man stands on the
/// first row and no black man on the last.
pub open spec fn settled(p: Position) -> bool {
    &&& forall|f: Field| f < 5 ==> #[trigger] p.spec_piece_at(f) != WHITE_MAN
    &&& forall|f: Field| 45 <= f < 50 ==> #[trigger] p.spec_piece_at(f) != BLACK_MAN
}

/// The number of a row fits the bits of its group.
pub proof fn lemma_row_bound(p: Position, i: int, n: int)
    requires
        0 <= i < 10,
        0 <= n <= 5,
    ensures
        0 <= spec_row_upto(p, i, n),
        i == 0 || i == 9 ==> spec_row_upto(p, i, n) < (if n == 0 {
            1int
        } else if n == 1 {
            4
        } else if n == 2 {
            16
        } else if n == 3 {
            64
        } else if n == 4 {
            256
        } else {
            1024
        }),
        0 < i < 9 ==> spec_row_upto(p, i, n) < (if n == 0 {
            1int
        } else if n == 1 {
            5
        } else if n == 2 {
            25
        } else if n == 3 {
            125
        } else if n == 4 {
            625
        } else {
            3125
        }),
    decreases n,
{
    if n > 0 {
        lemma_row_bound(p, i, n - 1);
    }
}

/// The digits of the number of a row are the digits of its fields.
pub proof fn lemma_digits(p: Position, i: int, j: int)
    requires
        0 <= i < 10,
        0 <= j < 5,
    ensures
        spec_digit(i, spec_row_upto(p, i, 5), j) == spec_place(
            i,
            p.spec_piece_at((5 * i + j) as Field),
        ),
{
    let b = spec_base(i);
    lemma_row_bound(p, i, 0);
    lemma_row_bound(p, i, 1);
    lemma_row_bound(p, i, 2);
    lemma_row_bound(p, i, 3);
    lemma_row_bound(p, i, 4);
    lemma_row_bound(p, i, 5);
    let r5 = spec_row_upto(p, i, 5);
    let r4 = spec_row_upto(p, i, 4);
    let r3 = spec_row_upto(p, i, 3);
    let r2 = spec_row_upto(p, i, 2);
    let r1 = spec_row_upto(p, i, 1);
    assert(r5 / b == r4 && r5 % b == spec_place(i, p.spec_piece_at((5 * i + 4) as Field)));
    assert(r4 / b == r3 && r4 % b == spec_place(i, p.spec_piece_at((5 * i + 3) as Field)));
    assert(r3 / b == r2 && r3 % b == spec_place(i, p.spec_piece_at((5 * i + 2) as Field)));
    assert(r2 / b == r1 && r2 % b == spec_place(i, p.spec_piece_at((5 * i + 1) as Field)));
    assert(r1 % b == spec_place(i, p.spec_piece_at((5 * i) as Field)));
    reveal_with_fuel(spec_digit, 6);
}

/// Unpacking gives back the numbers that were packed.
pub proof fn lemma_unpack(sign: u8, r: Seq<u16>)
    requires
        r.len() == 10,
        sign == 0 || sign == 0x80,
        r[0] < 1024,
        r[9] < 1024,
        forall|i: int| 0 < i < 9 ==> #[trigger] r[i] < 4096,
    ensures
        forall|i: int| 0 <= i < 10 ==> #[trigger] spec_unpack(spec_pack(sign, r), i) == r[i],
        spec_pack(sign, r)[0] >= 0x80 <==> sign == 0x80,
{
    let d = spec_pack(sign, r);
    lemma_first(sign, r[0]);
    lemma_last(r[8], r[9]);
    lemma_second(r[1]);
    lemma_even(r[2], r[3]);
    lemma_even(r[4], r[5]);
    lemma_even(r[6], r[7]);
    lemma_even(r[8], 0);
    lemma_odd(r[2], r[3]);
    lemma_odd(r[4], r[5]);
    lemma_odd(r[6], r[7]);
    assert(r[1] < 4096 && r[2] < 4096 && r[3] < 4096 && r[4] < 4096 && r[5] < 4096 && r[6] < 4096
        && r[7] < 4096 && r[8] < 4096);
    assert forall|i: int| 0 <= i < 10 implies #[trigger] spec_unpack(d, i) == r[i] by {
        if i == 8 {
            lemma_even_last(r[8], r[9]);
        }
    }
}

proof fn lemma_first(sign: u8, a: u16)
    by (bit_vector)
    requires
        sign == 0 || sign == 0x80,
        a < 1024,
    ensures
        ((((sign | ((a >> 4) as u8)) & 0x3f) as u16) << 4) | ((((a << 4) as u8) >> 4) as u16) == a,
        (sign | ((a >> 4) as u8)) >= 0x80 <==> sign == 0x80,
{
}

proof fn lemma_second(a: u16)
    by (bit_vector)
    requires
        a < 4096,
    ensures
        ((((0x40u8 | ((a >> 8) as u8)) & 0x0f) as u16) << 8) | ((a as u8) as u16) == a,
{
}

proof fn lemma_even(a: u16, b: u16)
    by (bit_vector)
    requires
        a < 4096,
        b < 4096,
    ensures
        ((((a >> 4) as u8) as u16) << 4) | (((((a << 4) as u8) | ((b >> 8) as u8)) >> 4) as u16)
            == a,
{
}

proof fn lemma_even_last(a: u16, b: u16)
    by (bit_vector)
    requires
        a < 4096,
        b < 1024,
    ensures
        ((((a >> 4) as u8) as u16) << 4) | (((((a << 4) as u8) | ((b >> 6) as u8)) >> 4) as u16)
            == a,
{
}

proof fn lemma_odd(a: u16, b: u16)
    by (bit_vector)
    requires
        a < 4096,
        b < 4096,
    ensures
        ((((((a << 4) as u8) | ((b >> 8) as u8)) & 0x0f) as u16) << 8) | ((b as u8) as u16) == b,
{
}

proof fn lemma_last(a: u16, b: u16)
    by (bit_vector)
    requires
        a < 4096,
        b < 1024,
    ensures
        ((((((a << 4) as u8) | ((b >> 6) as u8)) & 0x0f) as u16) << 6) | ((((0x01u8 | ((b << 2)
            as u8)) >> 2) as u16)) == b,
{
}

/// Packing a position and unpacking the bytes gives the position back:
/// whatever position `q` holds the fields that the bytes of `p` decode to,
/// with the side that their sign tells, it is `p`.
pub proof fn lemma_decimal_round_trip(p: Position, q: Position)
    requires
        p.wf(),
        settled(p),
        q.wf(),
        q.spec_side_to_move() == (if spec_decimal(p)[0] >= 0x80 {
            Color::Black
        } else {
            Color::White
        }),
        forall|f: Field| f < 50 ==> #[trigger] q.spec_piece_at(f) == spec_decoded(
            spec_decimal(p),
            f as int,
        ),
    ensures
        q == p,
{
    let sign = if p.spec_side_to_move() == Color::White {
        0u8
    } else {
        0x80u8
    };
    let r = Seq::new(10, |i: int| spec_row(p, i));
    assert forall|i: int| 0 <= i < 10 implies (#[trigger] r[i]) == spec_row_upto(p, i, 5) && (i
        == 0 || i == 9 ==> r[i] < 1024) && r[i] < 4096 by {
        lemma_row_bound(p, i, 5);
    }
    lemma_unpack(sign, r);
    assert forall|f: Field| f < 50 implies q.spec_piece_at(f) == p.spec_piece_at(f) by {
        let i = f as int / 5;
        let j = f as int % 5;
        assert(spec_unpack(spec_decimal(p), i) == r[i]);
        lemma_digits(p, i, j);
        p.lemma_piece_range(f);
        assert(5 * i + j == f);
    }
    Position::lemma_eq(q, p);
}

/// The digit for `piece` in row `i`.
fn place(i: usize, piece: Piece) -> (result: u16)
    requires
        i < 10,
    ensures
        result == spec_place(i as int, piece),
        result < spec_base(i as int),
{
    if i == 0 {
        if piece == WHITE_KING {
            1
        } else if piece == BLACK_MAN {
            2
        } else if piece == BLACK_KING {
            3
        } else {
            0
        }
    } else if i == 9 {
        if piece == WHITE_MAN {
            1
        } else if piece == WHITE_KING {
            2
        } else if piece == BLACK_KING {
            3
        } else {
            0
        }
    } else {
        if piece <= BLACK_KING {
            piece as u16
        } else {
            0
        }
    }
}

/// The piece that `digit` stands for in row `i`.
fn piece_of(i: usize, digit: usize) -> (result: Piece)
    requires
        i < 10,
        digit < 5,
    ensures
        result == spec_piece_of(i as int, digit as int),
{
    if i == 0 {
        if digit == 1 {
            WHITE_KING
        } else if digit == 2 {
            BLACK_MAN
        } else if digit == 3 {
            BLACK_KING
        } else {
            EMPTY
        }
    } else if i == 9 {
        if digit == 1 {
            WHITE_MAN
        } else if digit == 2 {
            WHITE_KING
        } else if digit == 3 {
            BLACK_KING
        } else {
            EMPTY
        }
    } else {
        digit as Piece
    }
}

/// The number that the row of `position` that begins on field `start`
/// makes.
pub fn to_decimal_row(position: &Position, start: Field) -> (result: u16)
    requires
        start < 50,
        start % 5 == 0,
    ensures
        result == spec_row(*position, start as int / 5),
        result < 4096,
        start == 0 || start == 45 ==> result < 1024,
{
    let i = start / 5;
    let base: u16 = if i == 0 || i == 9 {
        4
    } else {
        5
    };
    let mut row: u16 = 0;
    let mut n: usize = 0;
    while n < 5
        invariant
            n <= 5,
            i < 10,
            start == 5 * i,
            base == spec_base(i as int),
            row == spec_row_upto(*position, i as int, n as int),
            row < 3125,
        decreases 5 - n,
    {
        proof {
            lemma_row_bound(*position, i as int, n as int);
            lemma_row_bound(*position, i as int, n + 1);
        }
        row = base * row + place(i, position.piece_at(start + n));
        n += 1;
    }
    proof {
        lemma_row_bound(*position, i as int, 5);
    }
    row
}

/// The sixteen bytes that hold `position`.
pub fn to_decimal(position: &Position) -> (result: DecimalData)
    ensures
        result@ == spec_decimal(*position),
{
    let sign: u8 = if position.side_to_move() == Color::White {
        0
    } else {
        0x80
    };
    let r0 = to_decimal_row(position, 0);
    let r1 = to_decimal_row(position, 5);
    let r2 = to_decimal_row(position, 10);
    let r3 = to_decimal_row(position, 15);
    let r4 = to_decimal_row(position, 20);
    let r5 = to_decimal_row(position, 25);
    let r6 = to_decimal_row(position, 30);
    let r7 = to_decimal_row(position, 35);
    let r8 = to_decimal_row(position, 40);
    let r9 = to_decimal_row(position, 45);
    let result: DecimalData = [
        sign | (#[verifier::truncate] ((r0 >> 4) as u8)),
        #[verifier::truncate] ((r0 << 4) as u8),
        0x40u8 | (#[verifier::truncate] ((r1 >> 8) as u8)),
        #[verifier::truncate] (r1 as u8),
        #[verifier::truncate] ((r2 >> 4) as u8),
        (#[verifier::truncate] ((r2 << 4) as u8)) | (#[verifier::truncate] ((r3 >> 8) as u8)),
        #[verifier::truncate] (r3 as u8),
        #[verifier::truncate] ((r4 >> 4) as u8),
        (#[verifier::truncate] ((r4 << 4) as u8)) | (#[verifier::truncate] ((r5 >> 8) as u8)),
        #[verifier::truncate] (r5 as u8),
        #[verifier::truncate] ((r6 >> 4) as u8),
        (#[verifier::truncate] ((r6 << 4) as u8)) | (#[verifier::truncate] ((r7 >> 8) as u8)),
        #[verifier::truncate] (r7 as u8),
        #[verifier::truncate] ((r8 >> 4) as u8),
        (#[verifier::truncate] ((r8 << 4) as u8)) | (#[verifier::truncate] ((r9 >> 6) as u8)),
        0x01u8 | (#[verifier::truncate] ((r9 << 2) as u8)),
    ];
    proof {
        let r = Seq::new(10, |i: int| spec_row(*position, i));
        assert(r[0] == r0 && r[1] == r1 && r[2] == r2 && r[3] == r3 && r[4] == r4 && r[5] == r5
            && r[6] == r6 && r[7] == r7 && r[8] == r8 && r[9] == r9);
        assert(result@ =~= spec_decimal(*position));
    }
    result
}

/// The number of row `i` that the bytes `data` hold.
pub fn from_decimal_row(data: &DecimalData, i: usize) -> (result: usize)
    requires
        i < 10,
    ensures
        result == spec_unpack(data@, i as int),
{
    let row: u16 = if i == 0 {
        (((data[0] & 0x3f) as u16) << 4) | ((data[1] >> 4) as u16)
    } else if i == 9 {
        (((data[14] & 0x0f) as u16) << 6) | ((data[15] >> 2) as u16)
    } else if i % 2 == 1 {
        let k = (3 * i + 1) / 2;
        (((data[k] & 0x0f) as u16) << 8) | (data[k + 1] as u16)
    } else {
        let k = 3 * i / 2 + 1;
        ((data[k] as u16) << 4) | ((data[k + 1] >> 4) as u16)
    };
    row as usize
}

/// The position that the bytes `decimal` hold.
pub fn to_position(decimal: &DecimalData) -> (result: Position)
    ensures
        result.wf(),
        result.spec_side_to_move() == (if decimal@[0] >= 0x80 {
            Color::Black
        } else {
            Color::White
        }),
        forall|f: Field| f < 50 ==> #[trigger] result.spec_piece_at(f) == spec_decoded(
            decimal@,
            f as int,
        ),
{
    let mut position = Position::create();
    if decimal[0] >= 0x80 {
        position = position.toggle_side();
    }
    let ghost side = position.spec_side_to_move();
    let mut i: usize = 0;
    while i < 10
        invariant
            i <= 10,
            position.wf(),
            position.spec_side_to_move() == side,
            forall|f: Field| f < 5 * i ==> #[trigger] position.spec_piece_at(f) == spec_decoded(
                decimal@,
                f as int,
            ),
        decreases 10 - i,
    {
        let base: usize = if i == 0 || i == 9 {
            4
        } else {
            5
        };
        let mut row = from_decimal_row(decimal, i);
        let ghost whole = row as int;
        let mut j: usize = 5;
        while j > 0
            invariant
                j <= 5,
                i < 10,
                base == spec_base(i as int),
                whole == spec_unpack(decimal@, i as int),
                position.wf(),
                position.spec_side_to_move() == side,
                forall|m: int|
                    0 <= m < j ==> #[trigger] spec_digit(i as int, whole, m) == spec_digit(
                        i as int,
                        row as int,
                        m + 5 - j,
                    ),
                forall|f: Field|
                    f < 5 * i || (5 * i + j <= f < 5 * i + 5) ==> #[trigger] position.spec_piece_at(
                        f,
                    ) == spec_decoded(decimal@, f as int),
            decreases j,
        {
            let field = 5 * i + j - 1;
            proof {
                assert(spec_digit(i as int, whole, j - 1) == spec_digit(i as int, row as int, 4));
                assert(field as int / 5 == i && field as int % 5 == j - 1);
            }
            position = position.put_piece(field, piece_of(i, row % base));
            let ghost before = row as int;
            row = row / base;
            j -= 1;
            proof {
                assert forall|m: int| 0 <= m < j implies #[trigger] spec_digit(
                    i as int,
                    whole,
                    m,
                ) == spec_digit(i as int, row as int, m + 5 - j) by {
                    assert(spec_digit(i as int, whole, m) == spec_digit(
                        i as int,
                        before,
                        m + 4 - j,
                    ));
                }
            }
        }
        i += 1;
    }
    position
}

} // verus!
