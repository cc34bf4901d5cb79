//! The position as a plain array of pieces.

use super::piece::{Color, Piece, BLACK_MAN, EMPTY, WHITE_MAN};
use super::position::{Field, Position};
use vstd::prelude::*;
use vstd::std_specs::cmp::PartialEqSpecImpl;

verus! {

/// A position that holds the piece of each field in an array.
#[derive(Clone, Copy, Debug, Eq, Hash)]
pub struct ArrayPosition {
    white_to_move: bool,
    pieces: [Piece; 50],
}

impl PartialEq for ArrayPosition {
    fn eq(&self, other: &ArrayPosition) -> (result: bool) {
        if self.white_to_move != other.white_to_move {
            return false;
        }
        let mut i: usize = 0;
        while i < 50
            invariant
                i <= 50,
                self.white_to_move == other.white_to_move,
                forall|k: int| 0 <= k < i ==> self.pieces@[k] == other.pieces@[k],
            decreases 50 - i,
        {
            if self.pieces[i] != other.pieces[i] {
                return false;
            }
            i += 1;
        }
        assert(self.pieces =~= other.pieces);
        true
    }
}

impl PartialEqSpecImpl for ArrayPosition {
    open spec fn obeys_eq_spec() -> bool {
        true
    }

    open spec fn eq_spec(&self, other: &ArrayPosition) -> bool {
        *self == *other
    }
}

/// `pieces` with `piece` on `field`.
pub fn clone(pieces: [Piece; 50], field: Field, piece: Piece) -> (result: [Piece; 50])
    requires
        field < 50,
    ensures
        result@ == pieces@.update(field as int, piece),
{
    let mut clone = pieces;
    clone[field] = piece;
    clone
}

impl ArrayPosition {
    /// The side that is to move.
    pub closed spec fn spec_side_to_move(&self) -> Color {
        if self.white_to_move {
            Color::White
        } else {
            Color::Black
        }
    }

    /// The piece on each field.
    pub closed spec fn board(&self) -> Seq<Piece> {
        self.pieces@
    }

    /// A position is its side to move and its board.
    pub proof fn lemma_eq(a: ArrayPosition, b: ArrayPosition)
        requires
            a.spec_side_to_move() == b.spec_side_to_move(),
            a.board() == b.board(),
        ensures
            a == b,
    {
        assert(a.pieces =~= b.pieces);
    }

    /// Whether this position holds what `p` holds.
    pub open spec fn matches(&self, p: Position) -> bool {
        &&& self.spec_side_to_move() == p.spec_side_to_move()
        &&& self.board() == p.board()
    }

    /// The side that is to move.
    pub fn side_to_move(&self) -> (result: Color)
        ensures
            result == self.spec_side_to_move(),
    {
        if self.white_to_move {
            Color::White
        } else {
            Color::Black
        }
    }

    /// The piece on `field`.
    pub fn piece_at(&self, field: Field) -> (result: Piece)
        requires
            field < 50,
        ensures
            result == self.board()[field as int],
    {
        self.pieces[field]
    }

    /// The empty board with white to move.
    pub fn create() -> (result: ArrayPosition)
        ensures
            result.spec_side_to_move() == Color::White,
            result.board() == Seq::new(50, |f: int| EMPTY),
    {
        let result = ArrayPosition { white_to_move: true, pieces: [EMPTY;50] };
        assert(result.board() =~= Seq::new(50, |f: int| EMPTY));
        result
    }

    /// The same board with the other side to move.
    pub fn toggle_side(&self) -> (result: ArrayPosition)
        ensures
            result.spec_side_to_move() == self.spec_side_to_move().opponent(),
            result.board() == self.board(),
    {
        ArrayPosition { white_to_move: !self.white_to_move, pieces: self.pieces }
    }

    /// The same position but for `field`, which now holds `piece`.
    pub fn put_piece(&self, field: Field, piece: Piece) -> (result: ArrayPosition)
        requires
            field < 50,
        ensures
            result.spec_side_to_move() == self.spec_side_to_move(),
            result.board() == self.board().update(field as int, piece),
    {
        ArrayPosition {
            white_to_move: self.white_to_move,
            pieces: clone(self.pieces, field, piece),
        }
    }

    /// The starting position.
    pub fn initial() -> (result: ArrayPosition)
        ensures
            result.spec_side_to_move() == Color::White,
            result.board() == Seq::new(50, |f: int| Position::spec_initial_piece(f as Field)),
    {
        let mut result = ArrayPosition::create();
        let mut field: usize = 0;
        while field < 50
            invariant
                field <= 50,
                result.spec_side_to_move() == Color::White,
                result.board().len() == 50,
                forall|f: int|
                    0 <= f < 50 ==> #[trigger] result.board()[f] == (if f < field {
                        Position::spec_initial_piece(f as Field)
                    } else {
                        EMPTY
                    }),
            decreases 50 - field,
        {
            if field < 20 {
                result = result.put_piece(field, BLACK_MAN);
            } else if field >= 30 {
                result = result.put_piece(field, WHITE_MAN);
            }
            field += 1;
        }
        assert(result.board() =~= Seq::new(50, |f: int| Position::spec_initial_piece(f as Field)));
        result
    }
}

} // verus!
