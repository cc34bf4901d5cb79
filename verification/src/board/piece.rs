//! Piece kinds and colours.

use vstd::prelude::*;

verus! {

/// A piece kind, or `EMPTY` for an unoccupied field.
pub type Piece = u8;

/// No piece.
pub const EMPTY: Piece = 0;

/// A white man.
pub const WHITE_MAN: Piece = 1;

/// A white king.
pub const WHITE_KING: Piece = 2;

/// A black man.
pub const BLACK_MAN: Piece = 3;

/// A black king.
pub const BLACK_KING: Piece = 4;

/// The two sides.
#[derive(Debug, PartialEq, Eq, Structural, Clone, Copy)]
pub enum Color {
    White,
    Black,
}

impl Color {
    /// The colour of the other player.
    pub open spec fn opponent(self) -> Color {
        match self {
            Color::White => Color::Black,
            Color::Black => Color::White,
        }
    }
}

/// The colour that owns `piece`; nothing owns an empty field or an unknown code.
pub open spec fn spec_color(piece: Piece) -> Option<Color> {
    if piece == WHITE_MAN || piece == WHITE_KING {
        Some(Color::White)
    } else if piece == BLACK_MAN || piece == BLACK_KING {
        Some(Color::Black)
    } else {
        None
    }
}

/// Whether `piece` is a king (of either colour).
pub open spec fn is_king(piece: Piece) -> bool {
    piece == WHITE_KING || piece == BLACK_KING
}

/// The colour that owns `piece`, if any.
pub fn color(piece: Piece) -> (result: Option<Color>)
    ensures
        result == spec_color(piece),
{
    if piece == WHITE_MAN || piece == WHITE_KING {
        Some(Color::White)
    } else if piece == BLACK_MAN || piece == BLACK_KING {
        Some(Color::Black)
    } else {
        None
    }
}

/// `Some(true)` for a piece of colour `c`, `Some(false)` for a piece of the
/// other colour, `None` for an empty field.
pub fn piece_own(piece: Piece, c: &Color) -> (result: Option<bool>)
    ensures
        result == match spec_color(piece) {
            Some(p) => Some(p == *c),
            None => None,
        },
{
    match color(piece) {
        Some(p) => Some(p == *c),
        None => None,
    }
}

/// Whether `piece` is a piece of colour `c`.
pub fn piece_is(piece: Piece, c: &Color) -> (result: bool)
    ensures
        result == (spec_color(piece) == Some(*c)),
{
    match piece_own(piece, c) {
        Some(own) => own,
        None => false,
    }
}

} // verus!
