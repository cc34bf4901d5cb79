//! Board model: pieces, fields, moves, positions and the move generator.

pub mod array;
pub mod bitboard;
pub mod bits;
pub mod coded;
pub mod coords;
pub mod decimal;
pub mod generator;
pub mod mv;
pub mod piece;
pub mod position;
pub mod rules;
pub mod stars;
pub mod stats;
pub mod steps;
pub mod text;

use vstd::prelude::*;

verus! {

/// A move written out by the number of its captures: origin, landing
/// field, and the captured fields.
pub enum Move {
    Shift(usize, usize),
    Take1(usize, usize, usize),
    Take2(usize, usize, usize, usize),
    Take3(usize, usize, usize, usize, usize),
    Take4(usize, usize, usize, usize, usize, usize),
    Take5(usize, usize, usize, usize, usize, usize, usize),
    Take6(usize, usize, usize, usize, usize, usize, usize, usize),
    Take7(usize, usize, usize, usize, usize, usize, usize, usize, usize),
    Take8(usize, usize, usize, usize, usize, usize, usize, usize, usize, usize),
}

/// Something that captures a number of pieces.
pub trait Take {
    /// The number of captures.
    spec fn spec_num_taken(&self) -> usize;

    fn num_taken(&self) -> (result: usize)
        ensures
            result == self.spec_num_taken(),
    ;
}

impl Take for Move {
    open spec fn spec_num_taken(&self) -> usize {
        match self {
            Move::Shift(..) => 0,
            Move::Take1(..) => 1,
            Move::Take2(..) => 2,
            Move::Take3(..) => 3,
            Move::Take4(..) => 4,
            Move::Take5(..) => 5,
            Move::Take6(..) => 6,
            Move::Take7(..) => 7,
            Move::Take8(..) => 8,
        }
    }

    fn num_taken(&self) -> (result: usize) {
        match self {
            Move::Shift(..) => 0,
            Move::Take1(..) => 1,
            Move::Take2(..) => 2,
            Move::Take3(..) => 3,
            Move::Take4(..) => 4,
            Move::Take5(..) => 5,
            Move::Take6(..) => 6,
            Move::Take7(..) => 7,
            Move::Take8(..) => 8,
        }
    }
}

} // verus!
