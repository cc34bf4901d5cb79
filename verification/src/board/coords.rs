//! Cartesian coordinates on the diagonals of the board.
//!
//! The playable squares form a diamond in these coordinates: `x` grows
//! towards the upper right, `y` towards the upper left, and the field in the
//! lower left corner is the origin.

use super::mv::NULL_FIELD;
use super::position::Field;
use vstd::prelude::*;
use vstd::std_specs::convert::FromSpecImpl;

verus! {

/// A coordinate along one of the two diagonals.
pub type Coord = i8;

/// The coordinates of a square.
#[derive(Debug, PartialEq, Eq, Structural, Clone, Copy)]
pub struct Coords {
    pub x: Coord,
    pub y: Coord,
}

/// The absolute value of `v`.
pub open spec fn spec_abs(v: int) -> int {
    if v < 0 {
        -v
    } else {
        v
    }
}

/// The least `x` of a square on the diagonal `y`.
pub open spec fn spec_min_x(y: int) -> int {
    spec_abs(y)
}

/// The greatest `x` of a square on the diagonal `y`.
pub open spec fn spec_max_x(y: int) -> int {
    9 - spec_abs(y)
}

/// The greatest `y` of a square on the diagonal `x`.
pub open spec fn spec_max_y(x: int) -> int {
    if x > 4 {
        9 - x
    } else {
        x
    }
}

/// The least `y` of a square on the diagonal `x`.
pub open spec fn spec_min_y(x: int) -> int {
    -spec_max_y(x)
}

/// Whether `(x, y)` is a square of the board.
pub open spec fn on_board(x: int, y: int) -> bool {
    spec_min_x(y) <= x <= spec_max_x(y)
}

/// The field at `(x, y)`.
pub open spec fn spec_field(x: int, y: int) -> int {
    45 - 5 * (x + y) + (x - y) / 2
}

/// The row of field `n`, counted from the bottom.
pub open spec fn spec_row(n: int) -> int {
    (49 - n) / 5
}

/// The column of field `n`, counted from the left.
pub open spec fn spec_column(n: int) -> int {
    (spec_row(n) % 2) + 2 * (n % 5)
}

/// The `x` of field `n`.
pub open spec fn spec_x(n: int) -> int {
    (spec_column(n) + spec_row(n)) / 2
}

/// The `y` of field `n`.
pub open spec fn spec_y(n: int) -> int {
    (spec_row(n) - spec_column(n)) / 2
}

/// Every field lies on the board, and the two mappings are each other's
/// inverse there.
pub proof fn lemma_field_coords(n: int)
    requires
        0 <= n < 50,
    ensures
        on_board(spec_x(n), spec_y(n)),
        spec_field(spec_x(n), spec_y(n)) == n,
        spec_x(n) + spec_y(n) == spec_row(n),
        spec_x(n) - spec_y(n) == spec_column(n),
{
}

/// Every square of the board is a field, and the two mappings are each
/// other's inverse there.
pub proof fn lemma_coords_field(x: int, y: int)
    requires
        on_board(x, y),
    ensures
        0 <= spec_field(x, y) < 50,
        spec_x(spec_field(x, y)) == x,
        spec_y(spec_field(x, y)) == y,
{
}

/// Distinct squares of the board are distinct fields.
pub proof fn lemma_field_injective(x1: int, y1: int, x2: int, y2: int)
    requires
        on_board(x1, y1),
        on_board(x2, y2),
        spec_field(x1, y1) == spec_field(x2, y2),
    ensures
        x1 == x2,
        y1 == y2,
{
    lemma_coords_field(x1, y1);
    lemma_coords_field(x2, y2);
}

/// The least `x` of a square on the diagonal `y`.
pub fn min_x(y: Coord) -> (result: Coord)
    requires
        y > -128,
    ensures
        result == spec_min_x(y as int),
{
    if y < 0 {
        -y
    } else {
        y
    }
}

/// The greatest `x` of a square on the diagonal `y`.
pub fn max_x(y: Coord) -> (result: Coord)
    requires
        y > -128,
    ensures
        result == spec_max_x(y as int),
{
    9 - min_x(y)
}

/// The least `y` of a square on the diagonal `x`.
pub fn min_y(x: Coord) -> (result: Coord)
    requires
        x > -128,
    ensures
        result == spec_min_y(x as int),
{
    -max_y(x)
}

/// The greatest `y` of a square on the diagonal `x`.
pub fn max_y(x: Coord) -> (result: Coord)
    ensures
        result == spec_max_y(x as int),
{
    if x > 4 {
        9 - x
    } else {
        x
    }
}

/// The bounds of the board along the two axes, seen from one square.
pub trait MinXY {
    /// The coordinates of the square.
    spec fn spec_coords(&self) -> (int, int);

    fn min_x(&self) -> (result: Coord)
        requires
            self.spec_coords().1 > -128,
        ensures
            result == spec_min_x(self.spec_coords().1),
    ;

    fn max_x(&self) -> (result: Coord)
        requires
            self.spec_coords().1 > -128,
        ensures
            result == spec_max_x(self.spec_coords().1),
    ;

    fn min_y(&self) -> (result: Coord)
        requires
            self.spec_coords().0 > -128,
        ensures
            result == spec_min_y(self.spec_coords().0),
    ;

    fn max_y(&self) -> (result: Coord)
        ensures
            result == spec_max_y(self.spec_coords().0),
    ;
}

impl MinXY for Coords {
    open spec fn spec_coords(&self) -> (int, int) {
        (self.x as int, self.y as int)
    }

    fn min_x(&self) -> (result: Coord) {
        min_x(self.y)
    }

    fn max_x(&self) -> (result: Coord) {
        max_x(self.y)
    }

    fn min_y(&self) -> (result: Coord) {
        min_y(self.x)
    }

    fn max_y(&self) -> (result: Coord) {
        max_y(self.x)
    }
}

impl Coords {
    /// Whether these coordinates name a square of the board.
    pub open spec fn spec_on_board(&self) -> bool {
        on_board(self.x as int, self.y as int)
    }

    /// Whether these coordinates name a square of the board.
    #[verifier::when_used_as_spec(spec_on_board)]
    pub fn on_board(&self) -> (result: bool)
        ensures
            result == self.spec_on_board(),
    {
        self.y > -128 && min_x(self.y) <= self.x && self.x <= max_x(self.y)
    }

    /// The coordinates of field `n`.
    pub fn from(n: Field) -> (result: Coords)
        requires
            n < 50,
        ensures
            result.x == spec_x(n as int),
            result.y == spec_y(n as int),
            result.spec_on_board(),
    {
        proof {
            lemma_field_coords(n as int);
        }
        let n: Coord = n as Coord;
        let ny: Coord = (49 - n) / 5;
        let nx: Coord = (ny % 2) + (2 * (n % 5));
        let x: Coord = (nx + ny) / 2;
        Coords { x, y: ny - x }
    }
}

impl From<Coords> for Field {
    /// The field at these coordinates, or the null field where they name no
    /// square of the board.
    fn from(c: Coords) -> (result: Field) {
        if c.on_board() {
            proof {
                lemma_coords_field(c.x as int, c.y as int);
            }
            let n: Coord = 45 - 5 * (c.x + c.y) + (c.x - c.y) / 2;
            n as Field
        } else {
            NULL_FIELD
        }
    }
}

impl FromSpecImpl<Coords> for Field {
    open spec fn obeys_from_spec() -> bool {
        true
    }

    open spec fn from_spec(c: Coords) -> Field {
        if c.spec_on_board() {
            spec_field(c.x as int, c.y as int) as Field
        } else {
            NULL_FIELD
        }
    }
}

} // verus!
