//! Stars: the crosses of five fields around the inner fields of the board,
//! on which the evaluation reads the structure of a position.

use super::coords::{
    lemma_coords_field, on_board, spec_field, spec_max_x, spec_max_y, spec_min_x, spec_min_y,
    spec_x, spec_y, Coords, MinXY,
};
use super::position::Field;
use vstd::prelude::*;

verus! {

/// Whether `field` is an inner field: one that has a neighbour in each of
/// the four directions.
pub open spec fn spec_inner(field: Field) -> bool {
    let x = spec_x(field as int);
    let y = spec_y(field as int);
    spec_min_x(y) < x < spec_max_x(y) && spec_min_y(x) < y < spec_max_y(x)
}

/// The star around the inner field `mid`: the fields to its upper left,
/// upper right, itself, lower left and lower right.
pub open spec fn spec_star(mid: Field) -> Seq<Field> {
    let x = spec_x(mid as int);
    let y = spec_y(mid as int);
    seq![
        spec_field(x, y + 1) as Field,
        spec_field(x + 1, y) as Field,
        spec_field(x, y) as Field,
        spec_field(x - 1, y) as Field,
        spec_field(x, y - 1) as Field,
    ]
}

/// The stars around the inner fields below `n`, in the order of the fields.
pub open spec fn spec_stars(n: int) -> Seq<Seq<Field>>
    decreases n,
{
    if n <= 0 {
        Seq::empty()
    } else if spec_inner((n - 1) as Field) {
        spec_stars(n - 1).push(spec_star((n - 1) as Field))
    } else {
        spec_stars(n - 1)
    }
}

/// The index of the first field of `star`, at or after index `i`, that is
/// `field`.
pub open spec fn spec_part(star: Seq<Field>, field: Field, i: int) -> Option<int>
    decreases star.len() - i,
{
    if i < 0 || i >= star.len() {
        None
    } else if star[i] == field {
        Some(i)
    } else {
        spec_part(star, field, i + 1)
    }
}

/// For the first `n` of `stars`, those that hold `field`: the index of the
/// star and the index of the field within it.
pub open spec fn spec_positions(stars: Seq<Seq<Field>>, field: Field, n: int) -> Seq<(usize, usize)>
    decreases n,
{
    if n <= 0 {
        Seq::empty()
    } else {
        match spec_part(stars[n - 1], field, 0) {
            Some(index) => spec_positions(stars, field, n - 1).push(
                ((n - 1) as usize, index as usize),
            ),
            None => spec_positions(stars, field, n - 1),
        }
    }
}

/// The field at the coordinates `(x, y)` of a square of the board.
fn field_at(x: i8, y: i8) -> (result: Field)
    requires
        on_board(x as int, y as int),
    ensures
        result == spec_field(x as int, y as int),
        result < 50,
{
    proof {
        lemma_coords_field(x as int, y as int);
    }
    Field::from(Coords { x, y })
}

/// The star around `mid`, if `mid` is an inner field.
pub fn star(mid: Field) -> (result: Option<[Field; 5]>)
    requires
        mid < 50,
    ensures
        result is Some <==> spec_inner(mid),
        result is Some ==> result->Some_0@ == spec_star(mid),
        result is Some ==> forall|i: int| 0 <= i < 5 ==> #[trigger] result->Some_0@[i] < 50,
{
    let c = Coords::from(mid);
    if c.min_x() == c.x || c.max_x() == c.x || c.min_y() == c.y || c.max_y() == c.y {
        None
    } else {
        let result = [
            field_at(c.x, c.y + 1),
            field_at(c.x + 1, c.y),
            field_at(c.x, c.y),
            field_at(c.x - 1, c.y),
            field_at(c.x, c.y - 1),
        ];
        assert(result@ =~= spec_star(mid));
        Some(result)
    }
}

/// The index of `field` within `star`, if the star holds it.
fn part(star: &[Field; 5], field: Field) -> (result: Option<usize>)
    ensures
        match spec_part(star@, field, 0) {
            Some(index) => result == Some(index as usize) && 0 <= index < 5,
            None => result is None,
        },
{
    let mut i: usize = 0;
    while i < 5
        invariant
            i <= 5,
            star@.len() == 5,
            spec_part(star@, field, 0) == spec_part(star@, field, i as int),
        decreases 5 - i,
    {
        if star[i] == field {
            return Some(i);
        }
        i += 1;
    }
    None
}

/// The stars of the board, and for each field the stars that hold it.
pub struct Stars {
    pub positions: Vec<Vec<(usize, usize)>>,
    pub stars: Vec<[Field; 5]>,
}

impl Stars {
    /// The stars as sequences of fields.
    pub open spec fn star_seqs(&self) -> Seq<Seq<Field>> {
        Seq::new(self.stars@.len(), |i: int| self.stars@[i]@)
    }

    /// The invariant of the tables: `stars` holds the star of each inner
    /// field, and `positions` tells for each field where the stars hold it.
    pub open spec fn wf(&self) -> bool {
        &&& self.star_seqs() == spec_stars(50)
        &&& self.positions@.len() == 50
        &&& forall|f: int|
            0 <= f < 50 ==> (#[trigger] self.positions@[f])@ == spec_positions(
                self.star_seqs(),
                f as Field,
                self.stars@.len() as int,
            )
        &&& forall|f: int, i: int|
            0 <= f < 50 && 0 <= i < self.positions@[f]@.len() ==> (#[trigger] self.positions@[f]@[i]).0
                < self.stars@.len() && self.positions@[f]@[i].1 < 5
    }

    /// The stars of the board.
    pub fn create() -> (result: Stars)
        ensures
            result.wf(),
    {
        let mut stars: Vec<[Field; 5]> = Vec::new();
        let mut field: usize = 0;
        while field < 50
            invariant
                field <= 50,
                Seq::new(stars@.len(), |i: int| stars@[i]@) == spec_stars(field as int),
            decreases 50 - field,
        {
            let ghost before = Seq::new(stars@.len(), |i: int| stars@[i]@);
            match star(field) {
                Some(s) => {
                    stars.push(s);
                    assert(Seq::new(stars@.len(), |i: int| stars@[i]@) =~= before.push(s@));
                },
                None => {},
            }
            field += 1;
        }
        let ghost seqs = Seq::new(stars@.len(), |i: int| stars@[i]@);
        let mut positions: Vec<Vec<(usize, usize)>> = Vec::new();
        let mut field: usize = 0;
        while field < 50
            invariant
                field <= 50,
                seqs == Seq::new(stars@.len(), |i: int| stars@[i]@),
                positions@.len() == field,
                forall|f: int|
                    0 <= f < field ==> (#[trigger] positions@[f])@ == spec_positions(
                        seqs,
                        f as Field,
                        stars@.len() as int,
                    ),
                forall|f: int, i: int|
                    0 <= f < field && 0 <= i < positions@[f]@.len() ==> (
                    #[trigger] positions@[f]@[i]).0 < stars@.len() && positions@[f]@[i].1 < 5,
            decreases 50 - field,
        {
            let mut found: Vec<(usize, usize)> = Vec::new();
            let mut n: usize = 0;
            while n < stars.len()
                invariant
                    n <= stars@.len(),
                    seqs == Seq::new(stars@.len(), |i: int| stars@[i]@),
                    found@ == spec_positions(seqs, field, n as int),
                    forall|i: int|
                        0 <= i < found@.len() ==> (#[trigger] found@[i]).0 < stars@.len()
                            && found@[i].1 < 5,
                decreases stars@.len() - n,
            {
                assert(seqs[n as int] == stars@[n as int]@);
                match part(&stars[n], field) {
                    Some(index) => {
                        found.push((n, index));
                    },
                    None => {},
                }
                n += 1;
            }
            positions.push(found);
            field += 1;
        }
        Stars { positions, stars }
    }
}

} // verus!
