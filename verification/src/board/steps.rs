//! The geometry of the board, tabulated: for each field the squares that lie
//! along its four diagonals.

use super::coords::{
    lemma_coords_field, lemma_field_coords, on_board, spec_field, spec_max_x, spec_max_y,
    spec_min_x, spec_min_y, spec_x, spec_y, Coords, MinXY,
};
use super::position::Field;
use vstd::prelude::*;

verus! {

/// The change in `x` after `n` steps in direction `d`: the directions are
/// numbered upper right, upper left, lower left, lower right.
pub open spec fn spec_dx(d: int, n: int) -> int {
    if d == 0 {
        n
    } else if d == 2 {
        -n
    } else {
        0
    }
}

/// The change in `y` after `n` steps in direction `d`.
pub open spec fn spec_dy(d: int, n: int) -> int {
    if d == 1 {
        n
    } else if d == 3 {
        -n
    } else {
        0
    }
}

/// How many squares lie beyond `field` in direction `d`.
pub open spec fn spec_path_len(field: Field, d: int) -> int {
    let x = spec_x(field as int);
    let y = spec_y(field as int);
    if d == 0 {
        spec_max_x(y) - x
    } else if d == 1 {
        spec_max_y(x) - y
    } else if d == 2 {
        x - spec_min_x(y)
    } else {
        y - spec_min_y(x)
    }
}

/// The square `k + 1` steps from `field` in direction `d`.
pub open spec fn spec_path_field(field: Field, d: int, k: int) -> Field {
    spec_field(
        spec_x(field as int) + spec_dx(d, k + 1),
        spec_y(field as int) + spec_dy(d, k + 1),
    ) as Field
}

/// The squares beyond `field` in direction `d`, nearest first.
pub open spec fn spec_path(field: Field, d: int) -> Seq<Field> {
    Seq::new(spec_path_len(field, d) as nat, |k: int| spec_path_field(field, d, k))
}

/// The neighbour of `field` in direction `d`, if there is one.
pub open spec fn spec_step(field: Field, d: int) -> Seq<Field> {
    if spec_path(field, d).len() > 0 {
        seq![spec_path(field, d)[0]]
    } else {
        Seq::empty()
    }
}

/// The neighbours of `field` in the directions from `lo` up to `hi`.
pub open spec fn spec_steps(field: Field, lo: int, hi: int) -> Seq<Field>
    decreases hi - lo,
{
    if hi <= lo {
        Seq::empty()
    } else {
        spec_steps(field, lo, hi - 1) + spec_step(field, hi - 1)
    }
}

/// Where a white man on `field` can step: up.
pub open spec fn spec_white_steps(field: Field) -> Seq<Field> {
    spec_steps(field, 0, 2)
}

/// Where a black man on `field` can step: down.
pub open spec fn spec_black_steps(field: Field) -> Seq<Field> {
    spec_steps(field, 2, 4)
}

/// The jump from `field` in direction `d`, if the board has room for it:
/// the square jumped over and the square landed on.
pub open spec fn spec_jump(field: Field, d: int) -> Seq<(Field, Field)> {
    if spec_path(field, d).len() > 1 {
        seq![(spec_path(field, d)[0], spec_path(field, d)[1])]
    } else {
        Seq::empty()
    }
}

/// The jumps from `field` in the directions below `hi`.
pub open spec fn spec_jumps(field: Field, hi: int) -> Seq<(Field, Field)>
    decreases hi,
{
    if hi <= 0 {
        Seq::empty()
    } else {
        spec_jumps(field, hi - 1) + spec_jump(field, hi - 1)
    }
}

/// The one-step jumps from `field` for which the board has room.
pub open spec fn spec_short_jumps(field: Field) -> Seq<(Field, Field)> {
    spec_jumps(field, 4)
}

/// The squares of a path lie on the board, each is a field, and they are
/// pairwise distinct and distinct from the field where the path starts.
pub proof fn lemma_path(field: Field, d: int)
    requires
        field < 50,
        0 <= d < 4,
    ensures
        0 <= spec_path_len(field, d) <= 9,
        spec_path(field, d).len() == spec_path_len(field, d),
        forall|k: int|
            0 <= k < spec_path_len(field, d) ==> #[trigger] spec_path(field, d)[k] < 50
                && spec_path(field, d)[k] != field,
        forall|k: int, m: int|
            0 <= k < m < spec_path_len(field, d) ==> spec_path(field, d)[k] != spec_path(
                field,
                d,
            )[m],
{
    lemma_field_coords(field as int);
    let x = spec_x(field as int);
    let y = spec_y(field as int);
    assert forall|k: int| 0 <= k < spec_path_len(field, d) implies #[trigger] spec_path(
        field,
        d,
    )[k] < 50 && spec_path(field, d)[k] != field by {
        lemma_path_square(field, d, k);
    }
    assert forall|k: int, m: int| 0 <= k < m < spec_path_len(field, d) implies spec_path(
        field,
        d,
    )[k] != spec_path(field, d)[m] by {
        lemma_path_square(field, d, k);
        lemma_path_square(field, d, m);
        lemma_coords_field(x + spec_dx(d, k + 1), y + spec_dy(d, k + 1));
        lemma_coords_field(x + spec_dx(d, m + 1), y + spec_dy(d, m + 1));
    }
}

/// One square of a path: it lies on the board, is a field, and is not the
/// field where the path starts.
pub proof fn lemma_path_square(field: Field, d: int, k: int)
    requires
        field < 50,
        0 <= d < 4,
        0 <= k < spec_path_len(field, d),
    ensures
        on_board(
            spec_x(field as int) + spec_dx(d, k + 1),
            spec_y(field as int) + spec_dy(d, k + 1),
        ),
        spec_path(field, d)[k] == spec_path_field(field, d, k),
        spec_path_field(field, d, k) == spec_field(
            spec_x(field as int) + spec_dx(d, k + 1),
            spec_y(field as int) + spec_dy(d, k + 1),
        ),
        spec_path_field(field, d, k) < 50,
        spec_path_field(field, d, k) != field,
{
    lemma_field_coords(field as int);
    let x = spec_x(field as int);
    let y = spec_y(field as int);
    let x1 = x + spec_dx(d, k + 1);
    let y1 = y + spec_dy(d, k + 1);
    if d == 0 {
        assert(x1 == x + k + 1 && y1 == y);
    } else if d == 1 {
        assert(x1 == x && y1 == y + k + 1);
    } else if d == 2 {
        assert(x1 == x - (k + 1) && y1 == y);
    } else {
        assert(x1 == x && y1 == y - (k + 1));
    }
    assert(on_board(x1, y1));
    lemma_coords_field(x1, y1);
}

/// Squares reached from one field in different directions are different.
pub proof fn lemma_paths_disjoint(field: Field, d1: int, k1: int, d2: int, k2: int)
    requires
        field < 50,
        0 <= d1 < 4,
        0 <= d2 < 4,
        d1 != d2,
        0 <= k1 < spec_path_len(field, d1),
        0 <= k2 < spec_path_len(field, d2),
    ensures
        spec_path(field, d1)[k1] != spec_path(field, d2)[k2],
{
    lemma_path_square(field, d1, k1);
    lemma_path_square(field, d2, k2);
    let x = spec_x(field as int);
    let y = spec_y(field as int);
    lemma_coords_field(x + spec_dx(d1, k1 + 1), y + spec_dy(d1, k1 + 1));
    lemma_coords_field(x + spec_dx(d2, k2 + 1), y + spec_dy(d2, k2 + 1));
}

/// The squares beyond `field` in direction `d`, nearest first.
fn path(field: Field, d: usize) -> (result: Vec<Field>)
    requires
        field < 50,
        d < 4,
    ensures
        result@ == spec_path(field, d as int),
{
    let coords = Coords::from(field);
    proof {
        lemma_field_coords(field as int);
    }
    let len: i8 = if d == 0 {
        coords.max_x() - coords.x
    } else if d == 1 {
        coords.max_y() - coords.y
    } else if d == 2 {
        coords.x - coords.min_x()
    } else {
        coords.y - coords.min_y()
    };
    let mut result: Vec<Field> = Vec::new();
    let mut k: i8 = 1;
    while k <= len
        invariant
            field < 50,
            d < 4,
            coords.x == spec_x(field as int),
            coords.y == spec_y(field as int),
            len == spec_path_len(field, d as int),
            0 <= len <= 9,
            1 <= k <= len + 1,
            result@.len() == k - 1,
            forall|j: int| 0 <= j < k - 1 ==> #[trigger] result@[j] == spec_path_field(
                field,
                d as int,
                j,
            ),
        decreases len + 1 - k,
    {
        proof {
            lemma_path_square(field, d as int, (k - 1) as int);
        }
        let c = if d == 0 {
            Coords { x: coords.x + k, y: coords.y }
        } else if d == 1 {
            Coords { x: coords.x, y: coords.y + k }
        } else if d == 2 {
            Coords { x: coords.x - k, y: coords.y }
        } else {
            Coords { x: coords.x, y: coords.y - k }
        };
        let f = Field::from(c);
        result.push(f);
        k += 1;
    }
    assert(result@ =~= spec_path(field, d as int));
    result
}

/// The four paths from `field`, by direction.
fn paths(field: Field) -> (result: Vec<Vec<Field>>)
    requires
        field < 50,
    ensures
        result@.len() == 4,
        forall|d: int| 0 <= d < 4 ==> (#[trigger] result@[d])@ == spec_path(field, d),
{
    let mut result: Vec<Vec<Field>> = Vec::new();
    let mut d: usize = 0;
    while d < 4
        invariant
            field < 50,
            d <= 4,
            result@.len() == d,
            forall|e: int| 0 <= e < d ==> (#[trigger] result@[e])@ == spec_path(field, e),
        decreases 4 - d,
    {
        result.push(path(field, d));
        d += 1;
    }
    result
}

/// The neighbours of `field` in the directions from `lo` up to `hi`.
fn steps(field: Field, lo: usize, hi: usize) -> (result: Vec<Field>)
    requires
        field < 50,
        lo <= hi <= 4,
    ensures
        result@ == spec_steps(field, lo as int, hi as int),
{
    let mut result: Vec<Field> = Vec::new();
    let paths = paths(field);
    let mut i: usize = lo;
    while i < hi
        invariant
            lo <= i <= hi <= 4,
            paths@.len() == 4,
            forall|d: int| 0 <= d < 4 ==> (#[trigger] paths@[d])@ == spec_path(field, d),
            result@ == spec_steps(field, lo as int, i as int),
        decreases hi - i,
    {
        if paths[i].len() > 0 {
            result.push(paths[i][0]);
        }
        i += 1;
        assert(result@ =~= spec_steps(field, lo as int, i as int));
    }
    result
}

/// Where a white man on `field` can step.
pub fn white_steps(field: Field) -> (result: Vec<Field>)
    requires
        field < 50,
    ensures
        result@ == spec_white_steps(field),
{
    steps(field, 0, 2)
}

/// Where a black man on `field` can step.
pub fn black_steps(field: Field) -> (result: Vec<Field>)
    requires
        field < 50,
    ensures
        result@ == spec_black_steps(field),
{
    steps(field, 2, 4)
}

/// The one-step jumps from `field` for which the board has room.
pub fn short_jumps(field: Field) -> (result: Vec<(Field, Field)>)
    requires
        field < 50,
    ensures
        result@ == spec_short_jumps(field),
{
    let mut result: Vec<(Field, Field)> = Vec::new();
    let paths = paths(field);
    let mut i: usize = 0;
    while i < 4
        invariant
            i <= 4,
            paths@.len() == 4,
            forall|d: int| 0 <= d < 4 ==> (#[trigger] paths@[d])@ == spec_path(field, d),
            result@ == spec_jumps(field, i as int),
        decreases 4 - i,
    {
        if paths[i].len() > 1 {
            result.push((paths[i][0], paths[i][1]));
        }
        i += 1;
        assert(result@ =~= spec_jumps(field, i as int));
    }
    result
}

/// All the squares that lie on a diagonal through `field`.
pub fn long_steps(field: Field) -> (result: Vec<Field>)
    requires
        field < 50,
    ensures
        result@ == spec_long_steps(field, 4),
{
    let mut v: Vec<Field> = Vec::new();
    let paths = paths(field);
    let mut i: usize = 0;
    while i < 4
        invariant
            i <= 4,
            paths@.len() == 4,
            forall|d: int| 0 <= d < 4 ==> (#[trigger] paths@[d])@ == spec_path(field, d),
            v@ == spec_long_steps(field, i as int),
        decreases 4 - i,
    {
        let mut j: usize = 0;
        while j < paths[i].len()
            invariant
                i < 4,
                paths@.len() == 4,
                j <= paths@[i as int]@.len(),
                forall|d: int| 0 <= d < 4 ==> (#[trigger] paths@[d])@ == spec_path(field, d),
                v@ == spec_long_steps(field, i as int) + spec_path(field, i as int).subrange(
                    0,
                    j as int,
                ),
            decreases paths@[i as int]@.len() - j,
        {
            v.push(paths[i][j]);
            j += 1;
            assert(spec_path(field, i as int).subrange(0, j as int) =~= spec_path(
                field,
                i as int,
            ).subrange(0, j - 1).push(spec_path(field, i as int)[j - 1]));
            assert(v@ =~= spec_long_steps(field, i as int) + spec_path(field, i as int).subrange(
                0,
                j as int,
            ));
        }
        assert(spec_path(field, i as int).subrange(0, j as int) =~= spec_path(field, i as int));
        i += 1;
    }
    v
}

/// The squares on the diagonals through `field` in the directions below
/// `hi`.
pub open spec fn spec_long_steps(field: Field, hi: int) -> Seq<Field>
    decreases hi,
{
    if hi <= 0 {
        Seq::empty()
    } else {
        spec_long_steps(field, hi - 1) + spec_path(field, hi - 1)
    }
}

/// The tables of the board's geometry.
pub struct Steps {
    all_white_steps: Vec<Vec<Field>>,
    all_black_steps: Vec<Vec<Field>>,
    all_short_jumps: Vec<Vec<(Field, Field)>>,
    all_paths: Vec<Vec<Vec<Field>>>,
}

impl Steps {
    /// The invariant of the tables: each holds, for every field, what the
    /// geometry of the board says.
    pub closed spec fn wf(&self) -> bool {
        &&& self.all_white_steps@.len() == 50
        &&& self.all_black_steps@.len() == 50
        &&& self.all_short_jumps@.len() == 50
        &&& self.all_paths@.len() == 50
        &&& forall|f: int|
            0 <= f < 50 ==> (#[trigger] self.all_white_steps@[f])@ == spec_white_steps(f as Field)
        &&& forall|f: int|
            0 <= f < 50 ==> (#[trigger] self.all_black_steps@[f])@ == spec_black_steps(f as Field)
        &&& forall|f: int|
            0 <= f < 50 ==> (#[trigger] self.all_short_jumps@[f])@ == spec_short_jumps(f as Field)
        &&& forall|f: int| 0 <= f < 50 ==> (#[trigger] self.all_paths@[f])@.len() == 4
        &&& forall|f: int, d: int|
            0 <= f < 50 && 0 <= d < 4 ==> (#[trigger] self.all_paths@[f]@[d])@ == spec_path(
                f as Field,
                d,
            )
    }

    /// The tables, filled.
    pub fn create() -> (result: Steps)
        ensures
            result.wf(),
    {
        let mut all_white_steps: Vec<Vec<Field>> = Vec::new();
        let mut all_black_steps: Vec<Vec<Field>> = Vec::new();
        let mut all_short_jumps: Vec<Vec<(Field, Field)>> = Vec::new();
        let mut all_paths: Vec<Vec<Vec<Field>>> = Vec::new();
        let mut field: usize = 0;
        while field < 50
            invariant
                field <= 50,
                all_white_steps@.len() == field,
                all_black_steps@.len() == field,
                all_short_jumps@.len() == field,
                all_paths@.len() == field,
                forall|f: int|
                    0 <= f < field ==> (#[trigger] all_white_steps@[f])@ == spec_white_steps(
                        f as Field,
                    ),
                forall|f: int|
                    0 <= f < field ==> (#[trigger] all_black_steps@[f])@ == spec_black_steps(
                        f as Field,
                    ),
                forall|f: int|
                    0 <= f < field ==> (#[trigger] all_short_jumps@[f])@ == spec_short_jumps(
                        f as Field,
                    ),
                forall|f: int| 0 <= f < field ==> (#[trigger] all_paths@[f])@.len() == 4,
                forall|f: int, d: int|
                    0 <= f < field && 0 <= d < 4 ==> (#[trigger] all_paths@[f]@[d])@ == spec_path(
                        f as Field,
                        d,
                    ),
            decreases 50 - field,
        {
            all_white_steps.push(white_steps(field));
            all_black_steps.push(black_steps(field));
            all_short_jumps.push(short_jumps(field));
            all_paths.push(paths(field));
            field += 1;
        }
        Steps { all_white_steps, all_black_steps, all_short_jumps, all_paths }
    }

    /// Where a white man on `field` can step.
    pub fn white_steps(&self, field: Field) -> (result: &[Field])
        requires
            self.wf(),
            field < 50,
        ensures
            result@ == spec_white_steps(field),
    {
        self.all_white_steps[field].as_slice()
    }

    /// Where a black man on `field` can step.
    pub fn black_steps(&self, field: Field) -> (result: &[Field])
        requires
            self.wf(),
            field < 50,
        ensures
            result@ == spec_black_steps(field),
    {
        self.all_black_steps[field].as_slice()
    }

    /// The one-step jumps from `field` for which the board has room.
    pub fn short_jumps(&self, field: Field) -> (result: &[(Field, Field)])
        requires
            self.wf(),
            field < 50,
        ensures
            result@ == spec_short_jumps(field),
    {
        self.all_short_jumps[field].as_slice()
    }

    /// The four paths from `field`, by direction.
    pub fn paths(&self, field: Field) -> (result: &Vec<Vec<Field>>)
        requires
            self.wf(),
            field < 50,
        ensures
            result@.len() == 4,
            forall|d: int| 0 <= d < 4 ==> (#[trigger] result@[d])@ == spec_path(field, d),
    {
        &self.all_paths[field]
    }
}

} // verus!
