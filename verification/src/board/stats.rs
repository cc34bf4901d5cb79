//! Counts over a position: how many pieces of each kind there are, and how
//! the men of each side are spread over the rows and columns.

use super::piece::{Piece, BLACK_MAN, WHITE_MAN};
use super::position::{Field, Position};
use vstd::prelude::*;

verus! {

/// How many of the fields below `n` satisfy `pred`.
pub open spec fn count_fields(n: int, pred: spec_fn(Field) -> bool) -> int
    decreases n,
{
    if n <= 0 {
        0
    } else {
        count_fields(n - 1, pred) + if pred((n - 1) as Field) {
            1int
        } else {
            0int
        }
    }
}

/// The least of `init` and the values of `key` on the fields below `n`
/// that satisfy `pred`.
pub open spec fn least_of(n: int, pred: spec_fn(Field) -> bool, key: spec_fn(Field) -> int, init: int) -> int
    decreases n,
{
    if n <= 0 {
        init
    } else {
        let rest = least_of(n - 1, pred, key, init);
        if pred((n - 1) as Field) && key((n - 1) as Field) < rest {
            key((n - 1) as Field)
        } else {
            rest
        }
    }
}

/// The greatest of `init` and the values of `key` on the fields below `n`
/// that satisfy `pred`.
pub open spec fn greatest_of(
    n: int,
    pred: spec_fn(Field) -> bool,
    key: spec_fn(Field) -> int,
    init: int,
) -> int
    decreases n,
{
    if n <= 0 {
        init
    } else {
        let rest = greatest_of(n - 1, pred, key, init);
        if pred((n - 1) as Field) && key((n - 1) as Field) > rest {
            key((n - 1) as Field)
        } else {
            rest
        }
    }
}

/// The column of a white man on `field`, counted from the left.
pub open spec fn white_column(field: Field) -> int {
    1 + 2 * (field % 5) - field / 5 % 2
}

/// The row of a white man on `field`, counted from white's side.
pub open spec fn white_row(field: Field) -> int {
    9 - field / 5
}

/// The column of a black man on `field`, counted from black's left.
pub open spec fn black_column(field: Field) -> int {
    8 - 2 * (field % 5) + field / 5 % 2
}

/// The row of a black man on `field`, counted from black's side.
pub open spec fn black_row(field: Field) -> int {
    field as int / 5
}

/// Whether `field` holds `piece` in `p`.
pub open spec fn holds(p: Position, piece: Piece) -> spec_fn(Field) -> bool {
    |f: Field| p.spec_piece_at(f) == piece
}

/// Whether `field` holds `piece` in `p` and `key` is `value` there.
pub open spec fn holds_at(p: Position, piece: Piece, key: spec_fn(Field) -> int, value: int) -> spec_fn(
    Field,
) -> bool {
    |f: Field| p.spec_piece_at(f) == piece && key(f) == value
}

/// A number of pieces.
pub type Count = i16;

/// The counts of a position: the pieces of each kind, the men of each side
/// by row and by column, and the distance between the foremost and the
/// hindmost men of each side.
pub struct PositionStats {
    pub piece_count: [Count; 5],
    pub voffset_white: [Count; 10],
    pub voffset_black: [Count; 10],
    pub hoffset_white: [Count; 10],
    pub hoffset_black: [Count; 10],
    pub height_white: usize,
    pub height_black: usize,
}

impl PositionStats {
    /// Whether these are the counts of the first `n` fields of `p`, with
    /// the least and greatest rows of the men as given.
    pub open spec fn counts(
        &self,
        p: Position,
        n: int,
    ) -> bool {
        &&& forall|k: int| 0 <= k < 5 ==> 0 <= #[trigger] self.piece_count@[k] <= n
        &&& forall|k: int| 0 <= k < 10 ==> 0 <= #[trigger] self.voffset_white@[k] <= n
        &&& forall|k: int| 0 <= k < 10 ==> 0 <= #[trigger] self.voffset_black@[k] <= n
        &&& forall|k: int| 0 <= k < 10 ==> 0 <= #[trigger] self.hoffset_white@[k] <= n
        &&& forall|k: int| 0 <= k < 10 ==> 0 <= #[trigger] self.hoffset_black@[k] <= n
        &&& forall|k: int|
            0 <= k < 5 ==> #[trigger] self.piece_count@[k] == count_fields(n, holds(p, k as Piece))
        &&& forall|y: int|
            0 <= y < 10 ==> #[trigger] self.voffset_white@[y] == count_fields(
                n,
                holds_at(p, WHITE_MAN, |f: Field| white_row(f), y),
            )
        &&& forall|y: int|
            0 <= y < 10 ==> #[trigger] self.voffset_black@[y] == count_fields(
                n,
                holds_at(p, BLACK_MAN, |f: Field| black_row(f), y),
            )
        &&& forall|x: int|
            0 <= x < 10 ==> #[trigger] self.hoffset_white@[x] == count_fields(
                n,
                holds_at(p, WHITE_MAN, |f: Field| white_column(f), x),
            )
        &&& forall|x: int|
            0 <= x < 10 ==> #[trigger] self.hoffset_black@[x] == count_fields(
                n,
                holds_at(p, BLACK_MAN, |f: Field| black_column(f), x),
            )
    }

    /// The distance between the foremost and the hindmost row that hold a
    /// man of the kind `man`, zero where there is none.
    pub open spec fn spec_height(p: Position, man: Piece, row: spec_fn(Field) -> int) -> int {
        let low = least_of(50, holds(p, man), row, 9);
        let high = greatest_of(50, holds(p, man), row, 0);
        if high > low {
            high - low
        } else {
            0
        }
    }

    /// Whether these are the counts of `p`.
    pub open spec fn is_for(&self, p: Position) -> bool {
        &&& self.counts(p, 50)
        &&& self.height_white == Self::spec_height(p, WHITE_MAN, |f: Field| white_row(f))
        &&& self.height_black == Self::spec_height(p, BLACK_MAN, |f: Field| black_row(f))
    }

    /// The counts of `p`.
    pub open spec fn of(p: Position) -> PositionStats {
        choose|stats: PositionStats| stats.is_for(p)
    }

    /// A position has one set of counts.
    pub proof fn lemma_unique(a: PositionStats, b: PositionStats, p: Position)
        requires
            a.is_for(p),
            b.is_for(p),
        ensures
            a == b,
    {
        assert(a.piece_count =~= b.piece_count);
        assert(a.voffset_white =~= b.voffset_white);
        assert(a.voffset_black =~= b.voffset_black);
        assert(a.hoffset_white =~= b.hoffset_white);
        assert(a.hoffset_black =~= b.hoffset_black);
    }

    /// The counts of `position`.
    pub fn for_position(position: &Position) -> (result: PositionStats)
        ensures
            result.is_for(*position),
            result == Self::of(*position),
    {
        let ghost p = *position;
        let mut piece_count: [Count; 5] = [0;5];
        let mut voffset_white: [Count; 10] = [0;10];
        let mut voffset_black: [Count; 10] = [0;10];
        let mut hoffset_white: [Count; 10] = [0;10];
        let mut hoffset_black: [Count; 10] = [0;10];
        let mut vmin_white: usize = 9;
        let mut vmax_white: usize = 0;
        let mut vmin_black: usize = 9;
        let mut vmax_black: usize = 0;
        let mut field: usize = 0;
        while field < 50
            invariant
                field <= 50,
                p == *position,
                vmin_white <= 9,
                vmax_white <= 9,
                vmin_black <= 9,
                vmax_black <= 9,
                forall|k: int| 0 <= k < 5 ==> 0 <= #[trigger] piece_count@[k] <= field,
                forall|k: int| 0 <= k < 10 ==> 0 <= #[trigger] voffset_white@[k] <= field,
                forall|k: int| 0 <= k < 10 ==> 0 <= #[trigger] voffset_black@[k] <= field,
                forall|k: int| 0 <= k < 10 ==> 0 <= #[trigger] hoffset_white@[k] <= field,
                forall|k: int| 0 <= k < 10 ==> 0 <= #[trigger] hoffset_black@[k] <= field,
                forall|k: int|
                    0 <= k < 5 ==> #[trigger] piece_count@[k] == count_fields(
                        field as int,
                        holds(p, k as Piece),
                    ),
                forall|y: int|
                    0 <= y < 10 ==> #[trigger] voffset_white@[y] == count_fields(
                        field as int,
                        holds_at(p, WHITE_MAN, |f: Field| white_row(f), y),
                    ),
                forall|y: int|
                    0 <= y < 10 ==> #[trigger] voffset_black@[y] == count_fields(
                        field as int,
                        holds_at(p, BLACK_MAN, |f: Field| black_row(f), y),
                    ),
                forall|x: int|
                    0 <= x < 10 ==> #[trigger] hoffset_white@[x] == count_fields(
                        field as int,
                        holds_at(p, WHITE_MAN, |f: Field| white_column(f), x),
                    ),
                forall|x: int|
                    0 <= x < 10 ==> #[trigger] hoffset_black@[x] == count_fields(
                        field as int,
                        holds_at(p, BLACK_MAN, |f: Field| black_column(f), x),
                    ),
                vmin_white == least_of(
                    field as int,
                    holds(p, WHITE_MAN),
                    |f: Field| white_row(f),
                    9,
                ),
                vmax_white == greatest_of(
                    field as int,
                    holds(p, WHITE_MAN),
                    |f: Field| white_row(f),
                    0,
                ),
                vmin_black == least_of(
                    field as int,
                    holds(p, BLACK_MAN),
                    |f: Field| black_row(f),
                    9,
                ),
                vmax_black == greatest_of(
                    field as int,
                    holds(p, BLACK_MAN),
                    |f: Field| black_row(f),
                    0,
                ),
            decreases 50 - field,
        {
            let piece = position.piece_at(field);
            proof {
                position.lemma_piece_range(field);
            }
            piece_count[piece as usize] += 1;
            if piece == WHITE_MAN {
                let x = 1 + 2 * (field % 5) - field / 5 % 2;
                hoffset_white[x] += 1;
                let y = 9 - field / 5;
                voffset_white[y] += 1;
                if y < vmin_white {
                    vmin_white = y;
                }
                if y > vmax_white {
                    vmax_white = y;
                }
            } else if piece == BLACK_MAN {
                let x = 8 - 2 * (field % 5) + field / 5 % 2;
                hoffset_black[x] += 1;
                let y = field / 5;
                voffset_black[y] += 1;
                if y < vmin_black {
                    vmin_black = y;
                }
                if y > vmax_black {
                    vmax_black = y;
                }
            }
            field += 1;
        }
        let result = PositionStats {
            piece_count,
            voffset_white,
            voffset_black,
            hoffset_white,
            hoffset_black,
            height_white: if vmax_white > vmin_white {
                vmax_white - vmin_white
            } else {
                0
            },
            height_black: if vmax_black > vmin_black {
                vmax_black - vmin_black
            } else {
                0
            },
        };
        proof {
            assert(result.is_for(p));
            Self::lemma_unique(result, Self::of(p), p);
        }
        result
    }
}

} // verus!
