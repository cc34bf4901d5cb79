//! Slonenok: material, the spread of the men over rows and columns, a few
//! patterns of the structure, killer moves and a memory of what was
//! searched; searched with best-node search.

use super::{Deepening, Engine, EngineResult};
use super::scoring::{
    clamp_eval, div_toward_zero, dot, halve, halved, magnitude, to_eval, toward_zero, weigh, COLUMN,
    ROW_EMPTY, ROW_FULL, WING,
};
use super::table::{bumped, deep_enough, merged, taken_over, HashEval, SmallField, Table};
use crate::algorithm::bns::{best_node_search, replies_taught};
use crate::algorithm::judge::{
    is_eval, same_judgement, Eval, Judge, Judgement, PositionMemory, MAX_EVAL, MIN_EVAL,
};
use crate::algorithm::logarithmic::LogarithmicScope;
use crate::algorithm::meta::Nodes;
use crate::algorithm::scope::Depth;
use crate::algorithm::search::SearchResult;
use crate::board::generator::Generator;
use crate::board::mv::Move;
use crate::board::piece::{Color, Piece, BLACK_KING, BLACK_MAN, EMPTY, WHITE_KING, WHITE_MAN};
use crate::board::position::{Field, Position};
use crate::board::rules::legal;
use crate::board::stats::PositionStats;
use vstd::prelude::*;

verus! {

/// The number of killer moves that are kept for each side.
pub const KILLERS: usize = 20;

/// The greatest depth after which Slonenok makes a step.
pub const SLONENOK_MAX_DEPTH: Depth = 63;

/// The kinds of patterns.
pub const HANGING_BLACK_BACK: u8 = 0;

pub const HANGING_BLACK_FRONT: u8 = 1;

pub const HANGING_WHITE_FRONT: u8 = 2;

pub const HANGING_WHITE_BACK: u8 = 3;

pub const FORK_LOW: u8 = 4;

pub const FORK_HIGH: u8 = 5;

/// The piece on field `f` of `p`.
pub open spec fn at(p: Position, f: int) -> Piece {
    p.spec_piece_at(f as Field)
}

/// The fields at which a pattern of the given kind can start.
pub open spec fn pattern_range(kind: int, start: int) -> bool {
    if kind == HANGING_BLACK_BACK {
        10 <= start <= 13
    } else if kind == HANGING_BLACK_FRONT {
        15 <= start <= 18
    } else if kind == HANGING_WHITE_FRONT {
        30 <= start <= 33
    } else if kind == HANGING_WHITE_BACK {
        35 <= start <= 38
    } else if kind == FORK_LOW {
        5 <= start <= 28
    } else {
        10 <= start <= 33
    }
}

/// What the pattern of the given kind that starts on field `start` is
/// worth in `p`, from white's side. The hanging patterns are two men side
/// by side with a third behind them and nothing behind that: they hang, and
/// cost their side. The fork patterns are two black men above two white
/// men: the side that holds the field between them gains.
pub open spec fn spec_pattern_at(p: Position, kind: int, start: int) -> int {
    if kind == HANGING_BLACK_BACK {
        if at(p, start) == BLACK_MAN && at(p, start + 1) == BLACK_MAN && at(p, start - 5)
            == BLACK_MAN && at(p, start - 10) == EMPTY {
            if at(p, start - 9) == EMPTY {
                100
            } else if start == 13 {
                if at(p, 24) == WHITE_MAN {
                    100
                } else {
                    20
                }
            } else {
                0
            }
        } else {
            0
        }
    } else if kind == HANGING_BLACK_FRONT {
        if at(p, start) == BLACK_MAN && at(p, start + 1) == BLACK_MAN && at(p, start - 4)
            == BLACK_MAN && at(p, start - 10) == EMPTY && at(p, start - 9) == EMPTY {
            100
        } else {
            0
        }
    } else if kind == HANGING_WHITE_FRONT {
        if at(p, start) == WHITE_MAN && at(p, start + 1) == WHITE_MAN && at(p, start + 6)
            == WHITE_MAN && at(p, start + 10) == EMPTY && at(p, start + 11) == EMPTY {
            -100
        } else {
            0
        }
    } else if kind == HANGING_WHITE_BACK {
        if at(p, start) == WHITE_MAN && at(p, start + 1) == WHITE_MAN && at(p, start + 5)
            == WHITE_MAN && at(p, start + 10) == EMPTY {
            if at(p, start + 11) == EMPTY {
                -100
            } else if start == 35 {
                if at(p, 25) == BLACK_MAN {
                    -100
                } else {
                    -20
                }
            } else {
                0
            }
        } else {
            0
        }
    } else {
        let mid = if kind == FORK_LOW {
            start + 5
        } else {
            start + 6
        };
        if at(p, start) == BLACK_MAN && at(p, start + 1) == BLACK_MAN && at(p, start + 10)
            == WHITE_MAN && at(p, start + 11) == WHITE_MAN {
            if at(p, mid) == WHITE_MAN {
                -100
            } else if at(p, mid) == BLACK_MAN {
                100
            } else {
                0
            }
        } else {
            0
        }
    }
}

/// What the patterns of the given kind that start on the fields from `lo`
/// up to `hi` are worth together.
pub open spec fn pattern_sum(p: Position, kind: int, lo: int, hi: int) -> int
    decreases hi - lo,
{
    if hi <= lo {
        0
    } else {
        pattern_sum(p, kind, lo, hi - 1) + spec_pattern_at(p, kind, hi - 1)
    }
}

/// What the fork patterns of the rows below `rows` are worth together.
pub open spec fn fork_sum(p: Position, rows: int) -> int
    decreases rows,
{
    if rows <= 1 {
        0
    } else {
        let row = rows - 1;
        fork_sum(p, rows - 1) + pattern_sum(p, FORK_LOW as int, 10 * row - 5, 10 * row - 1)
            + pattern_sum(p, FORK_HIGH as int, 10 * row, 10 * row + 4)
    }
}

/// What the men in the corners cost.
pub open spec fn corner_sum(p: Position) -> int {
    (if at(p, 4) == BLACK_MAN {
        15int
    } else {
        0int
    }) - (if at(p, 45) == WHITE_MAN {
        15int
    } else {
        0int
    })
}

/// What the structure of `p` is worth, from white's side.
pub open spec fn spec_slonenok_structure(p: Position) -> int {
    pattern_sum(p, HANGING_BLACK_BACK as int, 10, 14) + pattern_sum(
        p,
        HANGING_BLACK_FRONT as int,
        15,
        19,
    ) + pattern_sum(p, HANGING_WHITE_FRONT as int, 30, 34) + pattern_sum(
        p,
        HANGING_WHITE_BACK as int,
        35,
        39,
    ) + corner_sum(p) + fork_sum(p, 4)
}

/// The rows of one side weighed: as on a full board with thirty men or
/// more, as on an empty board with ten or fewer, and a blend of the two in
/// between.
pub open spec fn spec_rows(men: int, full: int, empty: int) -> int {
    if men >= 30 {
        full
    } else if men <= 10 {
        empty
    } else {
        toward_zero((men - 30) * full + (30 - men) * empty, 20)
    }
}

/// The score of a position with the counts `stats` and a structure worth
/// `structure`, from white's side.
pub open spec fn spec_slonenok_score(stats: PositionStats, structure: int) -> int {
    let count = stats.piece_count@;
    let beans = 500 * count[1] + 1500 * count[2] - 500 * count[3] - 1500 * count[4];
    let men = count[1] + count[3];
    let columns = dot(COLUMN as int, stats.hoffset_white@, 10) - dot(
        COLUMN as int,
        stats.hoffset_black@,
        10,
    );
    let rows = spec_rows(
        men,
        dot(ROW_FULL as int, stats.voffset_white@, 10),
        dot(ROW_EMPTY as int, stats.voffset_white@, 10),
    ) - spec_rows(
        men,
        dot(ROW_FULL as int, stats.voffset_black@, 10),
        dot(ROW_EMPTY as int, stats.voffset_black@, 10),
    );
    let wings = magnitude(dot(WING as int, stats.hoffset_white@, 10)) - magnitude(
        dot(WING as int, stats.hoffset_black@, 10),
    );
    beans + structure + columns + rows - 2 * wings
}

/// Whether a position with the counts `stats` tends to a draw: each side
/// has a king and no more than three pieces.
pub open spec fn spec_slonenok_drawish(stats: PositionStats) -> bool {
    let count = stats.piece_count@;
    count[2] > 0 && count[4] > 0 && count[1] + count[2] <= 3 && count[3] + count[4] <= 3
}

/// The value of `p` for the side to move: the score, a tenth of it where
/// the position tends to a draw, else halved once for each king of the side
/// that has the fewer.
pub open spec fn spec_slonenok_evaluate(p: Position) -> Eval {
    let stats = PositionStats::of(p);
    let count = stats.piece_count@;
    let score = spec_slonenok_score(stats, spec_slonenok_structure(p));
    let scaled = if spec_slonenok_drawish(stats) {
        toward_zero(score, 10)
    } else {
        halved(
            score,
            if count[2] < count[4] {
                count[2] as int
            } else {
                count[4] as int
            },
        )
    };
    to_eval(
        if p.spec_side_to_move() == Color::White {
            scaled
        } else {
            -scaled
        },
    )
}

/// The place of `mv` in the order in which Slonenok tries the moves: the
/// killer moves first; among equals the nearer to the far side first.
pub open spec fn spec_rank(killers: Seq<Move>, white: bool, mv: Move) -> int {
    (if killers.contains(mv) {
        0int
    } else {
        50int
    }) + (if white {
        mv.spec_to() as int
    } else {
        49 - mv.spec_to()
    })
}

/// Whether the first `n` moves of `list` are in the order of their ranks.
pub open spec fn ranked(list: Seq<Move>, killers: Seq<Move>, white: bool, n: int) -> bool {
    forall|a: int, b: int|
        0 <= a < b < n ==> spec_rank(killers, white, #[trigger] list[a]) <= spec_rank(
            killers,
            white,
            #[trigger] list[b],
        )
}

/// Swapping two neighbours of a list keeps its elements.
pub proof fn lemma_swap(before: Seq<Move>, after: Seq<Move>, j: int)
    requires
        0 < j < before.len(),
        after.len() == before.len(),
        after[j - 1] == before[j],
        after[j] == before[j - 1],
        forall|k: int| 0 <= k < before.len() && k != j && k != j - 1 ==> after[k] == before[k],
    ensures
        forall|mv: Move| #[trigger] after.contains(mv) <==> before.contains(mv),
        before.no_duplicates() ==> after.no_duplicates(),
{
    assert forall|mv: Move| #[trigger] after.contains(mv) <==> before.contains(mv) by {
        if after.contains(mv) {
            let k = choose|k: int| 0 <= k < after.len() && after[k] == mv;
            if k == j {
                assert(before[j - 1] == mv);
            } else if k == j - 1 {
                assert(before[j] == mv);
            } else {
                assert(before[k] == mv);
            }
        }
        if before.contains(mv) {
            let k = choose|k: int| 0 <= k < before.len() && before[k] == mv;
            if k == j {
                assert(after[j - 1] == mv);
            } else if k == j - 1 {
                assert(after[j] == mv);
            } else {
                assert(after[k] == mv);
            }
        }
    }
    if before.no_duplicates() {
        assert forall|a: int, b: int|
            0 <= a < after.len() && 0 <= b < after.len() && a != b implies after[a] != after[b] by {
            let a0 = if a == j {
                j - 1
            } else if a == j - 1 {
                j
            } else {
                a
            };
            let b0 = if b == j {
                j - 1
            } else if b == j - 1 {
                j
            } else {
                b
            };
            assert(after[a] == before[a0] && after[b] == before[b0]);
        }
    }
}

/// The judge of Slonenok.
pub struct SlonenokJudge {
    generator: Generator,
    hash: Table,
    white_killer_moves: [Move; 20],
    white_killer_cursor: usize,
    black_killer_moves: [Move; 20],
    black_killer_cursor: usize,
    generation: u8,
}

impl SlonenokJudge {
    /// What this judge remembers.
    pub closed spec fn memory(&self) -> Table {
        self.hash
    }

    /// The generation in which this judge writes.
    pub closed spec fn spec_generation(&self) -> u8 {
        self.generation
    }

    /// The killer moves of the given side.
    pub closed spec fn killers(&self, side: Color) -> Seq<Move> {
        match side {
            Color::White => self.white_killer_moves@,
            Color::Black => self.black_killer_moves@,
        }
    }

    /// The invariant of the parts that the contracts do not show.
    pub closed spec fn fixed_inv(&self) -> bool {
        &&& self.generator.wf()
        &&& self.white_killer_cursor < KILLERS
        &&& self.black_killer_cursor < KILLERS
    }

    /// Whether every entry of `table` has evaluations for bounds.
    pub open spec fn all_ranged(table: Table) -> bool {
        forall|p: Position| (#[trigger] table.spec_get(p)) is Some ==> table.spec_get(p)->Some_0.ranged()
    }

    /// The judge, with empty memory and no killer moves.
    pub fn create(generator: Generator) -> (result: SlonenokJudge)
        requires
            generator.wf(),
        ensures
            result.inv(),
            result.spec_generation() == 0,
            forall|p: Position| #[trigger] result.memory().spec_get(p) is None,
    {
        SlonenokJudge {
            generator,
            hash: Table::create(),
            white_killer_moves: [Move::shift(0, 0);20],
            white_killer_cursor: 0,
            black_killer_moves: [Move::shift(0, 0);20],
            black_killer_cursor: 0,
            generation: 0,
        }
    }

    /// Whether the position tends to a draw.
    fn drawish(&self, stats: &PositionStats) -> (result: bool)
        requires
            forall|k: int| 0 <= k < 5 ==> 0 <= #[trigger] stats.piece_count@[k] <= 50,
        ensures
            result == spec_slonenok_drawish(*stats),
    {
        let whites = stats.piece_count[WHITE_MAN as usize] + stats.piece_count[WHITE_KING as usize];
        let blacks = stats.piece_count[BLACK_MAN as usize] + stats.piece_count[BLACK_KING as usize];
        stats.piece_count[WHITE_KING as usize] > 0 && stats.piece_count[BLACK_KING as usize] > 0
            && whites <= 3 && blacks <= 3
    }

    /// Forgets what was remembered of positions, and begins the next
    /// generation.
    pub fn reset(&mut self)
        requires
            old(self).inv(),
        ensures
            final(self).inv(),
            final(self).spec_generation() == bumped(old(self).spec_generation()),
            forall|p: Position| #[trigger] final(self).memory().spec_get(p) is None,
            final(self).killers(Color::White) == old(self).killers(Color::White),
            final(self).killers(Color::Black) == old(self).killers(Color::Black),
    {
        self.hash.clear();
        self.generation = if self.generation == 255 {
            0
        } else {
            self.generation + 1
        };
    }

    /// What the pattern of the given kind that starts on field `start` is
    /// worth.
    fn pattern_at(position: &Position, kind: u8, start: usize) -> (result: i32)
        requires
            kind <= 5,
            pattern_range(kind as int, start as int),
        ensures
            result == spec_pattern_at(*position, kind as int, start as int),
            -100 <= result <= 100,
    {
        if kind == HANGING_BLACK_BACK {
            if position.piece_at(start) == BLACK_MAN && position.piece_at(start + 1) == BLACK_MAN
                && position.piece_at(start - 5) == BLACK_MAN && position.piece_at(start - 10)
                == EMPTY {
                if position.piece_at(start - 9) == EMPTY {
                    100
                } else if start == 13 {
                    if position.piece_at(24) == WHITE_MAN {
                        100
                    } else {
                        20
                    }
                } else {
                    0
                }
            } else {
                0
            }
        } else if kind == HANGING_BLACK_FRONT {
            if position.piece_at(start) == BLACK_MAN && position.piece_at(start + 1) == BLACK_MAN
                && position.piece_at(start - 4) == BLACK_MAN && position.piece_at(start - 10)
                == EMPTY && position.piece_at(start - 9) == EMPTY {
                100
            } else {
                0
            }
        } else if kind == HANGING_WHITE_FRONT {
            if position.piece_at(start) == WHITE_MAN && position.piece_at(start + 1) == WHITE_MAN
                && position.piece_at(start + 6) == WHITE_MAN && position.piece_at(start + 10)
                == EMPTY && position.piece_at(start + 11) == EMPTY {
                -100
            } else {
                0
            }
        } else if kind == HANGING_WHITE_BACK {
            if position.piece_at(start) == WHITE_MAN && position.piece_at(start + 1) == WHITE_MAN
                && position.piece_at(start + 5) == WHITE_MAN && position.piece_at(start + 10)
                == EMPTY {
                if position.piece_at(start + 11) == EMPTY {
                    -100
                } else if start == 35 {
                    if position.piece_at(25) == BLACK_MAN {
                        -100
                    } else {
                        -20
                    }
                } else {
                    0
                }
            } else {
                0
            }
        } else {
            let mid = if kind == FORK_LOW {
                start + 5
            } else {
                start + 6
            };
            if position.piece_at(start) == BLACK_MAN && position.piece_at(start + 1) == BLACK_MAN
                && position.piece_at(start + 10) == WHITE_MAN && position.piece_at(start + 11)
                == WHITE_MAN {
                let piece = position.piece_at(mid);
                if piece == WHITE_MAN {
                    -100
                } else if piece == BLACK_MAN {
                    100
                } else {
                    0
                }
            } else {
                0
            }
        }
    }

    /// What the patterns of the given kind that start on the four fields
    /// from `lo` on are worth together.
    fn patterns(position: &Position, kind: u8, lo: usize) -> (result: i32)
        requires
            kind <= 5,
            forall|start: int| lo <= start < lo + 4 ==> pattern_range(kind as int, start),
        ensures
            result == pattern_sum(*position, kind as int, lo as int, lo + 4),
            -400 <= result <= 400,
    {
        let mut sum: i32 = 0;
        let mut start: usize = lo;
        assert(pattern_range(kind as int, lo as int));
        while start < lo + 4
            invariant
                lo <= start <= lo + 4,
                kind <= 5,
                lo < 40,
                forall|s: int| lo <= s < lo + 4 ==> pattern_range(kind as int, s),
                sum == pattern_sum(*position, kind as int, lo as int, start as int),
                -100 * (start - lo) <= sum <= 100 * (start - lo),
            decreases lo + 4 - start,
        {
            sum = sum + Self::pattern_at(position, kind, start);
            start += 1;
        }
        sum
    }

    /// What the structure of `position` is worth, from white's side:
    /// hanging men and men in the corner cost their side, and a fork gains
    /// for the side that holds it.
    pub fn evaluate_structure(&self, position: &Position) -> (result: i32)
        ensures
            result == spec_slonenok_structure(*position),
            -5000 <= result <= 5000,
    {
        let mut structure: i32 = 0;
        structure = structure + Self::patterns(position, HANGING_BLACK_BACK, 10);
        structure = structure + Self::patterns(position, HANGING_BLACK_FRONT, 15);
        structure = structure + Self::patterns(position, HANGING_WHITE_FRONT, 30);
        structure = structure + Self::patterns(position, HANGING_WHITE_BACK, 35);
        if position.piece_at(4) == BLACK_MAN {
            structure = structure + 15;
        }
        if position.piece_at(45) == WHITE_MAN {
            structure = structure - 15;
        }
        let ghost base = structure as int;
        let mut row: usize = 1;
        while row < 4
            invariant
                1 <= row <= 4,
                structure == base + fork_sum(*position, row as int),
                -1630 - 800 * (row - 1) <= structure <= 1630 + 800 * (row - 1),
                -1630 <= base <= 1630,
            decreases 4 - row,
        {
            structure = structure + Self::patterns(position, FORK_LOW, 10 * row - 5);
            structure = structure + Self::patterns(position, FORK_HIGH, 10 * row);
            row += 1;
        }
        structure
    }

    /// Whether `killers` holds `mv`.
    fn is_killer(killers: &[Move; 20], mv: &Move) -> (result: bool)
        ensures
            result == killers@.contains(*mv),
    {
        let mut i: usize = 0;
        while i < 20
            invariant
                i <= 20,
                killers@.len() == 20,
                forall|k: int| 0 <= k < i ==> killers@[k] != *mv,
            decreases 20 - i,
        {
            if killers[i] == *mv {
                return true;
            }
            i += 1;
        }
        false
    }

    /// The place of `mv` in the order in which the moves are tried.
    fn rank(killers: &[Move; 20], white: bool, mv: &Move) -> (result: usize)
        requires
            mv.spec_to() < 50,
        ensures
            result == spec_rank(killers@, white, *mv),
    {
        let base: usize = if Self::is_killer(killers, mv) {
            0
        } else {
            50
        };
        base + if white {
            mv.to()
        } else {
            49 - mv.to()
        }
    }

    /// The rows of one side weighed.
    fn rows(men: i32, full: i32, empty: i32) -> (result: i32)
        requires
            0 <= men <= 100,
            -27000 <= full <= 27000,
            -27000 <= empty <= 27000,
        ensures
            result == spec_rows(men as int, full as int, empty as int),
            -2_000_000 <= result <= 2_000_000,
    {
        if men >= 30 {
            full
        } else if men <= 10 {
            empty
        } else {
            let a = men - 30;
            let b = 30 - men;
            proof {
                assert(-20 * 27000 <= a * full <= 20 * 27000) by (nonlinear_arith)
                    requires
                        -20 <= a <= 0,
                        -27000 <= full <= 27000,
                ;
                assert(-20 * 27000 <= b * empty <= 20 * 27000) by (nonlinear_arith)
                    requires
                        0 <= b <= 20,
                        -27000 <= empty <= 27000,
                ;
            }
            div_toward_zero(a * full + b * empty, 20)
        }
    }
}

impl Judgement for SlonenokJudge {
    open spec fn inv(&self) -> bool {
        &&& self.fixed_inv()
        &&& self.memory().wf()
        &&& Self::all_ranged(self.memory())
    }

    open spec fn spec_evaluate(&self, position: Position) -> Eval {
        spec_slonenok_evaluate(position)
    }

    open spec fn spec_quiet_move(&self, position: Position, mv: Move) -> bool {
        false
    }

    open spec fn spec_quiet_position(&self, position: Position, moves: Seq<Move>) -> bool {
        false
    }

    open spec fn spec_recall(&self, position: Position, depth: Depth) -> PositionMemory {
        if deep_enough(self.memory().spec_get(position), depth) {
            self.memory().spec_get(position)->Some_0.spec_answer()
        } else {
            PositionMemory::spec_empty()
        }
    }

    open spec fn keeps_memory(&self) -> bool {
        true
    }

    open spec fn spec_remembered(
        &self,
        before: SlonenokJudge,
        position: Position,
        depth: Depth,
        evaluation: Eval,
        mv: Option<Move>,
        low: bool,
    ) -> bool {
        let side = position.spec_side_to_move();
        &&& self.spec_generation() == before.spec_generation()
        &&& self.memory().spec_get(position) == Some(
            merged(
                before.memory().spec_get(position),
                spec_slonenok_entry(depth, evaluation, mv, low, before.spec_generation()),
            ),
        )
        &&& forall|q: Position|
            q != position ==> #[trigger] self.memory().spec_get(q) == before.memory().spec_get(q)
        &&& self.killers(side.opponent()) == before.killers(side.opponent())
        &&& match mv {
            Some(mv) => spec_killers_after(before.killers(side), mv, self.killers(side)),
            None => self.killers(side) == before.killers(side),
        }
    }

    open spec fn spec_consolidated(&self, before: SlonenokJudge) -> bool {
        *self == before
    }

    open spec fn spec_learnt(&self, before: SlonenokJudge, other: SlonenokJudge) -> bool {
        &&& self.spec_generation() == before.spec_generation()
        &&& self.killers(Color::White) == before.killers(Color::White)
        &&& self.killers(Color::Black) == before.killers(Color::Black)
        &&& forall|q: Position| #[trigger]
            self.memory().spec_get(q) == taken_over(
                before.memory().spec_get(q),
                other.memory().spec_get(q),
            )
    }

    open spec fn spec_display_name(&self) -> Seq<char> {
        "Slonënok"@
    }
}

/// The entry that records the outcome of a search: `evaluation` is an
/// upper bound where `low` is set, a lower bound where it is not; the move
/// is held by origin and landing field, cut to a byte each, both zero where
/// there is none.
pub open spec fn spec_slonenok_entry(
    depth: Depth,
    evaluation: Eval,
    mv: Option<Move>,
    low: bool,
    generation: u8,
) -> HashEval {
    HashEval {
        depth,
        lower: if low {
            MIN_EVAL
        } else {
            evaluation
        },
        upper: if low {
            evaluation
        } else {
            MAX_EVAL
        },
        from: match mv {
            Some(mv) => mv.spec_from() as SmallField,
            None => 0,
        },
        to: match mv {
            Some(mv) => mv.spec_to() as SmallField,
            None => 0,
        },
        generation,
    }
}

/// The killer moves after `mv` was found best: `mv` takes the place at the
/// cursor unless it is a killer move already.
pub open spec fn spec_killers_after(killers: Seq<Move>, mv: Move, after: Seq<Move>) -> bool {
    if killers.contains(mv) {
        after == killers
    } else {
        exists|cursor: int| 0 <= cursor < killers.len() && after == #[trigger] killers.update(cursor, mv)
    }
}

/// What one judge remembers, another holds once it has learnt from the
/// first: where `other` holds an entry for `position` from a search of at
/// least `depth`, the judge that learnt from `other` holds one too, and
/// recalls bounds from a search of at least `depth` unless the bounds that
/// it holds cross.
pub proof fn lemma_learnt_is_recalled(
    judge: SlonenokJudge,
    before: SlonenokJudge,
    other: SlonenokJudge,
    position: Position,
    depth: Depth,
)
    requires
        judge.spec_learnt(before, other),
        deep_enough(other.memory().spec_get(position), depth),
    ensures
        deep_enough(judge.memory().spec_get(position), depth),
        judge.spec_recall(position, depth).depth >= depth || judge.memory().spec_get(
            position,
        )->Some_0.spec_crossed(),
{
    assert(judge.memory().spec_get(position) == taken_over(
        before.memory().spec_get(position),
        other.memory().spec_get(position),
    ));
}

impl Judge for SlonenokJudge {
    fn recall(&self, position: &Position, depth: Depth) -> (memory: PositionMemory) {
        if let Some(found) = self.hash.get(position) {
            if found.depth >= depth {
                return found.answer();
            }
        }
        PositionMemory::empty()
    }

    fn remember(
        &mut self,
        position: &Position,
        depth: Depth,
        evaluation: Eval,
        mv: Option<Move>,
        low: bool,
    )
        ensures
            final(self).memory().spec_get(*position) == Some(
                merged(
                    old(self).memory().spec_get(*position),
                    spec_slonenok_entry(depth, evaluation, mv, low, old(self).spec_generation()),
                ),
            ),
            final(self).spec_generation() == old(self).spec_generation(),
            forall|q: Position|
                q != *position ==> #[trigger] final(self).memory().spec_get(q) == old(
                    self,
                ).memory().spec_get(q),
            mv is None ==> final(self).killers(Color::White) == old(self).killers(Color::White)
                && final(self).killers(Color::Black) == old(self).killers(Color::Black),
            mv is Some ==> spec_killers_after(
                old(self).killers(position.spec_side_to_move()),
                mv->Some_0,
                final(self).killers(position.spec_side_to_move()),
            ) && final(self).killers(position.spec_side_to_move().opponent()) == old(self).killers(
                position.spec_side_to_move().opponent(),
            ),
    {
        let (from, to) = match mv {
            Some(mv) => {
                if position.side_to_move() == Color::White {
                    if !Self::is_killer(&self.white_killer_moves, &mv) {
                        let ghost before = self.white_killer_moves@;
                        let cursor = self.white_killer_cursor;
                        self.white_killer_moves[cursor] = mv;
                        self.white_killer_cursor = (cursor + 1) % KILLERS;
                        assert(self.white_killer_moves@ == before.update(cursor as int, mv));
                    }
                } else if !Self::is_killer(&self.black_killer_moves, &mv) {
                    let ghost before = self.black_killer_moves@;
                    let cursor = self.black_killer_cursor;
                    self.black_killer_moves[cursor] = mv;
                    self.black_killer_cursor = (cursor + 1) % KILLERS;
                    assert(self.black_killer_moves@ == before.update(cursor as int, mv));
                }
                (
                    #[verifier::truncate]
                    (mv.from() as SmallField),
                    #[verifier::truncate]
                    (mv.to() as SmallField),
                )
            },
            None => (0, 0),
        };
        let hash_eval = HashEval {
            depth,
            lower: if low {
                MIN_EVAL
            } else {
                evaluation
            },
            upper: if low {
                evaluation
            } else {
                MAX_EVAL
            },
            from,
            to,
            generation: self.generation,
        };
        self.hash.upsert(position, hash_eval);
    }

    fn consolidate(&mut self)
        ensures
            *final(self) == *old(self),
    {
    }

    fn learn(&mut self, other: &Self)
        ensures
            final(self).spec_generation() == old(self).spec_generation(),
            final(self).killers(Color::White) == old(self).killers(Color::White),
            final(self).killers(Color::Black) == old(self).killers(Color::Black),
            forall|q: Position| #[trigger]
                final(self).memory().spec_get(q) == taken_over(
                    old(self).memory().spec_get(q),
                    other.memory().spec_get(q),
                ),
    {
        self.hash.merge(&other.hash);
    }

    fn evaluate(&self, position: &Position) -> (eval: Eval) {
        let stats = PositionStats::for_position(position);
        let white_men = stats.piece_count[WHITE_MAN as usize] as i32;
        let white_kings = stats.piece_count[WHITE_KING as usize] as i32;
        let black_men = stats.piece_count[BLACK_MAN as usize] as i32;
        let black_kings = stats.piece_count[BLACK_KING as usize] as i32;
        let beans = 500 * white_men + 1500 * white_kings - 500 * black_men - 1500 * black_kings;
        let men = white_men + black_men;
        let hoffset_white = weigh(COLUMN, &stats.hoffset_white);
        let hoffset_black = weigh(COLUMN, &stats.hoffset_black);
        let voffset_white = Self::rows(
            men,
            weigh(ROW_FULL, &stats.voffset_white),
            weigh(ROW_EMPTY, &stats.voffset_white),
        );
        let voffset_black = Self::rows(
            men,
            weigh(ROW_FULL, &stats.voffset_black),
            weigh(ROW_EMPTY, &stats.voffset_black),
        );
        let balance_white = weigh(WING, &stats.hoffset_white);
        let balance_black = weigh(WING, &stats.hoffset_black);
        let wing_white = if balance_white < 0 {
            -balance_white
        } else {
            balance_white
        };
        let wing_black = if balance_black < 0 {
            -balance_black
        } else {
            balance_black
        };
        let structure = self.evaluate_structure(position);
        let score = beans + structure + (hoffset_white - hoffset_black) + (voffset_white
            - voffset_black) - 2 * (wing_white - wing_black);
        let scaled = if self.drawish(&stats) {
            div_toward_zero(score, 10)
        } else {
            let min_kings = if stats.piece_count[WHITE_KING as usize]
                < stats.piece_count[BLACK_KING as usize] {
                stats.piece_count[WHITE_KING as usize]
            } else {
                stats.piece_count[BLACK_KING as usize]
            };
            halve(score, min_kings)
        };
        clamp_eval(
            if position.side_to_move() == Color::White {
                scaled
            } else {
                -scaled
            },
        )
    }

    fn moves(&self, position: &Position, depth: Depth) -> (list: Vec<Move>)
        ensures
            ranked(
                list@,
                self.killers(position.spec_side_to_move()),
                position.spec_side_to_move() == Color::White,
                list@.len() as int,
            ),
    {
        let mut result = self.generator.legal_moves(position);
        let white = position.side_to_move() == Color::White;
        let killers = if white {
            &self.white_killer_moves
        } else {
            &self.black_killer_moves
        };
        let ghost all = result@;
        let len = result.len();
        let mut i: usize = 1;
        while i < len
            invariant
                1 <= i,
                len == result@.len(),
                killers@ == self.killers(position.spec_side_to_move()),
                white == (position.spec_side_to_move() == Color::White),
                forall|mv: Move| #[trigger] result@.contains(mv) <==> all.contains(mv),
                result@.no_duplicates(),
                forall|k: int| 0 <= k < all.len() ==> (#[trigger] all[k]).spec_to() < 50,
                forall|k: int| 0 <= k < len ==> (#[trigger] result@[k]).spec_to() < 50,
                ranked(result@, killers@, white, if i < len {
                    i as int
                } else {
                    len as int
                }),
            decreases len - i,
        {
            let mut j: usize = i;
            while j > 0 && Self::rank(killers, white, &result[j - 1]) > Self::rank(
                killers,
                white,
                &result[j],
            )
                invariant
                    j <= i < len,
                    len == result@.len(),
                    forall|mv: Move| #[trigger] result@.contains(mv) <==> all.contains(mv),
                    result@.no_duplicates(),
                    forall|k: int| 0 <= k < all.len() ==> (#[trigger] all[k]).spec_to() < 50,
                    forall|k: int| 0 <= k < len ==> (#[trigger] result@[k]).spec_to() < 50,
                    forall|a: int, b: int|
                        0 <= a < b <= i && b != j ==> spec_rank(
                            killers@,
                            white,
                            #[trigger] result@[a],
                        ) <= spec_rank(killers@, white, #[trigger] result@[b]),
                decreases j,
            {
                let ghost before = result@;
                let upper = result[j - 1];
                let lower = result[j];
                result[j - 1] = lower;
                result[j] = upper;
                proof {
                    lemma_swap(before, result@, j as int);
                    assert forall|k: int| 0 <= k < len implies (#[trigger] result@[k]).spec_to()
                        < 50 by {
                        assert(result@.contains(result@[k]));
                        let m = choose|m: int| 0 <= m < all.len() && all[m] == result@[k];
                        assert(all[m].spec_to() < 50);
                    }
                }
                j -= 1;
            }
            i += 1;
        }
        result
    }

    fn quiet_move(&self, position: &Position, mv: &Move) -> (quiet: bool) {
        false
    }

    fn quiet_position(&self, position: &Position, moves: &[Move]) -> (quiet: bool) {
        false
    }

    fn display_name(&self) -> (name: &str) {
        "Slonënok"
    }
}

/// The Slonenok engine.
pub struct Slonenok {
    max_nodes: Nodes,
    slonenok: SlonenokJudge,
    previous: EngineResult,
    position: Option<Position>,
    fresh: bool,
}

impl Slonenok {
    /// The judge of the engine.
    pub closed spec fn spec_judge(&self) -> SlonenokJudge {
        self.slonenok
    }

    /// The engine with the given budget of nodes, without a position.
    pub fn create(max_nodes: Nodes) -> (result: Slonenok)
        ensures
            result.inv(),
            result.state().position is None,
            result.state().previous.is_empty(),
            result.state().fresh,
            result.state().max_nodes == max_nodes,
            result.state().max_depth == SLONENOK_MAX_DEPTH,
    {
        Slonenok {
            max_nodes,
            slonenok: SlonenokJudge::create(Generator::create()),
            previous: EngineResult::empty(),
            position: None,
            fresh: true,
        }
    }
}

impl Engine for Slonenok {
    closed spec fn inv(&self) -> bool {
        self.slonenok.inv() && (self.fresh ==> self.previous.is_empty()) && is_eval(
            self.previous.evaluation as int,
        )
    }

    closed spec fn state(&self) -> Deepening {
        Deepening {
            position: self.position,
            previous: self.previous,
            fresh: self.fresh,
            max_nodes: self.max_nodes,
            max_depth: SLONENOK_MAX_DEPTH,
        }
    }

    open spec fn spec_display_name(&self) -> Seq<char> {
        "Slonënok"@
    }

    fn display_name(&self) -> (name: &str) {
        "Slonënok"
    }

    fn set_position(&mut self, position: &Position)
        ensures
            final(self).spec_judge().spec_generation() == bumped(
                old(self).spec_judge().spec_generation(),
            ),
            forall|q: Position| #[trigger] final(self).spec_judge().memory().spec_get(q) is None,
            final(self).spec_judge().killers(Color::White) == old(self).spec_judge().killers(
                Color::White,
            ),
            final(self).spec_judge().killers(Color::Black) == old(self).spec_judge().killers(
                Color::Black,
            ),
    {
        self.slonenok.reset();
        self.position = Some(*position);
        self.previous = EngineResult::empty();
        self.fresh = true;
    }

    fn next(&mut self) -> (result: Option<EngineResult>)
        ensures
            result is None ==> final(self).spec_judge() == old(self).spec_judge(),
            result is Some ==> same_judgement(&final(self).spec_judge(), &old(self).spec_judge()),
            result is Some && old(self).state().position->Some_0.wf() ==> replies_taught::<
                SlonenokJudge,
                LogarithmicScope,
            >(
                old(self).spec_judge(),
                final(self).spec_judge(),
                old(self).state().position->Some_0,
                result->Some_0.meta.spec_depth(),
            ),
            result is Some && result->Some_0.mv.is_null() ==> result->Some_0.evaluation == MIN_EVAL,
            result is Some && (forall|mv: Move| !legal(old(self).state().position->Some_0, mv))
                ==> result->Some_0.mv.is_null() && result->Some_0.meta.spec_nodes() == old(
                self,
            ).state().previous.meta.spec_nodes(),
    {
        let position = match self.position {
            Some(position) => position,
            None => {
                return None;
            },
        };
        if self.previous.exhausted(self.max_nodes, SLONENOK_MAX_DEPTH) {
            return None;
        }
        let mut meta = self.previous.meta;
        let search_result = if self.fresh {
            SearchResult::evaluation(self.previous.evaluation)
        } else {
            SearchResult::with_move(self.previous.mv, self.previous.evaluation)
        };
        let depth = if self.fresh {
            0
        } else {
            meta.get_depth() + 1
        };
        meta.put_depth(depth);
        let bns = best_node_search::<SlonenokJudge, LogarithmicScope>(
            &mut self.slonenok,
            &position,
            depth,
            &search_result,
        );
        meta.add_nodes(bns.meta.get_nodes());
        self.previous = EngineResult::create(bns.mv, bns.lower, meta);
        self.fresh = false;
        Some(self.previous)
    }
}

} // verus!
