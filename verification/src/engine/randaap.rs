//! RandAap: material and a few favoured fields, searched with MTD(f).

use super::{Deepening, Engine, EngineResult};
use super::scoring::{clamp_eval, div_toward_zero, to_eval, toward_zero};
use crate::algorithm::alphabeta::{taught, MAX_PLIES};
use crate::algorithm::depth::{lemma_depth_scope_gap_free, DepthScope};
use crate::algorithm::judge::{
    is_eval, same_judgement, Eval, Judge, Judgement, PositionMemory,
};
use crate::algorithm::meta::Nodes;
use crate::algorithm::minimax::{node_value, quiet_at, rules_of, tame, value_at};
use crate::algorithm::mtdf::mtd_f;
use crate::algorithm::scope::{Depth, Scope};
use crate::board::generator::Generator;
use crate::board::mv::Move;
use crate::board::piece::{spec_color, Color, Piece, BLACK_KING, BLACK_MAN, WHITE_KING, WHITE_MAN};
use crate::board::position::{Field, Position};
use crate::board::rules::{is_legal_list, lemma_capture_maximality, lemma_legal_moves_deterministic};
use crate::board::stats::count_fields;
use vstd::prelude::*;

verus! {

/// What a piece is worth, from white's side.
pub open spec fn worth(piece: Piece) -> int {
    if piece == WHITE_MAN {
        500
    } else if piece == WHITE_KING {
        1500
    } else if piece == BLACK_MAN {
        -500
    } else if piece == BLACK_KING {
        -1500
    } else {
        0
    }
}

/// What a white man on `field` is worth more for standing there.
pub open spec fn favour(field: int) -> int {
    if field == 5 || field == 9 || field == 10 || field == 14 || field == 15 || field == 19
        || field == 20 || field == 35 || field == 39 || field == 40 || field == 44 {
        1
    } else if field == 24 || field == 25 || field == 41 || field == 42 {
        20
    } else if field == 29 || field == 46 || field == 48 {
        30
    } else if field == 30 || field == 37 {
        10
    } else if field == 34 {
        15
    } else if field == 47 {
        50
    } else {
        0
    }
}

/// What `piece` on `field` is worth, from white's side: black's men favour
/// the fields that mirror white's.
pub open spec fn piece_value(piece: Piece, field: Field) -> int {
    worth(piece) + if piece == WHITE_MAN {
        favour(field as int)
    } else if piece == BLACK_MAN {
        -favour(49 - field)
    } else {
        0
    }
}

/// What the pieces on the fields below `n` are worth, from white's side.
pub open spec fn value_upto(p: Position, n: int) -> int
    decreases n,
{
    if n <= 0 {
        0
    } else {
        value_upto(p, n - 1) + piece_value(p.spec_piece_at((n - 1) as Field), (n - 1) as Field)
    }
}

/// Whether `piece` is of the given colour, as a predicate on fields.
pub open spec fn of_color(p: Position, c: Color) -> spec_fn(Field) -> bool {
    |f: Field| spec_color(p.spec_piece_at(f)) == Some(c)
}

/// The value of `p` for the side to move: what the pieces are worth, a
/// tenth of it where neither side has more than three pieces, as an
/// evaluation.
pub open spec fn spec_randaap_evaluate(p: Position) -> Eval {
    let value = value_upto(p, 50);
    let few = count_fields(50, of_color(p, Color::White)) <= 3 && count_fields(
        50,
        of_color(p, Color::Black),
    ) <= 3;
    let score = if few {
        toward_zero(value, 10)
    } else {
        value
    };
    to_eval(
        if p.spec_side_to_move() == Color::White {
            score
        } else {
            -score
        },
    )
}

/// The judge of RandAap: it counts material and remembers nothing.
pub struct RandAapJudge {
    generator: Generator,
}

impl RandAapJudge {
    /// The judge, with its generator.
    pub fn create() -> (result: RandAapJudge)
        ensures
            result.inv(),
    {
        RandAapJudge { generator: Generator::create() }
    }

    fn favour_of(field: Field) -> (result: i32)
        requires
            field < 50,
        ensures
            result == favour(field as int),
    {
        match field {
            5 | 9 | 10 | 14 | 15 | 19 | 20 | 35 | 39 | 40 | 44 => 1,
            24 | 25 | 41 | 42 => 20,
            29 | 46 | 48 => 30,
            30 | 37 => 10,
            34 => 15,
            47 => 50,
            _ => 0,
        }
    }

    /// What `piece` on `field` is worth, from white's side.
    pub fn evaluate_piece(&self, piece: Piece, field: Field) -> (result: i32)
        requires
            field < 50,
        ensures
            result == piece_value(piece, field),
    {
        let worth: i32 = if piece == WHITE_MAN {
            500
        } else if piece == WHITE_KING {
            1500
        } else if piece == BLACK_MAN {
            -500
        } else if piece == BLACK_KING {
            -1500
        } else {
            0
        };
        worth + if piece == WHITE_MAN {
            Self::favour_of(field)
        } else if piece == BLACK_MAN {
            -Self::favour_of(49 - field)
        } else {
            0
        }
    }
}

impl Judgement for RandAapJudge {
    open spec fn inv(&self) -> bool {
        self.spec_generator().wf()
    }

    open spec fn spec_evaluate(&self, position: Position) -> Eval {
        spec_randaap_evaluate(position)
    }

    open spec fn spec_quiet_move(&self, position: Position, mv: Move) -> bool {
        mv.spec_num_taken() == 0
    }

    open spec fn spec_quiet_position(&self, position: Position, moves: Seq<Move>) -> bool {
        moves.len() > 1 && moves[0].spec_num_taken() == 0
    }

    open spec fn spec_recall(&self, position: Position, depth: Depth) -> PositionMemory {
        PositionMemory::spec_empty()
    }

    open spec fn keeps_memory(&self) -> bool {
        false
    }

    open spec fn spec_remembered(
        &self,
        before: RandAapJudge,
        position: Position,
        depth: Depth,
        evaluation: Eval,
        mv: Option<Move>,
        low: bool,
    ) -> bool {
        *self == before
    }

    open spec fn spec_consolidated(&self, before: RandAapJudge) -> bool {
        *self == before
    }

    open spec fn spec_learnt(&self, before: RandAapJudge, other: RandAapJudge) -> bool {
        *self == before
    }

    open spec fn spec_display_name(&self) -> Seq<char> {
        "RandAap"@
    }
}

impl RandAapJudge {
    /// The generator that lists the moves.
    pub closed spec fn spec_generator(&self) -> Generator {
        self.generator
    }

    /// The tree that a search with this judge and the depth scope walks
    /// does not depend on how it is walked: the judge keeps no memory, its
    /// values are evaluations, and whether a position is quiet does not
    /// depend on the order of its moves, for all legal moves take the same
    /// number of pieces.
    pub proof fn lemma_tame(judge: RandAapJudge)
        ensures
            !judge.keeps_memory(),
            tame::<DepthScope>(rules_of(judge)),
    {
        let rules = rules_of(judge);
        lemma_depth_scope_gap_free();
        assert forall|p: Position, a: Seq<Move>, b: Seq<Move>|
            is_legal_list(p, a) && is_legal_list(p, b) implies #[trigger] quiet_at(rules, p, a)
            == #[trigger] quiet_at(rules, p, b) by {
            lemma_legal_moves_deterministic(p, a, b);
            vstd::seq_lib::to_multiset_len(a);
            vstd::seq_lib::to_multiset_len(b);
            if a.len() > 0 {
                assert(a.contains(a[0]));
                assert(b.contains(b[0]));
                lemma_capture_maximality(p, a[0]);
                lemma_capture_maximality(p, b[0]);
            }
        }
        assert forall|p: Position| is_eval(#[trigger] value_at(rules, p)) by {}
    }
}

impl Judge for RandAapJudge {
    fn recall(&self, position: &Position, depth: Depth) -> (memory: PositionMemory) {
        PositionMemory::empty()
    }

    fn remember(
        &mut self,
        position: &Position,
        depth: Depth,
        evaluation: Eval,
        mv: Option<Move>,
        low: bool,
    ) {
    }

    fn consolidate(&mut self) {
    }

    fn learn(&mut self, other: &Self) {
    }

    fn evaluate(&self, position: &Position) -> (eval: Eval) {
        let mut white: usize = 0;
        let mut black: usize = 0;
        let mut score: i32 = 0;
        let mut i: usize = 0;
        while i < 50
            invariant
                i <= 50,
                white == count_fields(i as int, of_color(*position, Color::White)),
                black == count_fields(i as int, of_color(*position, Color::Black)),
                white <= i,
                black <= i,
                score == value_upto(*position, i as int),
                -1550 * i <= score <= 1550 * i,
            decreases 50 - i,
        {
            let piece = position.piece_at(i);
            if piece == WHITE_MAN || piece == WHITE_KING {
                white += 1;
            }
            if piece == BLACK_MAN || piece == BLACK_KING {
                black += 1;
            }
            score = score + self.evaluate_piece(piece, i);
            i += 1;
        }
        let score = if white <= 3 && black <= 3 {
            div_toward_zero(score, 10)
        } else {
            score
        };
        clamp_eval(
            if position.side_to_move() == Color::White {
                score
            } else {
                -score
            },
        )
    }

    fn moves(&self, position: &Position, depth: Depth) -> (list: Vec<Move>) {
        self.generator.legal_moves(position)
    }

    fn quiet_move(&self, position: &Position, mv: &Move) -> (quiet: bool) {
        mv.num_taken() == 0
    }

    fn quiet_position(&self, position: &Position, moves: &[Move]) -> (quiet: bool) {
        moves.len() > 1 && self.quiet_move(position, &moves[0])
    }

    fn display_name(&self) -> (name: &str) {
        "RandAap"
    }
}

/// The greatest depth after which RandAap makes a step.
pub const RANDAAP_MAX_DEPTH: Depth = 63;

/// The RandAap engine.
pub struct RandAap {
    max_nodes: Nodes,
    judge: RandAapJudge,
    previous: EngineResult,
    position: Option<Position>,
    fresh: bool,
}

impl RandAap {
    /// The judge of the engine.
    pub closed spec fn spec_judge(&self) -> RandAapJudge {
        self.judge
    }

    /// The engine with the given budget of nodes, without a position.
    pub fn create(max_nodes: Nodes) -> (result: RandAap)
        ensures
            result.inv(),
            result.state().position is None,
            result.state().previous.is_empty(),
            result.state().fresh,
            result.state().max_nodes == max_nodes,
            result.state().max_depth == RANDAAP_MAX_DEPTH,
    {
        RandAap {
            max_nodes,
            judge: RandAapJudge::create(),
            previous: EngineResult::empty(),
            position: None,
            fresh: true,
        }
    }
}

impl Engine for RandAap {
    closed spec fn inv(&self) -> bool {
        self.judge.inv() && (self.fresh ==> self.previous.is_empty())
    }

    closed spec fn state(&self) -> Deepening {
        Deepening {
            position: self.position,
            previous: self.previous,
            fresh: self.fresh,
            max_nodes: self.max_nodes,
            max_depth: RANDAAP_MAX_DEPTH,
        }
    }

    open spec fn spec_display_name(&self) -> Seq<char> {
        "RandAap"@
    }

    fn display_name(&self) -> (name: &str) {
        self.judge.display_name()
    }

    fn set_position(&mut self, position: &Position) {
        self.position = Some(*position);
        self.previous = EngineResult::empty();
        self.fresh = true;
    }

    fn next(&mut self) -> (result: Option<EngineResult>)
        ensures
            result is None ==> final(self).spec_judge() == old(self).spec_judge(),
            same_judgement(&final(self).spec_judge(), &old(self).spec_judge()),
            result is Some ==> taught(
                old(self).spec_judge(),
                final(self).spec_judge(),
                old(self).state().position->Some_0,
                DepthScope::spec_from_depth(result->Some_0.meta.spec_depth()).spec_depth(),
            ),
            result is Some && old(self).state().position->Some_0.wf() ==> result->Some_0.evaluation
                == node_value(
                rules_of(old(self).spec_judge()),
                old(self).state().position->Some_0,
                DepthScope::spec_from_depth(result->Some_0.meta.spec_depth()),
                MAX_PLIES as nat,
            ),
    {
        proof {
            RandAapJudge::lemma_tame(self.judge);
        }
        let position = match self.position {
            Some(position) => position,
            None => {
                return None;
            },
        };
        if self.previous.exhausted(self.max_nodes, RANDAAP_MAX_DEPTH) {
            return None;
        }
        let mut meta = self.previous.meta;
        let depth = if self.fresh {
            0
        } else {
            meta.get_depth() + 1
        };
        meta.put_depth(depth);
        let mtd = mtd_f::<RandAapJudge, DepthScope>(
            &mut self.judge,
            &position,
            depth,
            self.previous.evaluation,
        );
        meta.add_nodes(mtd.meta.get_nodes());
        self.previous = EngineResult::create(mtd.mv, mtd.evaluation, meta);
        self.fresh = false;
        Some(self.previous)
    }
}

} // verus!
