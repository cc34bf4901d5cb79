use draughts::algorithm::bns::best_node_search;
use draughts::algorithm::judge::{Eval, Judge, Judgement, PositionMemory};
use draughts::algorithm::logarithmic::LogarithmicScope;
use draughts::algorithm::mtdf::mtd_f;
use draughts::algorithm::scope::Depth;
use draughts::algorithm::search::SearchResult;
use draughts::board::generator::Generator;
use draughts::board::mv::Move;
use draughts::board::position::Position;
use draughts::engine::sherlock::SherlockJudge;

/// Sherlock without its memory: it recalls nothing and is told nothing.
struct Forgetful {
    inner: SherlockJudge,
    generator: Generator,
}

impl Judgement for Forgetful {
    fn inv(&self) -> bool {
        unreachable!()
    }

    fn spec_evaluate(&self, _: Position) -> Eval {
        unreachable!()
    }

    fn spec_quiet_move(&self, _: Position, _: Move) -> bool {
        unreachable!()
    }

    fn spec_quiet_position(&self, _: Position, _: vstd::seq::Seq<Move>) -> bool {
        unreachable!()
    }

    fn spec_recall(&self, _: Position, _: Depth) -> PositionMemory {
        unreachable!()
    }

    fn keeps_memory(&self) -> bool {
        unreachable!()
    }

    fn spec_remembered(
        &self,
        _: Self,
        _: Position,
        _: Depth,
        _: Eval,
        _: Option<Move>,
        _: bool,
    ) -> bool {
        unreachable!()
    }

    fn spec_consolidated(&self, _: Self) -> bool {
        unreachable!()
    }

    fn spec_learnt(&self, _: Self, _: Self) -> bool {
        unreachable!()
    }

    fn spec_display_name(&self) -> vstd::seq::Seq<char> {
        unreachable!()
    }
}

impl Judge for Forgetful {
    fn recall(&self, _: &Position, _: Depth) -> PositionMemory {
        PositionMemory::empty()
    }

    fn remember(&mut self, _: &Position, _: Depth, _: Eval, _: Option<Move>, _: bool) {}

    fn consolidate(&mut self) {}

    fn learn(&mut self, _: &Self) {}

    fn evaluate(&self, position: &Position) -> Eval {
        self.inner.evaluate(position)
    }

    fn moves(&self, position: &Position, _: Depth) -> Vec<Move> {
        self.generator.legal_moves(position)
    }

    fn display_name(&self) -> &str {
        "Forgetful"
    }

    fn quiet_move(&self, position: &Position, mv: &Move) -> bool {
        self.inner.quiet_move(position, mv)
    }

    fn quiet_position(&self, position: &Position, moves: &[Move]) -> bool {
        self.inner.quiet_position(position, moves)
    }
}

fn forgetful() -> Forgetful {
    Forgetful {
        inner: SherlockJudge::create(Generator::create()),
        generator: Generator::create(),
    }
}

fn line_of_play(len: usize) -> Vec<Position> {
    let generator = Generator::create();
    let mut position = Position::initial();
    let mut line = Vec::new();
    for round in 0..len {
        let moves = generator.legal_moves(&position);
        if moves.is_empty() {
            break;
        }
        line.push(position);
        position = position.go(&moves[(round * 7) % moves.len()]);
    }
    line
}

#[test]
fn a_shallow_best_node_search_finds_the_same_with_and_without_memory() {
    for position in line_of_play(12).iter() {
        for depth in 2..5 {
            let mut with = SherlockJudge::create(Generator::create());
            let mut without = forgetful();
            let start = SearchResult::evaluation(0);
            let a = best_node_search::<SherlockJudge, LogarithmicScope>(
                &mut with, position, depth, &start,
            );
            let b = best_node_search::<Forgetful, LogarithmicScope>(
                &mut without,
                position,
                depth,
                &start,
            );
            assert!(a.mv == b.mv);
            assert_eq!(a.lower, b.lower);
        }
    }
}

#[test]
fn a_shallow_mtd_f_finds_the_same_value_with_and_without_memory() {
    for position in line_of_play(12).iter() {
        for depth in 2..5 {
            let mut with = SherlockJudge::create(Generator::create());
            let mut without = forgetful();
            let a = mtd_f::<SherlockJudge, LogarithmicScope>(&mut with, position, depth, 0);
            let b = mtd_f::<Forgetful, LogarithmicScope>(&mut without, position, depth, 0);
            assert_eq!(a.evaluation, b.evaluation);
        }
    }
}
