use draughts::algorithm::adaptive::AdaptiveScope;
use draughts::algorithm::alphabeta::{
    child_scope, child_score, close_node, find_first, hoist, makes_cut, open_node, search, Opening,
    Tally,
};
use draughts::algorithm::bns::{best_node_search, first_equal, hint_index, BnsState, Round};
use draughts::algorithm::depth::DepthScope;
use draughts::algorithm::judge::{Judge, PositionMemory, MAX_EVAL, MIN_EVAL};
use draughts::algorithm::logarithmic::LogarithmicScope;
use draughts::algorithm::meta::Meta;
use draughts::algorithm::metric::Metric;
use draughts::algorithm::mtdf::{first_or_null, mtd_f, MtdState};
use draughts::algorithm::parallel::{
    in_band, FanAction, FanOut, MAX_DEPTH, MIN_DEPTH, MIN_THREADS,
};
use draughts::algorithm::scope::Scope;
use draughts::algorithm::search::SearchResult;
use draughts::board::mv::Move;
use draughts::board::piece::{BLACK_MAN, WHITE_KING, WHITE_MAN};
use draughts::board::position::Position;
use draughts::engine::randaap::RandAapJudge;
use draughts::engine::sherlock::SherlockJudge;
use draughts::board::generator::Generator;

#[test]
fn up_zero() {
    let initial = BnsState::initial(0, Move::shift(0, 5));
    let next = initial.next(
        2,
        &SearchResult::with_move(Move::shift(1, 5), initial.upper - 1),
    );
    assert_eq!(next.lower, initial.cut);
    assert_eq!(next.upper, initial.upper);
    assert!(next.mv == Move::shift(1, 5));
    assert_eq!(next.count, 1);
}

#[test]
fn up_one() {
    let initial = BnsState::initial(0, Move::shift(0, 5));
    let next = initial.next(
        2,
        &SearchResult::with_move(Move::shift(1, 5), initial.upper - 2),
    );
    assert_eq!(next.lower, initial.cut);
    assert_eq!(next.upper, initial.upper);
    assert!(next.mv == Move::shift(1, 5));
    assert_eq!(next.count, 1);
    assert!(next.cut < next.upper);
}

#[test]
fn up_two() {
    let initial = BnsState::initial(0, Move::shift(0, 5));
    let next = initial.next(2, &SearchResult::with_move(Move::shift(1, 5), 5));
    assert_eq!(next.lower, initial.cut);
    assert_eq!(next.upper, initial.upper);
    assert!(next.mv == Move::shift(1, 5));
    assert_eq!(next.count, 1);
    assert!(next.lower < next.cut);
    assert!(next.cut < next.upper);
}

#[test]
fn down() {
    let initial = BnsState::initial(0, Move::shift(0, 5));
    let next = initial.next(0, &SearchResult::with_move(Move::shift(1, 5), -2));
    assert_eq!(next.lower, initial.lower);
    assert_eq!(next.upper, -1);
    assert!(next.mv == Move::shift(0, 5));
    assert!(next.count > 0);
    assert!(next.lower < next.cut);
    assert!(next.cut < next.upper);
}

#[test]
fn bns_state_ends_when_one_move_beats() {
    let initial = BnsState::initial(10, Move::shift(0, 5));
    let next = initial.next(1, &SearchResult::with_move(Move::shift(1, 6), 40));
    assert_eq!(next.count, 0);
    assert_eq!(next.lower, 10);
    assert_eq!(next.cut, MAX_EVAL);
    let down = BnsState {
        lower: 7,
        upper: 10,
        cut: 9,
        mv: Move::shift(0, 5),
        count: 2,
    }
    .next(0, &SearchResult::with_move(Move::shift(1, 6), 7));
    assert_eq!(down.upper, 8);
    assert_eq!(down.cut, 7);
    assert_eq!(down.count, 0);
    let wide = BnsState {
        lower: 0,
        upper: 10,
        cut: 9,
        mv: Move::shift(0, 5),
        count: 2,
    }
    .next(0, &SearchResult::with_move(Move::shift(1, 6), 20));
    assert_eq!(wide.upper, 9);
    assert_eq!(wide.cut, 8);
    assert_eq!(wide.count, 1);
}

#[test]
fn mtd_state_steps() {
    let initial = MtdState::initial(12);
    assert_eq!(initial.lower, MIN_EVAL);
    assert_eq!(initial.guess, 12);
    assert_eq!(initial.upper, MAX_EVAL + 1);
    assert!(!initial.finished());
    let low = initial.next(5);
    assert_eq!((low.lower, low.guess, low.upper), (MIN_EVAL, 5, 6));
    assert!(!low.finished());
    let high = low.next(5);
    assert_eq!((high.lower, high.guess, high.upper), (5, 6, 6));
    assert!(high.finished());
    let higher = initial.next(30);
    assert_eq!((higher.lower, higher.guess, higher.upper), (30, 31, MAX_EVAL + 1));
    assert!(!higher.finished());
    assert!(initial.next(MAX_EVAL).finished());
}

#[test]
fn depth_scope_steps() {
    let scope = DepthScope::from_depth(2);
    assert_eq!(scope.depth(), 2);
    let one = scope.next(7, true, 0).unwrap();
    assert_eq!(one.depth(), 1);
    let kept = one.next(7, false, 0).unwrap();
    assert_eq!(kept.depth(), 1);
    let zero = one.next(7, true, 0).unwrap();
    assert_eq!(zero.depth(), 0);
    assert!(zero.next(7, true, 0).is_none());
    let forced = zero.next(7, false, 0).unwrap();
    assert_eq!(forced.depth(), 0);
}

#[test]
fn depth_scope_keeps_its_depth_after_a_move_that_is_not_quiet() {
    for depth in [0u8, 1, 2, 5, 255] {
        let scope = DepthScope::from_depth(depth);
        assert_eq!(scope.next(3, false, 0).unwrap().depth(), depth);
        assert_eq!(scope.next(0, false, -40).unwrap().depth(), depth);
        match scope.next(3, true, 0) {
            Some(next) => assert_eq!(next.depth() + 1, depth),
            None => assert_eq!(depth, 0),
        }
    }
}

#[test]
fn logarithmic_scope_stops_where_there_is_no_move() {
    assert!(LogarithmicScope::from_depth(5).next(0, false, 0).is_none());
    assert!(LogarithmicScope::from_depth(5).next(0, true, 0).is_none());
    assert!(LogarithmicScope::from_depth(0).next(0, false, 0).is_none());
}

#[test]
fn adaptive_scope_steps() {
    let scope = AdaptiveScope::from_depth(4);
    assert_eq!(scope.depth(), 4);
    let forced = scope.next(3, false, 0).unwrap();
    assert_eq!(forced.depth(), 4);
    let settled = forced.next(3, true, 10_000).unwrap();
    assert_eq!(settled.depth(), 4);
    let down = settled.next(3, true, 499).unwrap();
    assert_eq!(down.depth(), 1);
    assert!(settled.next(3, true, 500).is_none());
    let quiet = scope.next(3, true, 0).unwrap();
    assert_eq!(quiet.depth(), 3);
    assert!(scope.next(3, true, 500).is_none());
    let bottom = AdaptiveScope::from_depth(0);
    assert!(bottom.next(3, true, 0).is_none());
    assert!(bottom.next(3, false, 0).is_some());
}

#[test]
fn logarithmic_scope_steps() {
    let scope = LogarithmicScope::from_depth(3);
    assert_eq!(scope.depth(), 3);
    let next = scope.next(5, true, 0).unwrap();
    assert_eq!(next.depth(), 2);
    let same = scope.next(1, true, 0).unwrap();
    assert_eq!(same.depth(), 3);
    let between = scope.next(2, false, 0).unwrap();
    assert_eq!(between.depth(), 4);
    assert!(scope.next(126, true, 0).is_none());
    assert!(scope.next(125, true, 0).is_some());
    assert_eq!(LogarithmicScope::from_depth(0).depth(), 0);
    assert_eq!(LogarithmicScope::from_depth(27).depth(), 27);
    assert_eq!(LogarithmicScope::from_depth(200).depth(), 27);
    assert!(LogarithmicScope::from_depth(0).next(2, true, 0).is_none());
}

#[test]
fn meta_counts() {
    let mut meta = Meta::create();
    assert_eq!(meta.get_nodes(), 0);
    assert_eq!(meta.get_depth(), 0);
    meta.add_nodes(5);
    meta.add_nodes(7);
    assert_eq!(meta.get_nodes(), 12);
    meta.put_depth(3);
    meta.put_depth(2);
    assert_eq!(meta.get_depth(), 3);
    meta.add_nodes(usize::MAX);
    assert_eq!(meta.get_nodes(), usize::MAX);
    let mut other = Meta::create();
    Metric::add_nodes(&mut other, 4);
    Metric::put_depth(&mut other, 9);
    assert_eq!(Metric::get_nodes(&other), 4);
    assert_eq!(Metric::get_depth(&other), 9);
}

#[test]
fn memory_and_results() {
    let empty = PositionMemory::empty();
    assert_eq!(empty.depth, 0);
    assert_eq!(empty.lower, MIN_EVAL);
    assert_eq!(empty.upper, MAX_EVAL);
    assert!(!empty.has_move());
    let memory = PositionMemory::create(3, -5, 9, 0, 5);
    assert!(memory.has_move());
    assert_eq!((memory.depth, memory.lower, memory.upper), (3, -5, 9));
    let with = SearchResult::with_move(Move::shift(1, 2), 7);
    assert!(with.mv == Some(Move::shift(1, 2)));
    assert_eq!(with.evaluation, 7);
    let without = SearchResult::evaluation(-3);
    assert!(without.mv.is_none());
    assert_eq!(without.evaluation, -3);
}

#[test]
fn find_first_finds_the_first() {
    let moves = vec![
        Move::shift(30, 25),
        Move::take_one(30, 21, 26),
        Move::shift(30, 25),
    ];
    assert_eq!(find_first(&moves, 30, 25), 0);
    assert_eq!(find_first(&moves, 30, 21), 1);
    assert_eq!(find_first(&moves, 31, 25), 3);
    assert_eq!(first_equal(&moves, &Move::take_one(30, 21, 26)), 1);
    assert_eq!(first_equal(&moves, &Move::take_one(30, 21, 27)), 3);
}

#[test]
fn hoist_puts_the_hint_in_front() {
    let mut moves = vec![
        Move::shift(30, 25),
        Move::shift(30, 26),
        Move::shift(31, 26),
        Move::shift(31, 27),
    ];
    hoist(&mut moves, 31, 26);
    assert!(moves[0] == Move::shift(31, 26));
    assert!(moves[1] == Move::shift(30, 25));
    assert!(moves[2] == Move::shift(30, 26));
    assert!(moves[3] == Move::shift(31, 27));
    hoist(&mut moves, 1, 2);
    assert!(moves[0] == Move::shift(31, 26));
    assert_eq!(moves.len(), 4);
}

#[test]
fn makes_cut_answers_cuts_outside_the_evaluations_at_once() {
    let mut judge = RandAapJudge::create();
    let mut meta = Meta::create();
    let scope = DepthScope::from_depth(3);
    let low = makes_cut(&mut judge, &mut meta, &Position::initial(), &scope, MIN_EVAL);
    assert_eq!(low.evaluation, MIN_EVAL);
    assert!(low.mv.is_none());
    let high = makes_cut(&mut judge, &mut meta, &Position::initial(), &scope, MAX_EVAL + 1);
    assert_eq!(high.evaluation, MAX_EVAL);
    assert!(high.mv.is_none());
    assert_eq!(meta.get_nodes(), 0);
}

#[test]
fn makes_cut_finds_a_capture() {
    let position = Position::create()
        .put_piece(40, BLACK_MAN)
        .put_piece(45, WHITE_MAN)
        .put_piece(0, BLACK_MAN);
    let mut judge = RandAapJudge::create();
    let mut meta = Meta::create();
    let scope = DepthScope::from_depth(1);
    let result = makes_cut(&mut judge, &mut meta, &position, &scope, -100);
    assert!(result.evaluation >= -100);
    assert!(result.mv == Some(Move::take_one(45, 36, 40)));
    assert!(meta.get_nodes() >= 1);
    let lost = Position::create().put_piece(45, WHITE_MAN).toggle_side();
    let result = makes_cut(&mut judge, &mut meta, &lost, &scope, 0);
    assert_eq!(result.evaluation, MIN_EVAL);
    assert!(result.mv.is_none());
}

fn minimax(judge: &RandAapJudge, position: &Position, scope: &DepthScope) -> i16 {
    let moves = judge.moves(position, scope.depth());
    if moves.is_empty() {
        return MIN_EVAL;
    }
    let quiet = judge.quiet_position(position, &moves);
    let current = judge.evaluate(position);
    if scope.next(moves.len(), quiet, 0).is_none() {
        return current;
    }
    let single = moves.len() == 1;
    let mut best = MIN_EVAL;
    for mv in moves.iter() {
        let quiet = !single && judge.quiet_move(position, mv);
        let score = match scope.next(moves.len(), quiet, 0) {
            Some(next) => -minimax(judge, &position.go(mv), &next),
            None => current,
        };
        if score > best {
            best = score;
        }
    }
    best
}

#[test]
fn mtd_f_agrees_with_minimax() {
    let positions = [
        Position::initial(),
        Position::parse("w 5/3be/5/3be/web2/wewbe/ew3/3bb/5/3ww").ok().unwrap(),
        Position::parse("b 5/el2/5/Bebew/2w2/5/eh2/3we/ew3/5").ok().unwrap(),
        Position::create()
            .put_piece(3, BLACK_MAN)
            .put_piece(8, BLACK_MAN)
            .put_piece(28, WHITE_KING)
            .put_piece(44, WHITE_MAN),
    ];
    for position in positions.iter() {
        for depth in 0..4 {
            let mut judge = RandAapJudge::create();
            let expected = minimax(&judge, position, &DepthScope::from_depth(depth));
            for guess in [-200, 0, 37, 15_000] {
                let mtd = mtd_f::<RandAapJudge, DepthScope>(&mut judge, position, depth, guess);
                assert_eq!(mtd.evaluation, expected);
                let scope = DepthScope::from_depth(depth);
                let moves = judge.moves(position, depth);
                let quiet = judge.quiet_position(position, &moves);
                if !moves.is_empty() && scope.next(moves.len(), quiet, 0).is_some() {
                    let quiet = moves.len() != 1 && judge.quiet_move(position, &mtd.mv);
                    let earned = match scope.next(moves.len(), quiet, 0) {
                        Some(next) => -minimax(&judge, &position.go(&mtd.mv), &next),
                        None => judge.evaluate(position),
                    };
                    assert_eq!(earned, expected);
                }
            }
        }
    }
}

#[test]
fn best_node_search_gives_a_legal_move() {
    let position = Position::initial();
    let mut judge = SherlockJudge::create(Generator::create());
    let mut previous = SearchResult::evaluation(0);
    for depth in 0..5 {
        let bns = best_node_search::<SherlockJudge, LogarithmicScope>(
            &mut judge, &position, depth, &previous,
        );
        let legal = Generator::create().legal_moves(&position);
        assert!(legal.contains(&bns.mv));
        assert!(bns.lower >= MIN_EVAL && bns.lower <= MAX_EVAL);
        previous = SearchResult::with_move(bns.mv, bns.lower);
    }
    let lost = Position::create().put_piece(45, WHITE_MAN).toggle_side();
    let bns = best_node_search::<SherlockJudge, LogarithmicScope>(
        &mut judge,
        &lost,
        3,
        &SearchResult::evaluation(0),
    );
    assert_eq!(bns.lower, MIN_EVAL);
    assert!(bns.mv == Move::null());
}

#[test]
fn fan_out_hands_out_and_collects() {
    assert!(in_band(6, 6));
    assert!(in_band(30, 9));
    assert!(!in_band(5, 7));
    assert!(!in_band(6, 5));
    assert!(!in_band(6, 10));
    assert_eq!((MIN_DEPTH, MAX_DEPTH, MIN_THREADS), (6, 9, 6));
    let mut fan = FanOut::start(3, 10);
    assert_eq!(fan.action(2), FanAction::Dispatch(0));
    fan.dispatched();
    assert_eq!(fan.action(1), FanAction::Dispatch(1));
    fan.dispatched();
    assert_eq!(fan.action(0), FanAction::Collect);
    fan.collected(1, Move::shift(1, 6), 4);
    assert_eq!(fan.best(), 4);
    assert!(fan.pending() == Some(Move::shift(1, 6)));
    assert_eq!(fan.action(1), FanAction::Dispatch(2));
    fan.dispatched();
    fan.collected(0, Move::shift(0, 5), 4);
    assert!(fan.pending() == Some(Move::shift(0, 5)));
    fan.collected(2, Move::shift(2, 7), 3);
    assert_eq!(fan.best(), 4);
    assert!(fan.pending() == Some(Move::shift(0, 5)));
    assert_eq!(fan.action(3), FanAction::Finish);
}

#[test]
fn fan_out_stops_handing_out_after_a_cut() {
    let mut fan = FanOut::start(4, 10);
    fan.dispatched();
    fan.dispatched();
    fan.collected(0, Move::shift(0, 5), 12);
    assert!(fan.cutoff);
    assert_eq!(fan.action(5), FanAction::Collect);
    fan.collected(1, Move::shift(1, 6), 20);
    assert_eq!(fan.best(), 20);
    assert!(fan.pending() == Some(Move::shift(1, 6)));
    assert_eq!(fan.action(5), FanAction::Finish);
    let mut none = FanOut::start(1, 10);
    none.dispatched();
    none.collected(0, Move::shift(0, 5), MIN_EVAL);
    assert_eq!(none.best(), MIN_EVAL);
    assert!(none.pending().is_none());
    assert_eq!(FanOut::start(0, 10).action(4), FanAction::Finish);
}

#[test]
fn fan_out_outcome_does_not_depend_on_the_order() {
    let outcomes = [
        (0, Move::shift(0, 5), 7),
        (1, Move::shift(1, 6), 9),
        (2, Move::shift(2, 7), 9),
        (3, Move::shift(3, 8), -4),
    ];
    let orders: [[usize; 4]; 4] = [[0, 1, 2, 3], [3, 2, 1, 0], [2, 0, 3, 1], [1, 3, 0, 2]];
    for order in orders.iter() {
        let mut fan = FanOut::start(4, 100);
        for _ in 0..4 {
            fan.dispatched();
        }
        for &k in order.iter() {
            let (index, mv, score) = outcomes[k];
            fan.collected(index, mv, score);
        }
        assert_eq!(fan.best(), 9);
        assert!(fan.pending() == Some(Move::shift(1, 6)));
    }
}

#[test]
fn node_steps_make_the_search() {
    let position = Position::initial();
    let mut judge = RandAapJudge::create();
    let scope = DepthScope::from_depth(2);
    let mut meta = Meta::create();
    let node = match open_node(&judge, &mut meta, &position, &scope, 5, 10) {
        Opening::Open(node) => node,
        Opening::Settled(_) => panic!("the initial position is open"),
    };
    assert_eq!(meta.get_nodes(), 1);
    assert_eq!(node.moves.len(), 9);
    assert_eq!(node.current_score, 0);
    assert_eq!(node.depth, 2);
    let mut best = MIN_EVAL;
    let mut pending = None;
    for mv in node.moves.iter() {
        let score = child_score(
            &mut judge,
            &mut meta,
            &position,
            mv,
            &scope,
            9,
            node.current_score,
            5,
            10,
        );
        if score > best {
            best = score;
            pending = Some(*mv);
        }
    }
    let closed = close_node(&mut judge, &position, 2, best, pending, 5);
    assert_eq!(closed.evaluation, best);
    assert_eq!(closed.mv.is_some(), best >= 5);
    let mut other = Meta::create();
    let whole = makes_cut(&mut judge, &mut other, &position, &scope, 5);
    assert_eq!(whole.evaluation >= 5, best >= 5);
    let leaf = open_node(&judge, &mut meta, &position, &scope, 5, 0);
    assert!(matches!(leaf, Opening::Settled(outcome) if outcome.evaluation == 0));
}

#[test]
fn round_counts_the_moves_that_beat() {
    let state = BnsState::initial(10, Move::shift(0, 5));
    let mut round = Round::start(&state);
    assert_eq!(round.better_count, 0);
    assert_eq!(round.beta, 9);
    assert_eq!(round.best.evaluation, MIN_EVAL - 1);
    assert!(!round.scored(&state, Move::shift(1, 6), 9));
    assert_eq!(round.better_count, 0);
    assert_eq!(round.best.evaluation, 9);
    assert!(!round.scored(&state, Move::shift(2, 7), 10));
    assert_eq!(round.better_count, 1);
    assert_eq!(round.beta, 10);
    assert!(round.best.mv == Some(Move::shift(2, 7)));
    assert!(!round.scored(&state, Move::shift(3, 8), 10));
    assert_eq!(round.better_count, 1);
    assert!(round.best.mv == Some(Move::shift(2, 7)));
    assert!(round.scored(&state, Move::shift(4, 9), 11));
    assert_eq!(round.better_count, 2);
    assert!(round.best.mv == Some(Move::shift(4, 9)));
}

#[test]
fn hint_is_taken_only_from_a_deeper_search_and_a_move_that_is_there() {
    let moves = vec![Move::shift(30, 25), Move::shift(30, 26), Move::shift(31, 26)];
    let hint = SearchResult::with_move(Move::shift(30, 26), 4);
    assert_eq!(hint_index(&moves, &hint, 2), Some(1));
    assert_eq!(hint_index(&moves, &hint, 1), None);
    assert_eq!(hint_index(&moves, &SearchResult::evaluation(4), 5), None);
    let stale = SearchResult::with_move(Move::shift(33, 28), 4);
    assert_eq!(hint_index(&moves, &stale, 5), None);
}

#[test]
fn child_scope_follows_quietness() {
    let judge = RandAapJudge::create();
    let position = Position::initial();
    let scope = DepthScope::from_depth(0);
    let mv = Move::shift(31, 26);
    assert!(child_scope(&judge, &position, &mv, &scope, 9, 0, 5).is_none());
    assert!(child_scope(&judge, &position, &mv, &scope, 1, 0, 5).is_some());
    let deeper = DepthScope::from_depth(3);
    assert_eq!(
        child_scope(&judge, &position, &mv, &deeper, 9, 0, 5).unwrap().depth(),
        2
    );
    assert_eq!(
        child_scope(&judge, &position, &mv, &deeper, 1, 0, 5).unwrap().depth(),
        3
    );
}

#[test]
fn tally_keeps_the_first_best_move_and_stops_at_the_cut() {
    let mut tally = Tally::start();
    assert_eq!((tally.tried, tally.best), (0, MIN_EVAL));
    assert!(tally.pending.is_none());
    assert!(tally.goes_on(3, 10));
    assert!(!tally.goes_on(0, 10));
    tally.scored(Move::shift(31, 26), 4);
    assert_eq!((tally.tried, tally.best), (1, 4));
    assert!(tally.pending == Some(Move::shift(31, 26)));
    tally.scored(Move::shift(32, 27), 4);
    assert_eq!((tally.tried, tally.best), (2, 4));
    assert!(tally.pending == Some(Move::shift(31, 26)));
    tally.scored(Move::shift(34, 29), -3);
    assert_eq!((tally.tried, tally.best), (3, 4));
    assert!(tally.pending == Some(Move::shift(31, 26)));
    assert!(tally.goes_on(9, 10));
    assert!(!tally.goes_on(3, 10));
    tally.scored(Move::shift(33, 28), 10);
    assert_eq!((tally.tried, tally.best), (4, 10));
    assert!(tally.pending == Some(Move::shift(33, 28)));
    assert!(!tally.goes_on(9, 10));
    assert!(tally.goes_on(9, 11));
}

#[test]
fn tally_takes_the_least_evaluation_as_no_score() {
    let mut tally = Tally::start();
    tally.scored(Move::shift(31, 26), MIN_EVAL);
    assert_eq!((tally.tried, tally.best), (1, MIN_EVAL));
    assert!(tally.pending.is_none());
}

#[test]
fn first_or_null_takes_the_first_move() {
    assert!(first_or_null(&vec![]) == Move::null());
    assert!(first_or_null(&vec![Move::shift(32, 27), Move::shift(31, 26)]) == Move::shift(32, 27));
}

#[test]
fn a_lost_position_is_worth_the_least_and_counts_one_node() {
    let lost = Position::create().put_piece(45, WHITE_MAN).toggle_side();
    for cut in [MIN_EVAL + 1, -5, 0, 700, MAX_EVAL] {
        let mut judge = RandAapJudge::create();
        let mut meta = Meta::create();
        meta.add_nodes(41);
        let scope = DepthScope::from_depth(3);
        let result = makes_cut(&mut judge, &mut meta, &lost, &scope, cut);
        assert_eq!(result.evaluation, MIN_EVAL);
        assert!(result.mv.is_none());
        assert_eq!(meta.get_nodes(), 42);
    }
    for guess in [MIN_EVAL - 3, MIN_EVAL, -200, 0, MAX_EVAL, MAX_EVAL + 9] {
        let mut judge = RandAapJudge::create();
        let mtd = mtd_f::<RandAapJudge, DepthScope>(&mut judge, &lost, 3, guess);
        assert_eq!(mtd.evaluation, MIN_EVAL);
        assert!(mtd.mv == Move::null());
        assert_eq!(mtd.meta.get_nodes(), 1);
    }
}

#[test]
fn a_search_without_levels_left_gives_the_static_value() {
    let position = Position::create()
        .put_piece(40, BLACK_MAN)
        .put_piece(45, WHITE_MAN)
        .put_piece(0, BLACK_MAN);
    let mut judge = RandAapJudge::create();
    let expected = judge.evaluate(&position);
    for cut in [-300, 0, 300] {
        let mut meta = Meta::create();
        let scope = DepthScope::from_depth(4);
        let result = search(&mut judge, &mut meta, &position, &scope, cut, 0);
        assert_eq!(result.evaluation, expected);
        assert!(result.mv.is_none());
        assert_eq!(meta.get_nodes(), 1);
    }
}

#[test]
fn a_search_names_a_move_exactly_where_it_reaches_the_cut() {
    let positions = [
        Position::initial(),
        Position::parse("w 5/3be/5/3be/web2/wewbe/ew3/3bb/5/3ww").ok().unwrap(),
    ];
    for position in positions.iter() {
        for cut in [-400, -1, 0, 1, 400] {
            let mut judge = SherlockJudge::create(Generator::create());
            let mut meta = Meta::create();
            let scope = DepthScope::from_depth(2);
            let result = makes_cut(&mut judge, &mut meta, position, &scope, cut);
            assert_eq!(result.mv.is_some(), result.evaluation >= cut);
        }
    }
}

#[test]
fn a_search_returns_the_first_move_that_reaches_the_cut() {
    let position = Position::parse("w 5/3be/5/3be/web2/wewbe/ew3/3bb/5/3ww").ok().unwrap();
    for depth in 1..4 {
        let scope = DepthScope::from_depth(depth);
        for cut in [-150, -20, 0, 20, 150] {
            let mut judge = RandAapJudge::create();
            let mut meta = Meta::create();
            let result = makes_cut(&mut judge, &mut meta, &position, &scope, cut);
            let moves = judge.moves(&position, depth);
            let single = moves.len() == 1;
            let current = judge.evaluate(&position);
            let values: Vec<i16> = moves
                .iter()
                .map(|mv| {
                    let quiet = !single && judge.quiet_move(&position, mv);
                    match scope.next(moves.len(), quiet, 0) {
                        Some(next) => -minimax(&judge, &position.go(mv), &next),
                        None => current,
                    }
                })
                .collect();
            let first = values.iter().position(|value| *value >= cut);
            match result.mv {
                Some(mv) => assert!(mv == moves[first.unwrap()]),
                None => assert!(first.is_none()),
            }
        }
    }
}

#[test]
fn the_remembered_move_is_tried_first_unless_the_node_is_quiet() {
    let position = Position::initial();
    let mut judge = SherlockJudge::create(Generator::create());
    let scope = DepthScope::from_depth(3);
    let listed = judge.moves(&position, 3);
    let quiet = judge.quiet_position(&position, &listed);
    let hint = listed[5];
    judge.remember(&position, 3, -900, Some(hint), false);
    let relisted = judge.moves(&position, 3);
    let mut meta = Meta::create();
    let node = match open_node(&judge, &mut meta, &position, &scope, 5, 10) {
        Opening::Open(node) => node,
        Opening::Settled(_) => panic!("the initial position is open"),
    };
    let mut expected = relisted.clone();
    if !quiet {
        hoist(&mut expected, hint.from(), hint.to());
    }
    assert!(node.moves == expected);
    assert_eq!(node.quiet, quiet);
    assert_eq!(node.depth, 3);
    assert_eq!(meta.get_nodes(), 1);
}

#[test]
fn best_node_search_finds_a_move_that_no_move_beats() {
    let positions = [
        Position::initial(),
        Position::parse("w 5/3be/5/3be/web2/wewbe/ew3/3bb/5/3ww").ok().unwrap(),
        Position::create()
            .put_piece(3, BLACK_MAN)
            .put_piece(8, BLACK_MAN)
            .put_piece(28, WHITE_KING)
            .put_piece(44, WHITE_MAN),
    ];
    for position in positions.iter() {
        for depth in 0..4 {
            for start in [-90, 0, 55] {
                let mut judge = RandAapJudge::create();
                let bns = best_node_search::<RandAapJudge, DepthScope>(
                    &mut judge,
                    position,
                    depth,
                    &SearchResult::evaluation(start),
                );
                let scope = DepthScope::from_depth(depth);
                let earned = -minimax(&judge, &position.go(&bns.mv), &scope);
                assert!(earned >= bns.lower);
                for other in judge.moves(position, depth).iter() {
                    assert!(-minimax(&judge, &position.go(other), &scope) <= earned);
                }
            }
        }
    }
}

#[test]
fn best_node_search_counts_no_node_where_there_is_no_move() {
    let lost = Position::create().put_piece(45, WHITE_MAN).toggle_side();
    let mut judge = RandAapJudge::create();
    let bns = best_node_search::<RandAapJudge, DepthScope>(
        &mut judge,
        &lost,
        3,
        &SearchResult::with_move(Move::shift(31, 26), 12),
    );
    assert_eq!(bns.lower, MIN_EVAL);
    assert!(bns.mv == Move::null());
    assert_eq!(bns.meta.get_nodes(), 0);
    assert_eq!(bns.meta.get_depth(), 0);
}

#[test]
fn best_node_search_counts_the_node_of_the_hint() {
    let position = Position::initial();
    let mut judge = RandAapJudge::create();
    let hint = SearchResult::with_move(Move::shift(31, 26), 0);
    let bns = best_node_search::<RandAapJudge, DepthScope>(&mut judge, &position, 2, &hint);
    assert!(bns.meta.get_nodes() >= 1);
    assert!(judge.moves(&position, 2).contains(&bns.mv));
}

#[test]
fn a_move_after_which_the_scope_stops_earns_the_static_value() {
    let position = Position::initial();
    let mut judge = RandAapJudge::create();
    let mut meta = Meta::create();
    meta.add_nodes(7);
    let scope = DepthScope::from_depth(0);
    let mv = Move::shift(31, 26);
    let score = child_score(&mut judge, &mut meta, &position, &mv, &scope, 9, 33, 5, 10);
    assert_eq!(score, 33);
    assert_eq!(meta.get_nodes(), 7);
}

#[test]
fn a_search_that_tries_no_move_tells_the_judge_nothing() {
    let lost = Position::create().put_piece(45, WHITE_MAN).toggle_side();
    let mut judge = SherlockJudge::create(Generator::create());
    let mut meta = Meta::create();
    let scope = DepthScope::from_depth(3);
    let result = makes_cut(&mut judge, &mut meta, &lost, &scope, 0);
    assert_eq!(result.evaluation, MIN_EVAL);
    assert_eq!(meta.get_nodes(), 1);
    let memory = judge.recall(&lost, 3);
    assert_eq!((memory.depth, memory.lower, memory.upper), (0, MIN_EVAL, MAX_EVAL));
    let position = Position::initial();
    let result = search(&mut judge, &mut meta, &position, &scope, 0, 0);
    assert!(result.mv.is_none());
    let memory = judge.recall(&position, 3);
    assert_eq!((memory.depth, memory.lower, memory.upper), (0, MIN_EVAL, MAX_EVAL));
    let result = makes_cut(&mut judge, &mut meta, &position, &scope, MIN_EVAL);
    assert_eq!(result.evaluation, MIN_EVAL);
    let memory = judge.recall(&position, 3);
    assert_eq!((memory.depth, memory.lower, memory.upper), (0, MIN_EVAL, MAX_EVAL));
}

#[test]
fn a_search_that_tries_moves_tells_the_judge_the_outcome() {
    let position = Position::initial();
    for cut in [-300, 0, 300] {
        let mut judge = SherlockJudge::create(Generator::create());
        let mut meta = Meta::create();
        let scope = DepthScope::from_depth(3);
        let result = makes_cut(&mut judge, &mut meta, &position, &scope, cut);
        let memory = judge.recall(&position, 3);
        assert_eq!(memory.depth, 3);
        if result.evaluation >= cut {
            assert_eq!((memory.lower, memory.upper), (result.evaluation, MAX_EVAL));
            let mv = result.mv.unwrap();
            assert_eq!((memory.from, memory.to), (mv.from(), mv.to()));
        } else {
            assert_eq!((memory.lower, memory.upper), (MIN_EVAL, result.evaluation));
            assert!(result.mv.is_none());
        }
    }
}
