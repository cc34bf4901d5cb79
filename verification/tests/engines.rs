use draughts::algorithm::judge::{Judge, PositionMemory, MAX_EVAL, MIN_EVAL};
use draughts::algorithm::meta::Meta;
use draughts::board::generator::Generator;
use draughts::board::mv::Move;
use draughts::board::piece::{BLACK_KING, BLACK_MAN, WHITE_KING, WHITE_MAN};
use draughts::board::position::Position;
use draughts::engine::randaap::{RandAap, RandAapJudge};
use draughts::engine::sherlock::{hint_first, star_eval, Sherlock, SherlockJudge};
use draughts::engine::slonenok::{Slonenok, SlonenokJudge};
use draughts::engine::table::{HashEval, Table};
use draughts::engine::{Engine, EngineResult};

#[test]
fn engine_result_empty() {
    let empty = EngineResult::empty();
    assert!(empty.mv == Move::null());
    assert_eq!(empty.evaluation, 0);
    assert_eq!(empty.meta.get_nodes(), 0);
    assert!(!empty.exhausted(1, 27));
    assert!(empty.exhausted(0, 27));
    let mut meta = Meta::create();
    meta.put_depth(28);
    let deep = EngineResult::create(Move::shift(1, 2), 5, meta);
    assert!(deep.exhausted(10, 27));
    assert!(!deep.exhausted(10, 63));
    assert!(EngineResult::create(Move::shift(1, 2), MAX_EVAL, Meta::create()).exhausted(10, 27));
    assert!(EngineResult::create(Move::shift(1, 2), MIN_EVAL, Meta::create()).exhausted(10, 27));
}

#[test]
fn randaap_values_material() {
    let judge = RandAapJudge::create();
    assert_eq!(judge.evaluate(&Position::initial()), 0);
    let white = Position::create()
        .put_piece(47, WHITE_MAN)
        .put_piece(20, WHITE_MAN)
        .put_piece(21, WHITE_MAN)
        .put_piece(22, WHITE_MAN)
        .put_piece(2, BLACK_MAN);
    assert_eq!(judge.evaluate(&white), 4 * 500 + 50 + 1 - 500 - 50);
    assert_eq!(judge.evaluate(&white.toggle_side()), -(4 * 500 + 50 + 1 - 500 - 50));
    let few = Position::create()
        .put_piece(47, WHITE_MAN)
        .put_piece(0, BLACK_KING);
    assert_eq!(judge.evaluate(&few), (500 + 50 - 1500) / 10);
    assert_eq!(judge.evaluate(&few.toggle_side()), 95);
    assert_eq!(judge.display_name(), "RandAap");
    assert!(judge.quiet_move(&white, &Move::shift(47, 41)));
    assert!(!judge.quiet_move(&white, &Move::take_one(47, 36, 41)));
    let mut crowded = Position::create();
    for f in 0..50 {
        crowded = crowded.put_piece(f, WHITE_KING);
    }
    assert_eq!(judge.evaluate(&crowded), MAX_EVAL);
    assert_eq!(judge.evaluate(&crowded.toggle_side()), MIN_EVAL);
}

#[test]
fn randaap_deepens_step_by_step() {
    let mut engine = RandAap::create(10_000);
    assert!(engine.next().is_none());
    engine.set_position(&Position::initial());
    let mut results = Vec::new();
    while let Some(result) = engine.next() {
        results.push(result);
        assert!(results.len() < 100);
    }
    assert!(!results.is_empty());
    for (depth, result) in results.iter().enumerate() {
        assert_eq!(result.meta.get_depth() as usize, depth);
        if depth > 0 {
            assert!(result.meta.get_nodes() >= results[depth - 1].meta.get_nodes());
            assert!(results[depth - 1].meta.get_nodes() < 10_000);
        }
        let legal = Generator::create().legal_moves(&Position::initial());
        assert!(legal.contains(&result.mv));
    }
    let last = results.last().unwrap();
    assert!(last.evaluation >= -50 && last.evaluation <= 50);
    assert!(last.meta.get_nodes() >= 10_000);
    assert!(engine.next().is_none());
    engine.set_position(&Position::initial());
    assert_eq!(engine.next().unwrap().meta.get_depth(), 0);
    assert_eq!(engine.display_name(), "RandAap");
}

#[test]
fn sherlock_deepens_step_by_step() {
    let mut engine = Sherlock::create(10_000);
    assert!(engine.next().is_none());
    engine.set_position(&Position::initial());
    let mut results = Vec::new();
    while let Some(result) = engine.next() {
        results.push(result);
        assert!(results.len() < 100);
    }
    assert!(!results.is_empty());
    for (depth, result) in results.iter().enumerate() {
        assert_eq!(result.meta.get_depth() as usize, depth);
        if depth > 0 {
            assert!(result.meta.get_nodes() >= results[depth - 1].meta.get_nodes());
            assert!(results[depth - 1].meta.get_nodes() < 10_000);
        }
        let legal = Generator::create().legal_moves(&Position::initial());
        assert!(legal.contains(&result.mv));
    }
    let last = results.last().unwrap();
    assert!(last.evaluation >= -50 && last.evaluation <= 50);
    assert_eq!(engine.display_name(), "Sherlock");
}

#[test]
fn engine_stops_on_a_lost_position() {
    let lost = Position::create().put_piece(45, WHITE_MAN).toggle_side();
    let mut engine = Sherlock::create(1_000);
    engine.set_position(&lost);
    let first = engine.next().unwrap();
    assert_eq!(first.evaluation, MIN_EVAL);
    assert!(first.mv == Move::null());
    assert!(engine.next().is_none());
    let mut other = RandAap::create(1_000);
    other.set_position(&lost);
    let first = other.next().unwrap();
    assert_eq!(first.evaluation, MIN_EVAL);
    assert!(first.mv == Move::null());
    assert!(other.next().is_none());
}

#[test]
fn sherlock_values() {
    let judge = SherlockJudge::create(Generator::create());
    assert_eq!(judge.evaluate(&Position::initial()), 0);
    assert_eq!(judge.evaluate(&Position::initial().toggle_side()), 0);
    let kings = Position::create()
        .put_piece(0, WHITE_KING)
        .put_piece(49, BLACK_KING)
        .put_piece(48, BLACK_MAN);
    // material -500, no development of white, black man on its eighth row
    // counted from its side is row 9: 32 * (0 - 9) / 2 = -144; balance and
    // centre of the black man in column 2: +48 and -6
    assert_eq!(judge.evaluate(&kings), (-500 - 144 + 48 - 6) / 100);
    let man = Position::create().put_piece(27, WHITE_MAN);
    // one white man: 500; row 4 from its side: 31 * 4 / 2 = 62; column 5:
    // balance -10, centre +10
    assert_eq!(judge.evaluate(&man), 500 + 62 - 10 + 10);
    assert_eq!(judge.evaluate(&man.toggle_side()), -(500 + 62 - 10 + 10));
    assert!(judge.quiet_move(&man, &Move::shift(27, 22)));
    let near = Position::create().put_piece(12, WHITE_MAN);
    assert!(!judge.quiet_move(&near, &Move::shift(12, 7)));
    assert!(judge.quiet_move(&near, &Move::shift(17, 12)));
    assert!(!judge.quiet_move(&near, &Move::take_one(27, 16, 21)));
}

#[test]
fn star_values() {
    assert_eq!(star_eval(0), 0);
    // a lone white man in the middle: isolated
    assert_eq!(star_eval(9), -50);
    // a lone black man in the middle
    assert_eq!(star_eval(18), 50);
    // white man with two white men behind it
    assert_eq!(star_eval(9 + 27 + 81), 19);
    // and two black men in front of it: locked
    assert_eq!(star_eval(2 + 6 + 9 + 27 + 81), -300);
    // white man with one black man in front
    assert_eq!(star_eval(2 + 9), -49);
    // white man with two white men in front and none behind: hanging
    assert_eq!(star_eval(1 + 3 + 9), -25);
    // one behind, two in front
    assert_eq!(star_eval(1 + 3 + 9 + 27), -5);
    // two behind, one in front
    assert_eq!(star_eval(1 + 9 + 27 + 81), 31);
    // one behind, one in front
    assert_eq!(star_eval(1 + 9 + 27), 16);
    // black man with two black men behind (above) it
    assert_eq!(star_eval(2 + 6 + 18), -19);
}

#[test]
fn sherlock_remembers() {
    let mut judge = SherlockJudge::create(Generator::create());
    let position = Position::initial();
    assert!(!judge.recall(&position, 3).has_move());
    judge.remember(&position, 3, 12, Some(Move::shift(31, 26)), false);
    let memory = judge.recall(&position, 3);
    assert_eq!((memory.depth, memory.lower, memory.upper), (3, 12, MAX_EVAL));
    assert_eq!((memory.from, memory.to), (31, 26));
    assert_eq!(judge.recall(&position, 1).depth, 0);
    judge.remember(&position, 3, 20, None, true);
    let memory = judge.recall(&position, 3);
    assert_eq!((memory.lower, memory.upper), (12, 20));
    assert_eq!((memory.from, memory.to), (31, 26));
    judge.remember(&position, 2, -7, None, true);
    assert_eq!(judge.recall(&position, 2).depth, 3);
    judge.remember(&position, 4, -7, None, true);
    let memory = judge.recall(&position, 2);
    assert_eq!((memory.depth, memory.lower, memory.upper), (4, MIN_EVAL, -7));
    assert_eq!((memory.from, memory.to), (0, 0));
    assert!(!memory.has_move());
    let shallow = judge.recall(&position, 5);
    assert_eq!((shallow.depth, shallow.lower, shallow.upper), (0, MIN_EVAL, MAX_EVAL));
    assert!(!shallow.has_move());
    let moves = judge.moves(&position, 3);
    assert_eq!(moves.len(), 9);
    judge.consolidate();
    assert_eq!(judge.recall(&position, 2).depth, 4);
    judge.reset();
    assert_eq!(judge.recall(&position, 2).depth, 4);
    judge.reset();
    assert_eq!(judge.recall(&position, 2).depth, 0);
}

#[test]
fn sherlock_tries_the_remembered_move_first() {
    let mut judge = SherlockJudge::create(Generator::create());
    let position = Position::initial();
    let plain = judge.moves(&position, 3);
    let hint = plain[4];
    judge.remember(&position, 3, 12, Some(hint), false);
    let hinted = judge.moves(&position, 3);
    assert!(hinted[0] == hint);
    assert!(hinted[4] == plain[0]);
    assert_eq!(hinted.len(), plain.len());
}

#[test]
fn table_merges_entries() {
    let mut table = Table::create();
    let p = Position::initial();
    let q = p.toggle_side();
    assert!(table.get(&p).is_none());
    let shallow = HashEval { lower: -5, upper: 40, depth: 2, from: 0, to: 0, generation: 1 };
    table.upsert(&p, shallow);
    assert_eq!(table.get(&p), Some(shallow));
    assert!(table.get(&q).is_none());
    let same = HashEval { lower: 3, upper: 50, depth: 2, from: 31, to: 26, generation: 2 };
    table.upsert(&p, same);
    assert_eq!(
        table.get(&p),
        Some(HashEval { lower: 3, upper: 40, depth: 2, from: 31, to: 26, generation: 2 })
    );
    let lesser = HashEval { lower: 9, upper: 9, depth: 1, from: 1, to: 2, generation: 3 };
    table.upsert(&p, lesser);
    assert_eq!(table.get(&p).unwrap().depth, 2);
    assert_eq!(table.get(&p).unwrap().generation, 2);
    let deeper = HashEval { lower: 9, upper: 9, depth: 5, from: 1, to: 2, generation: 3 };
    table.upsert(&p, deeper);
    assert_eq!(table.get(&p), Some(deeper));
    table.upsert(&q, shallow);
    let mut other = Table::create();
    other.upsert(&q, same);
    let r = Position::create();
    other.upsert(&r, lesser);
    table.absorb(&mut other);
    assert!(other.get(&q).is_none());
    assert!(other.get(&r).is_none());
    assert_eq!(table.get(&r), Some(lesser));
    assert_eq!(table.get(&q).unwrap().lower, 3);
    assert_eq!(table.get(&q).unwrap().upper, 40);
    table.retain(3);
    assert_eq!(table.get(&p), Some(deeper));
    assert_eq!(table.get(&r), Some(lesser));
    assert!(table.get(&q).is_none());
}

#[test]
fn table_holds_many_positions() {
    let generator = Generator::create();
    let mut table = Table::create();
    let mut position = Position::initial();
    let mut seen = Vec::new();
    for round in 0..80 {
        let moves = generator.legal_moves(&position);
        if moves.is_empty() {
            break;
        }
        let entry = HashEval {
            lower: round,
            upper: round,
            depth: 1,
            from: 0,
            to: 0,
            generation: 0,
        };
        if !seen.contains(&position) {
            table.upsert(&position, entry);
            seen.push(position);
        }
        position = position.go(&moves[(round as usize * 7) % moves.len()]);
    }
    for (i, p) in seen.iter().enumerate() {
        let found = table.get(p).unwrap();
        assert!(found.lower as usize >= i);
        assert_eq!(found.depth, 1);
    }
}

#[test]
fn slonenok_values() {
    let judge = SlonenokJudge::create(Generator::create());
    assert_eq!(judge.evaluate(&Position::initial()), 0);
    let man = Position::create().put_piece(27, WHITE_MAN);
    // one white man: 500; column 5: 15; row 4 on an empty board: 5; wing
    // weight 2, counted twice against
    assert_eq!(judge.evaluate(&man), 500 + 15 + 5 - 4);
    assert_eq!(judge.evaluate(&man.toggle_side()), -(500 + 15 + 5 - 4));
    let corner = Position::create()
        .put_piece(4, BLACK_MAN)
        .put_piece(45, WHITE_MAN);
    assert_eq!(judge.evaluate_structure(&corner), 0);
    assert_eq!(
        judge.evaluate_structure(&Position::create().put_piece(4, BLACK_MAN)),
        15
    );
    let hanging = Position::create()
        .put_piece(10, BLACK_MAN)
        .put_piece(11, BLACK_MAN)
        .put_piece(5, BLACK_MAN);
    assert_eq!(judge.evaluate_structure(&hanging), 100);
    let fork = Position::create()
        .put_piece(10, BLACK_MAN)
        .put_piece(11, BLACK_MAN)
        .put_piece(20, WHITE_MAN)
        .put_piece(21, WHITE_MAN)
        .put_piece(16, WHITE_MAN);
    assert_eq!(judge.evaluate_structure(&fork), -100);
    let kings = Position::create()
        .put_piece(0, WHITE_KING)
        .put_piece(1, WHITE_KING)
        .put_piece(49, BLACK_KING)
        .put_piece(30, WHITE_MAN)
        .put_piece(31, WHITE_MAN);
    // 4000 - 1500 + columns 1 + 1 (fields 30 and 31: columns 1 and 3)...
    let value = judge.evaluate(&kings);
    assert!(value > 1000 && value < 2000);
    assert!(!judge.quiet_move(&man, &Move::shift(27, 22)));
    assert_eq!(judge.display_name(), "Slonënok");
}

#[test]
fn slonenok_orders_moves_and_remembers() {
    let mut judge = SlonenokJudge::create(Generator::create());
    let position = Position::initial();
    let moves = judge.moves(&position, 3);
    assert_eq!(moves.len(), 9);
    for pair in moves.windows(2) {
        assert!(pair[0].to() <= pair[1].to());
    }
    let killer = Move::shift(34, 29);
    judge.remember(&position, 3, 5, Some(killer), false);
    let moves = judge.moves(&position, 3);
    assert!(moves[0] == killer);
    for pair in moves[1..].windows(2) {
        assert!(pair[0].to() <= pair[1].to());
    }
    let memory = judge.recall(&position, 1);
    assert_eq!((memory.depth, memory.lower, memory.upper), (3, 5, MAX_EVAL));
    assert_eq!((memory.from, memory.to), (34, 29));
    judge.remember(&position, 3, 9, None, true);
    let memory = judge.recall(&position, 3);
    assert_eq!((memory.lower, memory.upper), (5, 9));
    let shallow = judge.recall(&position, 9);
    assert_eq!((shallow.depth, shallow.lower, shallow.upper), (0, MIN_EVAL, MAX_EVAL));
    assert!(!shallow.has_move());
    let black = position.go(&killer);
    let replies = judge.moves(&black, 3);
    for pair in replies.windows(2) {
        assert!(pair[0].to() >= pair[1].to());
    }
    judge.reset();
    assert_eq!(judge.recall(&position, 1).depth, 0);
    assert!(judge.moves(&position, 3)[0] == killer);
}

#[test]
fn slonenok_deepens_step_by_step() {
    let mut engine = Slonenok::create(10_000);
    assert!(engine.next().is_none());
    engine.set_position(&Position::initial());
    let mut results = Vec::new();
    while let Some(result) = engine.next() {
        results.push(result);
        assert!(results.len() < 100);
    }
    assert!(!results.is_empty());
    for (depth, result) in results.iter().enumerate() {
        assert_eq!(result.meta.get_depth() as usize, depth);
        let legal = Generator::create().legal_moves(&Position::initial());
        assert!(legal.contains(&result.mv));
    }
    let last = results.last().unwrap();
    assert!(last.evaluation >= -50 && last.evaluation <= 50);
}

#[test]
fn sherlock_fork_starts_with_an_empty_memory() {
    let mut judge = SherlockJudge::create(Generator::create());
    let position = Position::initial();
    judge.remember(&position, 3, 12, Some(Move::shift(31, 26)), false);
    judge.reset();
    let mut worker = judge.fork();
    assert_eq!(worker.recall(&position, 3).depth, 0);
    assert_eq!(worker.evaluate(&position), judge.evaluate(&position));
    worker.remember(&position, 4, 1, None, true);
    assert_eq!(worker.recall(&position, 3).depth, 4);
    assert_eq!(judge.recall(&position, 3).depth, 3);
    worker.consolidate();
    worker.reset();
    assert_eq!(worker.recall(&position, 3).depth, 4);
}

#[test]
fn names_of_judges_and_engines() {
    assert_eq!(RandAapJudge::create().display_name(), "RandAap");
    assert_eq!(RandAap::create(1).display_name(), "RandAap");
    assert_eq!(
        SherlockJudge::create(Generator::create()).display_name(),
        "Sherlock"
    );
    assert_eq!(Sherlock::create(1).display_name(), "Sherlock");
    assert_eq!(
        SlonenokJudge::create(Generator::create()).display_name(),
        "Slonënok"
    );
    assert_eq!(Slonenok::create(1).display_name(), "Slonënok");
}

#[test]
fn table_merge_takes_over_what_the_other_holds() {
    let p = Position::initial();
    let q = p.toggle_side();
    let r = Position::create();
    let mut table = Table::create();
    let kept = HashEval { lower: -5, upper: 40, depth: 2, from: 0, to: 0, generation: 1 };
    let deep = HashEval { lower: 7, upper: 7, depth: 6, from: 31, to: 26, generation: 1 };
    table.upsert(&p, kept);
    table.upsert(&q, deep);
    let mut other = Table::create();
    let same = HashEval { lower: 3, upper: 50, depth: 2, from: 31, to: 26, generation: 2 };
    let shallow = HashEval { lower: 9, upper: 9, depth: 1, from: 1, to: 2, generation: 3 };
    other.upsert(&p, same);
    other.upsert(&q, shallow);
    other.upsert(&r, shallow);
    table.merge(&other);
    assert_eq!(
        table.get(&p),
        Some(HashEval { lower: 3, upper: 40, depth: 2, from: 31, to: 26, generation: 2 })
    );
    assert_eq!(table.get(&q), Some(deep));
    assert_eq!(table.get(&r), Some(shallow));
    assert_eq!(other.get(&p), Some(same));
    assert_eq!(other.get(&q), Some(shallow));
    assert_eq!(other.get(&r), Some(shallow));
    table.merge(&Table::create());
    assert_eq!(table.get(&q), Some(deep));
}

#[test]
fn update_follows_the_merge_rule() {
    let known = HashEval { lower: 5, upper: 10, depth: 3, from: 31, to: 26, generation: 1 };
    let mut entry = known;
    entry.update(&HashEval { lower: 7, upper: 20, depth: 3, from: 32, to: 27, generation: 2 });
    assert_eq!(
        entry,
        HashEval { lower: 7, upper: 10, depth: 3, from: 31, to: 26, generation: 2 }
    );
    let mut entry = known;
    entry.update(&HashEval { lower: -9, upper: 8, depth: 3, from: 0, to: 0, generation: 2 });
    assert_eq!(
        entry,
        HashEval { lower: 5, upper: 8, depth: 3, from: 31, to: 26, generation: 2 }
    );
    let mut entry = known;
    entry.update(&HashEval { lower: 12, upper: 15, depth: 3, from: 0, to: 0, generation: 2 });
    assert_eq!((entry.lower, entry.upper), (12, 10));
    assert!(entry.crossed());
    let mut entry = known;
    entry.update(&HashEval { lower: 1, upper: 3, depth: 3, from: 0, to: 0, generation: 2 });
    assert_eq!((entry.lower, entry.upper), (5, 3));
    let mut entry = known;
    let deeper = HashEval { lower: 12, upper: 15, depth: 4, from: 0, to: 0, generation: 2 };
    entry.update(&deeper);
    assert_eq!(entry, deeper);
    let mut entry = known;
    entry.update(&HashEval { lower: 12, upper: 15, depth: 2, from: 32, to: 27, generation: 2 });
    assert_eq!(entry, known);
    let mut entry = HashEval { lower: 5, upper: 10, depth: 3, from: 0, to: 0, generation: 1 };
    entry.update(&HashEval { lower: 5, upper: 10, depth: 3, from: 32, to: 27, generation: 1 });
    assert_eq!((entry.from, entry.to), (32, 27));
}

#[test]
fn an_entry_whose_bounds_cross_answers_nothing() {
    let sound = HashEval { lower: 5, upper: 10, depth: 3, from: 31, to: 26, generation: 1 };
    assert!(!sound.crossed());
    let memory = sound.answer();
    assert_eq!((memory.depth, memory.lower, memory.upper), (3, 5, 10));
    assert_eq!((memory.from, memory.to), (31, 26));
    let point = HashEval { lower: 7, upper: 7, depth: 3, from: 31, to: 26, generation: 1 };
    assert!(!point.crossed());
    assert_eq!(point.answer().lower, 7);
    let crossed = HashEval { lower: 12, upper: 10, depth: 3, from: 31, to: 26, generation: 1 };
    assert!(crossed.crossed());
    let memory = crossed.answer();
    assert_eq!((memory.depth, memory.lower, memory.upper), (0, MIN_EVAL, MAX_EVAL));
    assert!(!memory.has_move());
    let seen = crossed.as_memory();
    assert_eq!((seen.depth, seen.lower, seen.upper), (3, 12, 10));
}

#[test]
fn bounds_that_cross_are_kept_and_recalled_as_nothing() {
    let p = Position::initial();
    let mut table = Table::create();
    table.upsert(&p, HashEval { lower: 10, upper: 20, depth: 2, from: 31, to: 26, generation: 0 });
    table.upsert(&p, HashEval { lower: 30, upper: 40, depth: 2, from: 0, to: 0, generation: 0 });
    let found = table.get(&p).unwrap();
    assert_eq!((found.lower, found.upper), (30, 20));
    assert_eq!((found.from, found.to), (31, 26));
    let mut judge = SherlockJudge::create(Generator::create());
    judge.remember(&p, 3, 50, None, false);
    assert_eq!(judge.recall(&p, 3).lower, 50);
    judge.remember(&p, 3, 20, None, true);
    let memory = judge.recall(&p, 3);
    assert_eq!((memory.depth, memory.lower, memory.upper), (0, MIN_EVAL, MAX_EVAL));
    assert!(memory.lower <= memory.upper);
    judge.remember(&p, 4, 20, None, true);
    let memory = judge.recall(&p, 3);
    assert_eq!((memory.depth, memory.lower, memory.upper), (4, MIN_EVAL, 20));
    let mut judge = SlonenokJudge::create(Generator::create());
    judge.remember(&p, 3, -50, None, true);
    judge.remember(&p, 3, 20, None, false);
    let memory = judge.recall(&p, 3);
    assert_eq!((memory.depth, memory.lower, memory.upper), (0, MIN_EVAL, MAX_EVAL));
    assert!(!memory.has_move());
}

#[test]
fn recall_gives_only_what_is_deep_enough() {
    let position = Position::initial();
    let mut judge = SherlockJudge::create(Generator::create());
    judge.remember(&position, 4, 12, Some(Move::shift(31, 26)), false);
    for depth in 2..=4 {
        let memory = judge.recall(&position, depth);
        assert_eq!((memory.depth, memory.lower, memory.upper), (4, 12, MAX_EVAL));
        assert_eq!((memory.from, memory.to), (31, 26));
    }
    for depth in [5, 6, 40] {
        let memory = judge.recall(&position, depth);
        assert_eq!((memory.depth, memory.lower, memory.upper), (0, MIN_EVAL, MAX_EVAL));
        assert!(!memory.has_move());
    }
    judge.consolidate();
    assert_eq!(judge.recall(&position, 4).depth, 4);
    assert_eq!(judge.recall(&position, 5).depth, 0);
    let mut other = SlonenokJudge::create(Generator::create());
    other.remember(&position, 4, 12, Some(Move::shift(31, 26)), false);
    assert_eq!(other.recall(&position, 4).lower, 12);
    assert_eq!(other.recall(&position, 5).lower, MIN_EVAL);
    assert_eq!(other.recall(&position, 5).depth, 0);
}

#[test]
fn judges_learn_what_another_has_consolidated() {
    let position = Position::initial();
    let mut first = SherlockJudge::create(Generator::create());
    let mut second = first.fork();
    first.remember(&position, 4, 12, Some(Move::shift(31, 26)), false);
    second.learn(&first);
    assert_eq!(second.recall(&position, 4).depth, 0);
    first.consolidate();
    second.learn(&first);
    let memory = second.recall(&position, 4);
    assert_eq!((memory.depth, memory.lower, memory.upper), (4, 12, MAX_EVAL));
    assert_eq!((memory.from, memory.to), (31, 26));
    assert_eq!(first.recall(&position, 4).depth, 4);
    let mut third = SlonenokJudge::create(Generator::create());
    let mut fourth = SlonenokJudge::create(Generator::create());
    third.remember(&position, 3, -8, None, true);
    fourth.learn(&third);
    let memory = fourth.recall(&position, 3);
    assert_eq!((memory.depth, memory.lower, memory.upper), (3, MIN_EVAL, -8));
}

#[test]
fn a_new_position_empties_the_memory_of_slonenok() {
    let position = Position::initial();
    let mut judge = SlonenokJudge::create(Generator::create());
    judge.remember(&position, 3, 5, Some(Move::shift(34, 29)), false);
    assert_eq!(judge.recall(&position, 3).depth, 3);
    judge.reset();
    assert_eq!(judge.recall(&position, 3).depth, 0);
    assert!(!judge.recall(&position, 3).has_move());
}

#[test]
fn hint_first_swaps_the_hint_with_the_first_move() {
    let listed = vec![
        Move::shift(31, 26),
        Move::shift(31, 27),
        Move::shift(32, 27),
        Move::shift(32, 28),
    ];
    let mut moves = listed.clone();
    hint_first(&mut moves, &PositionMemory::create(3, MIN_EVAL, MAX_EVAL, 32, 27));
    assert!(moves == vec![listed[2], listed[1], listed[0], listed[3]]);
    let mut moves = listed.clone();
    hint_first(&mut moves, &PositionMemory::create(3, MIN_EVAL, MAX_EVAL, 31, 26));
    assert!(moves == listed);
    let mut moves = listed.clone();
    hint_first(&mut moves, &PositionMemory::create(3, MIN_EVAL, MAX_EVAL, 40, 35));
    assert!(moves == listed);
    let mut moves = listed.clone();
    hint_first(&mut moves, &PositionMemory::empty());
    assert!(moves == listed);
    let mut none: Vec<Move> = Vec::new();
    hint_first(&mut none, &PositionMemory::create(3, MIN_EVAL, MAX_EVAL, 32, 27));
    assert!(none.is_empty());
}
