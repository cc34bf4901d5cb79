use draughts::board::generator::{short_string, Generator};
use draughts::board::mv::Move;
use draughts::board::piece::{BLACK_KING, BLACK_MAN, WHITE_KING, WHITE_MAN};
use draughts::board::position::Position;

fn verify(position: &Position, moves: &[Move]) {
    let legal = Generator::create().legal_moves(position);
    let count = legal.len();
    assert!(count >= moves.len());
    assert!(legal.into_iter().fold(true, |ok, mv| {
        let expected = moves.iter().fold(false, |v, m| v || mv == *m);
        if !expected {
            println!("Unexpected move {}", mv.as_full_string());
        }
        expected && ok
    }));
    assert_eq!(count, moves.len());
}

#[test]
fn one_white_man_side() {
    let position = Position::create().put_piece(35, WHITE_MAN);
    verify(&position, &vec![Move::shift(35, 30)]);
}

#[test]
fn one_white_man_blocked() {
    let position = Position::create()
        .put_piece(35, WHITE_MAN)
        .put_piece(30, BLACK_MAN)
        .put_piece(26, BLACK_MAN);
    verify(&position, &vec![]);
}

#[test]
fn one_white_man_center() {
    let position = Position::create().put_piece(36, WHITE_MAN);
    verify(&position, &vec![Move::shift(36, 30), Move::shift(36, 31)]);
}

#[test]
fn one_black_man_side() {
    let position = Position::create().put_piece(35, BLACK_MAN).toggle_side();
    verify(&position, &vec![Move::shift(35, 40)]);
}

#[test]
fn one_single_capture_white_man() {
    let position = Position::create()
        .put_piece(15, WHITE_MAN)
        .put_piece(40, BLACK_MAN)
        .put_piece(45, WHITE_MAN);
    verify(&position, &vec![Move::take_one(45, 36, 40)]);
}

#[test]
fn one_double_capture_white_man() {
    let position = Position::create()
        .put_piece(15, WHITE_MAN)
        .put_piece(31, BLACK_MAN)
        .put_piece(40, BLACK_MAN)
        .put_piece(45, WHITE_MAN);
    verify(&position, &vec![Move::take(45, 27, &[40, 31])]);
}

#[test]
fn double_and_triple_capture_white_man() {
    let position = Position::create()
        .put_piece(15, WHITE_MAN)
        .put_piece(31, BLACK_MAN)
        .put_piece(40, BLACK_MAN)
        .put_piece(41, BLACK_MAN)
        .put_piece(42, BLACK_MAN)
        .put_piece(45, WHITE_MAN);
    verify(&position, &vec![Move::take(45, 38, &[40, 41, 42])]);
}

#[test]
fn two_captures_white_man() {
    let position = Position::create()
        .put_piece(40, BLACK_MAN)
        .put_piece(41, BLACK_MAN)
        .put_piece(46, WHITE_MAN);
    verify(
        &position,
        &vec![Move::take_one(46, 35, 40), Move::take_one(46, 37, 41)],
    );
}

#[test]
fn two_captures_black_man() {
    let position = Position::create()
        .put_piece(30, WHITE_MAN)
        .put_piece(31, WHITE_MAN)
        .put_piece(36, BLACK_MAN)
        .toggle_side();
    verify(
        &position,
        &vec![Move::take_one(36, 25, 30), Move::take_one(36, 27, 31)],
    );
}

#[test]
fn white_king_moves() {
    let position = Position::create()
        .put_piece(27, BLACK_MAN)
        .put_piece(29, BLACK_MAN)
        .put_piece(32, BLACK_MAN)
        .put_piece(33, BLACK_MAN)
        .put_piece(38, WHITE_MAN)
        .put_piece(43, WHITE_KING);
    verify(
        &position,
        &vec![
            Move::shift(43, 34),
            Move::shift(43, 39),
            Move::shift(43, 48),
            Move::shift(43, 49),
        ],
    );
}

#[test]
fn black_king_moves() {
    let position = Position::create()
        .put_piece(0, BLACK_KING)
        .put_piece(11, WHITE_MAN)
        .put_piece(17, WHITE_KING)
        .toggle_side();
    verify(&position, &vec![Move::shift(0, 5), Move::shift(0, 6)]);
}

#[test]
fn study1() {
    let position = Position::parse("w 5/3be/5/3be/web2/wewbe/ew3/3bb/5/3ww")
        .ok()
        .unwrap()
        .go(&Move::shift(48, 43));
    verify(&position, &vec![Move::take_one(39, 48, 43)]);
}

#[test]
fn study2() {
    let position = Position::parse("w 5/3be/5/3be/web2/wewbe/ew3/3bb/5/3ww")
        .ok()
        .unwrap()
        .go(&Move::shift(48, 43))
        .go(&Move::take_one(39, 48, 43))
        .go(&Move::shift(49, 43));
    verify(&position, &vec![Move::take(48, 15, &[31, 20])]);
}

#[test]
fn study3() {
    let position = Position::parse("w 5/3be/5/3be/web2/wewbe/ew3/3bb/5/3ww")
        .ok()
        .unwrap()
        .go(&Move::shift(48, 43))
        .go(&Move::take_one(39, 48, 43))
        .go(&Move::shift(49, 43))
        .go(&Move::take(48, 15, &[31, 20]))
        .go(&Move::take(43, 38, &[28, 18, 8, 3]));
    verify(&position, &vec![Move::take_one(22, 31, 27)]);
}

#[test]
fn study4() {
    let position = Position::parse("w 5/3be/5/3be/web2/wewbe/ew3/3bb/5/3ww")
        .ok()
        .unwrap()
        .go(&Move::shift(48, 43))
        .go(&Move::take_one(39, 48, 43))
        .go(&Move::shift(49, 43))
        .go(&Move::take(48, 15, &[31, 20]))
        .go(&Move::take(43, 38, &[28, 18, 8, 3]))
        .go(&Move::take_one(22, 31, 27))
        .go(&Move::shift(25, 20));
    verify(&position, &vec![Move::take_one(15, 26, 20)]);
}

#[test]
fn multi_long_capture() {
    let position = Position::parse("w 5/5/3b1/5/5/5/5/1b3/5/W4").ok().unwrap();
    verify(
        &position,
        &vec![Move::take(45, 4, &[36, 13]), Move::take(45, 9, &[36, 13])],
    );
}

#[test]
fn coup_turc() {
    let position = Position::parse("b 5/el2/5/Bebew/2w2/5/eh2/3we/ew3/5")
        .ok()
        .unwrap();
    verify(&position, &vec![Move::take(15, 27, &[31, 38, 19, 22])]);
}

#[test]
fn coup_tour() {
    let position = Position::parse("w 3We/5/5/5/l3/5/l3/ew3/b4/5")
        .ok()
        .unwrap();
    verify(&position, &vec![Move::take(36, 45, &[20, 21, 30, 31, 40])]);
}

#[test]
fn to_start_field() {
    let position = Position::parse("b 2b2/b4/3bb/5/wewww/3we/4B/ww2w/eww2/5")
        .ok()
        .unwrap();
    verify(
        &position,
        &vec![
            Move::take(34, 29, &[39, 42, 22, 23]),
            Move::take(34, 34, &[39, 42, 22, 23]),
        ],
    );
}

#[test]
fn short_from() {
    let gen = Generator::create();
    let position = Position::initial();
    let mv = Move::shift(34, 29);
    assert_eq!("35-", gen.to_short_string(&position, &mv));
}

#[test]
fn short_to() {
    let gen = Generator::create();
    let position = Position::initial();
    let mv = Move::shift(30, 25);
    assert_eq!("-26", gen.to_short_string(&position, &mv));
}

#[test]
fn short_forced() {
    let gen = Generator::create();
    let position = Position::initial()
        .go(&Move::shift(31, 27))
        .go(&Move::shift(18, 22));
    let mv = Move::take_one(27, 18, 22);
    assert_eq!("x", gen.to_short_string(&position, &mv));
}

#[test]
fn initial_position_has_nine_steps() {
    let position = Position::parse("wkkkk55rrrr").ok().unwrap();
    assert!(position == Position::initial());
    let legal = Generator::create().legal_moves(&position);
    assert_eq!(legal.len(), 9);
    assert!(legal.iter().all(|mv| mv.num_taken() == 0));
    verify(
        &position,
        &vec![
            Move::shift(30, 25),
            Move::shift(30, 26),
            Move::shift(31, 26),
            Move::shift(31, 27),
            Move::shift(32, 27),
            Move::shift(32, 28),
            Move::shift(33, 28),
            Move::shift(33, 29),
            Move::shift(34, 29),
        ],
    );
}

#[test]
fn coup_turc_goes_from_field_sixteen_to_field_twenty_eight() {
    let position = Position::parse("b 5/el2/5/Bebew/2w2/5/eh2/3we/ew3/5")
        .ok()
        .unwrap();
    let legal = Generator::create().legal_moves(&position);
    assert_eq!(legal.len(), 1);
    assert_eq!(legal[0].num_taken(), 4);
    assert_eq!(legal[0].from() + 1, 16);
    assert_eq!(legal[0].to() + 1, 28);
}

#[test]
fn captures_are_maximal_and_unique() {
    let gen = Generator::create();
    let position = Position::parse("b 2b2/b4/3bb/5/wewww/3we/4B/ww2w/eww2/5")
        .ok()
        .unwrap();
    let legal = gen.legal_moves(&position);
    for (i, a) in legal.iter().enumerate() {
        assert_eq!(a.num_taken(), 4);
        for b in legal.iter().skip(i + 1) {
            assert!(a != b);
        }
    }
}

#[test]
fn legal_moves2_fills_the_list_anew() {
    let gen = Generator::create();
    let mut list = vec![Move::null(), Move::shift(1, 2)];
    gen.legal_moves2(&Position::initial(), &mut list);
    assert_eq!(list.len(), 9);
    let other = gen.legal_moves(&Position::initial());
    for mv in other.iter() {
        assert!(list.contains(mv));
    }
}

#[test]
fn same_position_gives_same_moves() {
    let gen = Generator::create();
    let mut position = Position::initial();
    for round in 0..60 {
        let a = gen.legal_moves(&position);
        let b = Generator::create().legal_moves(&position);
        assert_eq!(a.len(), b.len());
        for mv in a.iter() {
            assert!(b.contains(mv));
        }
        if a.is_empty() {
            break;
        }
        let next = position.go(&a[round % a.len()]);
        assert!(next.side_to_move() != position.side_to_move());
        assert!(Position::parse(&next.fen()) == Ok(next));
        position = next;
    }
}

#[test]
fn a_king_among_many_men_takes_the_most() {
    let position = Position::parse("w 5/ebebe/5/ebebe/5/ebebe/5/ebebe/5/W4")
        .ok()
        .unwrap();
    let legal = Generator::create().legal_moves(&position);
    assert!(!legal.is_empty());
    let most = legal[0].num_taken();
    assert!(most >= 1 && most <= 8);
    for mv in legal.iter() {
        assert_eq!(mv.num_taken(), most);
        assert_eq!(mv.from(), 45);
        assert_eq!(mv.taken().len(), most as usize);
        for over in mv.taken() {
            assert!(position.piece_at(*over) == BLACK_MAN);
        }
        let after = position.go(mv);
        assert_eq!(after.piece_at(mv.to()), WHITE_KING);
        for over in mv.taken() {
            assert!(after.is_empty(*over));
        }
    }
}

#[test]
fn short_string_of_a_capture_among_several() {
    let gen = Generator::create();
    let position = Position::create()
        .put_piece(40, BLACK_MAN)
        .put_piece(41, BLACK_MAN)
        .put_piece(46, WHITE_MAN);
    assert_eq!(
        gen.to_short_string(&position, &Move::take_one(46, 35, 40)),
        "x36"
    );
    assert_eq!(
        gen.to_short_string(&position, &Move::take_one(46, 37, 41)),
        "x38"
    );
}

#[test]
fn short_string_variants() {
    let all = vec![
        Move::take(45, 4, &[36, 13]),
        Move::take(45, 9, &[36, 13]),
        Move::take(45, 9, &[36, 14]),
        Move::take(40, 4, &[36, 13]),
    ];
    assert_eq!(short_string(&all, &all[3]), "41x");
    assert_eq!(short_string(&all, &all[0]), "46x5");
    assert_eq!(short_string(&all, &all[1]), "46x10x14x37");
    let one = vec![Move::take(45, 4, &[36, 13])];
    assert_eq!(short_string(&one, &one[0]), "xx");
    let step = vec![Move::shift(30, 25)];
    assert_eq!(short_string(&step, &step[0]), "-");
}
