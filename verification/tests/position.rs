use draughts::board::array::ArrayPosition;
use draughts::board::bitboard::BitboardPosition;
use draughts::board::coded::CodedPosition;
use draughts::board::mv::Move;
use draughts::board::Take;
use draughts::board::piece::{
    color, piece_is, piece_own, Color, BLACK_KING, BLACK_MAN, EMPTY, WHITE_KING, WHITE_MAN,
};
use draughts::board::position::{promote, FenError, Position};

#[test]
fn position_create() {
    let empty = Position::create();
    assert_eq!(empty.side_to_move(), Color::White);
    assert_eq!(empty.piece_at(0), EMPTY);
    assert_eq!(empty.piece_at(19), EMPTY);
    assert_eq!(empty.piece_at(23), EMPTY);
    assert_eq!(empty.piece_at(30), EMPTY);
    assert_eq!(empty.piece_at(49), EMPTY);
}

#[test]
fn position_put_one_piece() {
    let position = Position::create().put_piece(31, WHITE_MAN);
    assert_eq!(position.side_to_move(), Color::White);
    assert_eq!(position.piece_at(25), EMPTY);
    assert_eq!(position.piece_at(30), EMPTY);
    assert_eq!(position.piece_at(31), WHITE_MAN);
    assert_eq!(position.piece_at(32), EMPTY);
    assert_eq!(position.piece_at(35), EMPTY);
}

#[test]
fn position_put_pieces_in_same_row() {
    let position = Position::create()
        .put_piece(31, WHITE_MAN)
        .put_piece(32, BLACK_MAN)
        .put_piece(33, BLACK_KING);
    assert_eq!(position.side_to_move(), Color::White);
    assert_eq!(position.piece_at(25), EMPTY);
    assert_eq!(position.piece_at(30), EMPTY);
    assert_eq!(position.piece_at(31), WHITE_MAN);
    assert_eq!(position.piece_at(32), BLACK_MAN);
    assert_eq!(position.piece_at(33), BLACK_KING);
    assert_eq!(position.piece_at(35), EMPTY);
}

#[test]
fn position_put_pieces_in_distinct_rows() {
    let position = Position::create()
        .put_piece(6, WHITE_MAN)
        .put_piece(16, BLACK_MAN)
        .put_piece(11, BLACK_MAN);
    assert_eq!(position.side_to_move(), Color::White);
    assert_eq!(position.piece_at(0), EMPTY);
    assert_eq!(position.piece_at(5), EMPTY);
    assert_eq!(position.piece_at(6), WHITE_MAN);
    assert_eq!(position.piece_at(7), EMPTY);
    assert_eq!(position.piece_at(10), EMPTY);
    assert_eq!(position.piece_at(11), BLACK_MAN);
    assert_eq!(position.piece_at(12), EMPTY);
    assert_eq!(position.piece_at(15), EMPTY);
    assert_eq!(position.piece_at(16), BLACK_MAN);
    assert_eq!(position.piece_at(17), EMPTY);
    assert_eq!(position.piece_at(20), EMPTY);
}

#[test]
fn position_initial() {
    let initial = Position::initial();
    assert_eq!(initial.side_to_move(), Color::White);
    assert_eq!(initial.piece_at(0), BLACK_MAN);
    assert_eq!(initial.piece_at(19), BLACK_MAN);
    assert_eq!(initial.piece_at(23), EMPTY);
    assert_eq!(initial.piece_at(30), WHITE_MAN);
    assert_eq!(initial.piece_at(49), WHITE_MAN);
}

#[test]
fn position_toggle_side() {
    let black = Position::create().toggle_side();
    assert_eq!(black.side_to_move(), Color::Black);
}

#[test]
fn promotion() {
    let position = Position::create()
        .put_piece(1, BLACK_MAN)
        .put_piece(5, WHITE_MAN)
        .go(&Move::shift(5, 0));
    assert_eq!(position.side_to_move(), Color::Black);
    assert_eq!(position.piece_at(0), WHITE_KING);
    assert_eq!(position.piece_at(1), BLACK_MAN);
    assert_eq!(position.piece_at(5), EMPTY);
}

#[test]
fn from_fen() {
    let constructed = Position::create()
        .put_piece(1, BLACK_MAN)
        .put_piece(5, WHITE_MAN)
        .put_piece(11, BLACK_KING)
        .put_piece(15, WHITE_KING)
        .toggle_side();
    match Position::parse("bebeeeweeeeeBeeeWeeeeeeeeeeeeeeeeeeeeeeeeeeeeeeeeee") {
        Err(msg) => {
            println!("{}", msg);
            assert!(false);
        }
        Ok(parsed) => assert!(constructed == parsed),
    }
}

#[test]
fn as_fen() {
    let constructed = Position::create()
        .put_piece(1, BLACK_MAN)
        .put_piece(5, WHITE_MAN)
        .put_piece(11, BLACK_KING)
        .put_piece(15, WHITE_KING)
        .toggle_side();
    assert_eq!(
        "bebeeeweeeeeBeeeWeeeeeeeeeeeeeeeeeeeeeeeeeeeeeeeeee",
        constructed.fen()
    );
}

#[test]
fn from_sfen() {
    let constructed = Position::create()
        .put_piece(1, BLACK_MAN)
        .put_piece(5, WHITE_MAN)
        .put_piece(11, BLACK_KING)
        .put_piece(15, WHITE_KING)
        .toggle_side();
    match Position::parse("beb3w41B3W4555555") {
        Err(msg) => {
            println!("{}", msg);
            assert!(false);
        }
        Ok(parsed) => assert!(constructed == parsed),
    }
}

#[test]
fn from_ufen() {
    let constructed = Position::create()
        .put_piece(1, BLACK_MAN)
        .put_piece(5, WHITE_MAN)
        .put_piece(6, WHITE_MAN)
        .put_piece(7, WHITE_MAN)
        .put_piece(11, BLACK_KING)
        .put_piece(15, WHITE_KING)
        .toggle_side();
    match Position::parse("beb3i21B3W4555555") {
        Err(msg) => {
            println!("{}", msg);
            assert!(false);
        }
        Ok(parsed) => assert!(constructed == parsed),
    }
}

#[test]
fn goerres_bayar() {
    let spaced = match Position::parse("w ce/bea/k/a2/2b2/5/r/r/et/eie") {
        Err(msg) => {
            println!("{}", msg);
            assert!(false);
            None
        }
        Ok(parsed) => Some(parsed),
    };
    let small = match Position::parse("wcebeaka22b25rreteie") {
        Err(msg) => {
            println!("{}", msg);
            assert!(false);
            None
        }
        Ok(parsed) => Some(parsed),
    };
    assert!(spaced == small);
}

#[test]
fn as_sfen() {
    let constructed = Position::create()
        .put_piece(1, BLACK_MAN)
        .put_piece(5, WHITE_MAN)
        .put_piece(11, BLACK_KING)
        .put_piece(15, WHITE_KING)
        .toggle_side();
    assert_eq!("beb3w4eB3W4555555", constructed.sfen());
}

#[test]
fn as_ascii() {
    match Position::parse("w 5/4b/b4/5/2w2/bewwb/2w2/ewebe/3be/ew3") {
        Ok(position) => {
            let ascii = position.ascii();
            println!("\r\n{}\r\n", ascii);
            assert_eq!(ascii.len(), 313);
        }
        Err(msg) => {
            println!("{}", msg);
            assert!(false);
        }
    }
}

#[test]
fn ascii_rows_and_marker() {
    let white = Position::create().put_piece(0, BLACK_KING).put_piece(49, WHITE_MAN);
    let drawing = white.ascii();
    let rows: Vec<&str> = drawing.split("\r\n").collect();
    assert_eq!(rows.len(), 11);
    assert_eq!(rows[0], "   BB    ..    ..    ..    ..");
    assert_eq!(rows[9], "..    ..    ..    ..    ww     *");
    assert_eq!(rows[10], "");
    let black = white.toggle_side().ascii();
    let rows: Vec<&str> = black.split("\r\n").collect();
    assert_eq!(rows[0], "   BB    ..    ..    ..    ..  *");
    assert_eq!(rows[9], "..    ..    ..    ..    ww   ");
}

#[test]
fn as_hfen() {
    assert_eq!(
        Position::initial().hfen(),
        "Wbbbbbbbbbbbbbbbbbbbbeeeeeeeeeewwwwwwwwwwwwwwwwwwww"
    );
    assert_eq!(
        Position::create().toggle_side().hfen(),
        "Beeeeeeeeeeeeeeeeeeeeeeeeeeeeeeeeeeeeeeeeeeeeeeeeee"
    );
}

#[test]
fn sfen_of_initial_position() {
    assert_eq!(
        Position::initial().sfen(),
        "wbbbbbbbbbbbbbbbbbbbb55wwwwwwwwwwwwwwwwwwww"
    );
    assert_eq!(Position::create().sfen(), "w5555555555");
}

#[test]
fn parse_errors() {
    assert_eq!(Position::parse("w5555"), Err(String::from("Invalid length")));
    assert_eq!(
        Position::parse("x5555555555"),
        Err(String::from("Invalid side to move"))
    );
    assert_eq!(
        Position::parse("w5555555555e"),
        Err(String::from("Too many fields"))
    );
    assert_eq!(
        Position::parse("w555555555?"),
        Err(String::from("Invalid piece at 10"))
    );
    assert_eq!(
        Position::parse("w55555555/4"),
        Err(String::from("Insufficient number of fields: 44"))
    );
    assert_eq!(
        Position::parse("w/////////////"),
        Err(String::from("Insufficient number of fields: 0"))
    );
}

#[test]
fn parse_error_kinds() {
    assert!(matches!(Position::parse_text("w"), Err(FenError::InvalidLength)));
    assert!(matches!(
        Position::parse_text("W5555555555"),
        Err(FenError::InvalidSide)
    ));
    assert!(matches!(
        Position::parse_text("b55555555555"),
        Err(FenError::TooManyFields)
    ));
    assert!(matches!(
        Position::parse_text("b5555z555555"),
        Err(FenError::InvalidPiece(5))
    ));
    assert!(matches!(
        Position::parse_text("b 5/5/5/5/5/5/5/5/5/"),
        Err(FenError::InsufficientFields(45))
    ));
    assert_eq!(FenError::InvalidPiece(12).message(), "Invalid piece at 12");
}

#[test]
fn parse_runs_of_kings_and_separators() {
    let parsed = Position::parse("b E|K |HTAe/LC3Ie/5552").ok().unwrap();
    assert_eq!(parsed.side_to_move(), Color::Black);
    for f in 0..5 {
        assert_eq!(parsed.piece_at(f), WHITE_KING);
    }
    for f in 5..10 {
        assert_eq!(parsed.piece_at(f), BLACK_KING);
    }
    assert_eq!(parsed.piece_at(10), WHITE_KING);
    assert_eq!(parsed.piece_at(11), WHITE_KING);
    assert_eq!(parsed.piece_at(15), WHITE_KING);
    assert_eq!(parsed.piece_at(16), BLACK_KING);
    assert_eq!(parsed.piece_at(18), BLACK_KING);
    assert_eq!(parsed.piece_at(19), EMPTY);
    assert_eq!(parsed.piece_at(20), BLACK_KING);
    assert_eq!(parsed.piece_at(25), BLACK_KING);
    assert_eq!(parsed.piece_at(26), EMPTY);
    assert_eq!(parsed.piece_at(29), WHITE_KING);
    assert_eq!(parsed.piece_at(32), EMPTY);
}

#[test]
fn fen_round_trip() {
    let positions = [
        Position::initial(),
        Position::create(),
        Position::create().toggle_side(),
        Position::parse("b 5/el2/5/Bebew/2w2/5/eh2/3we/ew3/5").ok().unwrap(),
        Position::parse("w 3We/5/5/5/l3/5/l3/ew3/b4/5").ok().unwrap(),
    ];
    for p in positions.iter() {
        assert!(Position::parse(&p.fen()) == Ok(*p));
        assert!(Position::parse(&p.sfen()) == Ok(*p));
    }
}

#[test]
fn go_toggles_the_side() {
    let p = Position::initial();
    let q = p.go(&Move::shift(31, 27));
    assert_eq!(q.side_to_move(), Color::Black);
    assert_eq!(q.piece_at(31), EMPTY);
    assert_eq!(q.piece_at(27), WHITE_MAN);
    let r = q.go(&Move::shift(18, 22));
    assert_eq!(r.side_to_move(), Color::White);
    let t = r.go(&Move::take_one(27, 18, 22));
    assert_eq!(t.side_to_move(), Color::Black);
    assert_eq!(t.piece_at(27), EMPTY);
    assert_eq!(t.piece_at(22), EMPTY);
    assert_eq!(t.piece_at(18), WHITE_MAN);
}

#[test]
fn go_with_no_move_passes_the_turn() {
    let p = Position::initial();
    let q = p.go(&Move::null());
    assert!(q == p.toggle_side());
}

#[test]
fn go_promotes_at_the_end_only() {
    let p = Position::create().put_piece(44, BLACK_MAN).toggle_side();
    let q = p.go(&Move::shift(44, 49));
    assert_eq!(q.piece_at(49), BLACK_KING);
    let back = Position::create()
        .put_piece(34, BLACK_MAN)
        .put_piece(39, WHITE_MAN)
        .put_piece(38, WHITE_MAN)
        .toggle_side();
    let after = back.go(&Move::take(34, 32, &[39, 38]));
    assert_eq!(after.piece_at(32), BLACK_MAN);
    assert_eq!(after.piece_at(39), EMPTY);
    assert_eq!(after.piece_at(38), EMPTY);
}

#[test]
fn promote_on_far_rank() {
    assert_eq!(promote(4, WHITE_MAN), WHITE_KING);
    assert_eq!(promote(5, WHITE_MAN), WHITE_MAN);
    assert_eq!(promote(45, BLACK_MAN), BLACK_KING);
    assert_eq!(promote(44, BLACK_MAN), BLACK_MAN);
    assert_eq!(promote(0, BLACK_MAN), BLACK_MAN);
    assert_eq!(promote(49, WHITE_MAN), WHITE_MAN);
    assert_eq!(promote(0, WHITE_KING), WHITE_KING);
    assert_eq!(promote(0, EMPTY), EMPTY);
}

#[test]
fn put_piece_with_unknown_code() {
    let p = Position::create().put_piece(7, 9);
    assert_eq!(p.piece_at(7), BLACK_KING);
    assert!(p == Position::create().put_piece(7, BLACK_KING));
}

#[test]
fn is_empty_tells_empty_fields() {
    let p = Position::initial();
    assert!(!p.is_empty(0));
    assert!(p.is_empty(25));
    assert!(!p.is_empty(49));
}

#[test]
fn colors_of_pieces() {
    assert_eq!(color(WHITE_MAN), Some(Color::White));
    assert_eq!(color(WHITE_KING), Some(Color::White));
    assert_eq!(color(BLACK_MAN), Some(Color::Black));
    assert_eq!(color(BLACK_KING), Some(Color::Black));
    assert_eq!(color(EMPTY), None);
    assert_eq!(color(7), None);
    assert_eq!(piece_own(WHITE_MAN, &Color::White), Some(true));
    assert_eq!(piece_own(WHITE_MAN, &Color::Black), Some(false));
    assert_eq!(piece_own(EMPTY, &Color::Black), None);
    assert!(piece_is(BLACK_KING, &Color::Black));
    assert!(!piece_is(BLACK_KING, &Color::White));
    assert!(!piece_is(EMPTY, &Color::White));
}

#[test]
fn array_create() {
    let empty = ArrayPosition::create();
    assert_eq!(empty.side_to_move(), Color::White);
    assert_eq!(empty.piece_at(0), EMPTY);
    assert_eq!(empty.piece_at(19), EMPTY);
    assert_eq!(empty.piece_at(23), EMPTY);
    assert_eq!(empty.piece_at(30), EMPTY);
    assert_eq!(empty.piece_at(49), EMPTY);
}

#[test]
fn array_put_one_piece() {
    let position = ArrayPosition::create().put_piece(31, WHITE_MAN);
    assert_eq!(position.side_to_move(), Color::White);
    assert_eq!(position.piece_at(25), EMPTY);
    assert_eq!(position.piece_at(30), EMPTY);
    assert_eq!(position.piece_at(31), WHITE_MAN);
    assert_eq!(position.piece_at(32), EMPTY);
    assert_eq!(position.piece_at(35), EMPTY);
}

#[test]
fn array_put_pieces_in_same_row() {
    let position = ArrayPosition::create()
        .put_piece(31, WHITE_MAN)
        .put_piece(32, BLACK_MAN);
    assert_eq!(position.side_to_move(), Color::White);
    assert_eq!(position.piece_at(25), EMPTY);
    assert_eq!(position.piece_at(30), EMPTY);
    assert_eq!(position.piece_at(31), WHITE_MAN);
    assert_eq!(position.piece_at(32), BLACK_MAN);
    assert_eq!(position.piece_at(33), EMPTY);
    assert_eq!(position.piece_at(35), EMPTY);
}

#[test]
fn array_put_pieces_in_distinct_rows() {
    let position = ArrayPosition::create()
        .put_piece(6, WHITE_MAN)
        .put_piece(16, BLACK_MAN)
        .put_piece(11, BLACK_MAN);
    assert_eq!(position.side_to_move(), Color::White);
    assert_eq!(position.piece_at(0), EMPTY);
    assert_eq!(position.piece_at(5), EMPTY);
    assert_eq!(position.piece_at(6), WHITE_MAN);
    assert_eq!(position.piece_at(7), EMPTY);
    assert_eq!(position.piece_at(10), EMPTY);
    assert_eq!(position.piece_at(11), BLACK_MAN);
    assert_eq!(position.piece_at(12), EMPTY);
    assert_eq!(position.piece_at(15), EMPTY);
    assert_eq!(position.piece_at(16), BLACK_MAN);
    assert_eq!(position.piece_at(17), EMPTY);
    assert_eq!(position.piece_at(20), EMPTY);
}

#[test]
fn array_initial() {
    let initial = ArrayPosition::initial();
    assert_eq!(initial.side_to_move(), Color::White);
    assert_eq!(initial.piece_at(0), BLACK_MAN);
    assert_eq!(initial.piece_at(19), BLACK_MAN);
    assert_eq!(initial.piece_at(23), EMPTY);
    assert_eq!(initial.piece_at(30), WHITE_MAN);
    assert_eq!(initial.piece_at(49), WHITE_MAN);
}

#[test]
fn array_toggle_side() {
    let black = ArrayPosition::create().toggle_side();
    assert_eq!(black.side_to_move(), Color::Black);
}

#[test]
fn array_equality() {
    let a = ArrayPosition::create().put_piece(3, BLACK_KING);
    let b = ArrayPosition::create().put_piece(3, BLACK_KING);
    assert!(a == b);
    assert!(a != b.toggle_side());
    assert!(a != b.put_piece(4, WHITE_MAN));
    assert!(a == b.put_piece(4, WHITE_MAN).put_piece(4, EMPTY));
}

#[test]
fn bitboard_create() {
    let empty = BitboardPosition::create();
    assert_eq!(empty.side_to_move(), Color::White);
    assert_eq!(empty.piece_at(0), EMPTY);
    assert_eq!(empty.piece_at(19), EMPTY);
    assert_eq!(empty.piece_at(23), EMPTY);
    assert_eq!(empty.piece_at(30), EMPTY);
    assert_eq!(empty.piece_at(49), EMPTY);
}

#[test]
fn bitboard_put_one_piece() {
    let position = BitboardPosition::create().put_piece(31, WHITE_MAN);
    assert_eq!(position.side_to_move(), Color::White);
    assert_eq!(position.piece_at(25), EMPTY);
    assert_eq!(position.piece_at(30), EMPTY);
    assert_eq!(position.piece_at(31), WHITE_MAN);
    assert_eq!(position.piece_at(32), EMPTY);
    assert_eq!(position.piece_at(35), EMPTY);
}

#[test]
fn bitboard_put_pieces_in_same_row() {
    let position = BitboardPosition::create()
        .put_piece(31, WHITE_MAN)
        .put_piece(32, BLACK_MAN)
        .put_piece(33, BLACK_KING);
    assert_eq!(position.side_to_move(), Color::White);
    assert_eq!(position.piece_at(25), EMPTY);
    assert_eq!(position.piece_at(30), EMPTY);
    assert_eq!(position.piece_at(31), WHITE_MAN);
    assert_eq!(position.piece_at(32), BLACK_MAN);
    assert_eq!(position.piece_at(33), BLACK_KING);
    assert_eq!(position.piece_at(35), EMPTY);
}

#[test]
fn bitboard_put_pieces_in_distinct_rows() {
    let position = BitboardPosition::create()
        .put_piece(6, WHITE_MAN)
        .put_piece(16, BLACK_MAN)
        .put_piece(11, BLACK_MAN);
    assert_eq!(position.side_to_move(), Color::White);
    assert_eq!(position.piece_at(0), EMPTY);
    assert_eq!(position.piece_at(5), EMPTY);
    assert_eq!(position.piece_at(6), WHITE_MAN);
    assert_eq!(position.piece_at(7), EMPTY);
    assert_eq!(position.piece_at(10), EMPTY);
    assert_eq!(position.piece_at(11), BLACK_MAN);
    assert_eq!(position.piece_at(12), EMPTY);
    assert_eq!(position.piece_at(15), EMPTY);
    assert_eq!(position.piece_at(16), BLACK_MAN);
    assert_eq!(position.piece_at(17), EMPTY);
    assert_eq!(position.piece_at(20), EMPTY);
}

#[test]
fn bitboard_initial() {
    let initial = BitboardPosition::initial();
    assert_eq!(initial.side_to_move(), Color::White);
    assert_eq!(initial.piece_at(0), BLACK_MAN);
    assert_eq!(initial.piece_at(19), BLACK_MAN);
    assert_eq!(initial.piece_at(23), EMPTY);
    assert_eq!(initial.piece_at(30), WHITE_MAN);
    assert_eq!(initial.piece_at(49), WHITE_MAN);
}

#[test]
fn bitboard_toggle_side() {
    let black = BitboardPosition::create().toggle_side();
    assert_eq!(black.side_to_move(), Color::Black);
}

#[test]
fn coded_create() {
    let empty = CodedPosition::create();
    assert_eq!(empty.side_to_move(), Color::White);
    assert_eq!(empty.piece_at(0), EMPTY);
    assert_eq!(empty.piece_at(19), EMPTY);
    assert_eq!(empty.piece_at(23), EMPTY);
    assert_eq!(empty.piece_at(30), EMPTY);
    assert_eq!(empty.piece_at(49), EMPTY);
}

#[test]
fn coded_put_one_piece() {
    let position = CodedPosition::create().put_piece(31, WHITE_MAN);
    assert_eq!(position.side_to_move(), Color::White);
    assert_eq!(position.piece_at(25), EMPTY);
    assert_eq!(position.piece_at(30), EMPTY);
    assert_eq!(position.piece_at(31), WHITE_MAN);
    assert_eq!(position.piece_at(32), EMPTY);
    assert_eq!(position.piece_at(35), EMPTY);
}

#[test]
fn coded_put_pieces_in_same_row() {
    let position = CodedPosition::create()
        .put_piece(31, WHITE_MAN)
        .put_piece(32, BLACK_MAN);
    assert_eq!(position.side_to_move(), Color::White);
    assert_eq!(position.piece_at(25), EMPTY);
    assert_eq!(position.piece_at(30), EMPTY);
    assert_eq!(position.piece_at(31), WHITE_MAN);
    assert_eq!(position.piece_at(32), BLACK_MAN);
    assert_eq!(position.piece_at(33), EMPTY);
    assert_eq!(position.piece_at(35), EMPTY);
}

#[test]
fn coded_put_pieces_in_distinct_rows() {
    let position = CodedPosition::create()
        .put_piece(6, WHITE_MAN)
        .put_piece(16, BLACK_MAN)
        .put_piece(11, BLACK_MAN);
    assert_eq!(position.side_to_move(), Color::White);
    assert_eq!(position.piece_at(0), EMPTY);
    assert_eq!(position.piece_at(5), EMPTY);
    assert_eq!(position.piece_at(6), WHITE_MAN);
    assert_eq!(position.piece_at(7), EMPTY);
    assert_eq!(position.piece_at(10), EMPTY);
    assert_eq!(position.piece_at(11), BLACK_MAN);
    assert_eq!(position.piece_at(12), EMPTY);
    assert_eq!(position.piece_at(15), EMPTY);
    assert_eq!(position.piece_at(16), BLACK_MAN);
    assert_eq!(position.piece_at(17), EMPTY);
    assert_eq!(position.piece_at(20), EMPTY);
}

#[test]
fn coded_initial() {
    let initial = CodedPosition::initial();
    assert_eq!(initial.side_to_move(), Color::White);
    assert_eq!(initial.piece_at(0), BLACK_MAN);
    assert_eq!(initial.piece_at(19), BLACK_MAN);
    assert_eq!(initial.piece_at(23), EMPTY);
    assert_eq!(initial.piece_at(30), WHITE_MAN);
    assert_eq!(initial.piece_at(49), WHITE_MAN);
}

#[test]
fn coded_toggle_side() {
    let black = CodedPosition::create().toggle_side();
    assert_eq!(black.side_to_move(), Color::Black);
}

#[test]
fn coded_holds_every_piece_on_every_field() {
    let mut position = CodedPosition::create().toggle_side();
    for f in 0..50 {
        position = position.put_piece(f, (f % 5) as u8);
    }
    for f in 0..50 {
        assert_eq!(position.piece_at(f), (f % 5) as u8);
    }
    position = position.put_piece(24, BLACK_KING).put_piece(25, BLACK_KING);
    assert_eq!(position.piece_at(24), BLACK_KING);
    assert_eq!(position.piece_at(25), BLACK_KING);
    assert_eq!(position.piece_at(23), 3);
    assert_eq!(position.piece_at(26), 1);
    assert_eq!(position.side_to_move(), Color::Black);
    assert!(position == position.toggle_side().toggle_side());
}

#[test]
fn num_taken_of_written_out_moves() {
    assert_eq!(draughts::board::Move::Shift(1, 2).num_taken(), 0);
    assert_eq!(draughts::board::Move::Take1(1, 2, 3).num_taken(), 1);
    assert_eq!(draughts::board::Move::Take4(1, 2, 3, 4, 5, 6).num_taken(), 4);
    assert_eq!(draughts::board::Move::Take8(1, 2, 3, 4, 5, 6, 7, 8, 9, 10).num_taken(), 8);
}

#[test]
fn keys_of_equal_positions_are_equal() {
    let a = Position::initial().go(&Move::shift(31, 27));
    let b = Position::initial().go(&Move::shift(31, 27));
    assert_eq!(a.key(), b.key());
    assert!(a.key() != Position::initial().key());
    assert!(a.key() != a.toggle_side().key());
}
