use draughts::board::decimal::{from_decimal_row, to_decimal, to_decimal_row, to_position};
use draughts::board::generator::Generator;
use draughts::board::mv::Move;
use draughts::board::piece::{BLACK_KING, BLACK_MAN, WHITE_KING, WHITE_MAN};
use draughts::board::position::Position;

#[test]
fn to_decimal_test() {
    let data = to_decimal(&Position::initial());
    assert_eq!(0x2au8, data[0]);
    assert_eq!(0xa0u8, data[1]);
    assert_eq!(0x1, data[15] & 0x1);
}

#[test]
fn initial_roundtrip_test() {
    let initial = Position::initial();
    let d = to_decimal(&initial);
    let p = to_position(&d);
    assert!(initial == p);
}

fn moving_roundtrip_test(pick: &dyn Fn(&[Move]) -> &Move) {
    let generator = Generator::create();
    let mut position = Position::initial();
    let mut i = 0;
    loop {
        i = match i {
            100 => break,
            _ => i + 1,
        };

        let moves = generator.legal_moves(&position);
        if moves.is_empty() {
            break;
        }

        position = position.go(pick(&moves));
        let d = to_decimal(&position);
        let p = to_position(&d);
        assert!(position == p);
    }
}

#[test]
fn moving_roundtrip_first_test() {
    moving_roundtrip_test(&|moves: &[Move]| &moves[0])
}

#[test]
fn moving_roundtrip_last_test() {
    moving_roundtrip_test(&|moves: &[Move]| &moves[moves.len() - 1])
}

#[test]
fn decimal_rows() {
    let position = Position::create()
        .put_piece(0, WHITE_KING)
        .put_piece(4, BLACK_KING)
        .put_piece(5, WHITE_MAN)
        .put_piece(9, BLACK_KING)
        .put_piece(45, WHITE_MAN)
        .put_piece(49, BLACK_KING)
        .toggle_side();
    assert_eq!(to_decimal_row(&position, 0), 256 + 3);
    assert_eq!(to_decimal_row(&position, 5), 625 + 4);
    assert_eq!(to_decimal_row(&position, 10), 0);
    assert_eq!(to_decimal_row(&position, 45), 256 + 3);
    let data = to_decimal(&position);
    assert!(data[0] >= 0x80);
    assert_eq!(data[2] & 0xf0, 0x40);
    assert_eq!(from_decimal_row(&data, 0), 259);
    assert_eq!(from_decimal_row(&data, 1), 629);
    assert_eq!(from_decimal_row(&data, 2), 0);
    assert_eq!(from_decimal_row(&data, 9), 259);
    assert!(to_position(&data) == position);
}

#[test]
fn decimal_loses_men_on_their_far_row() {
    let position = Position::create()
        .put_piece(2, WHITE_MAN)
        .put_piece(3, BLACK_MAN)
        .put_piece(47, BLACK_MAN)
        .put_piece(48, WHITE_MAN);
    let back = to_position(&to_decimal(&position));
    let expected = Position::create()
        .put_piece(3, BLACK_MAN)
        .put_piece(48, WHITE_MAN);
    assert!(back == expected);
}
