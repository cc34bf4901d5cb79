use draughts::board::piece::{BLACK_KING, BLACK_MAN, WHITE_KING, WHITE_MAN};
use draughts::board::position::Position;
use draughts::board::stars::{star, Stars};
use draughts::board::stats::PositionStats;

#[test]
fn corner() {
    assert_eq!(star(0), None)
}

#[test]
fn top() {
    assert_eq!(star(2), None)
}

#[test]
fn bottom() {
    assert_eq!(star(47), None)
}

#[test]
fn odd() {
    assert_eq!(star(7), Some([1, 2, 7, 11, 12]))
}

#[test]
fn even() {
    assert_eq!(star(12), Some([7, 8, 12, 17, 18]))
}

#[test]
fn star_count() {
    assert_eq!((0..50).filter_map(star).count(), 32)
}

#[test]
fn stars_table() {
    let stars = Stars::create();
    assert_eq!(stars.stars.len(), 32);
    assert_eq!(stars.positions.len(), 50);
    assert_eq!(stars.stars[0], [0, 1, 6, 10, 11]);
    assert_eq!(stars.stars[1], [1, 2, 7, 11, 12]);
    assert!(stars.positions[0].contains(&(0, 0)));
    assert_eq!(stars.positions[0].len(), 1);
    assert_eq!(stars.positions[7], vec![(1, 2), (5, 1), (6, 0)]);
    for (field, list) in stars.positions.iter().enumerate() {
        for &(s, index) in list.iter() {
            assert_eq!(stars.stars[s][index], field);
        }
    }
}

#[test]
fn stats_of_initial_position() {
    let stats = PositionStats::for_position(&Position::initial());
    assert_eq!(stats.piece_count, [10, 20, 0, 20, 0]);
    assert_eq!(stats.voffset_white, [5, 5, 5, 5, 0, 0, 0, 0, 0, 0]);
    assert_eq!(stats.voffset_black, [5, 5, 5, 5, 0, 0, 0, 0, 0, 0]);
    assert_eq!(stats.hoffset_white, [2, 2, 2, 2, 2, 2, 2, 2, 2, 2]);
    assert_eq!(stats.hoffset_black, [2, 2, 2, 2, 2, 2, 2, 2, 2, 2]);
    assert_eq!(stats.height_white, 3);
    assert_eq!(stats.height_black, 3);
}

#[test]
fn stats_of_a_few_pieces() {
    let position = Position::create()
        .put_piece(0, BLACK_KING)
        .put_piece(7, BLACK_MAN)
        .put_piece(22, WHITE_MAN)
        .put_piece(44, WHITE_MAN)
        .put_piece(49, WHITE_KING);
    let stats = PositionStats::for_position(&position);
    assert_eq!(stats.piece_count, [45, 2, 1, 1, 1]);
    assert_eq!(stats.voffset_white, [0, 1, 0, 0, 0, 1, 0, 0, 0, 0]);
    assert_eq!(stats.voffset_black, [0, 1, 0, 0, 0, 0, 0, 0, 0, 0]);
    assert_eq!(stats.hoffset_white, [0, 0, 0, 0, 0, 1, 0, 0, 0, 1]);
    assert_eq!(stats.hoffset_black, [0, 0, 0, 0, 0, 1, 0, 0, 0, 0]);
    assert_eq!(stats.height_white, 4);
    assert_eq!(stats.height_black, 0);
}
