use draughts::board::coords::{max_x, max_y, min_x, min_y, Coords, MinXY};
use draughts::board::position::Field;

#[test]
fn partial_eq() {
    assert_eq!(Coords { x: 1, y: 2 }, Coords { x: 1, y: 2 });
    assert!(Coords { x: 1, y: 2 } == Coords { x: 1, y: 2 });
    assert!(Coords { x: 1, y: 2 } != Coords { x: 2, y: 1 });
}

#[test]
fn into_field() {
    assert_eq!(Field::from(Coords { x: 0, y: 0 }), 45);
    assert_eq!(Field::from(Coords { x: 1, y: 0 }), 40);
    assert_eq!(Field::from(Coords { x: 1, y: 1 }), 35);
    assert_eq!(Field::from(Coords { x: 5, y: 4 }), 0);
    assert_eq!(Field::from(Coords { x: 4, y: -4 }), 49);
    assert_eq!(Field::from(Coords { x: 9, y: 0 }), 4);
}

#[test]
fn from_field() {
    assert_eq!(Coords::from(45), Coords { x: 0, y: 0 });
    assert_eq!(Coords::from(40), Coords { x: 1, y: 0 });
    assert_eq!(Coords::from(35), Coords { x: 1, y: 1 });
    assert_eq!(Coords::from(30), Coords { x: 2, y: 1 });
    assert_eq!(Coords::from(0), Coords { x: 5, y: 4 });
    assert_eq!(Coords::from(49), Coords { x: 4, y: -4 });
    assert_eq!(Coords::from(4), Coords { x: 9, y: 0 });
}

#[test]
fn min_max() {
    assert_eq!(min_x(-4), 4);
    assert_eq!(min_x(0), 0);
    assert_eq!(min_x(1), 1);
    assert_eq!(max_x(-4), 5);
    assert_eq!(max_x(0), 9);
    assert_eq!(max_x(1), 8);
    assert_eq!(min_y(0), 0);
    assert_eq!(min_y(1), -1);
    assert_eq!(min_y(5), -4);
    assert_eq!(max_y(0), 0);
    assert_eq!(max_y(1), 1);
    assert_eq!(max_y(5), 4);
}

#[test]
fn bounds_seen_from_a_square() {
    let c = Coords { x: 3, y: -2 };
    assert_eq!(c.min_x(), 2);
    assert_eq!(c.max_x(), 7);
    assert_eq!(c.min_y(), -3);
    assert_eq!(c.max_y(), 3);
}

#[test]
fn every_field_maps_to_coordinates_and_back() {
    for n in 0..50 {
        let c = Coords::from(n);
        assert!(c.on_board());
        assert_eq!(Field::from(c), n);
    }
}

#[test]
fn squares_off_the_board_are_no_field() {
    assert_eq!(Field::from(Coords { x: 0, y: 1 }), 50);
    assert_eq!(Field::from(Coords { x: 10, y: 0 }), 50);
    assert_eq!(Field::from(Coords { x: -1, y: 0 }), 50);
    assert_eq!(Field::from(Coords { x: 5, y: 5 }), 50);
    assert_eq!(Field::from(Coords { x: 5, y: -128 }), 50);
}
