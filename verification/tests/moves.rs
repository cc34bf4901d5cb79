use draughts::board::mv::Move;

#[test]
fn shift_has_no_captures() {
    let mv = Move::shift(34, 29);
    assert_eq!(mv.from(), 34);
    assert_eq!(mv.to(), 29);
    assert_eq!(mv.num_taken(), 0);
    assert!(mv.taken().is_empty());
    assert!(!mv.goes_via(29));
}

#[test]
fn take_sorts_the_captures() {
    let mv = Move::take(45, 38, &[42, 40, 41]);
    assert_eq!(mv.num_taken(), 3);
    assert_eq!(mv.taken(), &[40, 41, 42]);
    assert!(mv == Move::take(45, 38, &[40, 41, 42]));
    assert!(mv != Move::take(45, 38, &[40, 41]));
    assert!(mv != Move::take(45, 37, &[40, 41, 42]));
    assert!(mv.goes_via(41));
    assert!(!mv.goes_via(45));
}

#[test]
fn take_more_inserts_in_order() {
    let first = Move::take_one(45, 36, 40);
    let second = first.take_more(31, 27);
    assert_eq!(second.from(), 45);
    assert_eq!(second.to(), 27);
    assert_eq!(second.taken(), &[31, 40]);
    let third = second.take_more(35, 22);
    assert_eq!(third.taken(), &[31, 35, 40]);
    let fourth = third.take_more(49, 10);
    assert_eq!(fourth.taken(), &[31, 35, 40, 49]);
    assert_eq!(fourth.num_taken(), 4);
    assert!(fourth == Move::take(45, 10, &[49, 40, 35, 31]));
}

#[test]
fn take_twelve() {
    let all = [12, 11, 10, 9, 8, 7, 6, 5, 4, 3, 2, 1];
    let mv = Move::take(0, 49, &all);
    assert_eq!(mv.num_taken(), 12);
    assert_eq!(mv.taken(), &[1, 2, 3, 4, 5, 6, 7, 8, 9, 10, 11, 12]);
}

#[test]
fn null_move() {
    let mv = Move::null();
    assert_eq!(mv.from(), 50);
    assert_eq!(mv.to(), 50);
    assert_eq!(mv.num_taken(), 0);
    assert!(mv == Move::shift(50, 50));
}

#[test]
fn move_strings() {
    assert_eq!(Move::shift(33, 28).as_string(), "34-29");
    assert_eq!(Move::shift(33, 28).as_full_string(), "34-29");
    assert_eq!(Move::take_one(27, 18, 22).as_string(), "28x19");
    assert_eq!(Move::take_one(27, 18, 22).as_full_string(), "28x19x23");
    assert_eq!(
        Move::take(45, 4, &[36, 13]).as_full_string(),
        "46x5x14x37"
    );
    assert_eq!(Move::shift(0, 9).as_string(), "1-10");
    assert_eq!(Move::shift(99, 100).as_string(), "100-101");
}
