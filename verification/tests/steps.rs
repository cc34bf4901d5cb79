use draughts::board::steps::{black_steps, long_steps, short_jumps, white_steps, Steps};

#[test]
fn white_steps_side() {
    let steps = white_steps(35);
    assert_eq!(steps.len(), 1);
    for step in steps.into_iter() {
        assert!(match step {
            30 => true,
            _ => false,
        });
    }
}

#[test]
fn white_steps_center() {
    let steps = white_steps(36);
    assert_eq!(steps.len(), 2);
    for step in steps.into_iter() {
        assert!(match step {
            30 | 31 => true,
            _ => false,
        });
    }
}

#[test]
fn black_steps_side() {
    let steps = black_steps(35);
    assert_eq!(steps.len(), 1);
    for step in steps.into_iter() {
        assert!(match step {
            40 => true,
            _ => false,
        });
    }
}

#[test]
fn black_steps_center() {
    let steps = black_steps(36);
    assert_eq!(steps.len(), 2);
    for step in steps.into_iter() {
        assert!(match step {
            40 | 41 => true,
            _ => false,
        });
    }
}

#[test]
fn short_jumps_side() {
    let steps = short_jumps(30);
    assert_eq!(steps.len(), 2);
    for step in steps.into_iter() {
        assert!(match step {
            (26, 21) | (36, 41) => true,
            _ => false,
        });
    }
}

#[test]
fn short_jumps_center() {
    let steps = short_jumps(31);
    assert_eq!(steps.len(), 4);
    for step in steps.into_iter() {
        assert!(match step {
            (26, 20) | (27, 22) | (36, 40) | (37, 42) => true,
            _ => false,
        });
    }
}

#[test]
fn long_steps_side() {
    let steps = long_steps(30);
    assert_eq!(steps.len(), 11);
    for step in steps.into_iter() {
        assert!(match step {
            25 | 26 | 21 | 17 | 12 | 8 | 3 | 35 | 36 | 41 | 47 => true,
            _ => false,
        });
    }
}

#[test]
fn long_steps_center() {
    let steps = long_steps(31);
    assert_eq!(steps.len(), 15);
    for step in steps.into_iter() {
        assert!(match step {
            26 | 20 | 15 | 27 | 22 | 18 | 13 | 9 | 4 | 36 | 40 | 45 | 37 | 42 | 48 => true,
            _ => false,
        });
    }
}

#[test]
fn tables_hold_what_the_functions_compute() {
    let steps = Steps::create();
    for field in 0..50 {
        assert_eq!(steps.white_steps(field), &white_steps(field)[..]);
        assert_eq!(steps.black_steps(field), &black_steps(field)[..]);
        assert_eq!(steps.short_jumps(field), &short_jumps(field)[..]);
        let paths = steps.paths(field);
        assert_eq!(paths.len(), 4);
        let all: Vec<usize> = paths.iter().flat_map(|p| p.iter().cloned()).collect();
        assert_eq!(all, long_steps(field));
    }
}

#[test]
fn paths_from_a_corner() {
    let steps = Steps::create();
    let paths = steps.paths(45);
    assert_eq!(paths[0], vec![40, 36, 31, 27, 22, 18, 13, 9, 4]);
    assert!(paths[1].is_empty());
    assert!(paths[2].is_empty());
    assert!(paths[3].is_empty());
}
