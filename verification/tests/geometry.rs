use train_core::{Direction, Pos};

#[test]
fn flip_is_involution() {
    for d in Direction::ALL {
        assert_eq!(d.flip().flip(), d);
        assert_ne!(d.flip(), d);
    }
}

#[test]
fn step_then_step_back_returns() {
    let p = Pos::new(3, 4);
    for d in Direction::ALL {
        assert_eq!(p.step(d).step(d.flip()), p);
    }
}

#[test]
fn deltas_are_unit() {
    for d in Direction::ALL {
        let (dx, dy) = d.delta();
        assert_eq!(dx.abs() + dy.abs(), 1);
    }
}

#[test]
fn deltas_follow_screen_axes() {
    assert_eq!(Direction::North.delta(), (0, -1));
    assert_eq!(Direction::South.delta(), (0, 1));
    assert_eq!(Direction::East.delta(), (1, 0));
    assert_eq!(Direction::West.delta(), (-1, 0));
    assert_eq!(Pos::new(0, 0).step(Direction::East), Pos::new(1, 0));
    assert_eq!(Direction::North.flip(), Direction::South);
    assert_eq!(Direction::East.flip(), Direction::West);
}

#[test]
fn steps_at_the_edge_of_the_coordinate_range() {
    let p = Pos::new(i32::MAX, i32::MIN);
    let q = p.step(Direction::West);
    assert_eq!(q, Pos::new(i32::MAX - 1, i32::MIN));
    assert_eq!(q.step(Direction::East), p);
    let r = p.step(Direction::South);
    assert_eq!(r, Pos::new(i32::MAX, i32::MIN + 1));
    assert_eq!(r.step(Direction::North), p);
}
