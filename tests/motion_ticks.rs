use simple_platformer::motion::{MotionState, Vec2, World};

#[test]
fn tick_adds_velocity() {
    let mut s = MotionState { position: Vec2 { x: 5, y: -2 }, velocity: Vec2 { x: 3, y: 4 } };
    s.tick();
    assert_eq!(s.position, Vec2 { x: 8, y: 2 });
    assert_eq!(s.velocity, Vec2 { x: 3, y: 4 });
}

#[test]
fn ticks_from_origin_add_up() {
    let mut s = MotionState { position: Vec2 { x: 0, y: 0 }, velocity: Vec2 { x: 3, y: -2 } };
    s.advance(10);
    assert_eq!(s.position, Vec2 { x: 30, y: -20 });
    let mut t = MotionState { position: Vec2 { x: 0, y: 0 }, velocity: Vec2 { x: 3, y: -2 } };
    for _ in 0..10 {
        t.tick();
    }
    assert_eq!(t, s);
}

#[test]
fn advance_zero_ticks_keeps_state() {
    let mut s = MotionState { position: Vec2 { x: 7, y: 9 }, velocity: Vec2 { x: 1, y: 1 } };
    s.advance(0);
    assert_eq!(s.position, Vec2 { x: 7, y: 9 });
}

#[test]
fn advance_reaches_largest_position() {
    let mut s = MotionState { position: Vec2 { x: i64::MAX - 6, y: 0 }, velocity: Vec2 { x: 2, y: -1 } };
    s.advance(3);
    assert_eq!(s.position, Vec2 { x: i64::MAX, y: -3 });
}

#[test]
fn world_setup_and_update() {
    let mut w = World::setup();
    assert_eq!(w.positions(), vec![(0, Vec2 { x: 0, y: 0 })]);
    w.update_position();
    w.update_position();
    assert_eq!(w.positions(), vec![(0, Vec2 { x: 2, y: 2 })]);
}

#[test]
fn world_reports_every_entity() {
    let mut w = World::setup();
    w.entities.push(MotionState { position: Vec2 { x: 10, y: 10 }, velocity: Vec2 { x: -1, y: 0 } });
    w.update_position();
    assert_eq!(w.positions(), vec![(0, Vec2 { x: 1, y: 1 }), (1, Vec2 { x: 9, y: 10 })]);
}
