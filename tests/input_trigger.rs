use rand::rngs::StdRng;
use rand::SeedableRng;
use simple_platformer::color::RgbColor;
use simple_platformer::input::{ColorMode, KeyEvents, KeyTracker, Reactor, Selection};

#[test]
fn press_hold_release_fires_once() {
    let mut k = KeyTracker::new();
    let inputs = vec![false, true, true, true, true, false, false];
    assert_eq!(k.feed(&inputs), 1);
    assert!(!k.held);
}

#[test]
fn two_presses_fire_twice() {
    let mut k = KeyTracker::new();
    assert_eq!(k.feed(&vec![true, true, false, true]), 2);
    assert!(k.held);
}

#[test]
fn held_key_does_not_fire_again() {
    let mut k = KeyTracker { held: true };
    assert_eq!(k.feed(&vec![true, true]), 0);
    assert_eq!(k.feed(&vec![]), 0);
    assert!(k.held);
}

#[test]
fn update_reports_edges_and_levels() {
    let mut k = KeyTracker::new();
    assert_eq!(k.update(true), KeyEvents { pressed: true, just_pressed: true, just_released: false });
    assert_eq!(k.update(true), KeyEvents { pressed: true, just_pressed: false, just_released: false });
    assert_eq!(k.update(false), KeyEvents { pressed: false, just_pressed: false, just_released: true });
    assert_eq!(k.update(false), KeyEvents { pressed: false, just_pressed: false, just_released: false });
}

#[test]
fn reactor_selects_once_per_press() {
    let c = RgbColor { r: 7, g: 8, b: 9 };
    let mut reactor = Reactor::new(ColorMode::Fixed(c));
    let mut rng = StdRng::seed_from_u64(5);
    let mut fired = 0;
    for pressed in [false, true, true, true, false, false, true] {
        if let Some(selection) = reactor.on_tick(pressed, &mut rng) {
            match selection {
                Ok(Selection::Color(d)) => assert_eq!(d, c),
                _ => panic!("fixed mode gave no color"),
            }
            fired += 1;
        }
    }
    assert_eq!(fired, 2);
    assert!(reactor.trigger.held);
}
