use rand::rngs::StdRng;
use rand::SeedableRng;
use simple_platformer::color::{apply_parsed, channel_fields, ParseError, RgbColor};
use simple_platformer::input::{ColorMode, Reactor, Selection};
use simple_platformer::table::{ColorTable, EmptyTableError};

fn table(entries: &[(&str, &str)]) -> ColorTable {
    let mut t = ColorTable::new();
    for (name, spec) in entries {
        t.insert(name.to_string(), spec.to_string());
    }
    t
}

fn parse(spec: &str) -> Result<RgbColor, ParseError> {
    let f = channel_fields(spec)?;
    let read = |s: &String| s.parse::<f32>().ok().map(f32::to_bits);
    RgbColor::from_channels(read(&f.r), read(&f.g), read(&f.b))
}

#[test]
fn insert_keeps_order_and_replaces() {
    let mut t = table(&[("Red", "(1,0,0)"), ("Blue", "(0,0,1)")]);
    t.insert("Red".to_string(), "(0.9,0,0)".to_string());
    assert_eq!(t.len(), 2);
    let (n0, s0) = t.entry_at(0);
    assert_eq!((n0.as_str(), s0.as_str()), ("Red", "(0.9,0,0)"));
    let (n1, s1) = t.entry_at(1);
    assert_eq!((n1.as_str(), s1.as_str()), ("Blue", "(0,0,1)"));
}

#[test]
fn get_finds_by_name() {
    let t = table(&[("Purple", "(0.5, 0.0, 0.5)")]);
    assert_eq!(t.get(&"Purple".to_string()).map(|s| s.as_str()), Some("(0.5, 0.0, 0.5)"));
    assert_eq!(t.get(&"Green".to_string()), None);
}

#[test]
fn empty_table_cannot_be_sampled() {
    let t = ColorTable::new();
    assert!(t.is_empty());
    let mut rng = StdRng::seed_from_u64(1);
    assert_eq!(t.pick_random(&mut rng).unwrap_err(), EmptyTableError);
    match ColorMode::Table(t).select(&mut rng) {
        Err(e) => assert_eq!(e, EmptyTableError),
        Ok(_) => panic!("an empty table gave a selection"),
    }
}

#[test]
fn pick_random_is_uniform() {
    let t = table(&[("A", "(1,0,0)"), ("B", "(0,1,0)"), ("C", "(0,0,1)"), ("D", "(1,1,1)")]);
    let mut rng = StdRng::seed_from_u64(42);
    let trials = 40_000;
    let mut counts = [0usize; 4];
    for _ in 0..trials {
        let (name, _) = t.pick_random(&mut rng).unwrap();
        let i = ["A", "B", "C", "D"].iter().position(|n| *n == name.as_str()).unwrap();
        counts[i] += 1;
    }
    for c in counts {
        let share = c as f64 / trials as f64;
        assert!((share - 0.25).abs() < 0.02, "share {}", share);
    }
}

#[test]
fn pick_random_returns_a_stored_pair() {
    let t = table(&[("Red", "(1,0,0)"), ("Blue", "(0,0,1)")]);
    let mut rng = StdRng::seed_from_u64(3);
    for _ in 0..50 {
        let (name, spec) = t.pick_random(&mut rng).unwrap();
        assert_eq!(t.get(name), Some(spec));
    }
}

#[test]
fn trigger_with_first_index_sets_red() {
    let mode = ColorMode::Table(table(&[("Red", "(1,0,0)"), ("Blue", "(0,0,1)")]));
    let mut background = RgbColor { r: 0.5f32.to_bits(), g: 0.5f32.to_bits(), b: 0.9f32.to_bits() };
    match mode.select_at(0) {
        Selection::Spec(spec) => apply_parsed(&mut background, parse(&spec)),
        Selection::Color(_) => panic!("table mode gave a fixed color"),
    }
    assert_eq!(background, RgbColor { r: 1.0f32.to_bits(), g: 0.0f32.to_bits(), b: 0.0f32.to_bits() });
}

#[test]
fn fixed_mode_always_gives_its_color() {
    let c = RgbColor { r: 1, g: 2, b: 3 };
    let mode = ColorMode::Fixed(c);
    let mut rng = StdRng::seed_from_u64(9);
    match mode.select(&mut rng) {
        Ok(Selection::Color(d)) => assert_eq!(d, c),
        _ => panic!("fixed mode gave no color"),
    }
    match mode.select_at(5) {
        Selection::Color(d) => assert_eq!(d, c),
        Selection::Spec(_) => panic!("fixed mode gave a specification"),
    }
}

#[test]
fn reactor_with_one_entry_table_parses_it() {
    let mut reactor = Reactor::new(ColorMode::Table(table(&[("Red", "(1,0,0)")])));
    let mut rng = StdRng::seed_from_u64(11);
    let mut background = RgbColor { r: 0, g: 0, b: 0 };
    assert!(reactor.on_tick(false, &mut rng).is_none());
    match reactor.on_tick(true, &mut rng) {
        Some(Ok(Selection::Spec(spec))) => apply_parsed(&mut background, parse(&spec)),
        _ => panic!("a press gave no specification"),
    }
    assert!(reactor.on_tick(true, &mut rng).is_none());
    assert_eq!(background, RgbColor { r: 1.0f32.to_bits(), g: 0.0f32.to_bits(), b: 0.0f32.to_bits() });
}
