use allcolors::color::{make_bases, ColorBase};
use allcolors::engine::{wrap, Action, ConfigError, Engine, Location, StepOutcome};
use rand::rngs::StdRng;
use rand::{Rng, SeedableRng};
use std::f64::consts::TAU;

/// Drives a whole run the way a program would, with floating-point headings.
fn run(scale: u64, num_seeds: usize, turn: f64, alpha: f64, cycle_cap: usize, seed: u64) -> Engine {
    let mut rng = StdRng::seed_from_u64(seed);
    let mut engine = Engine::new(scale, num_seeds, cycle_cap, &mut rng).unwrap();
    let size = engine.side_len();
    let mut headings = vec![vec![0.0f64; size]; size];
    loop {
        match engine.next_action(&mut rng) {
            Action::Done => break,
            Action::Seeded(loc) => headings[loc.row][loc.col] = rng.gen_range(0.0..TAU),
            Action::Walk(from) => {
                let mut dir = headings[from.row][from.col];
                let mut pos = [from.row as f64, from.col as f64];
                let mut step: u64 = 1;
                loop {
                    pos[0] += dir.sin();
                    pos[1] += dir.cos();
                    dir += turn / (step as f64).powf(alpha);
                    match engine.walk_step(pos[0].floor() as i64, pos[1].floor() as i64, &mut rng) {
                        StepOutcome::Continue => step += 1,
                        StepOutcome::Placed(loc) => {
                            headings[loc.row][loc.col] = dir;
                            break;
                        }
                        StepOutcome::FellBack(loc) => {
                            headings[loc.row][loc.col] = rng.gen_range(0.0..TAU);
                            break;
                        }
                    }
                }
            }
        }
    }
    engine
}

fn assert_complete(engine: &Engine, scale: u64) {
    assert!(engine.is_done());
    let size = engine.side_len();
    let mut found: Vec<ColorBase> = Vec::new();
    for row in 0..size {
        for col in 0..size {
            found.push(engine.color_at(Location { row, col }).expect("every cell is filled"));
        }
    }
    let mut all = make_bases(scale);
    let key = |c: &ColorBase| (c.r, c.g, c.b);
    found.sort_by_key(key);
    all.sort_by_key(key);
    assert_eq!(found, all);
}

#[test]
fn scale_two_fills_every_cell_for_every_seed_count() {
    for num_seeds in 1..64 {
        let engine = run(2, num_seeds, 0.01, 0.2, 10, num_seeds as u64);
        assert_eq!(engine.side_len(), 8);
        assert_complete(&engine, 2);
    }
}

#[test]
fn scale_three_run_is_a_bijection() {
    let engine = run(3, 5, 0.05, 0.5, 3, 42);
    assert_eq!(engine.side_len(), 27);
    assert_complete(&engine, 3);
    let px = engine.pixels();
    assert_eq!(px.len(), 27 * 27);
    let mut sorted = px.clone();
    sorted.sort();
    sorted.dedup();
    assert_eq!(sorted.len(), 27 * 27);
}

#[test]
fn same_parameters_and_seed_give_the_same_image() {
    let a = run(2, 3, 0.01, 0.2, 10, 99).pixels();
    let b = run(2, 3, 0.01, 0.2, 10, 99).pixels();
    assert_eq!(a, b);
    let c = run(3, 10, 0.01, 0.2, 2, 5).pixels();
    let d = run(3, 10, 0.01, 0.2, 2, 5).pixels();
    assert_eq!(c, d);
}

#[test]
fn pixels_scale_components_to_bytes() {
    let engine = run(2, 4, 0.01, 0.2, 10, 3);
    let px = engine.pixels();
    for row in 0..8 {
        for col in 0..8 {
            let cb = engine.color_at(Location { row, col }).unwrap();
            assert_eq!(px[row * 8 + col], [cb.r * 85, cb.g * 85, cb.b * 85]);
        }
    }
}

#[test]
fn parameters_are_checked() {
    let mut rng = StdRng::seed_from_u64(0);
    assert_eq!(Engine::new(1, 1, 1, &mut rng).err(), Some(ConfigError::ScaleTooSmall));
    assert_eq!(Engine::new(0, 1, 1, &mut rng).err(), Some(ConfigError::ScaleTooSmall));
    assert_eq!(Engine::new(17, 1, 1, &mut rng).err(), Some(ConfigError::ScaleTooLarge));
    assert_eq!(Engine::new(2, 0, 1, &mut rng).err(), Some(ConfigError::NoSeeds));
    assert_eq!(Engine::new(2, 64, 1, &mut rng).err(), Some(ConfigError::TooManySeeds));
    assert_eq!(Engine::new(2, 63, 0, &mut rng).err(), Some(ConfigError::ZeroCycleCap));
    assert_eq!(
        Engine::new(2, 63, usize::MAX, &mut rng).err(),
        Some(ConfigError::CycleCapTooLarge)
    );
    assert!(Engine::new(2, 63, 1, &mut rng).is_ok());
}

#[test]
fn zero_seeds_is_rejected() {
    let mut rng = StdRng::seed_from_u64(12);
    assert_eq!(Engine::new(3, 0, 10, &mut rng).err(), Some(ConfigError::NoSeeds));
}

#[test]
fn walk_falls_back_to_a_random_open_cell() {
    let mut rng = StdRng::seed_from_u64(4);
    let mut engine = Engine::new(2, 63, 1, &mut rng).unwrap();
    for _ in 0..63 {
        assert!(matches!(engine.next_action(&mut rng), Action::Seeded(_)));
    }
    let mut empty = None;
    for row in 0..8 {
        for col in 0..8 {
            if engine.color_at(Location { row, col }).is_none() {
                empty = Some(Location { row, col });
            }
        }
    }
    let empty = empty.unwrap();
    let from = match engine.next_action(&mut rng) {
        Action::Walk(from) => from,
        other => panic!("expected a walk, got {other:?}"),
    };
    // A walk that stays on its (filled) starting cell spends cycle_cap * size - 1 = 7 steps.
    for _ in 0..6 {
        let s = engine.walk_step(from.row as i64, from.col as i64 + 8, &mut rng);
        assert_eq!(s, StepOutcome::Continue);
    }
    let s = engine.walk_step(from.row as i64 - 8, from.col as i64, &mut rng);
    assert_eq!(s, StepOutcome::FellBack(empty));
    assert!(engine.is_done());
    assert_eq!(engine.next_action(&mut rng), Action::Done);
}

#[test]
fn walk_places_on_the_first_empty_cell_it_reaches() {
    let mut rng = StdRng::seed_from_u64(8);
    let mut engine = Engine::new(2, 62, 1, &mut rng).unwrap();
    for _ in 0..62 {
        assert!(matches!(engine.next_action(&mut rng), Action::Seeded(_)));
    }
    let mut empties = Vec::new();
    for row in 0..8 {
        for col in 0..8 {
            if engine.color_at(Location { row, col }).is_none() {
                empties.push(Location { row, col });
            }
        }
    }
    assert_eq!(empties.len(), 2);
    assert!(matches!(engine.next_action(&mut rng), Action::Walk(_)));
    let target = empties[1];
    // coordinates off the grid wrap around the torus
    let s = engine.walk_step(target.row as i64 - 16, target.col as i64 + 24, &mut rng);
    assert_eq!(s, StepOutcome::Placed(target));
    assert!(engine.color_at(target).is_some());
    assert!(matches!(engine.next_action(&mut rng), Action::Walk(_)));
}

#[test]
fn nearest_placed_finds_the_only_seed() {
    let mut rng = StdRng::seed_from_u64(2);
    let mut engine = Engine::new(2, 1, 10, &mut rng).unwrap();
    let seeded = match engine.next_action(&mut rng) {
        Action::Seeded(loc) => loc,
        other => panic!("expected a seed, got {other:?}"),
    };
    for r in 0..4 {
        for g in 0..4 {
            for b in 0..4 {
                assert_eq!(engine.nearest_placed(ColorBase { r, g, b }), Some(seeded));
            }
        }
    }
}

#[test]
fn wrap_is_euclidean() {
    assert_eq!(wrap(-1, 8), 7);
    assert_eq!(wrap(8, 8), 0);
    assert_eq!(wrap(-17, 8), 7);
    assert_eq!(wrap(13, 8), 5);
    assert_eq!(wrap(0, 27), 0);
}
