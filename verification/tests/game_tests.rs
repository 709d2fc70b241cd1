use std::collections::VecDeque;
use std::time::{Duration, Instant};

use rand::SeedableRng;
use snake_io::game::{compute_intensity_tier, Game, IntensityTier};
use snake_io::types::{Color, Difficulty, Direction, GameSettings, Point, Snake};

fn test_settings() -> GameSettings {
    Difficulty::Normal.settings()
}

fn snake_at(id: usize, x: i32, y: i32, is_player: bool) -> Snake {
    let mut body = VecDeque::new();
    body.push_back(Point { x, y });
    body.push_back(Point { x: x - 1, y });
    body.push_back(Point { x: x - 2, y });
    Snake {
        id,
        body,
        dir: Direction::Right,
        next_dir: Direction::Right,
        pending_growth: 0,
        is_player,
        alive: true,
        eliminated_at: None,
        color: if is_player { Color::Cyan } else { Color::Red },
    }
}

fn base_game() -> Game {
    Game {
        settings: test_settings(),
        snakes: vec![snake_at(0, 5, 5, true), snake_at(1, 20, 5, false)],
        fruits: Vec::new(),
        rng: rand::rngs::StdRng::seed_from_u64(7),
        start: Instant::now(),
        high_score: 0,
        quit_requested: false,
    }
}

fn floor_ms(base: u64) -> u64 {
    ((base as f32) * 0.55) as u64
}

#[test]
fn finished_when_quit_requested() {
    let mut game = base_game();
    game.quit_requested = true;
    assert!(game.get_is_finished());
}

#[test]
fn finished_when_one_snake_left() {
    let mut game = base_game();
    game.snakes[1].alive = false;
    assert!(game.get_is_finished());
}

#[test]
fn finished_when_time_expires() {
    let mut game = base_game();
    game.start = Instant::now() - Duration::from_secs(game.settings.game_time_seconds + 1);
    assert!(game.get_is_finished());
}

#[test]
fn tick_duration_decreases_as_player_grows() {
    let mut game = base_game();
    let floor = floor_ms(game.settings.tick_ms);
    let base = game.current_tick_ms(floor);

    game.snakes[0].body.push_back(Point { x: 2, y: 5 });
    game.snakes[0].body.push_back(Point { x: 1, y: 5 });
    game.snakes[0].body.push_back(Point { x: 0, y: 5 });
    let faster = game.current_tick_ms(floor);

    assert!(faster <= base);
}

#[test]
fn eliminate_marks_snake_dead_and_sets_time() {
    let mut game = base_game();
    game.eliminate_snake(1);
    assert!(!game.snakes[1].alive);
    assert!(game.snakes[1].eliminated_at.is_some());
}

#[test]
fn round_not_finished_at_start() {
    let game = base_game();
    assert!(!game.get_is_finished());
    assert!(!game.ends_after_seconds(0));
    assert!(game.ends_after_seconds(game.settings.game_time_seconds));
}

#[test]
fn remaining_seconds_never_below_zero() {
    let game = base_game();
    assert_eq!(game.remaining_seconds_after(10), 80);
    assert_eq!(game.remaining_seconds_after(500), 0);
    assert!(game.remaining_seconds() <= 90);
}

#[test]
fn tick_shortens_by_one_ms_per_two_cells() {
    let mut game = base_game();
    assert_eq!(game.current_tick_ms(66), 120);
    for k in 0..10 {
        game.snakes[0].body.push_back(Point { x: -k, y: 5 });
    }
    // 13 cells: 10 beyond three, so 5 ms shorter.
    assert_eq!(game.current_tick_ms(66), 115);
    // The floor wins.
    assert_eq!(game.current_tick_ms(118), 118);
}

#[test]
fn tick_without_player_uses_base() {
    let mut game = base_game();
    game.snakes.remove(0);
    assert_eq!(game.current_tick_ms(10), 120);
    assert!(game.player().is_none());
}

#[test]
fn player_lookup_finds_first_player() {
    let mut game = base_game();
    assert_eq!(game.player_index(), Some(0));
    assert_eq!(game.player().map(|p| p.id), Some(0));
    if let Some(p) = game.player_mut() {
        p.set_direction(Direction::Up);
    }
    assert!(matches!(game.snakes[0].next_dir, Direction::Up));
}

#[test]
fn alive_count_counts_living() {
    let mut game = base_game();
    assert_eq!(game.alive_snake_count(), 2);
    game.eliminate_snake(0);
    assert_eq!(game.alive_snake_count(), 1);
}

#[test]
fn eliminating_dead_snake_keeps_stamp() {
    let mut game = base_game();
    game.snakes[1].alive = false;
    game.snakes[1].eliminated_at = Some(42);
    game.eliminate_snake(1);
    assert_eq!(game.snakes[1].eliminated_at, Some(42));
}

#[test]
fn intensity_tiers() {
    assert_eq!(compute_intensity_tier(0, 0, 100, 4), IntensityTier::Calm);
    assert_eq!(compute_intensity_tier(0, 0, 18, 4), IntensityTier::Clutch);
    assert_eq!(compute_intensity_tier(5, 0, 100, 4), IntensityTier::Clutch);
    assert_eq!(compute_intensity_tier(0, 0, 100, 2), IntensityTier::Clutch);
    assert_eq!(compute_intensity_tier(0, 0, 40, 4), IntensityTier::Tension);
    assert_eq!(compute_intensity_tier(3, 0, 100, 4), IntensityTier::Tension);
    assert_eq!(compute_intensity_tier(0, 2, 100, 4), IntensityTier::Tension);
}

#[test]
fn new_game_spawns_and_fills() {
    let game = Game::new(Difficulty::Hard.settings());
    assert_eq!(game.snakes.len(), 6);
    assert!(game.snakes[0].is_player);
    assert_eq!(game.high_score, 3);
    assert!(game.fruits.len() <= 6);
    assert!(!game.quit_requested);
}

#[test]
fn eliminate_at_stamps_the_given_second_once() {
    let mut game = base_game();
    game.eliminate_snake_at(1, 42);
    assert!(!game.snakes[1].alive);
    assert_eq!(game.snakes[1].eliminated_at, Some(42));
    // A dead snake keeps its first stamp.
    game.eliminate_snake_at(1, 50);
    assert_eq!(game.snakes[1].eliminated_at, Some(42));
    assert!(game.snakes[0].alive);
    assert_eq!(game.snakes[0].eliminated_at, None);
}
