use std::collections::VecDeque;
use std::time::Instant;

use rand::SeedableRng;
use snake_io::game::Game;
use snake_io::types::{
    Color, Difficulty, Direction, GameSettings, Point, Snake, HEIGHT, MAX_BOTS, WIDTH,
};

fn custom_settings(bot_count: usize, fruit_count: usize) -> GameSettings {
    GameSettings {
        difficulty: Difficulty::Normal,
        fruit_count,
        bot_count,
        tick_ms: 120,
        game_time_seconds: 90,
        bot_aggression_percent: 85,
    }
}

fn empty_game(settings: GameSettings) -> Game {
    Game {
        settings,
        snakes: Vec::new(),
        fruits: Vec::new(),
        rng: rand::rngs::StdRng::seed_from_u64(5),
        start: Instant::now(),
        high_score: 0,
        quit_requested: false,
    }
}

fn line_snake(id: usize, cells: &[(i32, i32)], is_player: bool) -> Snake {
    Snake {
        id,
        body: cells.iter().map(|&(x, y)| Point { x, y }).collect::<VecDeque<_>>(),
        dir: Direction::Right,
        next_dir: Direction::Right,
        pending_growth: 0,
        is_player,
        alive: true,
        eliminated_at: None,
        color: Color::Red,
    }
}

#[test]
fn spawn_snakes_caps_bot_count() {
    let settings = custom_settings(99, 0);
    let mut game = empty_game(settings);

    game.spawn_snakes();

    // 1 player + MAX_BOTS
    assert_eq!(game.snakes.len(), 1 + MAX_BOTS);
    assert!(game.snakes[0].is_player);
}

#[test]
fn refill_fruits_reaches_target_when_space_available() {
    let settings = custom_settings(0, 8);
    let mut game = empty_game(settings);

    game.spawn_snakes();
    game.fruits.clear();
    game.refill_fruits();

    assert_eq!(game.fruits.len(), 8);
    for p in &game.fruits {
        assert!(p.x >= 0 && p.x < WIDTH && p.y >= 0 && p.y < HEIGHT);
    }
}

#[test]
fn update_high_score_tracks_longest_snake() {
    let settings = custom_settings(0, 0);
    let mut game = empty_game(settings);
    let mut body = VecDeque::new();
    body.push_back(Point { x: 5, y: 5 });
    body.push_back(Point { x: 4, y: 5 });
    body.push_back(Point { x: 3, y: 5 });
    body.push_back(Point { x: 2, y: 5 });
    body.push_back(Point { x: 1, y: 5 });

    game.snakes = vec![Snake {
        id: 0,
        body,
        dir: Direction::Right,
        next_dir: Direction::Right,
        pending_growth: 0,
        is_player: true,
        alive: true,
        eliminated_at: None,
        color: Color::Cyan,
    }];

    game.update_high_score();
    assert_eq!(game.high_score, 5);
}

#[test]
fn spawn_places_player_and_bots() {
    let mut game = empty_game(custom_settings(3, 0));
    game.spawn_snakes();
    assert_eq!(game.snakes.len(), 4);
    assert_eq!(game.snakes[0].head(), Some(Point { x: 12, y: 10 }));
    assert_eq!(game.snakes[1].head(), Some(Point { x: 36, y: 5 }));
    assert_eq!(game.snakes[2].head(), Some(Point { x: 37, y: 10 }));
    assert_eq!(game.snakes[3].head(), Some(Point { x: 36, y: 15 }));
    assert_eq!(game.snakes[2].id, 2);
    assert_eq!(game.snakes[3].color, Color::Magenta);
    assert!(matches!(game.snakes[1].dir, Direction::Left));
    assert_eq!(game.high_score, 3);
}

#[test]
fn high_score_never_drops() {
    let mut game = empty_game(custom_settings(0, 0));
    game.high_score = 9;
    game.snakes = vec![line_snake(0, &[(1, 1), (2, 1)], true)];
    game.update_high_score();
    assert_eq!(game.high_score, 9);
}

#[test]
fn fruit_under_head_is_eaten_by_first_snake() {
    let mut game = empty_game(custom_settings(0, 0));
    game.snakes = vec![
        line_snake(0, &[(5, 5), (4, 5)], true),
        line_snake(1, &[(5, 5), (6, 5)], false),
    ];
    game.fruits = vec![Point { x: 5, y: 5 }, Point { x: 9, y: 9 }, Point { x: 5, y: 5 }];
    game.resolve_fruit_eating();
    assert_eq!(game.fruits, vec![Point { x: 9, y: 9 }]);
    assert_eq!(game.snakes[0].pending_growth, 2);
    assert_eq!(game.snakes[1].pending_growth, 0);
}

#[test]
fn dead_snake_eats_nothing() {
    let mut game = empty_game(custom_settings(0, 0));
    game.snakes = vec![line_snake(0, &[(5, 5), (4, 5)], true)];
    game.snakes[0].alive = false;
    game.fruits = vec![Point { x: 5, y: 5 }];
    game.resolve_fruit_eating();
    assert_eq!(game.fruits.len(), 1);
    assert_eq!(game.snakes[0].pending_growth, 0);
}

#[test]
fn free_cells_avoid_fruit_and_living_bodies() {
    let mut game = empty_game(custom_settings(0, 0));
    game.snakes = vec![line_snake(0, &[(5, 5), (4, 5)], true), line_snake(1, &[(8, 8)], false)];
    game.snakes[1].alive = false;
    game.fruits = vec![Point { x: 1, y: 1 }];
    assert!(!game.is_free_cell(Point { x: 4, y: 5 }));
    assert!(!game.is_free_cell(Point { x: 1, y: 1 }));
    assert!(!game.is_free_cell(Point { x: -1, y: 1 }));
    assert!(game.is_free_cell(Point { x: 8, y: 8 }));
    assert!(game.is_free_cell(Point { x: 2, y: 2 }));
}

#[test]
fn refill_places_fruit_on_free_cells() {
    let mut game = empty_game(custom_settings(2, 12));
    game.spawn_snakes();
    game.refill_fruits();
    assert!(game.fruits.len() <= 12);
    for (k, p) in game.fruits.iter().enumerate() {
        assert!(p.x >= 0 && p.x < WIDTH && p.y >= 0 && p.y < HEIGHT);
        assert!(!game.fruits[..k].contains(p));
        for s in &game.snakes {
            assert!(!s.body.contains(p));
        }
    }
}

#[test]
fn move_snakes_moves_living_only() {
    let mut game = empty_game(custom_settings(0, 0));
    game.snakes = vec![
        line_snake(0, &[(5, 5), (4, 5)], true),
        line_snake(1, &[(9, 9), (8, 9)], false),
    ];
    game.snakes[1].alive = false;
    game.move_snakes();
    assert_eq!(game.snakes[0].head(), Some(Point { x: 6, y: 5 }));
    assert_eq!(game.snakes[0].len(), 2);
    assert_eq!(game.snakes[1].head(), Some(Point { x: 9, y: 9 }));
}

#[test]
fn high_score_follows_the_player_not_the_bots() {
    let mut game = empty_game(custom_settings(0, 0));
    game.snakes = vec![
        line_snake(0, &[(1, 1), (2, 1), (3, 1)], true),
        line_snake(1, &[(1, 5), (2, 5), (3, 5), (4, 5), (5, 5)], false),
    ];
    game.update_high_score();
    assert_eq!(game.high_score, 3);
    // With no player snake the high score stays where it was.
    game.snakes = vec![line_snake(1, &[(1, 5), (2, 5), (3, 5), (4, 5), (5, 5)], false)];
    game.update_high_score();
    assert_eq!(game.high_score, 3);
}

#[test]
fn draws_and_searches_stay_on_the_board() {
    let mut game = empty_game(custom_settings(0, 0));
    for _ in 0..2000 {
        let p = game.draw_cell();
        assert!(snake_io::types::in_bounds(p));
    }
    // An empty board: the first draw is free.
    let p = game.random_empty_cell().expect("a free cell");
    assert!(game.is_free_cell(p));
}

#[test]
fn a_full_board_gives_up_and_refill_stops_short() {
    let mut game = empty_game(custom_settings(0, 2000));
    let mut all = Vec::new();
    for y in 0..20 {
        for x in 0..48 {
            all.push(Point { x, y });
        }
    }
    game.fruits = all;
    assert_eq!(game.random_empty_cell(), None);
    game.refill_fruits();
    assert_eq!(game.fruits.len(), 960);
}
