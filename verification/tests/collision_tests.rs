use std::collections::VecDeque;
use std::time::Instant;

use rand::SeedableRng;
use snake_io::game::Game;
use snake_io::types::{Color, Difficulty, Direction, Point, Snake};

fn snake_with_body(id: usize, body: Vec<Point>, is_player: bool) -> Snake {
    Snake {
        id,
        body: VecDeque::from(body),
        dir: Direction::Right,
        next_dir: Direction::Right,
        pending_growth: 0,
        is_player,
        alive: true,
        eliminated_at: None,
        color: if is_player { Color::Cyan } else { Color::Red },
    }
}

fn make_game(snakes: Vec<Snake>) -> Game {
    Game {
        settings: Difficulty::Normal.settings(),
        snakes,
        fruits: Vec::new(),
        rng: rand::rngs::StdRng::seed_from_u64(42),
        start: Instant::now(),
        high_score: 0,
        quit_requested: false,
    }
}

fn pts(cells: &[(i32, i32)]) -> Vec<Point> {
    cells.iter().map(|&(x, y)| Point { x, y }).collect()
}

fn body_of(game: &Game, i: usize) -> Vec<Point> {
    game.snakes[i].body.iter().copied().collect()
}

#[test]
fn head_to_head_player_wins_tie() {
    let player = snake_with_body(
        0,
        vec![
            Point { x: 5, y: 5 },
            Point { x: 4, y: 5 },
            Point { x: 3, y: 5 },
        ],
        true,
    );
    let bot = snake_with_body(
        1,
        vec![
            Point { x: 5, y: 5 },
            Point { x: 6, y: 5 },
            Point { x: 7, y: 5 },
        ],
        false,
    );
    let mut game = make_game(vec![player, bot]);

    game.resolve_head_to_head();

    assert!(game.snakes[0].alive);
    assert!(!game.snakes[1].alive);
    assert!(game.snakes[0].pending_growth >= 3);
}

#[test]
fn wall_collision_eliminates_snake() {
    let out_of_bounds = snake_with_body(
        0,
        vec![
            Point { x: -1, y: 0 },
            Point { x: 0, y: 0 },
            Point { x: 1, y: 0 },
        ],
        true,
    );
    let mut game = make_game(vec![out_of_bounds]);

    game.resolve_wall_and_self_collisions();

    assert!(!game.snakes[0].alive);
}

#[test]
fn self_collision_eliminates_snake() {
    let self_hit = snake_with_body(
        0,
        vec![
            Point { x: 5, y: 5 },
            Point { x: 6, y: 5 },
            Point { x: 5, y: 5 },
        ],
        true,
    );
    let mut game = make_game(vec![self_hit]);

    game.resolve_wall_and_self_collisions();

    assert!(!game.snakes[0].alive);
}

#[test]
fn eating_body_segment_truncates_victim_and_grows_eater() {
    let eater = snake_with_body(
        0,
        vec![
            Point { x: 9, y: 10 },
            Point { x: 8, y: 10 },
            Point { x: 7, y: 10 },
        ],
        true,
    );
    let victim = snake_with_body(
        1,
        vec![
            Point { x: 12, y: 10 },
            Point { x: 11, y: 10 },
            Point { x: 10, y: 10 },
            Point { x: 9, y: 10 },
        ],
        false,
    );
    let mut game = make_game(vec![eater, victim]);

    game.resolve_snake_eating();

    assert!(game.snakes[0].pending_growth > 0);
    assert!(game.snakes[1].len() < 4 || !game.snakes[1].alive);
}

#[test]
fn equal_bots_meeting_all_die() {
    let a = snake_with_body(1, pts(&[(5, 5), (4, 5), (3, 5)]), false);
    let b = snake_with_body(2, pts(&[(5, 5), (6, 5), (7, 5)]), false);
    let c = snake_with_body(3, pts(&[(9, 9), (9, 8)]), false);
    let mut game = make_game(vec![a, b, c]);
    game.resolve_head_to_head();
    assert!(!game.snakes[0].alive);
    assert!(!game.snakes[1].alive);
    assert!(game.snakes[2].alive);
    assert_eq!(game.snakes[0].pending_growth, 0);
    assert!(game.snakes[0].eliminated_at.is_some());
    assert!(game.snakes[2].eliminated_at.is_none());
}

#[test]
fn longer_snake_wins_meeting_and_takes_all() {
    let a = snake_with_body(1, pts(&[(5, 5), (4, 5)]), false);
    let b = snake_with_body(2, pts(&[(5, 5), (6, 5), (7, 5), (8, 5)]), false);
    let c = snake_with_body(0, pts(&[(5, 5), (5, 6), (5, 7)]), true);
    let mut game = make_game(vec![a, b, c]);
    game.resolve_head_to_head();
    assert!(!game.snakes[0].alive);
    assert!(game.snakes[1].alive);
    assert!(!game.snakes[2].alive);
    assert_eq!(game.snakes[1].pending_growth, 5);
}

#[test]
fn wall_and_self_leave_clean_snakes() {
    let fine = snake_with_body(0, pts(&[(5, 5), (4, 5)]), true);
    let low = snake_with_body(1, pts(&[(5, 20), (5, 19)]), false);
    let mut game = make_game(vec![fine, low]);
    game.resolve_wall_and_self_collisions();
    assert!(game.snakes[0].alive);
    assert!(!game.snakes[1].alive);
}

#[test]
fn bite_at_the_neck_kills_the_bitten_snake() {
    let eater = snake_with_body(0, pts(&[(5, 5), (4, 5), (3, 5)]), true);
    let victim = snake_with_body(1, pts(&[(6, 6), (6, 5), (6, 4), (6, 3)]), false);
    // The victim's head lies on the eater's neck: the victim bites the eater.
    let mut game = make_game(vec![eater, victim]);
    game.snakes[1].body[0] = Point { x: 4, y: 5 };
    game.resolve_snake_eating();
    // Eater's head (5,5) is not on the victim; the victim's head (4,5) is segment 1 of the eater.
    assert!(!game.snakes[0].alive);
    assert_eq!(body_of(&game, 0), Vec::<Point>::new());
    assert_eq!(game.snakes[1].pending_growth, 3);
}

#[test]
fn bite_keeps_cells_before_the_bitten_one_but_one() {
    let eater = snake_with_body(0, pts(&[(8, 1), (8, 0)]), true);
    let victim = snake_with_body(1, pts(&[(5, 1), (6, 1), (7, 1), (8, 1), (9, 1)]), false);
    let mut game = make_game(vec![eater, victim]);
    game.resolve_snake_eating();
    // Bitten at segment 3: the victim keeps its first 2 cells; 3 go to the eater.
    assert_eq!(body_of(&game, 1), pts(&[(5, 1), (6, 1)]));
    assert!(game.snakes[1].alive);
    assert_eq!(game.snakes[0].pending_growth, 3);
}

#[test]
fn overlap_goes_to_longer_snake() {
    let long = snake_with_body(1, pts(&[(2, 2), (3, 2), (4, 2), (5, 2)]), false);
    let short = snake_with_body(2, pts(&[(7, 7), (6, 7), (4, 2), (4, 3)]), false);
    let mut game = make_game(vec![long, short]);
    game.resolve_cross_snake_overlaps();
    // Cell (4,2) is segment 2 of both; snake 0 is as long and has the lower id: it owns it.
    assert_eq!(body_of(&game, 1), pts(&[(7, 7)]));
    assert!(game.snakes[1].alive);
    assert_eq!(game.snakes[0].pending_growth, 3);
    assert!(game.snakes[0].alive);
}

#[test]
fn overlap_with_a_head_goes_to_the_head() {
    let bot = snake_with_body(4, pts(&[(3, 3), (4, 3), (5, 3)]), false);
    let other = snake_with_body(1, pts(&[(4, 3), (4, 4)]), false);
    let mut game = make_game(vec![bot, other]);
    game.resolve_cross_snake_overlaps();
    // The head of snake 1 lies on segment 1 of snake 0: the head claims the cell.
    assert!(!game.snakes[0].alive);
    assert_eq!(game.snakes[1].pending_growth, 3);
}

#[test]
fn no_overlap_changes_nothing() {
    let a = snake_with_body(0, pts(&[(1, 1), (2, 1)]), true);
    let b = snake_with_body(1, pts(&[(5, 5), (6, 5)]), false);
    let mut game = make_game(vec![a, b]);
    game.resolve_cross_snake_overlaps();
    game.resolve_snake_eating();
    game.resolve_head_to_head();
    assert!(game.snakes[0].alive && game.snakes[1].alive);
    assert_eq!(game.snakes[0].pending_growth, 0);
    assert_eq!(game.snakes[1].pending_growth, 0);
    assert_eq!(body_of(&game, 1), pts(&[(5, 5), (6, 5)]));
}

#[test]
fn settling_twice_changes_nothing_more() {
    let long = snake_with_body(1, pts(&[(2, 2), (3, 2), (4, 2), (5, 2)]), false);
    let short = snake_with_body(2, pts(&[(7, 7), (6, 7), (4, 2), (4, 3)]), false);
    let third = snake_with_body(3, pts(&[(6, 7), (6, 8), (6, 9)]), false);
    let mut game = make_game(vec![long, short, third]);
    game.resolve_cross_snake_overlaps();
    let bodies: Vec<Vec<Point>> = (0..3).map(|i| body_of(&game, i)).collect();
    let alive: Vec<bool> = game.snakes.iter().map(|s| s.alive).collect();
    let growth: Vec<usize> = game.snakes.iter().map(|s| s.pending_growth).collect();
    // No two living snakes share a cell any more.
    for a in 0..3 {
        for b in 0..3 {
            if a != b && alive[a] && alive[b] {
                assert!(bodies[a].iter().all(|p| !bodies[b].contains(p)));
            }
        }
    }
    game.resolve_cross_snake_overlaps();
    for i in 0..3 {
        assert_eq!(body_of(&game, i), bodies[i]);
        assert_eq!(game.snakes[i].alive, alive[i]);
        assert_eq!(game.snakes[i].pending_growth, growth[i]);
    }
}
