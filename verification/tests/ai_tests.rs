use std::collections::VecDeque;
use std::time::Instant;

use rand::SeedableRng;
use snake_io::ai::{Contact, Rivalry};
use snake_io::board::BoardCell;
use snake_io::game::Game;
use snake_io::types::{Color, Difficulty, Direction, Point, Snake};

fn snake(id: usize, cells: &[(i32, i32)], is_player: bool, dir: Direction) -> Snake {
    Snake {
        id,
        body: cells.iter().map(|&(x, y)| Point { x, y }).collect::<VecDeque<_>>(),
        dir,
        next_dir: dir,
        pending_growth: 0,
        is_player,
        alive: true,
        eliminated_at: None,
        color: if is_player { Color::Cyan } else { Color::Green },
    }
}

fn game_with(snakes: Vec<Snake>, fruits: Vec<Point>) -> Game {
    Game {
        settings: Difficulty::Normal.settings(),
        snakes,
        fruits,
        rng: rand::rngs::StdRng::seed_from_u64(3),
        start: Instant::now(),
        high_score: 0,
        quit_requested: false,
    }
}

#[test]
fn bot_step_rules() {
    let bot = snake(1, &[(5, 5), (4, 5), (3, 5)], false, Direction::Right);
    let big = snake(2, &[(7, 5), (7, 6), (7, 7), (7, 8)], false, Direction::Up);
    let small = snake(3, &[(5, 3), (5, 2)], false, Direction::Down);
    let game = game_with(vec![bot, big, small], Vec::new());
    // Off the board.
    assert!(!game.bot_can_step_into(0, Point { x: -1, y: 5 }));
    // Own neck.
    assert!(!game.bot_can_step_into(0, Point { x: 4, y: 5 }));
    // Own tail moves away when no growth is pending.
    assert!(game.bot_can_step_into(0, Point { x: 3, y: 5 }));
    // A longer head refuses, a shorter head allows.
    assert!(!game.bot_can_step_into(0, Point { x: 7, y: 5 }));
    assert!(game.bot_can_step_into(0, Point { x: 5, y: 3 }));
    // Another body can be bitten.
    assert!(game.bot_can_step_into(0, Point { x: 7, y: 6 }));
    // Empty cell.
    assert!(game.bot_can_step_into(0, Point { x: 10, y: 10 }));
}

#[test]
fn own_tail_blocks_while_growing() {
    let mut bot = snake(1, &[(5, 5), (4, 5), (3, 5)], false, Direction::Right);
    bot.pending_growth = 2;
    let game = game_with(vec![bot], Vec::new());
    assert!(!game.bot_can_step_into(0, Point { x: 3, y: 5 }));
}

#[test]
fn closest_fruit_prefers_first_of_equals() {
    let game = game_with(
        Vec::new(),
        vec![Point { x: 9, y: 9 }, Point { x: 2, y: 1 }, Point { x: 1, y: 2 }],
    );
    assert_eq!(game.closest_fruit(Point { x: 1, y: 1 }), Some(Point { x: 2, y: 1 }));
    let none = game_with(Vec::new(), Vec::new());
    assert_eq!(none.closest_fruit(Point { x: 1, y: 1 }), None);
}

#[test]
fn head_threats_by_kind() {
    let me = snake(1, &[(5, 5), (4, 5), (3, 5)], false, Direction::Right);
    let near_big = snake(2, &[(6, 4), (6, 3), (6, 2)], false, Direction::Down);
    let near_small = snake(3, &[(7, 5), (8, 5)], false, Direction::Left);
    let far_big = snake(4, &[(6, 7), (6, 8), (6, 9), (6, 10)], false, Direction::Up);
    let game = game_with(vec![me, near_big, near_small, far_big], Vec::new());
    assert_eq!(game.head_threats(0, Point { x: 6, y: 5 }), (1, 1, 1));
}

#[test]
fn open_neighbours_counted() {
    let me = snake(1, &[(0, 0), (1, 0), (2, 0)], false, Direction::Left);
    let game = game_with(vec![me], Vec::new());
    // Up and left are off the board, right is the neck, down is free.
    assert_eq!(game.open_neighbour_count(0, Point { x: 0, y: 0 }), 1);
}

#[test]
fn steer_bot_takes_first_allowed_choice() {
    let bot = snake(1, &[(5, 5), (4, 5), (3, 5)], false, Direction::Right);
    let wall = snake(2, &[(6, 5), (6, 6), (6, 7), (6, 8)], false, Direction::Up);
    let mut game = game_with(vec![bot, wall], Vec::new());
    // Left reverses, Right runs into a longer head: Down is taken.
    game.steer_bot(
        0,
        &[Direction::Left, Direction::Right, Direction::Down, Direction::Up, Direction::Right],
    );
    assert!(matches!(game.snakes[0].next_dir, Direction::Down));
}

#[test]
fn steer_bot_leaves_player_alone() {
    let player = snake(0, &[(5, 5), (4, 5)], true, Direction::Right);
    let mut game = game_with(vec![player], Vec::new());
    game.steer_bot(0, &[Direction::Up; 5]);
    assert!(matches!(game.snakes[0].next_dir, Direction::Right));
}

#[test]
fn ranking_orders_by_length_life_player_id() {
    let mut a = snake(3, &[(1, 1), (2, 1)], false, Direction::Left);
    a.alive = false;
    let b = snake(2, &[(1, 3), (2, 3)], false, Direction::Left);
    let c = snake(0, &[(1, 5), (2, 5)], true, Direction::Left);
    let d = snake(1, &[(1, 7), (2, 7), (3, 7)], false, Direction::Left);
    let e = snake(4, &[(1, 9), (2, 9)], false, Direction::Left);
    let game = game_with(vec![a, b, c, d, e], Vec::new());
    assert_eq!(game.ranked_indices(), vec![3, 2, 1, 4, 0]);
}

#[test]
fn board_draws_fruit_then_snakes() {
    let s = snake(1, &[(2, 1), (1, 1), (1, 2)], false, Direction::Right);
    let game = game_with(vec![s], vec![Point { x: 1, y: 2 }, Point { x: 5, y: 5 }]);
    let cells = game.board_cells();
    assert_eq!(cells.len(), 48 * 20);
    assert_eq!(cells[1 * 48 + 2], BoardCell::Head(Color::Green));
    assert_eq!(cells[1 * 48 + 1], BoardCell::Body(Color::Green));
    assert_eq!(cells[2 * 48 + 1], BoardCell::Body(Color::Green));
    assert_eq!(cells[5 * 48 + 5], BoardCell::Fruit);
    assert_eq!(cells[0], BoardCell::Empty);
}

#[test]
fn full_tick_moves_eats_and_refills() {
    let player = snake(0, &[(5, 5), (4, 5), (3, 5)], true, Direction::Right);
    let bot = snake(1, &[(20, 5), (21, 5), (22, 5)], false, Direction::Left);
    let mut game = game_with(vec![player, bot], vec![Point { x: 6, y: 5 }]);
    game.advance();
    assert_eq!(game.snakes[0].head(), Some(Point { x: 6, y: 5 }));
    assert_eq!(game.snakes[0].pending_growth, 1);
    assert_eq!(game.snakes[1].head(), Some(Point { x: 19, y: 5 }));
    assert_eq!(game.fruits.len(), 8);
    assert_eq!(game.high_score, 3);
    assert!(game.snakes.iter().all(|s| s.alive));
}

#[test]
fn tick_kills_snake_leaving_board() {
    let player = snake(0, &[(47, 5), (46, 5), (45, 5)], true, Direction::Right);
    let bot = snake(1, &[(20, 5), (21, 5), (22, 5)], false, Direction::Left);
    let mut game = game_with(vec![player, bot], Vec::new());
    game.advance();
    assert!(!game.snakes[0].alive);
    assert!(game.snakes[0].eliminated_at.is_some());
    assert!(game.get_is_finished());
}

#[test]
fn attack_contacts_list_heads_and_bites() {
    let bot = snake(1, &[(5, 5), (4, 5), (3, 5)], false, Direction::Right);
    let big = snake(2, &[(6, 5), (6, 6), (6, 7), (6, 8)], false, Direction::Up);
    let small = snake(3, &[(6, 4), (7, 4)], false, Direction::Left);
    // A third snake lies across the cell of big's third segment.
    let crossing = snake(4, &[(8, 7), (7, 7), (6, 7), (5, 7), (4, 7)], false, Direction::Right);
    let mut dead = snake(5, &[(6, 7), (6, 6)], false, Direction::Up);
    dead.alive = false;
    let game = game_with(vec![bot, big, small, crossing, dead], Vec::new());

    // Head of a longer snake: a lost meeting.
    assert_eq!(game.attack_contacts(0, Point { x: 6, y: 5 }), vec![Contact::HeadLoss]);
    // Head of a shorter snake: a won meeting.
    assert_eq!(game.attack_contacts(0, Point { x: 6, y: 4 }), vec![Contact::HeadWin]);
    // Two bodies on one cell, in snake order; the dead snake does not count.
    assert_eq!(
        game.attack_contacts(0, Point { x: 6, y: 7 }),
        vec![Contact::Bite(2), Contact::Bite(3)]
    );
    // The bot's own body is no contact, and neither is an empty cell.
    assert!(game.attack_contacts(0, Point { x: 4, y: 5 }).is_empty());
    assert!(game.attack_contacts(0, Point { x: 20, y: 10 }).is_empty());
}

#[test]
fn hunt_rivals_compare_lengths_and_measure_distance() {
    let bot = snake(1, &[(5, 5), (4, 5), (3, 5), (2, 5)], false, Direction::Right);
    let prey = snake(2, &[(9, 5), (9, 6)], false, Direction::Up);
    let peer = snake(3, &[(5, 9), (5, 10), (5, 11)], false, Direction::Up);
    let predator = snake(4, &[(1, 1), (1, 2), (1, 3), (1, 4), (1, 5)], true, Direction::Up);
    let mut dead = snake(5, &[(6, 6)], false, Direction::Up);
    dead.alive = false;
    let game = game_with(vec![bot, prey, peer, predator, dead], Vec::new());

    let rivals = game.hunt_rivals(0, Point { x: 6, y: 5 });
    assert_eq!(
        rivals,
        vec![(Rivalry::Prey, 3), (Rivalry::Peer, 5), (Rivalry::Predator, 9)]
    );
}
