use snake_io::types::{
    bot_color, in_bounds, make_snake, manhattan, Color, Difficulty, Direction, Point, HEIGHT,
    WIDTH,
};

#[test]
fn point_add_uses_direction_delta() {
    let p = Point { x: 10, y: 5 };
    let moved = p.add(Direction::Left);
    assert_eq!(moved.x, 9);
    assert_eq!(moved.y, 5);
}

#[test]
fn opposite_direction_is_inverse() {
    assert!(matches!(Direction::Up.opposite(), Direction::Down));
    assert!(matches!(Direction::Down.opposite(), Direction::Up));
    assert!(matches!(Direction::Left.opposite(), Direction::Right));
    assert!(matches!(Direction::Right.opposite(), Direction::Left));
}

#[test]
fn snake_rejects_immediate_reverse_turn() {
    let mut snake = make_snake(0, Point { x: 4, y: 4 }, Direction::Right, true, Color::Cyan);
    snake.set_direction(Direction::Left);
    assert!(matches!(snake.next_dir, Direction::Right));
}

#[test]
fn snake_moves_and_grows_when_pending_growth() {
    let mut snake = make_snake(0, Point { x: 4, y: 4 }, Direction::Right, true, Color::Cyan);
    let initial_len = snake.len();
    snake.pending_growth = 1;
    snake.move_forward();
    assert_eq!(snake.len(), initial_len + 1);
    assert_eq!(snake.pending_growth, 0);
}

#[test]
fn difficulty_profiles_are_ordered_by_speed_and_bots() {
    let easy = Difficulty::Easy.settings();
    let normal = Difficulty::Normal.settings();
    let hard = Difficulty::Hard.settings();

    assert!(easy.tick_ms > normal.tick_ms);
    assert!(normal.tick_ms > hard.tick_ms);
    assert!(easy.bot_count < normal.bot_count);
    assert!(normal.bot_count < hard.bot_count);
}

#[test]
fn manhattan_distance_is_correct() {
    let a = Point { x: 1, y: 2 };
    let b = Point { x: 4, y: -2 };
    assert_eq!(manhattan(a, b), 7);
}

#[test]
fn bot_color_cycles_every_six() {
    assert_eq!(bot_color(0), bot_color(6));
    assert_eq!(bot_color(1), bot_color(7));
}

#[test]
fn delta_is_unit_step() {
    assert_eq!(Direction::Up.delta(), (0, -1));
    assert_eq!(Direction::Down.delta(), (0, 1));
    assert_eq!(Direction::Left.delta(), (-1, 0));
    assert_eq!(Direction::Right.delta(), (1, 0));
}

#[test]
fn step_and_step_back_returns_home() {
    let p = Point { x: 7, y: 3 };
    for d in [Direction::Up, Direction::Down, Direction::Left, Direction::Right] {
        assert_eq!(p.add(d).add(d.opposite()), p);
        assert_eq!(d.opposite().opposite(), d);
        assert_eq!(manhattan(p, p.add(d)), 1);
    }
}

#[test]
fn manhattan_is_symmetric_and_zero_on_equal_cells() {
    let a = Point { x: -3, y: 8 };
    let b = Point { x: 5, y: 1 };
    assert_eq!(manhattan(a, b), manhattan(b, a));
    assert_eq!(manhattan(a, b), 15);
    assert_eq!(manhattan(a, a), 0);
}

#[test]
fn board_edges_are_checked() {
    assert!(in_bounds(Point { x: 0, y: 0 }));
    assert!(in_bounds(Point { x: WIDTH - 1, y: HEIGHT - 1 }));
    assert!(!in_bounds(Point { x: -1, y: 0 }));
    assert!(!in_bounds(Point { x: WIDTH, y: 0 }));
    assert!(!in_bounds(Point { x: 0, y: -1 }));
    assert!(!in_bounds(Point { x: 0, y: HEIGHT }));
}

#[test]
fn palette_order() {
    assert_eq!(bot_color(0), Color::Red);
    assert_eq!(bot_color(1), Color::Green);
    assert_eq!(bot_color(2), Color::Magenta);
    assert_eq!(bot_color(3), Color::Blue);
    assert_eq!(bot_color(4), Color::DarkYellow);
    assert_eq!(bot_color(5), Color::DarkCyan);
    assert_eq!(bot_color(12), Color::Red);
}

#[test]
fn make_snake_lays_body_behind_head() {
    let snake = make_snake(3, Point { x: 10, y: 10 }, Direction::Left, false, Color::Blue);
    let body: Vec<Point> = snake.body.iter().copied().collect();
    assert_eq!(body, vec![Point { x: 10, y: 10 }, Point { x: 11, y: 10 }, Point { x: 12, y: 10 }]);
    assert_eq!(snake.id, 3);
    assert!(snake.alive);
    assert_eq!(snake.eliminated_at, None);
    assert_eq!(snake.head(), Some(Point { x: 10, y: 10 }));
}

#[test]
fn moving_without_growth_keeps_length() {
    let mut snake = make_snake(0, Point { x: 4, y: 4 }, Direction::Right, true, Color::Cyan);
    snake.set_direction(Direction::Down);
    snake.move_forward();
    let body: Vec<Point> = snake.body.iter().copied().collect();
    assert_eq!(body, vec![Point { x: 4, y: 5 }, Point { x: 4, y: 4 }, Point { x: 3, y: 4 }]);
    assert!(matches!(snake.dir, Direction::Down));
}

#[test]
fn dead_snake_does_not_move() {
    let mut snake = make_snake(0, Point { x: 4, y: 4 }, Direction::Right, true, Color::Cyan);
    snake.alive = false;
    snake.move_forward();
    assert_eq!(snake.head(), Some(Point { x: 4, y: 4 }));
    assert_eq!(snake.len(), 3);
}

#[test]
fn settings_labels_and_values() {
    let easy = Difficulty::Easy.settings();
    assert_eq!(easy.label(), "Easy");
    assert_eq!(easy.fruit_count, 10);
    assert_eq!(easy.bot_aggression_percent, 55);
    assert_eq!(Difficulty::Normal.settings().label(), "Normal");
    let hard = Difficulty::Hard.settings();
    assert_eq!(hard.label(), "Hard");
    assert_eq!(hard.game_time_seconds, 100);
    assert_eq!(hard.bot_count, 5);
}
