use std::collections::VecDeque;

use snake_io::audio::{audio_step, gameplay_audio_feedback, AudioCue, GameplayAudioTracker};
use snake_io::game::{Game, IntensityTier};
use snake_io::session::{
    cleanup_game, game_input, game_update, menu_input, retry_tip, start_game, EndReason,
    GameData, GameState, MenuKeys, PlayKeys,
};
use snake_io::types::{Color, Difficulty, Direction, Point, Snake};

fn no_keys() -> PlayKeys {
    PlayKeys {
        up: false,
        down: false,
        left: false,
        right: false,
        quit: false,
        toggle_motion: false,
        toggle_colorblind: false,
        toggle_audio: false,
    }
}

fn data_with_game(difficulty: Difficulty) -> GameData {
    let mut data = GameData::default();
    data.game = Some(Game::new(difficulty.settings()));
    data
}

#[test]
fn menu_input_transitions_to_playing_and_sets_difficulty() {
    let mut state = GameState::Menu;
    let mut data = GameData::default();
    let keys = MenuKeys { digit1: true, digit2: false, digit3: false };

    menu_input(&mut state, &mut data, &keys);

    assert!(matches!(state, GameState::Playing));
    assert!(matches!(data.selected_difficulty, Difficulty::Easy));
}

#[test]
fn start_game_creates_game_instance() {
    let mut data = GameData::default();
    data.selected_difficulty = Difficulty::Hard;

    start_game(&mut data);

    let game = data.game.as_ref().expect("game should be initialized");
    assert!(matches!(game.settings.difficulty, Difficulty::Hard));
}

#[test]
fn game_update_transitions_back_to_menu_when_finished() {
    let mut state = GameState::Playing;
    let mut data = GameData::default();
    let mut game = Game::new(Difficulty::Easy.settings());
    game.quit_requested = true;
    data.game = Some(game);

    game_update(&mut state, &mut data);

    assert!(matches!(state, GameState::Menu));
}

#[test]
fn game_input_updates_player_direction_on_arrow_key() {
    let mut data = data_with_game(Difficulty::Easy);
    let keys = PlayKeys { up: true, ..no_keys() };

    game_input(&mut data, &keys);

    let player = data
        .game
        .as_ref()
        .and_then(|game| game.player())
        .expect("player should exist");
    assert!(matches!(player.next_dir, Direction::Up));
}

#[test]
fn game_input_rejects_immediate_reverse_turn() {
    let mut data = data_with_game(Difficulty::Easy);
    let keys = PlayKeys { left: true, ..no_keys() };

    game_input(&mut data, &keys);

    let player = data
        .game
        .as_ref()
        .and_then(|game| game.player())
        .expect("player should exist");
    assert!(matches!(player.dir, Direction::Right));
    assert!(matches!(player.next_dir, Direction::Right));
}

#[test]
fn game_input_sets_quit_requested_on_escape() {
    let mut data = data_with_game(Difficulty::Easy);
    let keys = PlayKeys { quit: true, ..no_keys() };

    game_input(&mut data, &keys);

    let game = data.game.as_ref().expect("game should exist");
    assert!(game.quit_requested);
}

#[test]
fn game_input_is_noop_when_game_missing() {
    let mut data = GameData::default();
    let keys = PlayKeys { up: true, quit: true, ..no_keys() };

    game_input(&mut data, &keys);

    assert!(data.game.is_none());
}

#[test]
fn default_session_waits_in_menu_on_normal() {
    let data = GameData::default();
    assert!(data.game.is_none());
    assert_eq!(data.selected_difficulty, Difficulty::Normal);
    assert!(data.first_run);
    assert!(!data.accessibility.colorblind_mode);
    assert!(!data.accessibility.reduced_motion);
    assert!(!data.accessibility.reduced_audio);
    assert_eq!(data.meta_progress.runs_completed, 0);
    assert_eq!(data.contextual_tip, "Collect fruit quickly to build combo.");
}

#[test]
fn menu_input_lowest_digit_wins_and_no_digit_changes_nothing() {
    let mut state = GameState::Menu;
    let mut data = GameData::default();
    menu_input(&mut state, &mut data, &MenuKeys { digit1: false, digit2: false, digit3: false });
    assert_eq!(state, GameState::Menu);
    assert_eq!(data.selected_difficulty, Difficulty::Normal);

    menu_input(&mut state, &mut data, &MenuKeys { digit1: false, digit2: true, digit3: true });
    assert_eq!(state, GameState::Playing);
    assert_eq!(data.selected_difficulty, Difficulty::Normal);

    let mut state = GameState::Menu;
    menu_input(&mut state, &mut data, &MenuKeys { digit1: false, digit2: false, digit3: true });
    assert_eq!(state, GameState::Playing);
    assert_eq!(data.selected_difficulty, Difficulty::Hard);
}

#[test]
fn first_run_on_normal_is_eased_and_shows_the_tutorial_tip() {
    let mut data = GameData::default();
    start_game(&mut data);
    assert_eq!(data.selected_difficulty, Difficulty::Easy);
    assert!(!data.first_run);
    assert_eq!(
        data.contextual_tip,
        "Tutorial run: stay away from walls and chain fruit for combo."
    );
    let game = data.game.as_ref().expect("game should be initialized");
    assert_eq!(game.settings.difficulty, Difficulty::Easy);
    assert_eq!(game.snakes.len(), 3);
    assert!(!game.quit_requested);

    // A later round keeps the choice and the tip.
    data.selected_difficulty = Difficulty::Normal;
    start_game(&mut data);
    assert_eq!(data.selected_difficulty, Difficulty::Normal);
    assert_eq!(
        data.contextual_tip,
        "Tutorial run: stay away from walls and chain fruit for combo."
    );
    assert_eq!(data.game.as_ref().map(|g| g.snakes.len()), Some(4));
}

#[test]
fn arrows_apply_in_order_and_toggles_flip() {
    let mut data = data_with_game(Difficulty::Normal);
    // Up is queued; Left would reverse the current heading (Right) and is refused.
    let keys = PlayKeys {
        up: true,
        left: true,
        toggle_motion: true,
        toggle_audio: true,
        ..no_keys()
    };
    game_input(&mut data, &keys);
    let player = data.game.as_ref().and_then(|g| g.player()).expect("player should exist");
    assert_eq!(player.next_dir, Direction::Up);
    assert_eq!(player.dir, Direction::Right);
    assert!(data.accessibility.reduced_motion);
    assert!(!data.accessibility.colorblind_mode);
    assert!(data.accessibility.reduced_audio);

    game_input(&mut data, &PlayKeys { toggle_motion: true, ..no_keys() });
    assert!(!data.accessibility.reduced_motion);
    assert!(!data.game.as_ref().map_or(true, |g| g.quit_requested));
}

#[test]
fn game_update_counts_a_finished_round() {
    let mut state = GameState::Playing;
    let mut data = data_with_game(Difficulty::Easy);
    data.meta_progress.unlocked_trails = 0;
    data.meta_progress.daily_best_score = 2;
    data.game.as_mut().expect("game").quit_requested = true;

    game_update(&mut state, &mut data);

    assert_eq!(state, GameState::Menu);
    assert_eq!(data.meta_progress.runs_completed, 1);
    let high = data.game.as_ref().expect("game").high_score;
    assert!(high >= 3);
    assert_eq!(data.meta_progress.daily_best_score, high);
    assert_eq!(data.meta_progress.unlocked_trails, high / 10);
}

#[test]
fn game_update_keeps_playing_a_running_round() {
    let mut state = GameState::Playing;
    let mut data = data_with_game(Difficulty::Normal);
    let before: Vec<Point> = data
        .game
        .as_ref()
        .expect("game")
        .snakes
        .iter()
        .map(|s| s.body[0])
        .collect();

    game_update(&mut state, &mut data);

    assert_eq!(state, GameState::Playing);
    assert_eq!(data.meta_progress.runs_completed, 0);
    let game = data.game.as_ref().expect("game");
    for (i, (s, head)) in game.snakes.iter().zip(before).enumerate() {
        // The player heads right, the bots head left: each stepped one cell.
        let dx = if i == 0 { 1 } else { -1 };
        assert!(s.alive);
        assert_eq!(s.body[0], Point { x: head.x + dx, y: head.y });
    }
}

#[test]
fn game_update_without_a_round_changes_nothing() {
    let mut state = GameState::Playing;
    let mut data = GameData::default();
    game_update(&mut state, &mut data);
    assert_eq!(state, GameState::Playing);
    assert!(data.game.is_none());
    assert_eq!(data.meta_progress.runs_completed, 0);
}

#[test]
fn cleanup_game_hands_back_the_round() {
    let mut data = data_with_game(Difficulty::Hard);
    let game = cleanup_game(&mut data).expect("the round");
    assert_eq!(game.settings.difficulty, Difficulty::Hard);
    assert!(data.game.is_none());
    assert!(cleanup_game(&mut data).is_none());
}

fn lone_snake(id: usize, is_player: bool, alive: bool, y: i32) -> Snake {
    let mut body = VecDeque::new();
    body.push_back(Point { x: 5, y });
    body.push_back(Point { x: 4, y });
    body.push_back(Point { x: 3, y });
    Snake {
        id,
        body,
        dir: Direction::Right,
        next_dir: Direction::Right,
        pending_growth: 0,
        is_player,
        alive,
        eliminated_at: None,
        color: Color::Green,
    }
}

#[test]
fn end_reason_prefers_quit_then_last_snake_then_time() {
    let mut game = Game::new(Difficulty::Normal.settings());
    game.snakes = vec![lone_snake(0, true, true, 2), lone_snake(1, false, true, 5)];
    assert_eq!(game.end_reason(), EndReason::TimeUp);
    game.snakes[1].alive = false;
    assert_eq!(game.end_reason(), EndReason::LastSnakeStanding);
    game.quit_requested = true;
    assert_eq!(game.end_reason(), EndReason::Quit);
}

#[test]
fn tick_fits_on_a_fresh_round_and_not_at_the_edge_of_i32() {
    let mut game = Game::new(Difficulty::Normal.settings());
    assert!(game.tick_fits());
    let mut edge = lone_snake(0, true, true, 2);
    edge.body[0] = Point { x: i32::MAX, y: 2 };
    game.snakes = vec![edge];
    assert!(!game.tick_fits());
    game.snakes[0].alive = false;
    assert!(game.tick_fits());
    game.snakes[0].pending_growth = usize::MAX;
    assert!(!game.tick_fits());
}

#[test]
fn ticks_keep_living_heads_on_board() {
    let mut game = Game::new(Difficulty::Hard.settings());
    for _ in 0..60 {
        assert!(game.tick_fits());
        game.advance();
        for s in &game.snakes {
            if s.alive {
                let head = s.head().expect("a living snake has a head");
                assert!(snake_io::types::in_bounds(head));
            }
        }
    }
    // Heading straight on, every snake has met a wall by now.
    assert_eq!(game.alive_snake_count(), 0);
}

#[test]
fn fruit_never_outnumber_the_board() {
    let mut settings = Difficulty::Easy.settings();
    settings.fruit_count = 5000;
    let game = Game::new(settings);
    assert!(game.fruits.len() <= 960);
    assert!(game.fruits.len() > 100);
    for (i, f) in game.fruits.iter().enumerate() {
        assert!(snake_io::types::in_bounds(*f));
        assert!(!game.fruits[..i].contains(f));
    }
    assert!(game.tick_fits());
}

#[test]
fn cleanup_game_clears_model_and_gameplay_entities() {
    let mut data = GameData::default();
    data.game = Some(Game::new(Difficulty::Normal.settings()));

    let _ = cleanup_game(&mut data);

    assert!(data.game.is_none());
}

#[test]
fn retry_tips_by_how_the_round_ended() {
    assert_eq!(retry_tip(true, 0), "Tip: press Shift for sprint bursts during escapes.");
    assert_eq!(retry_tip(true, 30), "Tip: press Shift for sprint bursts during escapes.");
    assert_eq!(retry_tip(false, 0), "Tip: prioritize combo chains to scale score faster.");
    assert_eq!(
        retry_tip(false, 12),
        "Tip: collect fruit in clusters and keep center control."
    );
}

#[test]
fn a_quit_round_ends_with_the_quit_tip() {
    let mut state = GameState::Playing;
    let mut data = data_with_game(Difficulty::Normal);
    data.game.as_mut().expect("game").quit_requested = true;
    game_update(&mut state, &mut data);
    assert_eq!(data.contextual_tip, "Tip: press Shift for sprint bursts during escapes.");

    // A round that goes on keeps the tip it had.
    let mut state = GameState::Playing;
    let mut data = data_with_game(Difficulty::Normal);
    game_update(&mut state, &mut data);
    assert_eq!(data.contextual_tip, "Collect fruit quickly to build combo.");
}

#[test]
fn audio_switches_ambience_on_tier_change_and_hits_on_death() {
    let mut t = GameplayAudioTracker::default();
    // The first frame of a round starts the ambience.
    let cues = audio_step(&mut t, Some((true, IntensityTier::Calm)));
    assert_eq!(cues, vec![AudioCue::StopAmbience, AudioCue::Ambience(IntensityTier::Calm)]);
    assert!(t.player_alive_last_tick);
    assert_eq!(t.last_intensity_tier, Some(IntensityTier::Calm));
    // Same tier, still alive: silence.
    assert!(audio_step(&mut t, Some((true, IntensityTier::Calm))).is_empty());
    // The tier rises and the player dies in the same frame.
    let cues = audio_step(&mut t, Some((false, IntensityTier::Clutch)));
    assert_eq!(
        cues,
        vec![
            AudioCue::StopAmbience,
            AudioCue::Ambience(IntensityTier::Clutch),
            AudioCue::Hit
        ]
    );
    // A dead player does not sound the hit again.
    assert!(audio_step(&mut t, Some((false, IntensityTier::Clutch))).is_empty());
    // Without a round the ambience stops and the tracker forgets.
    assert_eq!(audio_step(&mut t, None), vec![AudioCue::StopAmbience]);
    assert_eq!(t, GameplayAudioTracker::default());
}

#[test]
fn audio_of_a_fresh_round_starts_calm() {
    let mut t = GameplayAudioTracker::default();
    let data = data_with_game(Difficulty::Hard);
    // Hard: 6 snakes alive and a long clock ahead.
    let cues = gameplay_audio_feedback(&mut t, &data);
    assert_eq!(cues, vec![AudioCue::StopAmbience, AudioCue::Ambience(IntensityTier::Calm)]);
    assert!(t.player_alive_last_tick);
    let none = GameData::default();
    assert_eq!(gameplay_audio_feedback(&mut t, &none), vec![AudioCue::StopAmbience]);
    assert!(!t.player_alive_last_tick);
}
