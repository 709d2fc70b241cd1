use crate::game::{alive_count, first_player, Game};
use crate::types::{settings_for, with_turn, Difficulty, Direction, SnakeModel};
use vstd::prelude::*;

verus! {

/// Which screen the program is on.
#[derive(Clone, Copy, PartialEq, Eq, Structural, Debug)]
pub enum GameState {
    /// Menu and difficulty selection.
    Menu,
    /// A round is being played.
    Playing,
    /// Summary of the round that just ended.
    RoundSummary,
}

/// Display preferences that the player can toggle during a round.
#[derive(Clone, Copy, PartialEq, Eq, Structural, Debug)]
pub struct AccessibilitySettings {
    pub colorblind_mode: bool,
    pub reduced_motion: bool,
    pub reduced_audio: bool,
}

impl Default for AccessibilitySettings {
    /// Every preference off.
    fn default() -> (r: Self)
        ensures
            !r.colorblind_mode && !r.reduced_motion && !r.reduced_audio,
    {
        AccessibilitySettings { colorblind_mode: false, reduced_motion: false, reduced_audio: false }
    }
}

/// What the player has achieved over the rounds of one session.
#[derive(Clone, Copy, PartialEq, Eq, Structural, Debug)]
pub struct MetaProgress {
    /// Rounds played to their end.
    pub runs_completed: usize,
    /// Trails unlocked: one for every ten points of the best high score.
    pub unlocked_trails: usize,
    /// Best high score of the session.
    pub daily_best_score: usize,
}

impl MetaProgress {
    /// The progress after one more finished round with the given high score.
    pub open spec fn after_round(self, high_score: usize) -> MetaProgress {
        MetaProgress {
            runs_completed: (self.runs_completed + 1) as usize,
            unlocked_trails: if self.unlocked_trails >= high_score / 10 {
                self.unlocked_trails
            } else {
                (high_score / 10) as usize
            },
            daily_best_score: if self.daily_best_score >= high_score {
                self.daily_best_score
            } else {
                high_score
            },
        }
    }
}

impl Default for MetaProgress {
    /// Nothing achieved yet.
    fn default() -> (r: Self)
        ensures
            r.runs_completed == 0 && r.unlocked_trails == 0 && r.daily_best_score == 0,
    {
        MetaProgress { runs_completed: 0, unlocked_trails: 0, daily_best_score: 0 }
    }
}

/// Everything the program keeps between frames: the current round, if one is
/// running, the chosen difficulty and the player's preferences and progress.
pub struct GameData {
    /// The current round, created when play starts.
    pub game: Option<Game>,
    /// Difficulty chosen in the menu.
    pub selected_difficulty: Difficulty,
    /// True until the first round starts; the first round is played on Easy.
    pub first_run: bool,
    pub accessibility: AccessibilitySettings,
    pub meta_progress: MetaProgress,
    /// A short hint shown next to the board.
    pub contextual_tip: String,
}

impl Default for GameData {
    /// No round yet, Normal selected, first run ahead, all preferences off.
    fn default() -> (r: Self)
        ensures
            r.game is None,
            r.selected_difficulty == Difficulty::Normal,
            r.first_run,
            r.accessibility == (AccessibilitySettings {
                colorblind_mode: false,
                reduced_motion: false,
                reduced_audio: false,
            }),
            r.meta_progress == (MetaProgress {
                runs_completed: 0,
                unlocked_trails: 0,
                daily_best_score: 0,
            }),
            r.contextual_tip@ == "Collect fruit quickly to build combo."@,
    {
        GameData {
            game: None,
            selected_difficulty: Difficulty::Normal,
            first_run: true,
            accessibility: AccessibilitySettings::default(),
            meta_progress: MetaProgress::default(),
            contextual_tip: "Collect fruit quickly to build combo.".to_owned(),
        }
    }
}

/// The digit keys pressed in the menu since the last frame.
#[derive(Clone, Copy)]
pub struct MenuKeys {
    pub digit1: bool,
    pub digit2: bool,
    pub digit3: bool,
}

/// The keys pressed during a round since the last frame: arrows (or WASD) steer,
/// Q or Escape quits, M, C and V toggle reduced motion, colour-blind mode and
/// reduced audio.
#[derive(Clone, Copy)]
pub struct PlayKeys {
    pub up: bool,
    pub down: bool,
    pub left: bool,
    pub right: bool,
    pub quit: bool,
    pub toggle_motion: bool,
    pub toggle_colorblind: bool,
    pub toggle_audio: bool,
}

/// The difficulty a digit key picks, if any: 1 is Easy, 2 Normal, 3 Hard, the
/// lowest digit pressed wins.
pub open spec fn menu_choice(keys: MenuKeys) -> Option<Difficulty> {
    if keys.digit1 {
        Some(Difficulty::Easy)
    } else if keys.digit2 {
        Some(Difficulty::Normal)
    } else if keys.digit3 {
        Some(Difficulty::Hard)
    } else {
        None
    }
}

/// Picks the difficulty from the digit keys and starts playing; with no digit
/// pressed nothing changes.
pub fn menu_input(next_state: &mut GameState, game_data: &mut GameData, keys: &MenuKeys)
    ensures
        match menu_choice(*keys) {
            Some(d) => *final(next_state) == GameState::Playing && final(game_data).selected_difficulty
                == d,
            None => *final(next_state) == *old(next_state) && final(game_data).selected_difficulty
                == old(game_data).selected_difficulty,
        },
        final(game_data).game == old(game_data).game,
        final(game_data).first_run == old(game_data).first_run,
        final(game_data).accessibility == old(game_data).accessibility,
        final(game_data).meta_progress == old(game_data).meta_progress,
        final(game_data).contextual_tip@ == old(game_data).contextual_tip@,
{
    if keys.digit1 {
        game_data.selected_difficulty = Difficulty::Easy;
        *next_state = GameState::Playing;
    } else if keys.digit2 {
        game_data.selected_difficulty = Difficulty::Normal;
        *next_state = GameState::Playing;
    } else if keys.digit3 {
        game_data.selected_difficulty = Difficulty::Hard;
        *next_state = GameState::Playing;
    }
}

/// The difficulty a round is started on: a first run chosen as Normal is eased to Easy.
pub open spec fn start_difficulty(first_run: bool, selected: Difficulty) -> Difficulty {
    if first_run && selected == Difficulty::Normal {
        Difficulty::Easy
    } else {
        selected
    }
}

/// Starts a round on the selected difficulty (eased on a first run, which also
/// shows the tutorial hint); the first run is then over.
pub fn start_game(game_data: &mut GameData)
    ensures
        final(game_data).selected_difficulty == start_difficulty(
            old(game_data).first_run,
            old(game_data).selected_difficulty,
        ),
        final(game_data).game matches Some(g) && g.fresh(
            settings_for(final(game_data).selected_difficulty),
        ),
        !final(game_data).first_run,
        old(game_data).first_run ==> final(game_data).contextual_tip@
            == "Tutorial run: stay away from walls and chain fruit for combo."@,
        !old(game_data).first_run ==> final(game_data).contextual_tip@ == old(
            game_data,
        ).contextual_tip@,
        final(game_data).accessibility == old(game_data).accessibility,
        final(game_data).meta_progress == old(game_data).meta_progress,
{
    if game_data.first_run && game_data.selected_difficulty == Difficulty::Normal {
        game_data.selected_difficulty = Difficulty::Easy;
    }
    let settings = game_data.selected_difficulty.settings();
    game_data.game = Some(Game::new(settings));
    if game_data.first_run {
        game_data.contextual_tip = "Tutorial run: stay away from walls and chain fruit for combo.".to_owned();
    }
    game_data.first_run = false;
}

/// A snake after the pressed arrows, taken in the order up, down, left, right, each
/// queued as a turn unless it reverses the current direction.
pub open spec fn steered(m: SnakeModel, keys: PlayKeys) -> SnakeModel {
    let a = if keys.up {
        with_turn(m, Direction::Up)
    } else {
        m
    };
    let b = if keys.down {
        with_turn(a, Direction::Down)
    } else {
        a
    };
    let c = if keys.left {
        with_turn(b, Direction::Left)
    } else {
        b
    };
    if keys.right {
        with_turn(c, Direction::Right)
    } else {
        c
    }
}

impl Game {
    /// This state is `before` after the round keys: the player's snake (the first
    /// one the player steers) took the arrows, Q or Escape asked to quit, nothing
    /// else changed.
    pub open spec fn keys_applied(&self, before: &Game, keys: PlayKeys) -> bool {
        &&& self.same_but_quit(before)
        &&& self.quit_requested == (before.quit_requested || keys.quit)
        &&& self.snakes@.len() == before.snakes@.len()
        &&& forall|k: int|
            0 <= k < before.snakes@.len() ==> (#[trigger] self.snakes@[k]).eliminated_at
                == before.snakes@[k].eliminated_at
        &&& match first_player(before.snake_models(), before.snakes@.len() as int) {
            Some(i) => self.snake_models() == before.snake_models().update(
                i,
                steered(before.snake_models()[i], keys),
            ),
            None => self.snake_models() == before.snake_models(),
        }
    }

    /// Everything but the snakes and the quit request is the same in both states.
    pub open spec fn same_but_quit(&self, other: &Game) -> bool {
        &&& self.settings == other.settings
        &&& self.fruits@ == other.fruits@
        &&& self.rng == other.rng
        &&& self.start == other.start
        &&& self.high_score == other.high_score
    }

    /// Applies the round keys to this round (see `keys_applied`).
    pub fn apply_keys(&mut self, keys: &PlayKeys)
        ensures
            final(self).keys_applied(&*old(self), *keys),
    {
        let ghost m0 = self.snake_models();
        match self.player_index() {
            Some(i) => {
                proof {
                    crate::game::lemma_models_update(self.snakes@, i as int, self.snakes@[i as int]);
                }
                if keys.up {
                    self.snakes[i].set_direction(Direction::Up);
                }
                if keys.down {
                    self.snakes[i].set_direction(Direction::Down);
                }
                if keys.left {
                    self.snakes[i].set_direction(Direction::Left);
                }
                if keys.right {
                    self.snakes[i].set_direction(Direction::Right);
                }
                assert(self.snake_models() =~= m0.update(i as int, steered(m0[i as int], *keys)));
            },
            None => {},
        }
        if keys.quit {
            self.quit_requested = true;
        }
    }
}

/// Applies the round keys to the running round, if there is one, and toggles the
/// display preferences whose keys were pressed.
pub fn game_input(game_data: &mut GameData, keys: &PlayKeys)
    ensures
        match old(game_data).game {
            Some(g) => final(game_data).game matches Some(h) && h.keys_applied(&g, *keys),
            None => final(game_data).game is None,
        },
        final(game_data).accessibility == (AccessibilitySettings {
            reduced_motion: old(game_data).accessibility.reduced_motion != keys.toggle_motion,
            colorblind_mode: old(game_data).accessibility.colorblind_mode != keys.toggle_colorblind,
            reduced_audio: old(game_data).accessibility.reduced_audio != keys.toggle_audio,
        }),
        final(game_data).selected_difficulty == old(game_data).selected_difficulty,
        final(game_data).first_run == old(game_data).first_run,
        final(game_data).meta_progress == old(game_data).meta_progress,
        final(game_data).contextual_tip@ == old(game_data).contextual_tip@,
{
    match game_data.game.as_mut() {
        Some(game) => game.apply_keys(keys),
        None => {},
    }
    if keys.toggle_motion {
        game_data.accessibility.reduced_motion = !game_data.accessibility.reduced_motion;
    }
    if keys.toggle_colorblind {
        game_data.accessibility.colorblind_mode = !game_data.accessibility.colorblind_mode;
    }
    if keys.toggle_audio {
        game_data.accessibility.reduced_audio = !game_data.accessibility.reduced_audio;
    }
}

/// The hint shown after a round: for a quit, for a round that ran out of time, and
/// otherwise a general one.
pub open spec fn retry_tip_text(quit: bool, time_up: bool) -> Seq<char> {
    if quit {
        "Tip: press Shift for sprint bursts during escapes."@
    } else if time_up {
        "Tip: prioritize combo chains to scale score faster."@
    } else {
        "Tip: collect fruit in clusters and keep center control."@
    }
}

/// The hint for a round that ended with the given quit request and seconds left
/// (see `retry_tip_text`; the round ran out of time when no second is left).
pub fn retry_tip(quit_requested: bool, seconds_left: u64) -> (r: &'static str)
    ensures
        r@ == retry_tip_text(quit_requested, seconds_left == 0),
{
    if quit_requested {
        "Tip: press Shift for sprint bursts during escapes."
    } else if seconds_left == 0 {
        "Tip: prioritize combo chains to scale score faster."
    } else {
        "Tip: collect fruit in clusters and keep center control."
    }
}

/// One tick of the running round, once the bots have chosen their turns. A round
/// that is then over (see `Game::get_is_finished`) is counted in the progress, and
/// the menu comes back, with a hint chosen by how the round ended (whether time ran
/// out is read from the clock).
pub fn game_update(next_state: &mut GameState, game_data: &mut GameData)
    requires
        old(game_data).game matches Some(g) ==> g.fits_tick(),
        old(game_data).meta_progress.runs_completed < usize::MAX,
    ensures
        match old(game_data).game {
            None => {
                &&& final(game_data).game is None
                &&& *final(next_state) == *old(next_state)
                &&& final(game_data).meta_progress == old(game_data).meta_progress
            },
            Some(g) => final(game_data).game matches Some(h) && h.tick_of(&g) && {
                let finished = final(game_data).meta_progress != old(game_data).meta_progress;
                &&& exists|e: u64| finished == h.ends_after(e)
                &&& h.quit_requested ==> finished
                &&& alive_count(h.snake_models(), h.snakes@.len() as int) <= 1 ==> finished
                &&& finished ==> *final(next_state) == GameState::Menu
                    && final(game_data).meta_progress == old(
                    game_data,
                ).meta_progress.after_round(h.high_score)
                &&& finished ==> exists|time_up: bool|
                    final(game_data).contextual_tip@ == retry_tip_text(h.quit_requested, time_up)
                &&& !finished ==> *final(next_state) == *old(next_state)
                    && final(game_data).contextual_tip@ == old(game_data).contextual_tip@
            },
        },
        old(game_data).game is None ==> final(game_data).contextual_tip@ == old(
            game_data,
        ).contextual_tip@,
        final(game_data).selected_difficulty == old(game_data).selected_difficulty,
        final(game_data).first_run == old(game_data).first_run,
        final(game_data).accessibility == old(game_data).accessibility,
{
    let mut finished = false;
    let mut high: usize = 0;
    let mut tip = "";
    match game_data.game.as_mut() {
        Some(game) => {
            game.advance();
            finished = game.get_is_finished();
            high = game.high_score;
            if finished {
                let left = game.remaining_seconds();
                tip = retry_tip(game.quit_requested, left);
            }
        },
        None => {},
    }
    if finished {
        game_data.contextual_tip = tip.to_owned();
        game_data.meta_progress.runs_completed = game_data.meta_progress.runs_completed + 1;
        let unlocks = high / 10;
        if unlocks > game_data.meta_progress.unlocked_trails {
            game_data.meta_progress.unlocked_trails = unlocks;
        }
        if high > game_data.meta_progress.daily_best_score {
            game_data.meta_progress.daily_best_score = high;
        }
        *next_state = GameState::Menu;
    }
}

/// Ends the round: the game leaves the session and is handed back for its results.
pub fn cleanup_game(game_data: &mut GameData) -> (r: Option<Game>)
    ensures
        r == old(game_data).game,
        final(game_data).game is None,
        final(game_data).selected_difficulty == old(game_data).selected_difficulty,
        final(game_data).first_run == old(game_data).first_run,
        final(game_data).accessibility == old(game_data).accessibility,
        final(game_data).meta_progress == old(game_data).meta_progress,
        final(game_data).contextual_tip@ == old(game_data).contextual_tip@,
{
    game_data.game.take()
}

/// Why a round ended.
#[derive(Clone, Copy, PartialEq, Eq, Structural, Debug)]
pub enum EndReason {
    Quit,
    LastSnakeStanding,
    TimeUp,
}

impl Game {
    /// Why this finished round ended: a quit first, then too few snakes alive,
    /// otherwise the clock.
    pub fn end_reason(&self) -> (r: EndReason)
        ensures
            r == if self.quit_requested {
                EndReason::Quit
            } else if alive_count(self.snake_models(), self.snakes@.len() as int) <= 1 {
                EndReason::LastSnakeStanding
            } else {
                EndReason::TimeUp
            },
    {
        if self.quit_requested {
            EndReason::Quit
        } else if self.alive_snake_count() <= 1 {
            EndReason::LastSnakeStanding
        } else {
            EndReason::TimeUp
        }
    }
}

/// After a finished round the session's best score is the greater of the previous
/// best and the round's high score, so it never drops; the run count rises by one and
/// the unlocked trails never drop and cover a tenth of the high score.
pub proof fn law_progress_after_round(p: MetaProgress, high_score: usize)
    requires
        p.runs_completed < usize::MAX,
    ensures
        p.after_round(high_score).daily_best_score >= p.daily_best_score,
        p.after_round(high_score).daily_best_score >= high_score,
        p.after_round(high_score).daily_best_score == p.daily_best_score
            || p.after_round(high_score).daily_best_score == high_score,
        p.after_round(high_score).runs_completed == p.runs_completed + 1,
        p.after_round(high_score).unlocked_trails >= p.unlocked_trails,
        p.after_round(high_score).unlocked_trails >= high_score / 10,
        p.after_round(high_score).unlocked_trails == p.unlocked_trails
            || p.after_round(high_score).unlocked_trails == high_score / 10,
{
}

} // verus!
