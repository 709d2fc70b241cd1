use crate::game::{alive_count, first_player, intensity_tier, compute_intensity_tier, Game, IntensityTier};
use crate::session::GameData;
use crate::types::SnakeModel;
use vstd::prelude::*;

verus! {

/// What the sound of a round remembers from one frame to the next.
#[derive(Clone, Copy, PartialEq, Eq, Structural, Debug)]
pub struct GameplayAudioTracker {
    /// The player's snake was alive at the last frame.
    pub player_alive_last_tick: bool,
    /// The ambience loop that plays, if any.
    pub last_intensity_tier: Option<IntensityTier>,
}

impl Default for GameplayAudioTracker {
    /// Nothing heard yet.
    fn default() -> (r: Self)
        ensures
            !r.player_alive_last_tick,
            r.last_intensity_tier is None,
    {
        GameplayAudioTracker { player_alive_last_tick: false, last_intensity_tier: None }
    }
}

/// A sound to start or stop.
#[derive(Clone, Copy, PartialEq, Eq, Structural, Debug)]
pub enum AudioCue {
    /// Stop the ambience loop.
    StopAmbience,
    /// Start the ambience loop of a tier.
    Ambience(IntensityTier),
    /// The impact of the player's elimination.
    Hit,
}

/// The sounds of one frame: with no round, the ambience stops; in a round given as
/// (the player's snake lives, the tier), the ambience is replaced when the tier
/// changed, and the hit sounds when the player's snake has just died.
pub open spec fn audio_cues(t: GameplayAudioTracker, round: Option<(bool, IntensityTier)>) -> Seq<
    AudioCue,
> {
    match round {
        None => seq![AudioCue::StopAmbience],
        Some((alive, tier)) => {
            let ambience = if t.last_intensity_tier != Some(tier) {
                seq![AudioCue::StopAmbience, AudioCue::Ambience(tier)]
            } else {
                Seq::empty()
            };
            let hit = if t.player_alive_last_tick && !alive {
                seq![AudioCue::Hit]
            } else {
                Seq::empty()
            };
            ambience + hit
        },
    }
}

/// What the tracker remembers after the frame: nothing without a round, otherwise
/// whether the player's snake lives and the tier that plays.
pub open spec fn audio_next(t: GameplayAudioTracker, round: Option<(bool, IntensityTier)>) -> GameplayAudioTracker {
    match round {
        None => GameplayAudioTracker { player_alive_last_tick: false, last_intensity_tier: None },
        Some((alive, tier)) => GameplayAudioTracker {
            player_alive_last_tick: alive,
            last_intensity_tier: Some(tier),
        },
    }
}

/// One frame of sound (see `audio_cues` and `audio_next`).
pub fn audio_step(tracker: &mut GameplayAudioTracker, round: Option<(bool, IntensityTier)>) -> (cues:
    Vec<AudioCue>)
    ensures
        cues@ == audio_cues(*old(tracker), round),
        *final(tracker) == audio_next(*old(tracker), round),
{
    let mut cues: Vec<AudioCue> = Vec::new();
    match round {
        None => {
            cues.push(AudioCue::StopAmbience);
            *tracker = GameplayAudioTracker::default();
        },
        Some((alive, tier)) => {
            let changed = match tracker.last_intensity_tier {
                Some(last) => last != tier,
                None => true,
            };
            if changed {
                cues.push(AudioCue::StopAmbience);
                cues.push(AudioCue::Ambience(tier));
            }
            if tracker.player_alive_last_tick && !alive {
                cues.push(AudioCue::Hit);
            }
            tracker.player_alive_last_tick = alive;
            tracker.last_intensity_tier = Some(tier);
            assert(cues@ =~= audio_cues(*old(tracker), round));
        },
    }
    cues
}

/// The player's snake (the first one the player steers) exists and lives.
pub open spec fn player_alive(m: Seq<SnakeModel>) -> bool {
    match first_player(m, m.len() as int) {
        Some(i) => m[i].alive,
        None => false,
    }
}

/// A round as its sound sees it with `left` seconds to go: whether the player's
/// snake lives, and the tier (the round has no combos and no near misses).
pub open spec fn round_sound(g: Game, left: int) -> Option<(bool, IntensityTier)> {
    Some(
        (
            player_alive(g.snake_models()),
            intensity_tier(0, 0, left, alive_count(g.snake_models(), g.snakes@.len() as int) as int),
        ),
    )
}

/// The sound of one frame of the program: the round's tier is worked out from the
/// seconds left (read from the clock) and the snakes alive; the round has no combos
/// and no near misses. Without a round the ambience stops and the tracker forgets.
pub fn gameplay_audio_feedback(tracker: &mut GameplayAudioTracker, game_data: &GameData) -> (cues:
    Vec<AudioCue>)
    ensures
        match game_data.game {
            None => cues@ == audio_cues(*old(tracker), None) && *final(tracker) == audio_next(
                *old(tracker),
                None,
            ),
            Some(g) => exists|left: u64|
                left <= g.settings.game_time_seconds && cues@ == audio_cues(
                    *old(tracker),
                    #[trigger] round_sound(g, left as int),
                ) && *final(tracker) == audio_next(*old(tracker), round_sound(g, left as int)),
        },
{
    match &game_data.game {
        Some(game) => {
            let alive = match game.player() {
                Some(p) => p.alive,
                None => false,
            };
            let left = game.remaining_seconds();
            let tier = compute_intensity_tier(0, 0, left, game.alive_snake_count());
            let cues = audio_step(tracker, Some((alive, tier)));
            assert(game_data.game == Some(*game));
            assert(Some((alive, tier)) == round_sound(*game, left as int));
            cues
        },
        None => audio_step(tracker, None),
    }
}

} // verus!
