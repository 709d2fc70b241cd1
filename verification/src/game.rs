use crate::outside::{clock_now, rng_from_os, rng_from_seed, time_since, whole_seconds};
use crate::types::{abs_int, bot_color, bot_palette, delta_x, delta_y, fits_i32, in_bounds, make_snake, manhattan, on_board, reverse_of, settings_for, taxicab, Color, Difficulty, Direction, GameSettings, Point, Snake, SnakeModel, HEIGHT, MAX_BOTS, WIDTH};
use rand::rngs::StdRng;
use std::time::Instant;
use vstd::prelude::*;

verus! {

/// The state of a round.
pub struct Game {
    pub settings: GameSettings,
    pub snakes: Vec<Snake>,
    pub fruits: Vec<Point>,
    pub rng: StdRng,
    pub start: Instant,
    pub high_score: usize,
    pub quit_requested: bool,
}

/// The snakes of a sequence, each taken by its model.
pub open spec fn models(s: Seq<Snake>) -> Seq<SnakeModel> {
    Seq::new(s.len(), |i: int| s[i]@)
}

/// Number of living snakes among the first `n`.
pub open spec fn alive_count(m: Seq<SnakeModel>, n: int) -> nat
    decreases n,
{
    if n <= 0 {
        0
    } else {
        alive_count(m, n - 1) + if m[n - 1].alive {
            1nat
        } else {
            0nat
        }
    }
}

/// Index of the first player snake among the first `n`, if any.
pub open spec fn first_player(m: Seq<SnakeModel>, n: int) -> Option<int>
    decreases n,
{
    if n <= 0 {
        None
    } else {
        match first_player(m, n - 1) {
            Some(i) => Some(i),
            None => if m[n - 1].is_player {
                Some(n - 1)
            } else {
                None
            },
        }
    }
}

/// The length of the player's snake (the first one the player steers), if any.
pub open spec fn player_len(m: Seq<SnakeModel>) -> Option<nat> {
    match first_player(m, m.len() as int) {
        Some(i) => Some(m[i].body.len()),
        None => None,
    }
}

/// The best score after looking at the snakes: the length of the player's snake if
/// that beats `best`, otherwise `best`.
pub open spec fn best_after(best: int, m: Seq<SnakeModel>) -> int {
    match player_len(m) {
        Some(l) => if l > best {
            l as int
        } else {
            best
        },
        None => best,
    }
}

/// When the first snake is the player's, it is the first player snake.
pub proof fn lemma_first_player_at_zero(m: Seq<SnakeModel>, n: int)
    requires
        1 <= n <= m.len(),
        m[0].is_player,
    ensures
        first_player(m, n) == Some(0int),
    decreases n,
{
    if n > 1 {
        lemma_first_player_at_zero(m, n - 1);
    } else {
        assert(first_player(m, 0) is None);
    }
}

/// Snakes only die, never come back; a snake that died got a time stamp,
/// every other stamp is kept.
pub open spec fn stamps_follow(old: Seq<Snake>, new: Seq<Snake>) -> bool {
    &&& old.len() == new.len()
    &&& forall|k: int|
        0 <= k < old.len() ==> {
            &&& (#[trigger] new[k]).alive ==> old[k].alive
            &&& if old[k].alive && !new[k].alive {
                new[k].eliminated_at is Some
            } else {
                new[k].eliminated_at == old[k].eliminated_at
            }
        }
}

pub proof fn lemma_stamps_refl(s: Seq<Snake>)
    ensures
        stamps_follow(s, s),
{
}

pub proof fn lemma_stamps_trans(a: Seq<Snake>, b: Seq<Snake>, c: Seq<Snake>)
    requires
        stamps_follow(a, b),
        stamps_follow(b, c),
    ensures
        stamps_follow(a, c),
{
    assert forall|k: int| 0 <= k < a.len() implies {
        &&& (#[trigger] c[k]).alive ==> a[k].alive
        &&& if a[k].alive && !c[k].alive {
            c[k].eliminated_at is Some
        } else {
            c[k].eliminated_at == a[k].eliminated_at
        }
    } by {
        assert(c[k] == c[k]);
        assert(b[k] == b[k]);
    }
}

/// The model of a sequence after one element changed.
pub proof fn lemma_models_update(s: Seq<Snake>, i: int, v: Snake)
    requires
        0 <= i < s.len(),
    ensures
        models(s.update(i, v)) == models(s).update(i, v@),
{
    assert(models(s.update(i, v)) =~= models(s).update(i, v@));
}

/// The model of a sequence after a push.
pub proof fn lemma_models_push(s: Seq<Snake>, v: Snake)
    ensures
        models(s.push(v)) == models(s).push(v@),
{
    assert(models(s.push(v)) =~= models(s).push(v@));
}

impl Game {
    /// The snakes of the round, each taken by its model.
    pub open spec fn snake_models(&self) -> Seq<SnakeModel> {
        models(self.snakes@)
    }

    /// Everything but the snakes is the same in both states.
    pub open spec fn same_but_snakes(&self, other: &Game) -> bool {
        &&& self.settings == other.settings
        &&& self.fruits@ == other.fruits@
        &&& self.rng == other.rng
        &&& self.start == other.start
        &&& self.high_score == other.high_score
        &&& self.quit_requested == other.quit_requested
    }

    /// The round ends on a quit, when time is up, or when at most one snake lives.
    pub open spec fn ends_after(&self, elapsed: u64) -> bool {
        self.quit_requested || elapsed >= self.settings.game_time_seconds || alive_count(
            self.snake_models(),
            self.snakes@.len() as int,
        ) <= 1
    }

    /// A round that has just begun with the given settings: the player and the bots
    /// stand at their starting places, the fruit lies on free cells (short of the
    /// target only when a search for a free cell gave up), nobody has quit.
    pub open spec fn fresh(&self, settings: GameSettings) -> bool {
        &&& self.settings == settings
        &&& self.quit_requested == false
        &&& crate::world::spawned_snakes(self.snake_models(), settings.bot_count as int)
        &&& self.high_score == 3
        &&& self.fruits@.len() <= settings.fruit_count
        &&& crate::world::fruits_placed(self.fruits@, self.snake_models())
        &&& self.fruits@.len() < settings.fruit_count ==> crate::world::search_outcome(
            self.fruits@,
            self.snake_models(),
            None,
        )
    }

    /// The generator of a new round: seeded by the operating system, or, when its
    /// entropy source fails, seeded with zero so that the round still starts.
    fn fresh_rng() -> (r: StdRng) {
        match rng_from_os() {
            Ok(rng) => rng,
            Err(_) => rng_from_seed(0),
        }
    }

    /// A new round with the given settings: the player and the bots are placed,
    /// the board is filled with fruit, the clock starts.
    pub fn new(settings: GameSettings) -> (r: Game)
        ensures
            r.fresh(settings),
    {
        let mut game = Game {
            settings,
            snakes: Vec::new(),
            fruits: Vec::new(),
            rng: Game::fresh_rng(),
            start: clock_now(),
            high_score: 0,
            quit_requested: false,
        };
        game.spawn_snakes();
        proof {
            assert(models(Seq::<Snake>::empty()) + crate::world::start_line_up(
                settings.bot_count as int,
            ) =~= crate::world::start_line_up(settings.bot_count as int));
            crate::laws::law_line_up(settings.bot_count as int);
            lemma_first_player_at_zero(game.snake_models(), game.snakes@.len() as int);
        }
        game.refill_fruits();
        proof {
            assert(game.fruits@.take(0) =~= Seq::<Point>::empty());
        }
        game
    }

    /// Whether the round ends, given the seconds that have passed.
    pub fn ends_after_seconds(&self, elapsed: u64) -> (r: bool)
        ensures
            r == self.ends_after(elapsed),
    {
        self.quit_requested || elapsed >= self.settings.game_time_seconds
            || self.alive_snake_count() <= 1
    }

    /// Whether the round ends now, by the machine's clock.
    pub fn is_finished(&self) -> (r: bool)
        ensures
            exists|e: u64| r == self.ends_after(e),
            self.quit_requested ==> r,
            alive_count(self.snake_models(), self.snakes@.len() as int) <= 1 ==> r,
    {
        let e = self.elapsed_seconds();
        self.ends_after_seconds(e)
    }

    /// Whether the round ends now, by the machine's clock.
    pub fn get_is_finished(&self) -> (r: bool)
        ensures
            exists|e: u64| r == self.ends_after(e),
            self.quit_requested ==> r,
            alive_count(self.snake_models(), self.snakes@.len() as int) <= 1 ==> r,
    {
        self.is_finished()
    }

    /// Whole seconds since the round started, by the machine's clock. The number rests
    /// on the clock alone, so no clause states it.
    pub fn elapsed_seconds(&self) -> (r: u64) {
        let d = time_since(&self.start);
        whole_seconds(&d)
    }

    /// Seconds left of the round after `elapsed` seconds (never below zero).
    pub fn remaining_seconds_after(&self, elapsed: u64) -> (r: u64)
        ensures
            r == if elapsed <= self.settings.game_time_seconds {
                (self.settings.game_time_seconds - elapsed) as u64
            } else {
                0
            },
    {
        self.settings.game_time_seconds.saturating_sub(elapsed)
    }

    /// Seconds left of the round now, by the machine's clock: the round's length less
    /// the seconds read (`remaining_seconds_after` of that reading). The reading may be
    /// any number, so all that is stated is that the result does not exceed the length.
    pub fn remaining_seconds(&self) -> (r: u64)
        ensures
            r <= self.settings.game_time_seconds,
    {
        let e = self.elapsed_seconds();
        self.remaining_seconds_after(e)
    }

    /// Milliseconds of the next tick: the base tick shortens by one millisecond for
    /// every two cells the player has grown beyond three, but not below `min_tick_ms`
    /// (the caller's floor, a fraction of the base tick).
    pub fn current_tick_ms(&self, min_tick_ms: u64) -> (r: u64)
        ensures
            ({
                let player_len: int = match first_player(
                    self.snake_models(),
                    self.snakes@.len() as int,
                ) {
                    Some(i) => self.snakes@[i].body@.len() as int,
                    None => 3,
                };
                let growth: int = if player_len > 3 {
                    player_len - 3
                } else {
                    0
                };
                let base = self.settings.tick_ms as int;
                let reduced = if growth / 2 <= base {
                    base - growth / 2
                } else {
                    0
                };
                r == if reduced >= min_tick_ms {
                    reduced
                } else {
                    min_tick_ms as int
                }
            }),
    {
        let base = self.settings.tick_ms;
        let player_len: usize = match self.player() {
            Some(p) => p.len(),
            None => 3,
        };
        let growth = player_len.saturating_sub(3) as u64;
        let reduction = growth / 2;
        let tick_ms = base.saturating_sub(reduction);
        if tick_ms >= min_tick_ms {
            tick_ms
        } else {
            min_tick_ms
        }
    }

    /// Index of the player snake, if there is one.
    pub fn player_index(&self) -> (r: Option<usize>)
        ensures
            r matches Some(i) ==> first_player(self.snake_models(), self.snakes@.len() as int)
                == Some(i as int) && i < self.snakes@.len(),
            r is None ==> first_player(self.snake_models(), self.snakes@.len() as int) is None,
    {
        let mut i: usize = 0;
        while i < self.snakes.len()
            invariant
                i <= self.snakes@.len(),
                first_player(self.snake_models(), i as int) is None,
            decreases self.snakes@.len() - i,
        {
            if self.snakes[i].is_player {
                assert(first_player(self.snake_models(), i + 1) == Some(i as int));
                proof {
                    self.lemma_first_player_stays(i + 1, self.snakes@.len() as int);
                }
                return Some(i);
            }
            i += 1;
        }
        None
    }

    proof fn lemma_first_player_stays(&self, n: int, m: int)
        requires
            0 <= n <= m <= self.snakes@.len(),
            first_player(self.snake_models(), n) is Some,
        ensures
            first_player(self.snake_models(), m) == first_player(self.snake_models(), n),
        decreases m - n,
    {
        if m > n {
            self.lemma_first_player_stays(n, m - 1);
        }
    }

    /// The first snake that the player steers, if any.
    pub fn player(&self) -> (r: Option<&Snake>)
        ensures
            r matches Some(s) ==> exists|i: int|
                first_player(self.snake_models(), self.snakes@.len() as int) == Some(i) && 0 <= i
                    < self.snakes@.len() && *s
                    == self.snakes@[i],
            r is None ==> first_player(self.snake_models(), self.snakes@.len() as int) is None,
    {
        match self.player_index() {
            Some(i) => Some(&self.snakes[i]),
            None => None,
        }
    }

    /// The first snake that the player steers, for changing it.
    pub fn player_mut(&mut self) -> (r: Option<&mut Snake>)
        ensures
            r is None ==> first_player(old(self).snake_models(), old(self).snakes@.len() as int)
                is None && *final(self) == *old(self),
            r matches Some(s) ==> exists|i: int|
                first_player(old(self).snake_models(), old(self).snakes@.len() as int) == Some(i)
                    && 0 <= i < old(self).snakes@.len() && *s == old(self).snakes@[i] && final(self).snakes@ == old(self).snakes@.update(i, *final(s)) && final(self).same_but_snakes(&*old(self)),
    {
        match self.player_index() {
            Some(i) => Some(&mut self.snakes[i]),
            None => None,
        }
    }

    /// Number of living snakes.
    pub fn alive_snake_count(&self) -> (r: usize)
        ensures
            r == alive_count(self.snake_models(), self.snakes@.len() as int),
    {
        let mut count: usize = 0;
        let mut i: usize = 0;
        while i < self.snakes.len()
            invariant
                i <= self.snakes@.len(),
                count == alive_count(self.snake_models(), i as int),
                count <= i,
            decreases self.snakes@.len() - i,
        {
            if self.snakes[i].alive {
                count += 1;
            }
            i += 1;
        }
        count
    }

    /// Marks a living snake dead and stamps it with the seconds since the start, read
    /// from the clock (see `eliminate_snake_at`); a dead snake is left as it is.
    pub fn eliminate_snake(&mut self, index: usize)
        requires
            index < old(self).snakes@.len(),
        ensures
            final(self).snake_models() == old(self).snake_models().update(
                index as int,
                old(self).snake_models()[index as int].with_state(
                    false,
                    old(self).snake_models()[index as int].pending_growth,
                ),
            ),
            stamps_follow(old(self).snakes@, final(self).snakes@),
            final(self).same_but_snakes(&*old(self)),
            forall|k: int|
                0 <= k < old(self).snakes@.len() && k != index ==> #[trigger] final(self).snakes@[k]
                    == old(self).snakes@[k],
    {
        if !self.snakes[index].alive {
            assert(self.snake_models() =~= self.snake_models().update(
                index as int,
                self.snake_models()[index as int].with_state(
                    false,
                    self.snake_models()[index as int].pending_growth,
                ),
            ));
            return ;
        }
        let now = self.elapsed_seconds();
        self.eliminate_snake_at(index, now);
    }

    /// Marks a living snake dead and stamps it with `now` (seconds since the start);
    /// a dead snake is left as it is.
    pub fn eliminate_snake_at(&mut self, index: usize, now: u64)
        requires
            index < old(self).snakes@.len(),
        ensures
            final(self).snake_models() == old(self).snake_models().update(
                index as int,
                old(self).snake_models()[index as int].with_state(
                    false,
                    old(self).snake_models()[index as int].pending_growth,
                ),
            ),
            final(self).snakes@[index as int].eliminated_at == if old(self).snakes@[
                index as int
            ].alive {
                Some(now)
            } else {
                old(self).snakes@[index as int].eliminated_at
            },
            stamps_follow(old(self).snakes@, final(self).snakes@),
            final(self).same_but_snakes(&*old(self)),
            forall|k: int|
                0 <= k < old(self).snakes@.len() && k != index ==> #[trigger] final(self).snakes@[k]
                    == old(self).snakes@[k],
    {
        if !self.snakes[index].alive {
            assert(self.snake_models() =~= self.snake_models().update(
                index as int,
                self.snake_models()[index as int].with_state(
                    false,
                    self.snake_models()[index as int].pending_growth,
                ),
            ));
            return ;
        }
        self.snakes[index].alive = false;
        self.snakes[index].eliminated_at = Some(now);
        assert(self.snake_models() =~= old(self).snake_models().update(
            index as int,
            old(self).snake_models()[index as int].with_state(
                false,
                old(self).snake_models()[index as int].pending_growth,
            ),
        ));
    }
}


/// How tense a moment of the round is, for the ambient sound.
#[derive(Clone, Copy, PartialEq, Eq, Structural, Debug)]
pub enum IntensityTier {
    Calm,
    Tension,
    Clutch,
}

/// The tension of the round: clutch when at most 18 seconds are left, a combo of five
/// or more runs, or at most two snakes live; tension when at most 40 seconds are left,
/// a combo of three or more runs, or two near misses happened; calm otherwise.
pub open spec fn intensity_tier(
    combo_count: int,
    near_miss_bonus: int,
    remaining_seconds: int,
    alive_snakes: int,
) -> IntensityTier {
    if remaining_seconds <= 18 || combo_count >= 5 || alive_snakes <= 2 {
        IntensityTier::Clutch
    } else if remaining_seconds <= 40 || combo_count >= 3 || near_miss_bonus >= 2 {
        IntensityTier::Tension
    } else {
        IntensityTier::Calm
    }
}

/// The tension of the round (see `intensity_tier`).
pub fn compute_intensity_tier(
    combo_count: usize,
    near_miss_bonus: usize,
    remaining_seconds: u64,
    alive_snakes: usize,
) -> (r: IntensityTier)
    ensures
        r == intensity_tier(
            combo_count as int,
            near_miss_bonus as int,
            remaining_seconds as int,
            alive_snakes as int,
        ),
{
    if remaining_seconds <= 18 || combo_count >= 5 || alive_snakes <= 2 {
        IntensityTier::Clutch
    } else if remaining_seconds <= 40 || combo_count >= 3 || near_miss_bonus >= 2 {
        IntensityTier::Tension
    } else {
        IntensityTier::Calm
    }
}

} // verus!
